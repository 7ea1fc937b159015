use wikipath::cli::{db_path, Table};
use wikipath::index::{bump, link_action, LinkAction};
use wikipath::rows::{link_row, page_row, RowError};
use wikipath::source::{files, is_fresh, parse_u64, resume_offset, should_resume, urls, RangeError};
use wikipath::sql::Value;
use wikipath::sql::Value::Integer;

fn s(x: &str) -> Value {
    Value::String(x.to_string())
}

#[test]
fn page_rows() {
    assert_eq!(page_row(vec![Integer(10), Integer(0), s("Foo"), Integer(3)]).unwrap(), Some((10, "Foo".to_string())));
    assert_eq!(page_row(vec![Integer(10), Integer(2), Value::Null]).unwrap(), None);
    assert_eq!(page_row(vec![Integer(4294967297), Integer(0), s("Wrap")]).unwrap(), Some((1, "Wrap".to_string())));
    assert!(matches!(page_row(vec![Integer(10)]), Err(RowError::Short)));
    assert!(matches!(page_row(vec![s("10"), Integer(0), s("Foo")]), Err(RowError::Type(_))));
    assert!(matches!(page_row(vec![Integer(10), Integer(0), Integer(5)]), Err(RowError::Type(_))));
}

#[test]
fn link_rows_filter_namespaces() {
    assert_eq!(link_row(vec![Integer(7), Integer(0), s("Foo"), Integer(0)]).unwrap(), Some((7, "Foo".to_string())));
    assert_eq!(link_row(vec![Integer(7), Integer(14), s("Category:Foo"), Integer(0)]).unwrap(), None);
    assert_eq!(link_row(vec![Integer(7), Integer(0), s("Foo"), Integer(1)]).unwrap(), None);
    assert!(matches!(link_row(vec![Integer(7), Integer(0), s("Foo")]), Err(RowError::Short)));
}

#[test]
fn link_actions() {
    assert!(matches!(link_action(3, Some(9), 0), LinkAction::Store(3, 9)));
    assert!(matches!(link_action(3, None, 999), LinkAction::Missing { report: true }));
    assert!(matches!(link_action(3, None, 1000), LinkAction::Missing { report: false }));
}

#[test]
fn counters_saturate() {
    assert_eq!(bump(4), 5);
    assert_eq!(bump(u64::MAX), u64::MAX);
}

#[test]
fn dump_names() {
    assert_eq!(
        files("frwiki"),
        vec!["frwiki-latest-page.sql.gz", "frwiki-latest-redirect.sql.gz", "frwiki-latest-pagelinks.sql.gz"]
    );
    assert_eq!(
        urls("enwiki")[2],
        "https://dumps.wikimedia.org/enwiki/latest/enwiki-latest-pagelinks.sql.gz"
    );
    assert_eq!(files("enwiki")[Table::Redirect.position()], "enwiki-latest-redirect.sql.gz");
    assert_eq!(Table::Page.position(), 0);
    assert_eq!(Table::Link.position(), 2);
}

#[test]
fn default_db_path() {
    assert_eq!(db_path("enwiki", &None), "./enwiki-db.sq3");
    assert_eq!(db_path("enwiki", &Some("/tmp/x".to_string())), "/tmp/x");
}

#[test]
fn decimal_numbers() {
    let p = |x: &str| parse_u64(&x.chars().collect::<Vec<char>>());
    assert_eq!(p("0"), Some(0));
    assert_eq!(p("+42"), Some(42));
    assert_eq!(p("18446744073709551615"), Some(u64::MAX));
    assert_eq!(p("18446744073709551616"), None);
    assert_eq!(p(""), None);
    assert_eq!(p("+"), None);
    assert_eq!(p("12a"), None);
    assert_eq!(p("-1"), None);
}

#[test]
fn content_range_headers() {
    let r = should_resume(Some("bytes 100-199/1000")).unwrap().unwrap();
    assert_eq!(r.unit, "bytes");
    assert_eq!(r.total, Some(1000));
    assert_eq!(r.range, Some((100, 199)));
    let r = should_resume(Some("bytes */1000")).unwrap().unwrap();
    assert_eq!((r.total, r.range), (Some(1000), None));
    let r = should_resume(Some("bytes 0-9/*")).unwrap().unwrap();
    assert_eq!((r.total, r.range), (None, Some((0, 9))));
    assert!(should_resume(None).unwrap().is_none());
    assert!(matches!(should_resume(Some("bytes")), Err(RangeError::NoSpace)));
    assert!(matches!(should_resume(Some("bytes 0-9")), Err(RangeError::NoSlash)));
    assert!(matches!(should_resume(Some("bytes 09/10")), Err(RangeError::NoDash)));
    assert!(matches!(should_resume(Some("bytes 0-9/x")), Err(RangeError::BadNumber)));
    assert_eq!(resume_offset(Some("bytes 100-199/1000")), Ok(100));
    assert_eq!(resume_offset(Some("bytes */1000")), Ok(0));
    assert_eq!(resume_offset(None), Ok(0));
}

#[test]
fn freshness() {
    assert!(is_fresh(1234, Some("1234")));
    assert!(!is_fresh(1234, Some("1235")));
    assert!(!is_fresh(1234, Some("abc")));
    assert!(!is_fresh(1234, None));
}
