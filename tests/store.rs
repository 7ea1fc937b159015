use wikipath::index::{index_links, index_pages, index_redirects, IndexError, PassStats};
use wikipath::loader::Loader;
use wikipath::sqlite::{path_ends, path_outcome, render_path, Db, PathError};

fn open_clean_db() -> Db {
    let path = "file::memory:";
    let mut db = Db::new(path).unwrap();
    db.initialize().unwrap();
    db
}

#[test]
fn sqlite_sample_titles_data() {
    let mut db = open_clean_db();
    db.add(0, "foo".into()).unwrap();
    db.add(1, "bar".into()).unwrap();
    db.add(65537, "baz".into()).unwrap();

    assert_eq!(db.index("baz"), Some(65537));
    assert_eq!(db.index("foo"), Some(0));
    assert_eq!(db.index("nope"), None);

    assert_eq!(db.lookup(1).as_deref(), Some("bar"));
    assert_eq!(db.lookup(2).as_deref(), None);
    assert_eq!(db.lookup(65537).as_deref(), Some("baz"));
}

#[test]
fn sqlite_sample_link_data() {
    let mut db = open_clean_db();
    db.add_link((1, 2)).unwrap();
    db.add_link((2, 3)).unwrap();
    db.add_link((3, 2)).unwrap();

    let mut links: Vec<_> = db.links_to(2);
    links.sort();

    assert_eq!(&links, &[1, 3]);
}

#[test]
fn sample_reverse_link_data() {
    let mut db = open_clean_db();
    db.add_link((1, 2)).unwrap();
    db.add_link((2, 3)).unwrap();
    db.add_link((3, 2)).unwrap();

    let links: Vec<_> = db.links_from(2);
    assert_eq!(&links, &[3]);
}

#[test]
fn links_dedup_and_sorted() {
    let mut db = open_clean_db();
    db.add_link((1, 2)).unwrap();
    db.add_link((2, 3)).unwrap();
    db.add_link((3, 2)).unwrap();
    db.add_link((3, 2)).unwrap();
    db.add_link((9, 2)).unwrap();
    db.add_link((5, 2)).unwrap();
    assert_eq!(db.links_to(2), vec![1, 3, 5, 9]);
    assert_eq!(db.links_from(2), vec![3]);
    assert_eq!(db.links_from(7), Vec::<u32>::new());
}

#[test]
fn duplicate_page_is_an_error() {
    let mut db = open_clean_db();
    db.add(1, "a".into()).unwrap();
    assert!(db.add(1, "b".into()).is_err());
    assert!(db.add(2, "a".into()).is_err());
}

#[test]
fn search_with_redirects() {
    let mut db = open_clean_db();
    db.add(1, "Apple".into()).unwrap();
    db.add(2, "Apricot".into()).unwrap();
    db.add(3, "Banana".into()).unwrap();
    db.add_redirect(2, "Apple").unwrap();
    db.add_redirect(2, "Other").unwrap();
    let mut found = db.search("ap%").unwrap();
    found.sort();
    assert_eq!(
        found,
        vec![(1, "Apple".to_string(), None), (2, "Apricot".to_string(), Some("Apple".to_string()))]
    );
}

#[test]
fn path_between_titles() {
    let mut db = open_clean_db();
    for (id, t) in [(1, "one"), (2, "two"), (3, "three"), (4, "four"), (5, "five")] {
        db.add(id, t.into()).unwrap();
    }
    for e in [(1, 2), (1, 3), (2, 3), (3, 4), (4, 5), (5, 1), (5, 2)] {
        db.add_link(e).unwrap();
    }
    assert_eq!(db.path("one", "five").unwrap(), vec!["one", "three", "four", "five"]);
    assert_eq!(db.path("two", "two").unwrap(), vec!["two"]);
    assert!(matches!(db.path("one", "six"), Err(PathError::UnknownTitle(t)) if t == "six"));
    assert!(matches!(db.path("zero", "one"), Err(PathError::UnknownTitle(t)) if t == "zero"));
    db.add(6, "six".into()).unwrap();
    assert!(matches!(db.path("one", "six"), Err(PathError::NoPathFound)));
}

#[test]
fn missing_titles_render_as_placeholder() {
    assert_eq!(
        render_path(vec![Some("a".to_string()), None, Some("c".to_string())]),
        vec!["a", "???", "c"]
    );
}

fn loader_of(text: &str) -> Loader {
    let mut l = Loader::new();
    l.feed_line(b"/*!40000 ALTER TABLE `x` DISABLE KEYS */;\n").unwrap();
    l.feed_line(text.as_bytes()).unwrap();
    l.finish();
    l
}

#[test]
fn index_passes() {
    let mut db = open_clean_db();
    let mut stats = PassStats::new();
    let mut rows = loader_of("INSERT INTO `page` VALUES (1,0,'A',1),(2,0,'B',1),(3,14,'C',1),(4,0,'D',1);\n");
    index_pages(&mut db, &mut rows, &mut stats).unwrap();
    assert_eq!((stats.count, stats.good, stats.skipped), (4, 3, 1));
    assert_eq!(db.index("B"), Some(2));
    assert_eq!(db.index("C"), None);

    let mut stats = PassStats::new();
    let mut rows = loader_of("INSERT INTO `redirect` VALUES (4,0,'A','',''),(3,2,'B','','');\n");
    index_redirects(&mut db, &mut rows, &mut stats).unwrap();
    assert_eq!((stats.count, stats.good, stats.skipped), (2, 1, 1));

    let mut stats = PassStats::new();
    let mut report = Vec::new();
    let mut rows = loader_of(
        "INSERT INTO `pagelinks` VALUES (1,0,'B',0),(2,14,'A',0),(2,0,'A',4),(2,0,'Nowhere',0),(4,0,'A',0),(1,0,'B',0);\n",
    );
    index_links(&mut db, &mut rows, &mut stats, &mut report).unwrap();
    assert_eq!((stats.count, stats.good, stats.skipped, stats.missing), (6, 3, 2, 1));
    assert_eq!(report, vec!["Nowhere".to_string()]);
    assert_eq!(db.links_from(1), vec![2]);
    assert_eq!(db.links_to(1), vec![4]);
    assert_eq!(db.links_from(2), Vec::<u32>::new());
}

#[test]
fn index_pass_errors() {
    let mut db = open_clean_db();
    let mut stats = PassStats::new();
    let mut rows = loader_of("INSERT INTO `page` VALUES (1,0);\n");
    assert!(matches!(index_pages(&mut db, &mut rows, &mut stats), Err(IndexError::Row(_))));

    let mut rows = loader_of("INSERT INTO `page` VALUES (1,0,'A'),(1,0,'B');\n");
    assert!(matches!(index_pages(&mut db, &mut rows, &mut stats), Err(IndexError::Store(_))));

    let mut rows = loader_of("INSERT INTO `page` VALUES (1,0,'A'\n");
    assert!(matches!(index_pages(&mut db, &mut rows, &mut stats), Err(IndexError::Rows(_))));
}

#[test]
fn path_ends_and_outcome() {
    assert!(matches!(path_ends("a", "b", None, Some(2)), Err(PathError::UnknownTitle(t)) if t == "a"));
    assert!(matches!(path_ends("a", "b", Some(1), None), Err(PathError::UnknownTitle(t)) if t == "b"));
    assert!(matches!(path_ends("a", "b", Some(1), Some(2)), Ok((1, 2))));
    assert!(matches!(path_outcome(None, vec![]), Err(PathError::NoPathFound)));
    assert_eq!(
        path_outcome(Some(vec![1, 2]), vec![Some("a".to_string()), None]).unwrap(),
        vec!["a", "???"]
    );
}

#[test]
fn namespace_rejected_link_is_not_stored() {
    let mut db = open_clean_db();
    db.add(1, "A".into()).unwrap();
    db.add(2, "B".into()).unwrap();
    let mut stats = PassStats::new();
    let mut report = Vec::new();
    let mut rows = loader_of("INSERT INTO `pagelinks` VALUES (1,14,'B',0);\n");
    index_links(&mut db, &mut rows, &mut stats, &mut report).unwrap();
    assert_eq!((stats.count, stats.good, stats.skipped, stats.missing), (1, 0, 1, 0));
    assert_eq!(db.links_from(1), Vec::<u32>::new());
}
