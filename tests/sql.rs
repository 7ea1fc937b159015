use wikipath::loader::{is_header_end, Loader, LoaderError};
use wikipath::sql::{numt, strt, sym, tokenize, tokenize_text, Token, Tokenizer, TokenizerError, Value};

#[test]
fn sql_sample_tokenization() {
    let sample_statement = b"  INSERT   INTO `my table` VALUES (1,'l o l', 0), (2, 'o''escape', 'es\\\"ca\\\' ped'   )     ";

    let tokens = tokenize(&sample_statement[..]);
    let tokens = tokens.unwrap();

    assert_eq!(
        &tokens,
        &[
            sym("INSERT"),
            sym("INTO"),
            sym("my table"),
            sym("VALUES"),
            sym("("),
            numt(1),
            sym(","),
            strt("l o l"),
            sym(","),
            numt(0),
            sym(")"),
            sym(","),
            sym("("),
            numt(2),
            sym(","),
            strt("o'escape"),
            sym(","),
            strt("es\"ca' ped"),
            sym(")"),
        ]
    )
}

#[test]
fn spec_lexer_scenario() {
    let input = b"  INSERT   INTO `my table` VALUES (1,'l o l', 0), (2, 'o''escape', 'yourmom'   )";
    let tokens = tokenize(&input[..]).unwrap();
    assert_eq!(
        tokens,
        vec![
            sym("INSERT"),
            sym("INTO"),
            sym("my table"),
            sym("VALUES"),
            sym("("),
            numt(1),
            sym(","),
            strt("l o l"),
            sym(","),
            numt(0),
            sym(")"),
            sym(","),
            sym("("),
            numt(2),
            sym(","),
            strt("o'escape"),
            sym(","),
            strt("yourmom"),
            sym(")"),
        ]
    );
}

#[test]
fn escapes() {
    assert_eq!(tokenize(b"'o''escape'").unwrap(), vec![strt("o'escape")]);
    assert_eq!(tokenize(b"'es\\\"ca\\' ped'").unwrap(), vec![strt("es\"ca' ped")]);
    assert_eq!(tokenize(b"'a\\\\b'").unwrap(), vec![strt("a\\b")]);
    assert_eq!(tokenize(b"''").unwrap(), vec![strt("")]);
}

#[test]
fn numbers_and_null() {
    assert_eq!(
        tokenize(b"-12 0.5 7. NULL NULLS -x").unwrap(),
        vec![
            numt(-12),
            Token::Value(Value::Float("0.5".to_string())),
            Token::Value(Value::Float("7.".to_string())),
            Token::Value(Value::Null),
            sym("NULLS"),
            sym("-"),
            sym("x"),
        ]
    );
    assert_eq!(tokenize(b"9223372036854775807").unwrap(), vec![numt(i64::MAX)]);
    assert_eq!(tokenize(b"-9223372036854775808").unwrap(), vec![numt(i64::MIN)]);
}

#[test]
fn tokenizer_errors() {
    assert_eq!(tokenize(b"9223372036854775808"), Err(TokenizerError::ParseInt));
    assert_eq!(tokenize(b"'abc"), Err(TokenizerError::Eof { expected: '\'' }));
    assert_eq!(tokenize(b"`abc"), Err(TokenizerError::Eof { expected: '`' }));
    assert_eq!(tokenize(b"'ab\\"), Err(TokenizerError::IncompleteString));
    assert_eq!(tokenize(b"'a\\nb'"), Err(TokenizerError::InvalidEscape('n')));
    assert_eq!(tokenize(&[0x61, 0xff, 0x62]), Err(TokenizerError::InvalidUtf8));
}

#[test]
fn non_ascii_text() {
    assert_eq!(tokenize("'Zürich' é".as_bytes()).unwrap(), vec![strt("Zürich"), sym("é")]);
}

#[test]
fn tokens_across_chunks() {
    let mut t = Tokenizer::new();
    t.feed(b"INSERT 12").unwrap();
    assert_eq!(t.next_token(), Ok(Some(sym("INSERT"))));
    assert_eq!(t.next_token(), Ok(None));
    t.feed(b"34 'a").unwrap();
    assert_eq!(t.next_token(), Ok(Some(numt(1234))));
    assert_eq!(t.next_token(), Ok(None));
    t.feed(b"b' ").unwrap();
    assert_eq!(t.next_token(), Ok(Some(strt("ab"))));
    assert_eq!(t.next_token(), Ok(None));
    t.finish();
    assert!(t.is_finished());
    assert_eq!(t.next_token(), Ok(None));
}

#[test]
fn header_marker() {
    assert!(is_header_end(b"/*!40000 ALTER TABLE `page` DISABLE KEYS */;\n"));
    assert!(!is_header_end(b"LOCK TABLES `page` WRITE;\n"));
    assert!(!is_header_end(b"DISABLE KEY"));
}

fn load(lines: &[&str]) -> Loader {
    let mut l = Loader::new();
    for line in lines {
        l.feed_line(line.as_bytes()).unwrap();
    }
    l.finish();
    l
}

#[test]
fn rows_of_a_dump() {
    let mut l = load(&[
        "-- MySQL dump\n",
        "CREATE TABLE `page` (`page_id` int);\n",
        "/*!40000 ALTER TABLE `page` DISABLE KEYS */;\n",
        "INSERT INTO `page` VALUES (1,0,'A'),(2,14,'B');\n",
        "INSERT INTO `page` VALUES (3,0,NULL,1.5);\n",
        "/*!40000 ALTER TABLE `page` ENABLE KEYS */;\n",
    ]);
    let s = |x: &str| Value::String(x.to_string());
    assert_eq!(l.next_tuple().unwrap(), Some(vec![Value::Integer(1), Value::Integer(0), s("A")]));
    assert_eq!(l.next_tuple().unwrap(), Some(vec![Value::Integer(2), Value::Integer(14), s("B")]));
    assert_eq!(
        l.next_tuple().unwrap(),
        Some(vec![Value::Integer(3), Value::Integer(0), Value::Null, Value::Float("1.5".to_string())])
    );
    assert_eq!(l.next_tuple().unwrap(), None);
    assert_eq!(l.next_tuple().unwrap(), None);
}

#[test]
fn rows_syntax_errors() {
    let mut l = load(&["DISABLE KEYS\n", "INSERT INTO `t` VALUES (1 2);\n"]);
    match l.next_tuple() {
        Err(LoaderError::Syntax(t, _)) => assert_eq!(t, Token::Value(Value::Integer(2))),
        other => panic!("unexpected {:?}", other),
    }
    assert_eq!(l.next_tuple().unwrap(), None);

    let mut l = load(&["DISABLE KEYS\n", "INSERT `t` VALUES (1);\n"]);
    assert!(matches!(l.next_tuple(), Err(LoaderError::Syntax(_, _))));

    let mut l = load(&["DISABLE KEYS\n", "INSERT INTO `t` VALUES (1),(VALUES);\n"]);
    assert_eq!(l.next_tuple().unwrap(), Some(vec![Value::Integer(1)]));
    assert!(matches!(l.next_tuple(), Err(LoaderError::Syntax(_, _))));

    let mut l = load(&["DISABLE KEYS\n", "INSERT INTO `t` VALUES (1) x\n"]);
    assert!(matches!(l.next_tuple(), Err(LoaderError::Syntax(_, _))));
}

#[test]
fn rows_end_inside_statement() {
    let mut l = load(&["DISABLE KEYS\n", "INSERT INTO `t` VALUES (1),(2\n"]);
    assert_eq!(l.next_tuple().unwrap(), Some(vec![Value::Integer(1)]));
    assert!(matches!(l.next_tuple(), Err(LoaderError::EOF)));
    assert_eq!(l.next_tuple().unwrap(), None);
}

#[test]
fn rows_wait_for_more_lines() {
    let mut l = Loader::new();
    l.feed_line(b"DISABLE KEYS\n").unwrap();
    l.feed_line(b"INSERT INTO `t` VALUES (1,'a").unwrap();
    assert_eq!(l.next_tuple().unwrap(), None);
    l.feed_line(b"b'),(2,'c');\n").unwrap();
    assert_eq!(
        l.next_tuple().unwrap(),
        Some(vec![Value::Integer(1), Value::String("ab".to_string())])
    );
    assert_eq!(
        l.next_tuple().unwrap(),
        Some(vec![Value::Integer(2), Value::String("c".to_string())])
    );
    l.finish();
    assert_eq!(l.next_tuple().unwrap(), None);
}

#[test]
fn value_accessors() {
    assert_eq!(Value::String("x".to_string()).string().unwrap(), "x");
    assert!(Value::Null.string().is_err());
    assert_eq!(Value::Integer(4).integer().unwrap(), 4);
    assert!(Value::String("4".to_string()).integer().is_err());
}

#[test]
fn padding_does_not_change_tokens() {
    let expected = vec![
        sym("INSERT"),
        sym("INTO"),
        sym("t"),
        sym("VALUES"),
        sym("("),
        numt(-3),
        sym(","),
        strt("it's"),
        sym(","),
        Token::Value(Value::Float("2.50".to_string())),
        sym(","),
        Token::Value(Value::Null),
        sym(")"),
        sym(";"),
    ];
    let tight = b"INSERT INTO`t`VALUES(-3,'it''s',2.50,NULL);";
    let loose = b"\n INSERT\t\tINTO \r `t`  VALUES ( -3 ,\n'it''s' , 2.50\t, NULL ) ;  \n";
    assert_eq!(tokenize(&tight[..]).unwrap(), expected);
    assert_eq!(tokenize(&loose[..]).unwrap(), expected);
}

#[test]
fn rows_tokenizer_errors() {
    let mut l = load(&["DISABLE KEYS\n", "INSERT INTO `t` VALUES ('a\\qb');\n"]);
    assert!(matches!(
        l.next_tuple(),
        Err(LoaderError::Tokenizer(TokenizerError::InvalidEscape('q')))
    ));
    let mut l = Loader::new();
    l.feed_line(b"DISABLE KEYS\n").unwrap();
    assert!(matches!(
        l.feed_line(&[0x27, 0xc3, 0x28, 0x27]),
        Err(LoaderError::Tokenizer(TokenizerError::InvalidUtf8))
    ));
    // Header lines are not decoded.
    let mut l = Loader::new();
    assert!(l.feed_line(&[0xff, 0xfe, b'\n']).is_ok());
}

#[test]
fn statements_between_inserts_are_skipped() {
    let mut l = load(&[
        "DISABLE KEYS\n",
        "INSERT INTO `t` VALUES (1);\n",
        "/*!40000 ALTER TABLE `t` ENABLE KEYS */;\n",
        "INSERT INTO `t` VALUES (2);\n",
        "UNLOCK TABLES;\n",
        "-- Dump completed on 2024-03-02 12:00:00\n",
    ]);
    assert_eq!(l.next_tuple().unwrap(), Some(vec![Value::Integer(1)]));
    assert_eq!(l.next_tuple().unwrap(), Some(vec![Value::Integer(2)]));
    assert_eq!(l.next_tuple().unwrap(), None);
}

#[test]
fn syntax_errors_name_what_was_expected() {
    let mut l = load(&["DISABLE KEYS\n", "INSERT INTO `t` VALUES (1,x);\n"]);
    match l.next_tuple() {
        Err(LoaderError::Syntax(t, e)) => {
            assert_eq!(t, sym("x"));
            assert_eq!(e, "a literal value");
        },
        other => panic!("unexpected {:?}", other),
    }
    let mut l = load(&["DISABLE KEYS\n", "INSERT INTO `t` VALUES (1)(2);\n"]);
    match l.next_tuple() {
        Err(LoaderError::Syntax(t, e)) => {
            assert_eq!(t, sym("("));
            assert_eq!(e, "`,` or `;`");
        },
        other => panic!("unexpected {:?}", other),
    }
}

#[test]
fn tokenize_text_matches_bytes() {
    let text = "INSERT INTO `t` VALUES ('a\\'b','c\\\"d',-7,NULL);";
    assert_eq!(tokenize_text(text), tokenize(text.as_bytes()));
    assert_eq!(
        tokenize_text(text).unwrap(),
        vec![
            sym("INSERT"),
            sym("INTO"),
            sym("t"),
            sym("VALUES"),
            sym("("),
            strt("a'b"),
            sym(","),
            strt("c\"d"),
            sym(","),
            numt(-7),
            sym(","),
            Token::Value(Value::Null),
            sym(")"),
            sym(";"),
        ]
    );
    assert_eq!(tokenize_text("'x"), Err(TokenizerError::Eof { expected: '\'' }));
}

#[test]
fn comments_between_statements() {
    let mut l = load(&[
        "DISABLE KEYS\n",
        "INSERT INTO `t` VALUES (1);\n",
        "-- note\n",
        "# another note\n",
        "/* a block\n",
        "   comment */\n",
        "INSERT INTO `t` VALUES (2);\n",
        "-- Dump completed\n",
    ]);
    assert_eq!(l.next_tuple().unwrap(), Some(vec![Value::Integer(1)]));
    assert_eq!(l.next_tuple().unwrap(), Some(vec![Value::Integer(2)]));
    assert_eq!(l.next_tuple().unwrap(), None);
}

#[test]
fn comment_tokens() {
    assert_eq!(tokenize(b"a -- b\nc # d\ne /* f */ g").unwrap(), vec![sym("a"), sym("c"), sym("e"), sym("g")]);
    assert_eq!(tokenize(b"a /* open"), Err(TokenizerError::Eof { expected: '/' }));
    assert_eq!(tokenize(b"'--' -1").unwrap(), vec![strt("--"), numt(-1)]);
}
