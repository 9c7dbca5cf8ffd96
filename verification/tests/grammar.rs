use lexer::{Lexer, Section, StartOrSection, Token, Value};

fn sample() -> Lexer {
    Lexer::new(
        &["def".to_string(), "if".to_string()],
        &[
            Section::new("string", "\"", "\""),
            Section::new("angle", "<", ">"),
            Section::new("square", "<", "]"),
            Section::new("again", "\"", "\""),
        ],
        &[('(', "open".to_string()), (')', "close".to_string()), ('(', "second".to_string())],
        true,
    )
}

#[test]
fn section_new_keeps_its_parts() {
    let section = Section::new("comment", "/*", "*/");
    assert_eq!(section.name, "comment");
    assert_eq!(section.start, "/*");
    assert_eq!(section.end, "*/");
    let copy = section.clone();
    assert_eq!(copy.name, "comment");
    assert_eq!(copy.start, "/*");
    assert_eq!(copy.end, "*/");
}

#[test]
fn section_from_end_has_only_an_end() {
    let section = Section::from_end("*/".to_string());
    assert_eq!(section.name, "");
    assert_eq!(section.start, "");
    assert_eq!(section.end, "*/");
}

#[test]
fn new_copies_the_grammar() {
    let lexer = sample();
    assert_eq!(lexer.keywords, vec!["def".to_string(), "if".to_string()]);
    assert_eq!(lexer.sections.len(), 4);
    assert_eq!(lexer.sections[2].name, "square");
    assert_eq!(lexer.sections[2].start, "<");
    assert_eq!(lexer.sections[2].end, "]");
    assert_eq!(lexer.symbols.len(), 3);
    assert_eq!(lexer.symbols[1], (')', "close".to_string()));
    assert!(lexer.buffer.is_empty());
    assert!(lexer.allow_whitespace);
    assert!(!Lexer::new(&[], &[], &[], false).allow_whitespace);
}

#[test]
fn load_str_copies_the_bytes() {
    let mut lexer = sample();
    lexer.load_str("a é");
    assert_eq!(lexer.buffer, vec![b'a', b' ', 0xc3, 0xa9]);
    lexer.load_str("");
    assert!(lexer.buffer.is_empty());
    assert_eq!(lexer.keywords.len(), 2);
    assert_eq!(lexer.symbols.len(), 3);
}

#[test]
fn symbols_contain_finds_the_first_name() {
    let lexer = sample();
    assert_eq!(lexer.symbols_contain(&'('), Some("open"));
    assert_eq!(lexer.symbols_contain(&')'), Some("close"));
    assert_eq!(lexer.symbols_contain(&' '), None);
    assert_eq!(lexer.symbols_contain(&'x'), None);
}

#[test]
fn section_exists_finds_the_first_name() {
    let lexer = sample();
    assert_eq!(lexer.section_exists("\"", "\""), Ok("string".to_string()));
    assert_eq!(lexer.section_exists("<", "]"), Ok("square".to_string()));
    assert_eq!(lexer.section_exists("<", ">"), Ok("angle".to_string()));
    assert_eq!(lexer.section_exists("<", "\""), Err(()));
    assert_eq!(lexer.section_exists("", ""), Err(()));
}

#[test]
fn is_section_lists_the_ends_of_a_start() {
    let lexer = sample();
    match lexer.is_section(Value::Start("<".to_string())) {
        Ok(StartOrSection::Start(ends)) => assert_eq!(ends, vec![">".to_string(), "]".to_string()]),
        _ => panic!("expected the end markers"),
    }
    match lexer.is_section(Value::Start("\"".to_string())) {
        Ok(StartOrSection::Start(ends)) => {
            assert_eq!(ends, vec!["\"".to_string(), "\"".to_string()])
        }
        _ => panic!("expected the end markers"),
    }
    assert!(lexer.is_section(Value::Start(">".to_string())).is_err());
    assert!(lexer.is_section(Value::Start("".to_string())).is_err());
}

#[test]
fn is_section_finds_the_section_of_a_pair() {
    let lexer = sample();
    match lexer.is_section(Value::End("<".to_string(), "]".to_string())) {
        Ok(StartOrSection::Section(section)) => assert_eq!(section.name, "square"),
        _ => panic!("expected a section"),
    }
    match lexer.is_section(Value::End("\"".to_string(), "\"".to_string())) {
        Ok(StartOrSection::Section(section)) => assert_eq!(section.name, "string"),
        _ => panic!("expected a section"),
    }
    assert!(lexer.is_section(Value::End("<".to_string(), "\"".to_string())).is_err());
}

#[test]
fn lex_token_classifies() {
    let lexer = sample();
    let at = (5, 6);
    assert_eq!(lexer.lex_token(&"\n".to_string(), at), None);
    assert_eq!(lexer.lex_token(&"".to_string(), at), Some(Token::Ident(" ".to_string(), at)));
    assert_eq!(lexer.lex_token(&"def".to_string(), at), Some(Token::Keyword("def".to_string(), at)));
    assert_eq!(
        lexer.lex_token(&"(".to_string(), at),
        Some(Token::Symbol('(', "open".to_string(), at))
    );
    assert_eq!(lexer.lex_token(&"7".to_string(), at), Some(Token::Integer(7, at)));
    assert_eq!(lexer.lex_token(&"x".to_string(), at), Some(Token::Ident("x".to_string(), at)));
    assert_eq!(lexer.lex_token(&"((".to_string(), at), Some(Token::Ident("((".to_string(), at)));
    assert_eq!(lexer.lex_token(&"2.5".to_string(), at), Some(Token::Float("2.5".to_string(), at)));
    assert_eq!(lexer.lex_token(&"\n\n".to_string(), at), Some(Token::Ident("\n\n".to_string(), at)));
}

#[test]
fn lex_token_makes_a_section_of_a_marked_text() {
    let lexer = Lexer::new(
        &["<if>".to_string()],
        &[
            Section::new("tag", "<", ">"),
            Section::new("square", "<", "]"),
            Section::new("tag again", "<", ">"),
            Section::new("comment", "/*", "*/"),
        ],
        &[('<', "less".to_string())],
        false,
    );
    let at = (1, 5);
    assert_eq!(
        lexer.lex_token(&"<a b>".to_string(), at),
        Some(Token::Section("tag".to_string(), "a b".to_string(), at))
    );
    assert_eq!(
        lexer.lex_token(&"<>".to_string(), at),
        Some(Token::Section("tag".to_string(), "".to_string(), at))
    );
    assert_eq!(
        lexer.lex_token(&"<10]".to_string(), at),
        Some(Token::Section("square".to_string(), "10".to_string(), at))
    );
    assert_eq!(
        lexer.lex_token(&"<<é>>".to_string(), at),
        Some(Token::Section("tag".to_string(), "<é>".to_string(), at))
    );
    assert_eq!(
        lexer.lex_token(&"<if>".to_string(), at),
        Some(Token::Keyword("<if>".to_string(), at))
    );
    assert_eq!(
        lexer.lex_token(&"<".to_string(), at),
        Some(Token::Symbol('<', "less".to_string(), at))
    );
    assert_eq!(lexer.lex_token(&">".to_string(), at), Some(Token::Ident(">".to_string(), at)));
    assert_eq!(lexer.lex_token(&"<a".to_string(), at), Some(Token::Ident("<a".to_string(), at)));
    assert_eq!(lexer.lex_token(&"a>".to_string(), at), Some(Token::Ident("a>".to_string(), at)));
    assert_eq!(
        lexer.lex_token(&"/*a*/".to_string(), at),
        Some(Token::Ident("/*a*/".to_string(), at))
    );
    assert_eq!(lexer.lex_token(&"1>".to_string(), at), Some(Token::Ident("1>".to_string(), at)));
}

#[test]
fn lex_token_drops_the_empty_text_without_whitespace() {
    let lexer = Lexer::new(&[], &[], &[], false);
    assert_eq!(lexer.lex_token(&"".to_string(), (1, 1)), None);
    assert_eq!(lexer.lex_token(&" ".to_string(), (1, 1)), Some(Token::Ident(" ".to_string(), (1, 1))));
}
