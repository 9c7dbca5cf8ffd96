use lexer::token::compose;
use lexer::{Mismatch, Shape, Token};

fn all_shapes() -> Vec<Token> {
    vec![
        Token::Keyword("def".to_string(), (1, 1)),
        Token::Section("string".to_string(), "body".to_string(), (1, 2)),
        Token::Integer(42, (1, 3)),
        Token::Float("1.5".to_string(), (1, 4)),
        Token::Symbol('(', "open".to_string(), (1, 5)),
        Token::Ident("name".to_string(), (2, 6)),
    ]
}

#[test]
fn as_string_gives_the_payload() {
    let texts: Vec<String> = all_shapes().iter().map(|t| t.as_string()).collect();
    assert_eq!(texts, vec!["def", "body", "42", "1.5", "(", "name"]);
}

#[test]
fn as_string_writes_integers_in_decimal() {
    for value in [0usize, 7, 9, 10, 11, 99, 100, 101, 12345, 1000000, usize::MAX - 1, usize::MAX] {
        assert_eq!(Token::Integer(value, (1, 1)).as_string(), value.to_string());
    }
}

#[test]
fn loc_gives_the_location() {
    let locs: Vec<(usize, usize)> = all_shapes().iter().map(|t| t.loc()).collect();
    assert_eq!(locs, vec![(1, 1), (1, 2), (1, 3), (1, 4), (1, 5), (2, 6)]);
}

#[test]
fn shape_tells_the_variant() {
    let shapes: Vec<Shape> = all_shapes().iter().map(|t| t.shape()).collect();
    assert_eq!(
        shapes,
        vec![
            Shape::Keyword,
            Shape::Section,
            Shape::Integer,
            Shape::Float,
            Shape::Symbol,
            Shape::Ident,
        ]
    );
}

#[test]
fn clone_is_equal() {
    for token in all_shapes() {
        assert_eq!(token.clone(), token);
    }
}

fn mismatch(expected: Shape, found: &Token) -> Mismatch {
    Mismatch { expected, found: found.clone() }
}

#[test]
fn is_keyword_checks_shape_and_word() {
    let tokens = all_shapes();
    assert_eq!(tokens[0].is_keyword("def"), Ok(()));
    assert_eq!(tokens[0].is_keyword("if"), Err(mismatch(Shape::Keyword, &tokens[0])));
    assert_eq!(tokens[0].is_keyword(""), Err(mismatch(Shape::Keyword, &tokens[0])));
    for token in &tokens[1..] {
        assert_eq!(token.is_keyword("def"), Err(mismatch(Shape::Keyword, token)));
    }
    assert_eq!(tokens[5].is_keyword("name"), Err(mismatch(Shape::Keyword, &tokens[5])));
}

#[test]
fn is_section_checks_shape_and_name() {
    let tokens = all_shapes();
    assert_eq!(tokens[1].is_section("string"), Ok("body".to_string()));
    assert_eq!(tokens[1].is_section("body"), Err(mismatch(Shape::Section, &tokens[1])));
    assert_eq!(tokens[0].is_section("def"), Err(mismatch(Shape::Section, &tokens[0])));
    assert_eq!(tokens[5].is_section("string"), Err(mismatch(Shape::Section, &tokens[5])));
}

#[test]
fn is_ident_checks_shape() {
    let tokens = all_shapes();
    assert_eq!(tokens[5].is_ident(), Ok("name".to_string()));
    for token in &tokens[..5] {
        assert_eq!(token.is_ident(), Err(mismatch(Shape::Ident, token)));
    }
}

#[test]
fn is_integer_checks_shape() {
    let tokens = all_shapes();
    assert_eq!(tokens[2].is_integer(), Ok(42));
    assert_eq!(tokens[3].is_integer(), Err(mismatch(Shape::Integer, &tokens[3])));
    assert_eq!(tokens[5].is_integer(), Err(mismatch(Shape::Integer, &tokens[5])));
}

#[test]
fn is_float_checks_shape() {
    let tokens = all_shapes();
    assert_eq!(tokens[3].is_float(), Ok("1.5".to_string()));
    assert_eq!(tokens[3].is_float().unwrap().parse::<f64>(), Ok(1.5));
    assert_eq!(tokens[2].is_float(), Err(mismatch(Shape::Float, &tokens[2])));
}

#[test]
fn is_symbol_checks_shape_and_name() {
    let tokens = all_shapes();
    assert_eq!(tokens[4].is_symbol("open"), Ok(()));
    assert_eq!(tokens[4].is_symbol("("), Err(mismatch(Shape::Symbol, &tokens[4])));
    assert_eq!(tokens[0].is_symbol("open"), Err(mismatch(Shape::Symbol, &tokens[0])));
}

#[test]
fn mismatch_message_names_both_sides() {
    let tokens = all_shapes();
    let error = tokens[5].is_keyword("def").unwrap_err();
    assert_eq!(error.message(), "expected keyword: Ident(\"name\", (2, 6))");
    let error = tokens[2].is_symbol("open").unwrap_err();
    assert_eq!(error.message(), "expected symbol: Integer(42, (1, 3))");
    let error = tokens[1].is_float().unwrap_err();
    assert_eq!(error.message(), "expected float: Section(\"string\", \"body\", (1, 2))");
    let error = tokens[4].is_integer().unwrap_err();
    assert_eq!(error.message(), "expected integer: Symbol('(', \"open\", (1, 5))");
    let error = tokens[3].is_section("s").unwrap_err();
    assert_eq!(error.message(), "expected section: Float(1.5, (1, 4))");
    let error = tokens[0].is_ident().unwrap_err();
    assert_eq!(error.message(), "expected ident: Keyword(\"def\", (1, 1))");
}

#[test]
fn keyword_query_on_an_identifier() {
    let a = Token::Ident("def".to_string(), (1, 1));
    let b = Token::Keyword("def".to_string(), (1, 1));
    assert_eq!(
        a.is_keyword("def").unwrap_err().message(),
        "expected keyword: Ident(\"def\", (1, 1))"
    );
    assert!(b.is_keyword("def").is_ok());
    assert!(b.is_keyword("return").is_err());
}

#[test]
fn symbol_query_under_another_name() {
    let a = Token::Symbol('(', "open".to_string(), (1, 1));
    assert!(a.is_symbol("open").is_ok());
    assert!(a.is_symbol("(").is_err());
    assert_eq!(
        a.is_symbol("close").unwrap_err().message(),
        "expected symbol: Symbol('(', \"open\", (1, 1))"
    );
}

#[test]
fn written_is_the_inspection_form() {
    let tokens = vec![
        Token::Keyword("def".to_string(), (1, 1)),
        Token::Section("a \"b\"".to_string(), "x\ny\\z\t'".to_string(), (10, 200)),
        Token::Integer(0, (3, 4)),
        Token::Integer(usize::MAX, (usize::MAX, 1)),
        Token::Symbol('\'', "quote".to_string(), (1, 1)),
        Token::Symbol('\n', "line \u{7f} end".to_string(), (1, 1)),
        Token::Symbol('"', "é".to_string(), (1, 1)),
        Token::Ident("".to_string(), (1, 1)),
        Token::Ident("\u{0}\u{1b}\u{301}".to_string(), (7, 7)),
    ];
    for token in &tokens {
        assert_eq!(token.written(), format!("{:?}", token));
    }
    assert_eq!(
        tokens[1].written(),
        "Section(\"a \\\"b\\\"\", \"x\\ny\\\\z\\t'\", (10, 200))"
    );
    assert_eq!(tokens[4].written(), "Symbol('\\'', \"quote\", (1, 1))");
}

#[test]
fn written_float_keeps_the_literal() {
    assert_eq!(Token::Float("1.5".to_string(), (1, 4)).written(), "Float(1.5, (1, 4))");
    assert_eq!(Token::Float("-1e3".to_string(), (2, 1)).written(), "Float(-1e3, (2, 1))");
}

#[test]
fn fields_are_written_for_inspection() {
    let tokens = all_shapes();
    assert_eq!(tokens[0].fields(), vec!["\"def\""]);
    assert_eq!(tokens[1].fields(), vec!["\"string\"", "\"body\""]);
    assert_eq!(tokens[2].fields(), vec!["42"]);
    assert_eq!(tokens[3].fields(), vec!["1.5"]);
    assert_eq!(tokens[4].fields(), vec!["'('", "\"open\""]);
    assert_eq!(tokens[5].fields(), vec!["\"name\""]);
}

#[test]
fn compose_takes_the_fields_as_they_are() {
    assert_eq!(compose("Ident", &vec!["\"def\"".to_string()], (1, 1)), "Ident(\"def\", (1, 1))");
    assert_eq!(compose("Unit", &vec![], (12, 345)), "Unit((12, 345))");
    assert_eq!(
        compose("Symbol", &vec!["x".to_string(), "".to_string(), "z z".to_string()], (0, 9)),
        "Symbol(x, , z z, (0, 9))"
    );
}

#[test]
fn variant_names() {
    assert_eq!(Shape::Keyword.variant_name(), "Keyword");
    assert_eq!(Shape::Section.variant_name(), "Section");
    assert_eq!(Shape::Integer.variant_name(), "Integer");
    assert_eq!(Shape::Float.variant_name(), "Float");
    assert_eq!(Shape::Symbol.variant_name(), "Symbol");
    assert_eq!(Shape::Ident.variant_name(), "Ident");
}

#[test]
fn shape_names() {
    assert_eq!(Shape::Keyword.name(), "keyword");
    assert_eq!(Shape::Section.name(), "section");
    assert_eq!(Shape::Integer.name(), "integer");
    assert_eq!(Shape::Float.name(), "float");
    assert_eq!(Shape::Symbol.name(), "symbol");
    assert_eq!(Shape::Ident.name(), "ident");
}
