use lexer::{Lexer, ScanError, Section, Token};

fn words(list: &[&str]) -> Vec<String> {
    list.iter().map(|w| w.to_string()).collect()
}

fn names(list: &[(char, &str)]) -> Vec<(char, String)> {
    list.iter().map(|(c, n)| (*c, n.to_string())).collect()
}

fn python_like(allow_whitespace: bool) -> Lexer {
    Lexer::new(
        &words(&["def", "if", "return"]),
        &[Section::new("string", "\"", "\"")],
        &names(&[(':', "column"), ('(', "openbrace"), (')', "closebrace")]),
        allow_whitespace,
    )
}

fn scan(lexer: &mut Lexer, text: &str) -> Vec<Token> {
    lexer.load_str(text);
    lexer.tokenize().unwrap()
}

fn keyword(word: &str, loc: (usize, usize)) -> Token {
    Token::Keyword(word.to_string(), loc)
}

fn ident(word: &str, loc: (usize, usize)) -> Token {
    Token::Ident(word.to_string(), loc)
}

fn symbol(c: char, name: &str, loc: (usize, usize)) -> Token {
    Token::Symbol(c, name.to_string(), loc)
}

fn section(name: &str, text: &str, loc: (usize, usize)) -> Token {
    Token::Section(name.to_string(), text.to_string(), loc)
}

#[test]
fn load_test() {
    let mut lexer = python_like(true);
    lexer.load_str("def test(): \" return 0 ");
    let tokens = lexer.tokenize().unwrap();
    println!("tokens: {:?}", tokens);
    assert_eq!(
        tokens,
        vec![
            keyword("def", (1, 1)),
            ident(" ", (1, 4)),
            ident("test", (1, 5)),
            symbol('(', "openbrace", (1, 9)),
            symbol(')', "closebrace", (1, 10)),
            symbol(':', "column", (1, 11)),
            ident(" ", (1, 12)),
            section("string", " return 0 ", (1, 13)),
        ]
    );
}

#[test]
fn end_to_end_example() {
    let mut lexer = Lexer::new(
        &words(&["def", "return"]),
        &[],
        &names(&[('(', "open"), (')', "close"), (':', "colon")]),
        false,
    );
    assert_eq!(
        scan(&mut lexer, "def test(): return 0"),
        vec![
            keyword("def", (1, 1)),
            ident("test", (1, 5)),
            symbol('(', "open", (1, 9)),
            symbol(')', "close", (1, 10)),
            symbol(':', "colon", (1, 11)),
            keyword("return", (1, 13)),
            Token::Integer(0, (1, 20)),
        ]
    );
}

#[test]
fn empty_buffer_has_no_tokens() {
    let mut lexer = python_like(true);
    assert_eq!(lexer.tokenize().unwrap(), vec![]);
    assert_eq!(scan(&mut lexer, ""), vec![]);
}

#[test]
fn symbols_and_blanks_give_one_symbol_each() {
    let mut lexer = python_like(false);
    assert_eq!(
        scan(&mut lexer, "(: )\n ):("),
        vec![
            symbol('(', "openbrace", (1, 1)),
            symbol(':', "column", (1, 2)),
            symbol(')', "closebrace", (1, 4)),
            symbol(')', "closebrace", (2, 2)),
            symbol(':', "column", (2, 3)),
            symbol('(', "openbrace", (2, 4)),
        ]
    );
}

#[test]
fn symbols_and_blanks_with_whitespace_kept() {
    let mut lexer = python_like(true);
    let tokens = scan(&mut lexer, "( )\n:");
    assert_eq!(
        tokens,
        vec![
            symbol('(', "openbrace", (1, 1)),
            ident(" ", (1, 2)),
            symbol(')', "closebrace", (1, 3)),
            ident(" ", (1, 4)),
            symbol(':', "column", (2, 1)),
        ]
    );
    let symbols: Vec<Token> =
        tokens.into_iter().filter(|t| matches!(t, Token::Symbol(..))).collect();
    assert_eq!(
        symbols,
        vec![
            symbol('(', "openbrace", (1, 1)),
            symbol(')', "closebrace", (1, 3)),
            symbol(':', "column", (2, 1)),
        ]
    );
}

#[test]
fn keyword_alone_is_a_keyword() {
    let mut lexer = Lexer::new(&words(&["if", "10", "1.5"]), &[], &[], false);
    assert_eq!(scan(&mut lexer, "if"), vec![keyword("if", (1, 1))]);
    assert_eq!(scan(&mut lexer, "10"), vec![keyword("10", (1, 1))]);
    assert_eq!(scan(&mut lexer, "1.5 iff"), vec![keyword("1.5", (1, 1)), ident("iff", (1, 5))]);
}

#[test]
fn keyword_wins_over_symbol() {
    let mut lexer = Lexer::new(&words(&["("]), &[], &names(&[('(', "open")]), false);
    assert_eq!(scan(&mut lexer, "("), vec![keyword("(", (1, 1))]);
}

#[test]
fn section_round_trip() {
    let mut lexer = python_like(false);
    assert_eq!(
        scan(&mut lexer, "\"hello (world): 1\""),
        vec![section("string", "hello (world): 1", (1, 1))]
    );
    assert_eq!(scan(&mut lexer, "\"\""), vec![section("string", "", (1, 1))]);
}

#[test]
fn section_round_trip_with_long_markers() {
    let mut lexer = Lexer::new(
        &words(&["x"]),
        &[Section::new("comment", "/*", "*/"), Section::new("line", "//", "\n")],
        &names(&[('/', "slash"), ('*', "star")]),
        false,
    );
    assert_eq!(
        scan(&mut lexer, "/* a * b / c */"),
        vec![section("comment", " a * b / c ", (1, 1))]
    );
    assert_eq!(
        scan(&mut lexer, "x // rest\nx/*y*/*"),
        vec![
            keyword("x", (1, 1)),
            section("line", " rest", (1, 3)),
            keyword("x", (2, 1)),
            section("comment", "y", (2, 2)),
            symbol('*', "star", (2, 7)),
        ]
    );
}

#[test]
fn section_text_keeps_newlines_and_moves_the_cursor() {
    let mut lexer = python_like(false);
    assert_eq!(
        scan(&mut lexer, "\"a\nb\" c\n d"),
        vec![section("string", "a\nb", (1, 1)), ident("c", (2, 4)), ident("d", (3, 2))]
    );
}

#[test]
fn escaped_end_marker_stays_in_the_text() {
    let mut lexer = python_like(false);
    assert_eq!(scan(&mut lexer, "\"\\\"\""), vec![section("string", "\"", (1, 1))]);
    assert_eq!(
        scan(&mut lexer, "\"a\\\\b\\nc\" d"),
        vec![section("string", "a\\bnc", (1, 1)), ident("d", (1, 11))]
    );
}

#[test]
fn escaped_long_end_marker() {
    let mut lexer = Lexer::new(&[], &[Section::new("comment", "/*", "*/")], &[], false);
    assert_eq!(scan(&mut lexer, "/*\\*/*/"), vec![section("comment", "*/", (1, 1))]);
}

#[test]
fn shared_start_is_told_apart_by_the_end() {
    let mut lexer = Lexer::new(
        &[],
        &[Section::new("angle", "<", ">"), Section::new("square", "<", "]")],
        &[],
        false,
    );
    assert_eq!(scan(&mut lexer, "<]"), vec![section("square", "", (1, 1))]);
    assert_eq!(scan(&mut lexer, "<a]"), vec![section("square", "a", (1, 1))]);
    assert_eq!(scan(&mut lexer, "<a>"), vec![section("angle", "a", (1, 1))]);
    assert_eq!(
        scan(&mut lexer, "<a]<b>"),
        vec![section("square", "a", (1, 1)), section("angle", "b", (1, 4))]
    );
}

#[test]
fn first_declared_section_wins_a_tie() {
    let mut lexer = Lexer::new(
        &[],
        &[Section::new("short", "<", ">"), Section::new("long", "<", ">>")],
        &[],
        false,
    );
    assert_eq!(
        scan(&mut lexer, "<a>>"),
        vec![section("short", "a", (1, 1)), ident(">", (1, 4))]
    );
    let mut lexer = Lexer::new(
        &[],
        &[Section::new("long", "<", ">>"), Section::new("short", "<", ">")],
        &[],
        false,
    );
    assert_eq!(scan(&mut lexer, "<a>>"), vec![section("long", "a", (1, 1))]);
    assert_eq!(scan(&mut lexer, "<a>b"), vec![section("short", "a", (1, 1)), ident("b", (1, 4))]);
}

#[test]
fn first_declared_start_marker_wins() {
    let mut lexer = Lexer::new(
        &[],
        &[Section::new("one", "#", "\n"), Section::new("two", "##", "\n")],
        &[],
        false,
    );
    assert_eq!(scan(&mut lexer, "##a\n"), vec![section("one", "#a", (1, 1))]);
    let mut lexer = Lexer::new(
        &[],
        &[Section::new("two", "##", "\n"), Section::new("one", "#", "\n")],
        &[],
        false,
    );
    assert_eq!(scan(&mut lexer, "##a\n#b\n"), vec![
        section("two", "a", (1, 1)),
        section("one", "b", (2, 1)),
    ]);
}

#[test]
fn unclosed_section_is_closed_by_the_end_of_the_buffer() {
    let mut lexer = python_like(false);
    assert_eq!(
        scan(&mut lexer, "def \"abc"),
        vec![keyword("def", (1, 1)), section("string", "abc", (1, 5))]
    );
    assert_eq!(scan(&mut lexer, "\""), vec![section("string", "", (1, 1))]);
}

#[test]
fn unclosed_section_takes_the_last_end_marker() {
    let mut lexer = Lexer::new(
        &[],
        &[
            Section::new("angle", "<", ">"),
            Section::new("other", "[", "]"),
            Section::new("square", "<", "]"),
        ],
        &[],
        false,
    );
    assert_eq!(scan(&mut lexer, "<abc"), vec![section("square", "abc", (1, 1))]);
}

#[test]
fn backslash_at_the_end_of_a_section_stops_the_scan() {
    let mut lexer = python_like(false);
    assert_eq!(
        scan(&mut lexer, "def (\"abc\\"),
        vec![keyword("def", (1, 1)), symbol('(', "openbrace", (1, 5))]
    );
    assert_eq!(scan(&mut lexer, "x\"\\"), vec![ident("x", (1, 1))]);
}

#[test]
fn backslash_outside_a_section_is_plain() {
    let mut lexer = python_like(false);
    assert_eq!(scan(&mut lexer, "a\\b \\"), vec![ident("a\\b", (1, 1)), ident("\\", (1, 5))]);
}

#[test]
fn token_before_a_section_is_handed_on() {
    let mut lexer = python_like(false);
    assert_eq!(
        scan(&mut lexer, "ab\"cd\"ef"),
        vec![ident("ab", (1, 1)), section("string", "cd", (1, 3)), ident("ef", (1, 7))]
    );
}

#[test]
fn whitespace_is_dropped_or_kept() {
    let mut lexer = python_like(false);
    assert_eq!(scan(&mut lexer, "a  b"), vec![ident("a", (1, 1)), ident("b", (1, 4))]);
    let mut lexer = python_like(true);
    assert_eq!(
        scan(&mut lexer, "a  b"),
        vec![ident("a", (1, 1)), ident(" ", (1, 2)), ident(" ", (1, 3)), ident("b", (1, 4))]
    );
}

#[test]
fn newline_ends_a_token() {
    let mut lexer = python_like(false);
    assert_eq!(
        scan(&mut lexer, "ab\ncd\n\nef\n"),
        vec![ident("ab", (1, 1)), ident("cd", (2, 1)), ident("ef", (4, 1))]
    );
    let mut lexer = python_like(true);
    assert_eq!(
        scan(&mut lexer, "ab\n\ncd \n(\n"),
        vec![
            ident("ab", (1, 1)),
            ident("cd", (3, 1)),
            ident(" ", (3, 3)),
            ident(" ", (3, 4)),
            symbol('(', "openbrace", (4, 1)),
        ]
    );
}

#[test]
fn numbers_in_a_buffer() {
    let mut lexer = python_like(false);
    assert_eq!(
        scan(&mut lexer, "10 10.5 x10 +7 -7 (3)"),
        vec![
            Token::Integer(10, (1, 1)),
            Token::Float("10.5".to_string(), (1, 4)),
            ident("x10", (1, 9)),
            Token::Integer(7, (1, 13)),
            Token::Float("-7".to_string(), (1, 16)),
            symbol('(', "openbrace", (1, 19)),
            Token::Integer(3, (1, 20)),
            symbol(')', "closebrace", (1, 21)),
        ]
    );
}

#[test]
fn single_byte_text_always_scans() {
    let mut lexer = python_like(true);
    let every: Vec<u8> = (0u8..128).chain((0u8..128).rev()).collect();
    lexer.buffer = every;
    assert!(lexer.tokenize().is_ok());
    for byte in 128u8..=255 {
        lexer.buffer = vec![b'a', byte, b'b'];
        assert_eq!(lexer.tokenize(), Err(ScanError { offset: 1, byte }));
    }
}

#[test]
fn word_in_a_buffer_is_no_section() {
    let mut lexer = Lexer::new(&[], &[Section::new("tag", "<", ">")], &[], false);
    assert_eq!(scan(&mut lexer, "a> b>"), vec![ident("a>", (1, 1)), ident("b>", (1, 4))]);
    assert_eq!(
        scan(&mut lexer, "a<b> >"),
        vec![ident("a", (1, 1)), section("tag", "b", (1, 2)), ident(">", (1, 6))]
    );
}

#[test]
fn wide_byte_fails_the_whole_scan() {
    let mut lexer = python_like(false);
    lexer.load_str("def (é)");
    assert_eq!(lexer.tokenize(), Err(ScanError { offset: 5, byte: 0xc3 }));
    lexer.buffer = vec![b'a', b' ', 0xff];
    let error = lexer.tokenize().unwrap_err();
    assert_eq!(error, ScanError { offset: 2, byte: 255 });
    assert_eq!(error.message(), "byte 255 at offset 2 is not single-byte text");
}

#[test]
fn wide_byte_inside_a_section_fails_the_scan() {
    let mut lexer = python_like(false);
    lexer.buffer = vec![b'"', b'a', 0x80, b'"'];
    assert_eq!(lexer.tokenize(), Err(ScanError { offset: 2, byte: 0x80 }));
}

#[test]
fn escaped_byte_is_taken_as_it_is() {
    let mut lexer = python_like(false);
    lexer.buffer = vec![b'"', b'\\', 0xe9, b'"'];
    assert_eq!(lexer.tokenize().unwrap(), vec![section("string", "\u{e9}", (1, 1))]);
}

#[test]
fn marker_beyond_single_byte_text_never_opens() {
    let mut lexer = Lexer::new(&[], &[Section::new("odd", "é", "é"), Section::new("none", "", "x")], &[], false);
    assert_eq!(scan(&mut lexer, "abx"), vec![ident("abx", (1, 1))]);
    lexer.buffer = vec![0xe9, b'a', 0xe9];
    assert_eq!(lexer.tokenize(), Err(ScanError { offset: 0, byte: 0xe9 }));
}

#[test]
fn empty_end_marker_never_closes() {
    let mut lexer = Lexer::new(&[], &[Section::new("open", "<", "")], &[], false);
    assert_eq!(scan(&mut lexer, "<ab>"), vec![section("open", "ab>", (1, 1))]);
}

#[test]
fn space_is_declared_once() {
    let mut lexer = python_like(false);
    assert_eq!(lexer.symbols.len(), 3);
    lexer.load_str("a b");
    let first = lexer.tokenize().unwrap();
    assert_eq!(lexer.symbols.len(), 4);
    assert_eq!(lexer.symbols[3], (' ', "Space".to_string()));
    let second = lexer.tokenize().unwrap();
    assert_eq!(lexer.symbols.len(), 4);
    assert_eq!(first, second);
    lexer.declare_space();
    assert_eq!(lexer.symbols.len(), 4);
}

#[test]
fn declared_space_keeps_its_name_and_changes_no_token() {
    let mut plain = python_like(true);
    let mut named = Lexer::new(
        &words(&["def", "if", "return"]),
        &[Section::new("string", "\"", "\"")],
        &names(&[(' ', "blank"), (':', "column"), ('(', "openbrace"), (')', "closebrace")]),
        true,
    );
    let text = "def f( x ): \"a b\" 1";
    assert_eq!(scan(&mut plain, text), scan(&mut named, text));
    assert_eq!(named.symbols.len(), 4);
    assert_eq!(named.symbols[0], (' ', "blank".to_string()));
    assert_eq!(plain.scan_buffer(), named.scan_buffer());
}

#[test]
fn scan_buffer_leaves_the_grammar_alone() {
    let mut lexer = python_like(false);
    lexer.load_str("a b(c)");
    let tokens = lexer.scan_buffer().unwrap();
    assert_eq!(lexer.symbols.len(), 3);
    assert_eq!(tokens, lexer.tokenize().unwrap());
}

#[test]
fn newline_symbol_gives_no_symbol_token() {
    let mut lexer = Lexer::new(&[], &[], &names(&[('\n', "newline"), (';', "semi")]), false);
    assert_eq!(
        scan(&mut lexer, "a\n;\nb"),
        vec![ident("a", (1, 1)), symbol(';', "semi", (2, 1)), ident("b", (3, 1))]
    );
}
