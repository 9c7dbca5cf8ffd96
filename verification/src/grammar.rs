//! The grammar description: keywords, named symbols and delimited
//! sections, and the classification of a completed plain token.

use vstd::prelude::*;
use vstd::string::*;
use crate::number::{is_float_literal, is_float_text, parse_unsigned, unsigned_of};
use crate::search::{first_where, lemma_first_where_is, lemma_first_where_none};
use crate::text::{chars_of, push_char, string_of, texts};
use crate::token::{place_of, Loc, Place, Token, TokenView};

verus! {

/// A named span of raw text between a start marker and an end marker.
#[derive(Debug)]
pub struct Section {
    pub name: String,
    pub start: String,
    pub end: String,
}

/// The mathematical content of a section declaration.
pub struct SectionView {
    pub name: Seq<char>,
    pub start: Seq<char>,
    pub end: Seq<char>,
}

impl View for Section {
    type V = SectionView;

    open spec fn view(&self) -> SectionView {
        SectionView { name: self.name@, start: self.start@, end: self.end@ }
    }
}

impl Clone for Section {
    fn clone(&self) -> (s: Section)
        ensures
            s == *self,
    {
        Section { name: self.name.clone(), start: self.start.clone(), end: self.end.clone() }
    }
}

impl Section {
    /// A section called `name` that runs from `start` to `end`.
    pub fn new(name: &str, start: &str, end: &str) -> (s: Section)
        ensures
            s@ == (SectionView { name: name@, start: start@, end: end@ }),
    {
        Section { name: name.to_owned(), start: start.to_owned(), end: end.to_owned() }
    }

    /// A section known by its end marker alone: name and start marker are
    /// empty.
    pub fn from_end(end: String) -> (s: Section)
        ensures
            s.end == end,
            s.name@ == Seq::<char>::empty(),
            s.start@ == Seq::<char>::empty(),
    {
        Section { name: String::new(), start: String::new(), end }
    }
}

/// What `Lexer::is_section` is asked about: a start marker, or a pair of
/// start and end marker.
#[derive(Debug)]
pub enum Value {
    Start(String),
    End(String, String),
}

/// What `Lexer::is_section` answers: the end markers that may close a
/// start marker, or the section that a pair of markers delimits.
pub enum StartOrSection<'a> {
    Start(Vec<String>),
    Section(&'a Section),
}

/// The scanner's configuration together with the buffer it scans.
#[derive(Debug)]
pub struct Lexer {
    /// Reserved words, matched exactly and before anything else.
    pub keywords: Vec<String>,
    /// Delimited sections, in the order of their declaration.
    pub sections: Vec<Section>,
    /// Single characters that are tokens of their own, each with its name.
    pub symbols: Vec<(char, String)>,
    /// The bytes to scan.
    pub buffer: Vec<u8>,
    /// Whether an empty token is kept as an identifier of one space.
    pub allow_whitespace: bool,
}

/// The mathematical content of a grammar description.
pub struct Grammar {
    pub keywords: Seq<Seq<char>>,
    pub sections: Seq<SectionView>,
    pub symbols: Seq<(char, Seq<char>)>,
    pub allow_whitespace: bool,
}

/// The contents of a run of section declarations.
pub open spec fn section_views(sections: Seq<Section>) -> Seq<SectionView> {
    sections.map_values(|s: Section| s@)
}

/// The contents of a run of symbol declarations.
pub open spec fn symbol_views(symbols: Seq<(char, String)>) -> Seq<(char, Seq<char>)> {
    symbols.map_values(|e: (char, String)| (e.0, e.1@))
}

/// The symbol declarations that are for the character `c`.
pub open spec fn declares(c: char) -> spec_fn((char, Seq<char>)) -> bool {
    |e: (char, Seq<char>)| e.0 == c
}

/// The section declarations with exactly these markers.
pub open spec fn delimited_by(start: Seq<char>, end: Seq<char>) -> spec_fn(SectionView) -> bool {
    |s: SectionView| s.start == start && s.end == end
}

/// The name under which `c` is first declared as a symbol, if it is.
pub open spec fn symbol_name(symbols: Seq<(char, Seq<char>)>, c: char) -> Option<Seq<char>> {
    match first_where(symbols, declares(c)) {
        Some(i) => Some(symbols[i].1),
        None => None,
    }
}

/// The symbol declarations with one for the space added at the end, under
/// the name `Space`, unless the space has one already.
pub open spec fn with_space(symbols: Seq<(char, Seq<char>)>) -> Seq<(char, Seq<char>)> {
    if symbol_name(symbols, ' ') is Some {
        symbols
    } else {
        symbols.push((' ', "Space"@))
    }
}

/// The grammar `g` with the space declared as a symbol.
pub open spec fn spaced(g: Grammar) -> Grammar {
    Grammar {
        keywords: g.keywords,
        sections: g.sections,
        symbols: with_space(g.symbols),
        allow_whitespace: g.allow_whitespace,
    }
}

/// The index of the first section declared with exactly these markers.
pub open spec fn section_index(sections: Seq<SectionView>, start: Seq<char>, end: Seq<char>)
    -> Option<int> {
    first_where(sections, delimited_by(start, end))
}

/// The name of the first section declared with exactly these markers.
pub open spec fn section_name(sections: Seq<SectionView>, start: Seq<char>, end: Seq<char>)
    -> Option<Seq<char>> {
    match section_index(sections, start, end) {
        Some(i) => Some(sections[i].name),
        None => None,
    }
}

/// The end markers of the sections that begin with `start`, in the order
/// of declaration.
pub open spec fn ends_for(sections: Seq<SectionView>, start: Seq<char>) -> Seq<Seq<char>>
    decreases sections.len(),
{
    if sections.len() == 0 {
        Seq::empty()
    } else if sections.last().start == start {
        ends_for(sections.drop_last(), start).push(sections.last().end)
    } else {
        ends_for(sections.drop_last(), start)
    }
}

/// The token that a text without any keyword or symbol meaning becomes: an
/// integer if it reads as one, else a floating-point literal if it reads as
/// one, else an identifier.
pub open spec fn numeric(text: Seq<char>, at: Place) -> TokenView {
    match unsigned_of(text) {
        Some(n) => TokenView::Integer(n, at),
        None => if is_float_literal(text) {
            TokenView::Float(text, at)
        } else {
            TokenView::Ident(text, at)
        },
    }
}

/// The section that a text of two or more characters is written as: the
/// first section declared with the first character of the text as its
/// start marker and the last character as its end marker.
pub open spec fn enclosing_section(sections: Seq<SectionView>, text: Seq<char>) -> Option<
    Seq<char>,
> {
    if text.len() >= 2 {
        section_name(sections, seq![text.first()], seq![text.last()])
    } else {
        None
    }
}

/// The token, if any, that a completed text becomes.
///
/// A lone newline gives nothing. The empty text gives nothing, or an
/// identifier of one space where whitespace is kept. A keyword is a keyword
/// whatever else it looks like. A single declared symbol character is that
/// symbol. A longer text that begins and ends with the markers of a
/// declared section is that section, with what stands between the two
/// characters as its text. Everything else is classified as a number or an
/// identifier.
pub open spec fn lex(g: Grammar, text: Seq<char>, at: Place) -> Option<TokenView> {
    if text == seq!['\n'] {
        None
    } else if text.len() == 0 {
        if g.allow_whitespace {
            Some(TokenView::Ident(seq![' '], at))
        } else {
            None
        }
    } else if g.keywords.contains(text) {
        Some(TokenView::Keyword(text, at))
    } else if text.len() == 1 && symbol_name(g.symbols, text[0]) is Some {
        Some(TokenView::Symbol(text[0], symbol_name(g.symbols, text[0])->0, at))
    } else if enclosing_section(g.sections, text) is Some {
        Some(
            TokenView::Section(
                enclosing_section(g.sections, text)->0,
                text.subrange(1, text.len() - 1),
                at,
            ),
        )
    } else {
        Some(numeric(text, at))
    }
}

/// The content of an optional token.
pub open spec fn view_of(token: Option<Token>) -> Option<TokenView> {
    match token {
        Some(t) => Some(t@),
        None => None,
    }
}

impl Lexer {
    /// The grammar that this scanner is configured with.
    pub open spec fn grammar(&self) -> Grammar {
        Grammar {
            keywords: texts(self.keywords@),
            sections: section_views(self.sections@),
            symbols: symbol_views(self.symbols@),
            allow_whitespace: self.allow_whitespace,
        }
    }

    /// A scanner for the given grammar, with an empty buffer. Nothing is
    /// validated: duplicates and overlaps are taken as they are.
    pub fn new(
        keywords: &[String],
        sections: &[Section],
        symbols: &[(char, String)],
        allow_whitespace: bool,
    ) -> (lexer: Lexer)
        ensures
            lexer.keywords@ == keywords@,
            lexer.sections@ == sections@,
            lexer.symbols@ == symbols@,
            lexer.buffer@ == Seq::<u8>::empty(),
            lexer.allow_whitespace == allow_whitespace,
    {
        let mut own_keywords: Vec<String> = Vec::new();
        let mut i: usize = 0;
        while i < keywords.len()
            invariant
                i <= keywords.len(),
                own_keywords@ == keywords@.take(i as int),
            decreases keywords.len() - i,
        {
            own_keywords.push(keywords[i].clone());
            i += 1;
        }
        let mut own_sections: Vec<Section> = Vec::new();
        let mut j: usize = 0;
        while j < sections.len()
            invariant
                j <= sections.len(),
                own_sections@ == sections@.take(j as int),
            decreases sections.len() - j,
        {
            own_sections.push(sections[j].clone());
            j += 1;
        }
        let mut own_symbols: Vec<(char, String)> = Vec::new();
        let mut k: usize = 0;
        while k < symbols.len()
            invariant
                k <= symbols.len(),
                own_symbols@ == symbols@.take(k as int),
            decreases symbols.len() - k,
        {
            own_symbols.push((symbols[k].0, symbols[k].1.clone()));
            k += 1;
        }
        Lexer {
            keywords: own_keywords,
            sections: own_sections,
            symbols: own_symbols,
            buffer: Vec::new(),
            allow_whitespace,
        }
    }

    /// Replaces the buffer by the bytes of `string`.
    pub fn load_str(&mut self, string: &str)
        ensures
            final(self).buffer@ == string.spec_bytes(),
            final(self).keywords == old(self).keywords,
            final(self).sections == old(self).sections,
            final(self).symbols == old(self).symbols,
            final(self).allow_whitespace == old(self).allow_whitespace,
    {
        self.buffer = string.as_bytes_vec();
    }

    /// The name under which `value` is first declared as a symbol.
    pub fn symbols_contain(&self, value: &char) -> (r: Option<&str>)
        ensures
            match symbol_name(self.grammar().symbols, *value) {
                Some(name) => r matches Some(found) && found@ == name,
                None => r is None,
            },
    {
        let ghost declared = self.grammar().symbols;
        let ghost wanted = declares(*value);
        let mut i: usize = 0;
        while i < self.symbols.len()
            invariant
                i <= self.symbols.len(),
                declared == self.grammar().symbols,
                wanted == declares(*value),
                forall|j: int| 0 <= j < i ==> !wanted(#[trigger] declared[j]),
            decreases self.symbols.len() - i,
        {
            if self.symbols[i].0 == *value {
                proof {
                    assert(wanted(declared[i as int]));
                    lemma_first_where_is(declared, wanted, i as int);
                }
                return Some(self.symbols[i].1.as_str());
            }
            i += 1;
        }
        proof {
            lemma_first_where_none(declared, wanted);
        }
        None
    }

    /// The name of the first section declared with exactly these markers.
    pub fn section_exists(&self, start: &str, end: &str) -> (r: Result<String, ()>)
        ensures
            match section_name(self.grammar().sections, start@, end@) {
                Some(name) => r matches Ok(found) && found@ == name,
                None => r is Err,
            },
    {
        let ghost declared = self.grammar().sections;
        let ghost wanted = delimited_by(start@, end@);
        let mut i: usize = 0;
        while i < self.sections.len()
            invariant
                i <= self.sections.len(),
                declared == self.grammar().sections,
                wanted == delimited_by(start@, end@),
                forall|j: int| 0 <= j < i ==> !wanted(#[trigger] declared[j]),
            decreases self.sections.len() - i,
        {
            let section = &self.sections[i];
            if crate::text::same_text(section.start.as_str(), start) && crate::text::same_text(
                section.end.as_str(),
                end,
            ) {
                proof {
                    assert(wanted(declared[i as int]));
                    lemma_first_where_is(declared, wanted, i as int);
                }
                return Ok(section.name.clone());
            }
            i += 1;
        }
        proof {
            lemma_first_where_none(declared, wanted);
        }
        Err(())
    }

    /// Asked about a start marker, answers with the end markers of all the
    /// sections that begin with it, in the order of declaration, and fails
    /// if there is none. Asked about a pair of markers, answers with the
    /// first section declared with exactly that pair, and fails if there is
    /// none.
    pub fn is_section(&self, value: Value) -> (r: Result<StartOrSection<'_>, ()>)
        ensures
            match value {
                Value::Start(start) => {
                    let ends = ends_for(self.grammar().sections, start@);
                    if ends.len() > 0 {
                        r matches Ok(StartOrSection::Start(found)) && texts(found@) == ends
                    } else {
                        r is Err
                    }
                },
                Value::End(start, end) => match section_index(
                    self.grammar().sections,
                    start@,
                    end@,
                ) {
                    Some(i) => r matches Ok(StartOrSection::Section(found)) && *found
                        == self.sections@[i],
                    None => r is Err,
                },
            },
    {
        let ghost declared = self.grammar().sections;
        match &value {
            Value::Start(start) => {
                let mut found: Vec<String> = Vec::new();
                let mut i: usize = 0;
                while i < self.sections.len()
                    invariant
                        i <= self.sections.len(),
                        declared == self.grammar().sections,
                        texts(found@) == ends_for(declared.take(i as int), start@),
                    decreases self.sections.len() - i,
                {
                    let section = &self.sections[i];
                    proof {
                        let upto = declared.take(i + 1);
                        assert(upto.drop_last() =~= declared.take(i as int));
                        assert(upto.last() == section@);
                    }
                    if section.start == *start {
                        let ghost before = found@;
                        found.push(section.end.clone());
                        assert(texts(found@) =~= texts(before).push(section.end@));
                    }
                    i += 1;
                }
                assert(declared.take(i as int) =~= declared);
                if found.len() != 0 {
                    Ok(StartOrSection::Start(found))
                } else {
                    Err(())
                }
            },
            Value::End(start, end) => {
                let ghost wanted = delimited_by(start@, end@);
                let mut i: usize = 0;
                while i < self.sections.len()
                    invariant
                        i <= self.sections.len(),
                        value == Value::End(*start, *end),
                        declared == self.grammar().sections,
                        wanted == delimited_by(start@, end@),
                        forall|j: int| 0 <= j < i ==> !wanted(#[trigger] declared[j]),
                    decreases self.sections.len() - i,
                {
                    let section = &self.sections[i];
                    if section.end == *end && section.start == *start {
                        proof {
                            assert(wanted(declared[i as int]));
                            lemma_first_where_is(declared, wanted, i as int);
                        }
                        return Ok(StartOrSection::Section(section));
                    }
                    i += 1;
                }
                proof {
                    lemma_first_where_none(declared, wanted);
                }
                Err(())
            },
        }
    }

    /// Classifies a text that is neither keyword nor symbol: an integer if
    /// it reads as one, else a floating-point literal if it reads as one,
    /// else an identifier that keeps the text as it is.
    pub fn is_numeric(&self, token: &String, loc: Loc) -> (t: Token)
        ensures
            t@ == numeric(token@, place_of(loc)),
    {
        let chars = chars_of(token.as_str());
        match parse_unsigned(&chars) {
            Some(value) => Token::Integer(value, loc),
            None => if is_float_text(&chars) {
                Token::Float(token.clone(), loc)
            } else {
                Token::Ident(token.clone(), loc)
            },
        }
    }

    fn has_keyword(&self, token: &String) -> (r: bool)
        ensures
            r == self.grammar().keywords.contains(token@),
    {
        let ghost words = self.grammar().keywords;
        let mut i: usize = 0;
        while i < self.keywords.len()
            invariant
                i <= self.keywords.len(),
                words == self.grammar().keywords,
                forall|j: int| 0 <= j < i ==> words[j] != token@,
            decreases self.keywords.len() - i,
        {
            if self.keywords[i] == *token {
                assert(words[i as int] == token@);
                return true;
            }
            i += 1;
        }
        false
    }

    /// Classifies a completed text that begins at `loc`: nothing, a
    /// keyword, a symbol, a section written with one-character markers, a
    /// number or an identifier, tried in this order.
    pub fn lex_token(&self, token: &String, loc: Loc) -> (r: Option<Token>)
        ensures
            view_of(r) == lex(self.grammar(), token@, place_of(loc)),
    {
        let chars = chars_of(token.as_str());
        if chars.len() == 1 && chars[0] == '\n' {
            assert(token@ =~= seq!['\n']);
            None
        } else if chars.len() == 0 {
            if self.allow_whitespace {
                let mut blank = String::new();
                push_char(&mut blank, ' ');
                assert(blank@ =~= seq![' ']);
                Some(Token::Ident(blank, loc))
            } else {
                None
            }
        } else if self.has_keyword(token) {
            Some(Token::Keyword(token.clone(), loc))
        } else if chars.len() == 1 {
            match self.symbols_contain(&chars[0]) {
                Some(name) => Some(Token::Symbol(chars[0], name.to_owned(), loc)),
                None => Some(self.is_numeric(token, loc)),
            }
        } else {
            let n = chars.len();
            let first = string_of(&chars, 0, 1);
            let last = string_of(&chars, n - 1, n);
            assert(first@ =~= seq![token@.first()]);
            assert(last@ =~= seq![token@.last()]);
            match self.section_exists(first.as_str(), last.as_str()) {
                Ok(name) => Some(Token::Section(name, string_of(&chars, 1, n - 1), loc)),
                Err(_) => Some(self.is_numeric(token, loc)),
            }
        }
    }
}

} // verus!
