//! Tokens: the classified output units of a scan, and the narrow queries a
//! parser makes of them.

use vstd::prelude::*;
use vstd::string::*;
use crate::number::{decimal_text, render_unsigned};
use crate::text::{push_char, quote_char, quote_text, quoted_char, quoted_text, same_text, texts};

verus! {

/// A source location: line and column, both counted from one.
pub type Loc = (usize, usize);

/// A source location as a pair of mathematical numbers.
pub struct Place {
    pub line: nat,
    pub column: nat,
}

/// The place that a location stands for.
pub open spec fn place_of(loc: Loc) -> Place {
    Place { line: loc.0 as nat, column: loc.1 as nat }
}

/// One classified unit of the input, with the location of its first byte.
///
/// A floating-point token carries the literal as it was written; the
/// number it denotes is for the caller to compute.
#[derive(Debug, PartialEq)]
pub enum Token {
    Keyword(String, Loc),
    Section(String, String, Loc),
    Integer(usize, Loc),
    Float(String, Loc),
    Symbol(char, String, Loc),
    Ident(String, Loc),
}

/// The mathematical content of a token.
pub enum TokenView {
    Keyword(Seq<char>, Place),
    Section(Seq<char>, Seq<char>, Place),
    Integer(nat, Place),
    Float(Seq<char>, Place),
    Symbol(char, Seq<char>, Place),
    Ident(Seq<char>, Place),
}

impl TokenView {
    /// The payload of the token written out as text.
    pub open spec fn text(self) -> Seq<char> {
        match self {
            TokenView::Keyword(word, _) => word,
            TokenView::Section(_, body, _) => body,
            TokenView::Integer(value, _) => decimal_text(value),
            TokenView::Float(literal, _) => literal,
            TokenView::Symbol(c, _, _) => seq![c],
            TokenView::Ident(word, _) => word,
        }
    }

    /// Where the token begins.
    pub open spec fn place(self) -> Place {
        match self {
            TokenView::Keyword(_, at) => at,
            TokenView::Section(_, _, at) => at,
            TokenView::Integer(_, at) => at,
            TokenView::Float(_, at) => at,
            TokenView::Symbol(_, _, at) => at,
            TokenView::Ident(_, at) => at,
        }
    }

    /// The payload fields of the token, each written out for inspection:
    /// texts and characters quoted, an integer in decimal, and the literal
    /// of a floating-point token as it stands.
    pub open spec fn fields(self) -> Seq<Seq<char>> {
        match self {
            TokenView::Keyword(word, _) => seq![quoted_text(word)],
            TokenView::Section(name, body, _) => seq![quoted_text(name), quoted_text(body)],
            TokenView::Integer(value, _) => seq![decimal_text(value)],
            TokenView::Float(literal, _) => seq![literal],
            TokenView::Symbol(c, name, _) => seq![quoted_char(c), quoted_text(name)],
            TokenView::Ident(word, _) => seq![quoted_text(word)],
        }
    }

    /// The token written out for inspection: the name of its variant, and
    /// in round brackets its payload fields and its location.
    pub open spec fn written(self) -> Seq<char> {
        composed(self.shape().variant(), self.fields(), self.place())
    }

    /// Which of the six shapes the token has.
    pub open spec fn shape(self) -> Shape {
        match self {
            TokenView::Keyword(_, _) => Shape::Keyword,
            TokenView::Section(_, _, _) => Shape::Section,
            TokenView::Integer(_, _) => Shape::Integer,
            TokenView::Float(_, _) => Shape::Float,
            TokenView::Symbol(_, _, _) => Shape::Symbol,
            TokenView::Ident(_, _) => Shape::Ident,
        }
    }
}

impl View for Token {
    type V = TokenView;

    open spec fn view(&self) -> TokenView {
        match self {
            Token::Keyword(word, loc) => TokenView::Keyword(word@, place_of(*loc)),
            Token::Section(name, body, loc) => TokenView::Section(name@, body@, place_of(*loc)),
            Token::Integer(value, loc) => TokenView::Integer(*value as nat, place_of(*loc)),
            Token::Float(literal, loc) => TokenView::Float(literal@, place_of(*loc)),
            Token::Symbol(c, name, loc) => TokenView::Symbol(*c, name@, place_of(*loc)),
            Token::Ident(word, loc) => TokenView::Ident(word@, place_of(*loc)),
        }
    }
}

/// A location written out: line and column in decimal, in round brackets.
pub open spec fn place_written(at: Place) -> Seq<char> {
    "("@ + decimal_text(at.line) + ", "@ + decimal_text(at.column) + ")"@
}

/// The given fields in a row, each followed by a comma and a space.
pub open spec fn listed(fields: Seq<Seq<char>>) -> Seq<char>
    decreases fields.len(),
{
    if fields.len() == 0 {
        Seq::empty()
    } else {
        listed(fields.drop_last()) + fields.last() + ", "@
    }
}

/// A variant written out: its name, and in round brackets the given
/// fields and the location, with a comma and a space between them.
pub open spec fn composed(variant: Seq<char>, fields: Seq<Seq<char>>, at: Place) -> Seq<char> {
    variant + "("@ + listed(fields) + place_written(at) + ")"@
}

/// Writes a variant out: its name, and in round brackets the given fields,
/// which are taken as they are, and the location.
pub fn compose(variant: &str, fields: &Vec<String>, loc: Loc) -> (s: String)
    ensures
        s@ == composed(variant@, texts(fields@), place_of(loc)),
{
    let mut s = variant.to_owned();
    s.append("(");
    let mut i: usize = 0;
    while i < fields.len()
        invariant
            i <= fields.len(),
            s@ == variant@ + "("@ + listed(texts(fields@).take(i as int)),
        decreases fields.len() - i,
    {
        let ghost upto = texts(fields@).take(i + 1);
        assert(upto.drop_last() =~= texts(fields@).take(i as int));
        assert(upto.last() == fields@[i as int]@);
        s.append(fields[i].as_str());
        s.append(", ");
        assert(s@ =~= variant@ + "("@ + listed(upto));
        i += 1;
    }
    assert(texts(fields@).take(i as int) =~= texts(fields@));
    let ghost head = s@;
    s.append("(");
    s.append(render_unsigned(loc.0).as_str());
    s.append(", ");
    s.append(render_unsigned(loc.1).as_str());
    s.append(")");
    s.append(")");
    assert(s@ =~= head + place_written(place_of(loc)) + ")"@);
    s
}

/// The contents of a run of tokens.
pub open spec fn views(tokens: Seq<Token>) -> Seq<TokenView> {
    tokens.map_values(|t: Token| t@)
}

/// The shape that a query expected of a token.
#[derive(Debug, PartialEq, Eq, Clone, Copy)]
pub enum Shape {
    Keyword,
    Section,
    Integer,
    Float,
    Symbol,
    Ident,
}

impl Shape {
    /// The shape in a word.
    pub open spec fn word(self) -> Seq<char> {
        match self {
            Shape::Keyword => "keyword"@,
            Shape::Section => "section"@,
            Shape::Integer => "integer"@,
            Shape::Float => "float"@,
            Shape::Symbol => "symbol"@,
            Shape::Ident => "ident"@,
        }
    }

    /// The name of the variant with this shape.
    pub open spec fn variant(self) -> Seq<char> {
        match self {
            Shape::Keyword => "Keyword"@,
            Shape::Section => "Section"@,
            Shape::Integer => "Integer"@,
            Shape::Float => "Float"@,
            Shape::Symbol => "Symbol"@,
            Shape::Ident => "Ident"@,
        }
    }

    /// The name of the variant with this shape.
    pub fn variant_name(&self) -> (r: &'static str)
        ensures
            r@ == self.variant(),
    {
        match self {
            Shape::Keyword => "Keyword",
            Shape::Section => "Section",
            Shape::Integer => "Integer",
            Shape::Float => "Float",
            Shape::Symbol => "Symbol",
            Shape::Ident => "Ident",
        }
    }

    /// The shape in a word.
    pub fn name(&self) -> (r: &'static str)
        ensures
            r@ == self.word(),
    {
        match self {
            Shape::Keyword => "keyword",
            Shape::Section => "section",
            Shape::Integer => "integer",
            Shape::Float => "float",
            Shape::Symbol => "symbol",
            Shape::Ident => "ident",
        }
    }
}

/// A query met a token of another shape, or of the right shape under
/// another name.
#[derive(Debug, PartialEq)]
pub struct Mismatch {
    /// What the query asked for.
    pub expected: Shape,
    /// The token it was asked of.
    pub found: Token,
}

impl Clone for Token {
    fn clone(&self) -> (t: Token)
        ensures
            t == *self,
    {
        match self {
            Token::Keyword(word, loc) => Token::Keyword(word.clone(), *loc),
            Token::Section(name, body, loc) => Token::Section(name.clone(), body.clone(), *loc),
            Token::Integer(value, loc) => Token::Integer(*value, *loc),
            Token::Float(literal, loc) => Token::Float(literal.clone(), *loc),
            Token::Symbol(c, name, loc) => Token::Symbol(*c, name.clone(), *loc),
            Token::Ident(word, loc) => Token::Ident(word.clone(), *loc),
        }
    }
}

impl Mismatch {
    /// The mismatch in words.
    pub open spec fn text(self) -> Seq<char> {
        "expected "@ + self.expected.word() + ": "@ + self.found@.written()
    }

    /// The mismatch in words: the shape that was expected, a colon, and
    /// the token that was found, written out for inspection.
    pub fn message(&self) -> (s: String)
        ensures
            s@ == self.text(),
    {
        let mut s = "expected ".to_owned();
        s.append(self.expected.name());
        s.append(": ");
        s.append(self.found.written().as_str());
        s
    }
}

impl Token {
    /// Which of the six shapes the token has.
    pub fn shape(&self) -> (r: Shape)
        ensures
            r == self@.shape(),
    {
        match self {
            Token::Keyword(_, _) => Shape::Keyword,
            Token::Section(_, _, _) => Shape::Section,
            Token::Integer(_, _) => Shape::Integer,
            Token::Float(_, _) => Shape::Float,
            Token::Symbol(_, _, _) => Shape::Symbol,
            Token::Ident(_, _) => Shape::Ident,
        }
    }

    /// The payload fields, each written out for inspection.
    pub fn fields(&self) -> (r: Vec<String>)
        ensures
            texts(r@) == self@.fields(),
    {
        let r = match self {
            Token::Keyword(word, _) => vec![quote_text(word.as_str())],
            Token::Section(name, body, _) => vec![
                quote_text(name.as_str()),
                quote_text(body.as_str()),
            ],
            Token::Integer(value, _) => vec![render_unsigned(*value)],
            Token::Float(literal, _) => vec![literal.clone()],
            Token::Symbol(c, name, _) => vec![quote_char(*c), quote_text(name.as_str())],
            Token::Ident(word, _) => vec![quote_text(word.as_str())],
        };
        assert(texts(r@) =~= self@.fields());
        r
    }

    /// The token written out for inspection: the name of its variant, and
    /// in round brackets its payload fields and its location.
    pub fn written(&self) -> (s: String)
        ensures
            s@ == self@.written(),
    {
        compose(self.shape().variant_name(), &self.fields(), self.loc())
    }

    /// The payload written out as text: the word, the section body, the
    /// literal, the symbol character, or the integer in decimal.
    pub fn as_string(&self) -> (s: String)
        ensures
            s@ == self@.text(),
    {
        match self {
            Token::Keyword(word, _) => word.clone(),
            Token::Section(_, body, _) => body.clone(),
            Token::Integer(value, _) => render_unsigned(*value),
            Token::Float(literal, _) => literal.clone(),
            Token::Symbol(c, _, _) => {
                let mut s = String::new();
                push_char(&mut s, *c);
                s
            },
            Token::Ident(word, _) => word.clone(),
        }
    }

    /// Where the token begins.
    pub fn loc(&self) -> (at: Loc)
        ensures
            place_of(at) == self@.place(),
    {
        match self {
            Token::Keyword(_, loc) => *loc,
            Token::Section(_, _, loc) => *loc,
            Token::Integer(_, loc) => *loc,
            Token::Float(_, loc) => *loc,
            Token::Symbol(_, _, loc) => *loc,
            Token::Ident(_, loc) => *loc,
        }
    }

    fn mismatch(&self, expected: Shape) -> (e: Mismatch)
        ensures
            e.expected == expected,
            e.found == *self,
    {
        Mismatch { expected, found: self.clone() }
    }

    /// Succeeds exactly on the keyword token that reads `keyword`.
    pub fn is_keyword(&self, keyword: &str) -> (r: Result<(), Mismatch>)
        ensures
            r is Ok <==> (self@ matches TokenView::Keyword(word, _) && word == keyword@),
            r matches Err(e) ==> e.expected == Shape::Keyword && e.found == *self,
    {
        if let Token::Keyword(word, _) = self {
            if same_text(word.as_str(), keyword) {
                return Ok(());
            }
        }
        Err(self.mismatch(Shape::Keyword))
    }

    /// Succeeds exactly on a section token of the section called `name`, and
    /// then hands out its body.
    pub fn is_section(&self, name: &str) -> (r: Result<String, Mismatch>)
        ensures
            r is Ok <==> (self@ matches TokenView::Section(section, _, _) && section == name@),
            r matches Ok(body) ==> body@ == self@.text(),
            r matches Err(e) ==> e.expected == Shape::Section && e.found == *self,
    {
        if let Token::Section(section, body, _) = self {
            if same_text(name, section.as_str()) {
                return Ok(body.clone());
            }
        }
        Err(self.mismatch(Shape::Section))
    }

    /// Succeeds exactly on an identifier token, and then hands out its word.
    pub fn is_ident(&self) -> (r: Result<String, Mismatch>)
        ensures
            r is Ok <==> self@ is Ident,
            r matches Ok(word) ==> word@ == self@.text(),
            r matches Err(e) ==> e.expected == Shape::Ident && e.found == *self,
    {
        if let Token::Ident(word, _) = self {
            return Ok(word.clone());
        }
        Err(self.mismatch(Shape::Ident))
    }

    /// Succeeds exactly on an integer token, and then hands out its value.
    pub fn is_integer(&self) -> (r: Result<usize, Mismatch>)
        ensures
            r is Ok <==> self@ is Integer,
            r matches Ok(value) ==> self@ matches TokenView::Integer(v, _) && v == value,
            r matches Err(e) ==> e.expected == Shape::Integer && e.found == *self,
    {
        if let Token::Integer(value, _) = self {
            return Ok(*value);
        }
        Err(self.mismatch(Shape::Integer))
    }

    /// Succeeds exactly on a floating-point token, and then hands out the
    /// literal as it was written.
    pub fn is_float(&self) -> (r: Result<String, Mismatch>)
        ensures
            r is Ok <==> self@ is Float,
            r matches Ok(literal) ==> literal@ == self@.text(),
            r matches Err(e) ==> e.expected == Shape::Float && e.found == *self,
    {
        if let Token::Float(literal, _) = self {
            return Ok(literal.clone());
        }
        Err(self.mismatch(Shape::Float))
    }

    /// Succeeds exactly on a symbol token whose symbol is called `name`.
    pub fn is_symbol(&self, name: &str) -> (r: Result<(), Mismatch>)
        ensures
            r is Ok <==> (self@ matches TokenView::Symbol(_, symbol, _) && symbol == name@),
            r matches Err(e) ==> e.expected == Shape::Symbol && e.found == *self,
    {
        if let Token::Symbol(_, symbol, _) = self {
            if same_text(symbol.as_str(), name) {
                return Ok(());
            }
        }
        Err(self.mismatch(Shape::Symbol))
    }
}

} // verus!
