//! Conversions between bytes, characters and strings.

use vstd::prelude::*;
use vstd::string::*;

verus! {

/// The characters that a run of single-byte text stands for: each byte is
/// read as the character with the same code.
pub open spec fn byte_text(bytes: Seq<u8>) -> Seq<char> {
    bytes.map_values(|b: u8| b as char)
}

/// The bytes that a text is written with where every character takes one
/// byte: each character gives the byte with the same code.
pub open spec fn char_bytes(text: Seq<char>) -> Seq<u8> {
    text.map_values(|c: char| c as u8)
}

/// Every character of `text` is single-byte text, that is, has a code
/// below 128.
pub open spec fn is_byte_text(text: Seq<char>) -> bool {
    forall|i: int| 0 <= i < text.len() ==> (#[trigger] text[i]) <= '\u{7f}'
}

/// The texts of a run of strings.
pub open spec fn texts(strings: Seq<String>) -> Seq<Seq<char>> {
    strings.map_values(|s: String| s@)
}

/// Appends one character to a string.
///
/// Trusted: calls `String::push`, which is documented to append the given
/// character to the end of the string and to leave the rest untouched.
#[verifier::external_body]
pub(crate) fn push_char(s: &mut String, c: char)
    ensures
        final(s)@ == old(s)@.push(c),
{
    s.push(c)
}

/// The text `s` as it is written out for inspection: between double
/// quotes, with quotes, backslashes and characters that do not print
/// written as escapes.
pub uninterp spec fn quoted_text(s: Seq<char>) -> Seq<char>;

/// The character `c` as it is written out for inspection: between single
/// quotes, with a quote, a backslash or a character that does not print
/// written as an escape.
pub uninterp spec fn quoted_char(c: char) -> Seq<char>;

/// Writes a text out for inspection.
///
/// Trusted: formats `s` with `{:?}`, that is with `<str as Debug>::fmt`.
/// What that writes depends on the text alone; the contract gives it a
/// name and claims nothing else of it.
#[verifier::external_body]
pub(crate) fn quote_text(s: &str) -> (r: String)
    ensures
        r@ == quoted_text(s@),
{
    format!("{:?}", s)
}

/// Writes a character out for inspection.
///
/// Trusted: formats `c` with `{:?}`, that is with `<char as Debug>::fmt`.
/// What that writes depends on the character alone; the contract gives it
/// a name and claims nothing else of it.
#[verifier::external_body]
pub(crate) fn quote_char(c: char) -> (r: String)
    ensures
        r@ == quoted_char(c),
{
    format!("{:?}", c)
}

/// The characters of a string slice, in order.
pub fn chars_of(s: &str) -> (v: Vec<char>)
    ensures
        v@ == s@,
{
    let mut v: Vec<char> = Vec::new();
    for c in it: s.chars()
        invariant
            v@ == s@.take(it.index() as int),
            it.seq() == s@,
    {
        v.push(c);
    }
    v
}

/// The string made of the characters of `chars` from index `from` up to
/// index `to`.
pub(crate) fn string_of(chars: &Vec<char>, from: usize, to: usize) -> (s: String)
    requires
        from <= to <= chars.len(),
    ensures
        s@ == chars@.subrange(from as int, to as int),
{
    let mut s = String::new();
    let mut i: usize = from;
    while i < to
        invariant
            from <= i <= to <= chars.len(),
            s@ == chars@.subrange(from as int, i as int),
        decreases to - i,
    {
        push_char(&mut s, chars[i]);
        assert(s@ =~= chars@.subrange(from as int, i + 1));
        i += 1;
    }
    s
}

/// Tells whether two string slices hold the same text.
pub fn same_text(a: &str, b: &str) -> (r: bool)
    ensures
        r == (a@ == b@),
{
    let x = a.to_owned();
    let y = b.to_owned();
    x == y
}

} // verus!
