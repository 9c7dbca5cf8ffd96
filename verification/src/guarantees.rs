//! What holds of every scan: theorems about `scan`, proved once and for
//! all grammars and buffers that meet their conditions.

use vstd::prelude::*;
use crate::grammar::{
    declares, delimited_by, enclosing_section, lex, numeric, spaced, symbol_name, with_space,
    Grammar, SectionView,
};
use crate::position::{place_at, NEWLINE};
use crate::scan::{
    body_from, breaks, breaks_near, closes_at, lemma_body_bounds, occurs_at, reads_as, scan,
    scan_from, starts_at, word, Body, Scan, BACKSLASH, FIRST_WIDE, SPACE,
};
use crate::search::{
    first_where, lemma_first_where, lemma_first_where_is, lemma_first_where_none,
    lemma_first_where_push, none_where,
};
use crate::text::{byte_text, char_bytes, is_byte_text};
use crate::token::{Place, TokenView};

verus! {

/// The byte `b` is single-byte text and no backslash.
pub open spec fn plain_byte(b: u8) -> bool {
    b < FIRST_WIDE && b != BACKSLASH
}

/// The first place of any buffer: line one, column one.
pub open spec fn first_place() -> Place {
    Place { line: 1, column: 1 }
}

/// A character of single-byte text and its byte stand for each other.
proof fn lemma_char_byte(c: char)
    requires
        c <= '\u{7f}',
    ensures
        reads_as(c as u8, c),
{
    assert(c as u32 <= 0x7f);
    assert(c as u8 == c as u32);
}

/// Over a stretch of plain bytes at which no section closes, the text of
/// an open section just grows by those bytes.
pub proof fn lemma_plain_stretch(
    buf: Seq<u8>,
    sections: Seq<SectionView>,
    start: Seq<char>,
    q: int,
    text: Seq<char>,
    n: int,
)
    requires
        0 <= q,
        0 <= n,
        q + n <= buf.len(),
        forall|p: int| q <= p < q + n ==> plain_byte(#[trigger] buf[p]),
        forall|p: int|
            q <= p < q + n ==> none_where(sections, #[trigger] closes_at(buf, p, start)),
    ensures
        body_from(buf, sections, start, q, text) == body_from(
            buf,
            sections,
            start,
            q + n,
            text + byte_text(buf.subrange(q, q + n)),
        ),
    decreases n,
{
    if n == 0 {
        assert(text + byte_text(buf.subrange(q, q)) =~= text);
    } else {
        assert(plain_byte(buf[q]));
        assert(none_where(sections, closes_at(buf, q, start)));
        lemma_first_where_none(sections, closes_at(buf, q, start));
        lemma_plain_stretch(buf, sections, start, q + 1, text.push(buf[q] as char), n - 1);
        assert(text.push(buf[q] as char) + byte_text(buf.subrange(q + 1, q + n)) =~= text
            + byte_text(buf.subrange(q, q + n)));
    }
}

/// A marker of single-byte text stands where the buffer holds its bytes.
proof fn lemma_marker_stands(buf: Seq<u8>, i: int, marker: Seq<char>)
    requires
        marker.len() > 0,
        is_byte_text(marker),
        0 <= i,
        i + marker.len() <= buf.len(),
        buf.subrange(i, i + marker.len()) == char_bytes(marker),
    ensures
        occurs_at(buf, i, marker),
{
    assert forall|t: int| 0 <= t < marker.len() implies reads_as(
        buf[i + t],
        #[trigger] marker[t],
    ) by {
        assert(buf[i + t] == buf.subrange(i, i + marker.len())[t]);
        assert(buf[i + t] == char_bytes(marker)[t]);
        lemma_char_byte(marker[t]);
    }
}

/// Where the start marker of a section begins the buffer and the text
/// behind it is closed by that section at the very end of the buffer, the
/// scan yields that section's token and nothing else.
proof fn lemma_one_section(g: Grammar, buf: Seq<u8>, j: int, text: Seq<char>)
    requires
        0 <= j < g.sections.len(),
        occurs_at(buf, 0, g.sections[j].start),
        forall|x: int|
            0 <= x < g.sections.len() && occurs_at(buf, 0, (#[trigger] g.sections[x]).start)
                ==> g.sections[x].start == g.sections[j].start,
        body_from(
            buf,
            g.sections,
            g.sections[j].start,
            g.sections[j].start.len() as int,
            Seq::empty(),
        ) == (Body::Closed { by: j, text, next: buf.len() as int }),
    ensures
        scan(g, buf) == Scan::Done(
            seq![TokenView::Section(g.sections[j].name, text, first_place())],
        ),
{
    assert(reads_as(buf[0int + 0], g.sections[j].start[0]));
    assert(starts_at(buf, 0)(g.sections[j]));
    lemma_first_where(g.sections, starts_at(buf, 0));
    let opened = first_where(g.sections, starts_at(buf, 0))->0;
    assert(g.sections[opened].start == g.sections[j].start);
    assert(scan_from(g, buf, buf.len() as int, buf.len() as int) == Scan::Done(Seq::empty()));
    assert(place_at(buf, 0) == first_place());
    let token = TokenView::Section(g.sections[j].name, text, first_place());
    assert(Seq::<TokenView>::empty().push(token) + Seq::<TokenView>::empty() =~= seq![token]);
}

/// A section on its own comes back as one token.
///
/// Take a declared section and a payload of plain bytes, and let the
/// buffer be the start marker, the payload and the end marker. Let the
/// markers be single-byte text and the end marker not begin with a
/// backslash. Let no section with another start marker begin the buffer,
/// let no section with this start marker close within the payload, and let
/// this section be the first to close behind it. Then the scan yields
/// exactly one token: this section, with the payload as its text, at the
/// first place.
pub proof fn section_alone(g: Grammar, buf: Seq<u8>, j: int, payload: Seq<u8>)
    requires
        0 <= j < g.sections.len(),
        g.sections[j].start.len() > 0,
        g.sections[j].end.len() > 0,
        is_byte_text(g.sections[j].start),
        is_byte_text(g.sections[j].end),
        g.sections[j].end[0] != '\\',
        forall|t: int| 0 <= t < payload.len() ==> plain_byte(#[trigger] payload[t]),
        buf == char_bytes(g.sections[j].start) + payload + char_bytes(g.sections[j].end),
        forall|x: int|
            0 <= x < g.sections.len() && occurs_at(buf, 0, (#[trigger] g.sections[x]).start)
                ==> g.sections[x].start == g.sections[j].start,
        forall|p: int|
            g.sections[j].start.len() <= p < g.sections[j].start.len() + payload.len()
                ==> none_where(g.sections, #[trigger] closes_at(buf, p, g.sections[j].start)),
        forall|x: int|
            0 <= x < j ==> !closes_at(
                buf,
                (g.sections[j].start.len() + payload.len()) as int,
                g.sections[j].start,
            )(#[trigger] g.sections[x]),
    ensures
        scan(g, buf) == Scan::Done(
            seq![TokenView::Section(g.sections[j].name, byte_text(payload), first_place())],
        ),
{
    let start = g.sections[j].start;
    let end = g.sections[j].end;
    let n0 = start.len() as int;
    let p = n0 + payload.len();
    assert(buf.subrange(0, n0) =~= char_bytes(start));
    assert(buf.subrange(p, p + end.len()) =~= char_bytes(end));
    lemma_marker_stands(buf, 0, start);
    lemma_marker_stands(buf, p, end);
    assert forall|q: int| n0 <= q < p implies plain_byte(#[trigger] buf[q]) by {
        assert(buf[q] == payload[q - n0]);
    }
    lemma_plain_stretch(buf, g.sections, start, n0, Seq::empty(), payload.len() as int);
    let text = Seq::<char>::empty() + byte_text(buf.subrange(n0, p));
    assert(text =~= byte_text(payload));
    assert(reads_as(buf[p + 0], end[0]));
    assert(closes_at(buf, p, start)(g.sections[j]));
    lemma_first_where_is(g.sections, closes_at(buf, p, start), j);
    assert(body_from(buf, g.sections, start, p, text) == Body::Closed {
        by: j,
        text,
        next: buf.len() as int,
    });
    lemma_one_section(g, buf, j, text);
}

/// A payload between the markers of the only section comes back as that
/// section's text.
///
/// Let the grammar declare one section, with markers of single-byte text
/// and an end marker that does not begin with a backslash. Let the payload
/// be plain bytes, and let the end marker stand nowhere in the buffer
/// before its own place behind the payload. Then scanning start marker,
/// payload and end marker yields exactly one token: the section with the
/// payload as its text.
pub proof fn one_section_round_trip(g: Grammar, buf: Seq<u8>, payload: Seq<u8>)
    requires
        g.sections.len() == 1,
        g.sections[0].start.len() > 0,
        g.sections[0].end.len() > 0,
        is_byte_text(g.sections[0].start),
        is_byte_text(g.sections[0].end),
        g.sections[0].end[0] != '\\',
        forall|t: int| 0 <= t < payload.len() ==> plain_byte(#[trigger] payload[t]),
        buf == char_bytes(g.sections[0].start) + payload + char_bytes(g.sections[0].end),
        forall|p: int|
            g.sections[0].start.len() <= p < g.sections[0].start.len() + payload.len()
                ==> !#[trigger] occurs_at(buf, p, g.sections[0].end),
    ensures
        scan(g, buf) == Scan::Done(
            seq![TokenView::Section(g.sections[0].name, byte_text(payload), first_place())],
        ),
{
    let start = g.sections[0].start;
    assert forall|p: int| start.len() <= p < start.len() + payload.len() implies none_where(
        g.sections,
        #[trigger] closes_at(buf, p, start),
    ) by {
        assert(!occurs_at(buf, p, g.sections[0].end));
    }
    section_alone(g, buf, 0, payload);
}

/// An escaped end marker does not close its section.
///
/// Take a declared section with markers of single-byte text and no
/// backslash in the end marker, and let the buffer be the start marker, a
/// backslash, the end marker and the end marker once more. Let no section
/// with another start marker begin the buffer, let no section with this
/// start marker close within the rest of the first copy, and let this
/// section be the first to close at the second copy. Then the scan yields
/// exactly one token: this section, with the end marker as its text.
pub proof fn escaped_end_marker(g: Grammar, buf: Seq<u8>, j: int)
    requires
        0 <= j < g.sections.len(),
        g.sections[j].start.len() > 0,
        g.sections[j].end.len() > 0,
        is_byte_text(g.sections[j].start),
        is_byte_text(g.sections[j].end),
        forall|t: int| 0 <= t < g.sections[j].end.len() ==> #[trigger] g.sections[j].end[t] != '\\',
        buf == char_bytes(g.sections[j].start) + seq![BACKSLASH] + char_bytes(g.sections[j].end)
            + char_bytes(g.sections[j].end),
        forall|x: int|
            0 <= x < g.sections.len() && occurs_at(buf, 0, (#[trigger] g.sections[x]).start)
                ==> g.sections[x].start == g.sections[j].start,
        forall|p: int|
            g.sections[j].start.len() + 2 <= p < g.sections[j].start.len() + 1
                + g.sections[j].end.len() ==> none_where(
                g.sections,
                #[trigger] closes_at(buf, p, g.sections[j].start),
            ),
        forall|x: int|
            0 <= x < j ==> !closes_at(
                buf,
                (g.sections[j].start.len() + 1 + g.sections[j].end.len()) as int,
                g.sections[j].start,
            )(#[trigger] g.sections[x]),
    ensures
        scan(g, buf) == Scan::Done(
            seq![TokenView::Section(g.sections[j].name, g.sections[j].end, first_place())],
        ),
{
    let start = g.sections[j].start;
    let end = g.sections[j].end;
    let n0 = start.len() as int;
    let m = end.len() as int;
    let p = n0 + 1 + m;
    assert(buf.subrange(0, n0) =~= char_bytes(start));
    assert(buf.subrange(n0 + 1, p) =~= char_bytes(end));
    assert(buf.subrange(p, p + m) =~= char_bytes(end));
    lemma_marker_stands(buf, 0, start);
    lemma_marker_stands(buf, n0 + 1, end);
    lemma_marker_stands(buf, p, end);
    let first = seq![end[0]];
    assert(buf[n0] == BACKSLASH);
    assert(reads_as(buf[n0 + 1 + 0], end[0]));
    assert(Seq::<char>::empty().push(buf[n0 + 1] as char) =~= first);
    assert(body_from(buf, g.sections, start, n0, Seq::empty()) == body_from(
        buf,
        g.sections,
        start,
        n0 + 2,
        first,
    ));
    assert forall|q: int| n0 + 2 <= q < n0 + 2 + (m - 1) implies plain_byte(#[trigger] buf[q]) by {
        assert(reads_as(buf[n0 + 1 + (q - n0 - 1)], end[q - n0 - 1]));
    }
    lemma_plain_stretch(buf, g.sections, start, n0 + 2, first, m - 1);
    let text = first + byte_text(buf.subrange(n0 + 2, p));
    assert(text =~= end) by {
        assert forall|t: int| 0 <= t < m implies text[t] == end[t] by {
            assert(reads_as(buf[n0 + 1 + t], end[t]));
        }
    }
    assert(reads_as(buf[p + 0], end[0]));
    assert(closes_at(buf, p, start)(g.sections[j]));
    lemma_first_where_is(g.sections, closes_at(buf, p, start), j);
    assert(body_from(buf, g.sections, start, p, text) == Body::Closed {
        by: j,
        text,
        next: buf.len() as int,
    });
    lemma_one_section(g, buf, j, text);
}

/// Of two sections with the same start marker, the end marker tells which
/// one a text belongs to.
///
/// Let the grammar declare two sections that share their start marker, with
/// markers of single-byte text, and let the first one's end marker not
/// begin the second one's. Then scanning the start marker followed by the
/// second section's end marker yields exactly one token, and it bears the
/// second section's name.
pub proof fn shared_start_told_by_end(g: Grammar, buf: Seq<u8>)
    requires
        g.sections.len() == 2,
        g.sections[0].start == g.sections[1].start,
        g.sections[1].start.len() > 0,
        g.sections[1].end.len() > 0,
        is_byte_text(g.sections[1].start),
        is_byte_text(g.sections[1].end),
        g.sections[1].end[0] != '\\',
        !(g.sections[0].end.len() > 0 && g.sections[0].end.is_prefix_of(g.sections[1].end)),
        buf == char_bytes(g.sections[1].start) + char_bytes(g.sections[1].end),
    ensures
        scan(g, buf) == Scan::Done(
            seq![TokenView::Section(g.sections[1].name, Seq::empty(), first_place())],
        ),
{
    let start = g.sections[1].start;
    let end = g.sections[1].end;
    let other = g.sections[0].end;
    let n0 = start.len() as int;
    let payload = Seq::<u8>::empty();
    assert(buf =~= char_bytes(start) + payload + char_bytes(end));
    if occurs_at(buf, n0, other) {
        assert forall|t: int| 0 <= t < other.len() implies other[t] == end[t] by {
            assert(reads_as(buf[n0 + t], other[t]));
            assert(buf[n0 + t] == char_bytes(end)[t]);
            lemma_char_byte(end[t]);
        }
        assert(other =~= end.subrange(0, other.len() as int));
    }
    assert(!closes_at(buf, n0, start)(g.sections[0]));
    section_alone(g, buf, 1, payload);
    assert(byte_text(payload) =~= Seq::<char>::empty());
}

/// The byte `b` is a declared symbol, a space or a line end.
pub open spec fn symbol_or_blank(g: Grammar, b: u8) -> bool {
    b < FIRST_WIDE && (b == SPACE || b == NEWLINE || symbol_name(g.symbols, b as char) is Some)
}

/// One symbol token for every byte of `buf` from index `i` on that is
/// neither space nor line end, in the order of the bytes: each with the
/// character, the name it is declared with, and its place.
pub open spec fn symbol_tokens(g: Grammar, buf: Seq<u8>, i: int) -> Seq<TokenView>
    decreases buf.len() - i,
{
    if i < 0 || i >= buf.len() {
        Seq::empty()
    } else if buf[i] == SPACE || buf[i] == NEWLINE {
        symbol_tokens(g, buf, i + 1)
    } else {
        seq![
            TokenView::Symbol(
                buf[i] as char,
                symbol_name(g.symbols, buf[i] as char)->0,
                place_at(buf, i),
            ),
        ] + symbol_tokens(g, buf, i + 1)
    }
}

/// The tokens that are symbols.
pub open spec fn symbols() -> spec_fn(TokenView) -> bool {
    |t: TokenView| t is Symbol
}

proof fn lemma_symbols_from(g: Grammar, buf: Seq<u8>, i: int)
    requires
        0 <= i <= buf.len(),
        forall|t: int| 0 <= t < buf.len() ==> symbol_or_blank(g, #[trigger] buf[t]),
        forall|t: int|
            0 <= t < buf.len() ==> none_where(g.sections, #[trigger] starts_at(buf, t)),
        forall|t: int|
            0 <= t < buf.len() ==> !g.keywords.contains(seq![(#[trigger] buf[t]) as char]),
    ensures
        scan_from(g, buf, i, i) matches Scan::Done(tokens) && tokens.filter(symbols())
            == symbol_tokens(g, buf, i) && (!g.allow_whitespace ==> tokens == symbol_tokens(
            g,
            buf,
            i,
        )),
    decreases buf.len() - i,
{
    reveal_with_fuel(Seq::filter, 3);
    if i < buf.len() {
        lemma_symbols_from(g, buf, i + 1);
        let rest = scan_from(g, buf, i + 1, i + 1)->Done_0;
        assert(symbol_or_blank(g, buf[i]));
        assert(none_where(g.sections, starts_at(buf, i)));
        lemma_first_where_none(g.sections, starts_at(buf, i));
        let blank = word(g, buf, i, i);
        assert(byte_text(buf.subrange(i, i)) =~= Seq::<char>::empty());
        assert(blank.filter(symbols()) =~= Seq::<TokenView>::empty());
        assert(!g.allow_whitespace ==> blank =~= Seq::<TokenView>::empty());
        if buf[i] == NEWLINE {
            let none = Seq::<TokenView>::empty();
            let again = if breaks_near(g, buf, i) {
                blank
            } else {
                none
            };
            Seq::filter_distributes_over_add(none, again, symbols());
            Seq::filter_distributes_over_add(none + again, rest, symbols());
            assert((none + again).filter(symbols()) + rest.filter(symbols()) =~= rest.filter(
                symbols(),
            ));
            assert(!g.allow_whitespace ==> (none + again) + rest =~= rest);
        } else if buf[i] == SPACE {
            Seq::filter_distributes_over_add(blank, rest, symbols());
            assert(blank.filter(symbols()) + rest.filter(symbols()) =~= rest.filter(symbols()));
            assert(!g.allow_whitespace ==> blank + rest =~= rest);
        } else {
            let c = buf[i] as char;
            let text = byte_text(buf.subrange(i, i + 1));
            assert(text =~= seq![c]);
            assert(text[0] != '\n');
            assert(!g.keywords.contains(seq![buf[i] as char]));
            let token = TokenView::Symbol(c, symbol_name(g.symbols, c)->0, place_at(buf, i));
            assert(lex(g, text, place_at(buf, i)) == Some(token));
            assert(breaks_near(g, buf, i));
            let one = seq![token];
            assert(word(g, buf, i, i + 1) == one);
            assert(one.filter(symbols()) =~= one);
            Seq::filter_distributes_over_add(one, rest, symbols());
        }
    } else {
        assert(Seq::<TokenView>::empty().filter(symbols()) =~= Seq::<TokenView>::empty());
    }
}

/// A buffer of symbols and blanks yields the symbols.
///
/// Let every byte of the buffer be a declared symbol, a space or a line
/// end, let no section open anywhere in it, and let none of its characters
/// be a keyword by itself. Then the symbol tokens of the scan are exactly
/// one for each byte that is neither space nor line end, in the order of
/// the input. Where whitespace is not kept, the scan yields nothing else.
pub proof fn symbols_only(g: Grammar, buf: Seq<u8>)
    requires
        forall|t: int| 0 <= t < buf.len() ==> symbol_or_blank(g, #[trigger] buf[t]),
        forall|t: int|
            0 <= t < buf.len() ==> none_where(g.sections, #[trigger] starts_at(buf, t)),
        forall|t: int|
            0 <= t < buf.len() ==> !g.keywords.contains(seq![(#[trigger] buf[t]) as char]),
    ensures
        scan(g, buf) matches Scan::Done(tokens) && tokens.filter(symbols()) == symbol_tokens(
            g,
            buf,
            0,
        ) && (!g.allow_whitespace ==> tokens == symbol_tokens(g, buf, 0)),
{
    lemma_symbols_from(g, buf, 0);
}

/// The byte `b` can stand inside a plain token: it is single-byte text,
/// no space, no line end and no declared symbol.
pub open spec fn word_byte(g: Grammar, b: u8) -> bool {
    b < FIRST_WIDE && b != NEWLINE && !breaks(g, b)
}

proof fn lemma_word_from(g: Grammar, buf: Seq<u8>, i: int)
    requires
        0 <= i <= buf.len(),
        buf.len() > 0,
        forall|t: int| 0 <= t < buf.len() ==> word_byte(g, #[trigger] buf[t]),
        forall|t: int|
            0 <= t < buf.len() ==> none_where(g.sections, #[trigger] starts_at(buf, t)),
    ensures
        scan_from(g, buf, i, 0) == Scan::Done(word(g, buf, 0, buf.len() as int)),
    decreases buf.len() - i,
{
    if i < buf.len() {
        lemma_word_from(g, buf, i + 1);
        assert(word_byte(g, buf[i]));
        if i + 1 < buf.len() {
            assert(word_byte(g, buf[i + 1]));
        }
        assert(none_where(g.sections, starts_at(buf, i)));
        lemma_first_where_none(g.sections, starts_at(buf, i));
    }
}

/// A word on its own is classified as a whole.
///
/// Let the buffer be one or more bytes that can stand inside a plain
/// token, and let no section open anywhere in it. Then the scan yields
/// what the classification of the whole text yields, at the first place.
pub proof fn lone_word(g: Grammar, buf: Seq<u8>)
    requires
        buf.len() > 0,
        forall|t: int| 0 <= t < buf.len() ==> word_byte(g, #[trigger] buf[t]),
        forall|t: int|
            0 <= t < buf.len() ==> none_where(g.sections, #[trigger] starts_at(buf, t)),
    ensures
        scan(g, buf) == Scan::Done(
            crate::scan::emitted(lex(g, byte_text(buf), first_place())),
        ),
{
    lemma_word_from(g, buf, 0);
    assert(buf.subrange(0, buf.len() as int) =~= buf);
}

/// A keyword is a keyword, whatever else it looks like.
///
/// Any text that is declared as a keyword, but for the empty text and the
/// lone line end, is classified as that keyword: never as a symbol, a
/// number or an identifier.
pub proof fn keyword_wins(g: Grammar, text: Seq<char>, at: Place)
    requires
        g.keywords.contains(text),
        text.len() > 0,
        text != seq!['\n'],
    ensures
        lex(g, text, at) == Some(TokenView::Keyword(text, at)),
{
}

/// A keyword that stands alone in the buffer is scanned as that keyword.
pub proof fn keyword_alone(g: Grammar, buf: Seq<u8>)
    requires
        buf.len() > 0,
        forall|t: int| 0 <= t < buf.len() ==> word_byte(g, #[trigger] buf[t]),
        forall|t: int|
            0 <= t < buf.len() ==> none_where(g.sections, #[trigger] starts_at(buf, t)),
        g.keywords.contains(byte_text(buf)),
    ensures
        scan(g, buf) == Scan::Done(seq![TokenView::Keyword(byte_text(buf), first_place())]),
{
    lone_word(g, buf);
    assert(word_byte(g, buf[0]));
    assert(byte_text(buf)[0] != '\n');
}

/// A text that reads neither as an unsigned integer nor as a
/// floating-point literal is an identifier, and keeps its text as it is.
pub proof fn other_text_is_ident(text: Seq<char>, at: Place)
    requires
        crate::number::unsigned_of(text) is None,
        !crate::number::is_float_literal(text),
    ensures
        numeric(text, at) == TokenView::Ident(text, at),
{
}

/// A text that reads as an unsigned integer is that integer, also where it
/// could be read as a floating-point literal.
pub proof fn integer_before_float(text: Seq<char>, at: Place)
    requires
        crate::number::unsigned_of(text) is Some,
    ensures
        numeric(text, at) == TokenView::Integer(crate::number::unsigned_of(text)->0, at),
{
}

/// The text `10` is the integer ten.
pub proof fn ten_is_an_integer(at: Place)
    ensures
        numeric(seq!['1', '0'], at) == TokenView::Integer(10, at),
{
    let text = seq!['1', '0'];
    assert(crate::number::without_plus(text) == text);
    assert(text.drop_last() =~= seq!['1']);
    assert(text.drop_last().drop_last() =~= Seq::<char>::empty());
    reveal_with_fuel(crate::number::decimal_value, 3);
    assert(crate::number::decimal_value(text) == 10);
}

/// The text `10.5` is a floating-point literal and no integer.
pub proof fn ten_and_a_half_is_a_float(at: Place)
    ensures
        numeric(seq!['1', '0', '.', '5'], at) == TokenView::Float(seq!['1', '0', '.', '5'], at),
{
    let text = seq!['1', '0', '.', '5'];
    assert(!crate::number::is_digit(text[2]));
    assert(crate::number::unsigned_of(text) is None);
    reveal_with_fuel(crate::number::digits_end, 4);
    assert(crate::number::digits_end(text, 0) == 2);
    assert(crate::number::digits_end(text, 3) == 4);
    assert(crate::number::is_decimal_number(text, 0));
}

/// Declaring the space a second time changes nothing.
pub proof fn space_declared_once(symbols: Seq<(char, Seq<char>)>)
    ensures
        symbol_name(with_space(symbols), ' ') is Some,
        with_space(with_space(symbols)) == with_space(symbols),
{
    lemma_first_where_push(symbols, (' ', "Space"@), declares(' '));
}

/// Declaring the space changes the name of no other character.
proof fn lemma_other_symbols_stay(symbols: Seq<(char, Seq<char>)>, c: char)
    requires
        c != ' ',
    ensures
        symbol_name(with_space(symbols), c) == symbol_name(symbols, c),
{
    lemma_first_where_push(symbols, (' ', "Space"@), declares(c));
    lemma_first_where(symbols, declares(c));
}

/// No stretch of the buffer without a space reads as the text of one space.
proof fn lemma_word_spaced(g: Grammar, buf: Seq<u8>, from: int, to: int)
    requires
        0 <= from <= to <= buf.len(),
        forall|t: int| from <= t < to ==> #[trigger] buf[t] != SPACE,
    ensures
        word(spaced(g), buf, from, to) == word(g, buf, from, to),
{
    let text = byte_text(buf.subrange(from, to));
    if text.len() == 1 {
        assert(text[0] == buf[from] as char);
        assert(buf[from] != SPACE);
        lemma_other_symbols_stay(g.symbols, text[0]);
    }
}

proof fn lemma_scan_spaced(g: Grammar, buf: Seq<u8>, i: int, pending: int)
    requires
        0 <= pending <= i <= buf.len(),
        forall|t: int| pending <= t < i ==> #[trigger] buf[t] != SPACE,
    ensures
        scan_from(spaced(g), buf, i, pending) == scan_from(g, buf, i, pending),
    decreases buf.len() - i,
{
    let h = spaced(g);
    if i >= buf.len() {
        lemma_word_spaced(g, buf, pending, buf.len() as int);
    } else if buf[i] >= FIRST_WIDE {
    } else {
        assert(breaks(h, buf[i]) == breaks(g, buf[i])) by {
            if buf[i] != SPACE {
                lemma_other_symbols_stay(g.symbols, buf[i] as char);
            }
        }
        if i + 1 < buf.len() {
            assert(breaks(h, buf[i + 1]) == breaks(g, buf[i + 1])) by {
                if buf[i + 1] != SPACE {
                    lemma_other_symbols_stay(g.symbols, buf[i + 1] as char);
                }
            }
        }
        assert(breaks_near(h, buf, i) == breaks_near(g, buf, i));
        lemma_word_spaced(g, buf, pending, i);
        lemma_word_spaced(g, buf, i, i);
        match first_where(g.sections, starts_at(buf, i)) {
            Some(opened) => {
                let start = g.sections[opened].start;
                lemma_first_where(g.sections, starts_at(buf, i));
                lemma_body_bounds(buf, g.sections, start, i + start.len(), Seq::empty());
                match body_from(buf, g.sections, start, i + start.len(), Seq::empty()) {
                    Body::Closed { by, text, next } => {
                        lemma_scan_spaced(g, buf, next, next);
                    },
                    _ => {},
                }
            },
            None => {
                lemma_scan_spaced(g, buf, i + 1, i + 1);
                if buf[i] != NEWLINE && buf[i] != SPACE {
                    lemma_word_spaced(g, buf, pending, i + 1);
                    if !breaks_near(g, buf, i) {
                        lemma_scan_spaced(g, buf, i + 1, pending);
                    }
                }
            },
        }
    }
}

/// The declaration of the space changes no token.
///
/// A scan under a grammar and a scan under the same grammar with the space
/// declared as a symbol have the same outcome: the space ends a plain
/// token either way and is never a token itself.
pub proof fn declared_space_is_silent(g: Grammar, buf: Seq<u8>)
    ensures
        scan(spaced(g), buf) == scan(g, buf),
{
    lemma_scan_spaced(g, buf, 0, 0);
}

proof fn lemma_malformed_from(g: Grammar, buf: Seq<u8>, i: int, pending: int)
    requires
        0 <= i,
    ensures
        scan_from(g, buf, i, pending) matches Scan::Malformed(at) ==> i <= at < buf.len()
            && buf[at] >= FIRST_WIDE,
    decreases buf.len() - i,
{
    if i < buf.len() && buf[i] < FIRST_WIDE {
        match first_where(g.sections, starts_at(buf, i)) {
            Some(opened) => {
                let start = g.sections[opened].start;
                lemma_first_where(g.sections, starts_at(buf, i));
                lemma_body_bounds(buf, g.sections, start, i + start.len(), Seq::empty());
                match body_from(buf, g.sections, start, i + start.len(), Seq::empty()) {
                    Body::Closed { by, text, next } => {
                        lemma_malformed_from(g, buf, next, next);
                    },
                    _ => {},
                }
            },
            None => {
                lemma_malformed_from(g, buf, i + 1, i + 1);
                lemma_malformed_from(g, buf, i + 1, pending);
            },
        }
    }
}

/// The scan fails on a byte that is not single-byte text, and on nothing
/// else.
///
/// Where the scan is malformed, the byte it names lies in the buffer and is
/// not single-byte text. So a buffer that holds single-byte text only is
/// always scanned to the end and yields tokens.
pub proof fn fails_only_on_wide_byte(g: Grammar, buf: Seq<u8>)
    ensures
        scan(g, buf) matches Scan::Malformed(at) ==> 0 <= at < buf.len() && buf[at]
            >= FIRST_WIDE,
        (forall|i: int| 0 <= i < buf.len() ==> #[trigger] buf[i] < FIRST_WIDE) ==> scan(g, buf)
            is Done,
{
    lemma_malformed_from(g, buf, 0, 0);
}

/// A word of the scan is never taken for a section.
///
/// A stretch of the buffer that begins where no section opens does not
/// read as a section written with one-character markers: a section whose
/// start marker is its first character would have opened there. So the
/// scan makes section tokens only of the sections it opens.
pub proof fn plain_word_is_no_section(g: Grammar, buf: Seq<u8>, from: int, to: int)
    requires
        0 <= from < to <= buf.len(),
        buf[from] < FIRST_WIDE,
        none_where(g.sections, starts_at(buf, from)),
    ensures
        enclosing_section(g.sections, byte_text(buf.subrange(from, to))) is None,
{
    let text = byte_text(buf.subrange(from, to));
    if text.len() >= 2 {
        let first = seq![text.first()];
        let pair = delimited_by(first, seq![text.last()]);
        lemma_first_where(g.sections, pair);
        match first_where(g.sections, pair) {
            Some(x) => {
                assert(text.first() == buf[from] as char);
                assert(reads_as(buf[from + 0], first[0]));
                assert(occurs_at(buf, from, g.sections[x].start));
                assert(starts_at(buf, from)(g.sections[x]));
            },
            None => {},
        }
    }
}

} // verus!
