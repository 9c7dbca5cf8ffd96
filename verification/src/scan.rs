//! What a scan yields: the token sequence of a buffer under a grammar,
//! stated as a function of the two.
//!
//! The scan reads single-byte text. Outside a section it gathers a plain
//! token byte by byte and hands it on when a line ends, when the byte just
//! read or the byte that follows is a symbol or a space, when a section
//! opens, and when the buffer ends. A symbol or a space hands on an empty
//! token too, which becomes a token for whitespace where the grammar keeps
//! whitespace; a line end, a section and the end of the buffer hand on
//! only what is there. Inside a section the scan gathers raw text until
//! the end marker of a section with the same start marker occurs.
//! Every token carries the place of its first byte; a token that stands
//! for whitespace carries the place of the byte that caused it.

use vstd::prelude::*;
use crate::grammar::{ends_for, lex, section_name, symbol_name, Grammar, SectionView};
use crate::position::{place_at, NEWLINE};
use crate::search::{first_where, lemma_first_where};
use crate::text::byte_text;
use crate::token::TokenView;

verus! {

/// The space byte. It is never part of a plain token.
pub const SPACE: u8 = 32;

/// The backslash byte. Inside a section it makes the next byte literal.
pub const BACKSLASH: u8 = 92;

/// The first byte that is not single-byte text.
pub const FIRST_WIDE: u8 = 128;

/// The byte `b` is single-byte text and stands for the character `c`.
pub open spec fn reads_as(b: u8, c: char) -> bool {
    b < FIRST_WIDE && c == b as char
}

/// The marker `marker` stands in `buf` at index `i`: it is not empty, and
/// byte for byte the buffer holds its characters as single-byte text. An
/// empty marker, or one with a character beyond single-byte text, occurs
/// nowhere.
pub open spec fn occurs_at(buf: Seq<u8>, i: int, marker: Seq<char>) -> bool {
    &&& marker.len() > 0
    &&& 0 <= i
    &&& i + marker.len() <= buf.len()
    &&& forall|j: int| 0 <= j < marker.len() ==> reads_as(buf[i + j], #[trigger] marker[j])
}

/// The sections whose start marker stands in `buf` at index `i`.
pub open spec fn starts_at(buf: Seq<u8>, i: int) -> spec_fn(SectionView) -> bool {
    |s: SectionView| occurs_at(buf, i, s.start)
}

/// The sections that begin with `start` and whose end marker stands in
/// `buf` at index `q`.
pub open spec fn closes_at(buf: Seq<u8>, q: int, start: Seq<char>) -> spec_fn(SectionView) -> bool {
    |s: SectionView| s.start == start && occurs_at(buf, q, s.end)
}

/// How the text of an open section went on.
pub enum Body {
    /// The section number `by` is the first to close the text: `text` is
    /// what came before its end marker, and `next` is the index behind that
    /// marker.
    Closed { by: int, text: Seq<char>, next: int },
    /// The buffer ended before any end marker; `text` is all there was.
    Open { text: Seq<char> },
    /// The buffer ended right behind a backslash.
    Cut,
    /// The byte at index `at` is not single-byte text.
    Malformed { at: int },
}

/// Reads on from index `q` in a section that was opened by the marker
/// `start`, with `text` gathered so far. A backslash is dropped and the
/// byte behind it is taken as it is, whatever it is. At any other byte the
/// section closes if the end marker of a section that begins with `start`
/// stands there; of several such sections the one declared first closes
/// it.
pub open spec fn body_from(
    buf: Seq<u8>,
    sections: Seq<SectionView>,
    start: Seq<char>,
    q: int,
    text: Seq<char>,
) -> Body
    decreases buf.len() - q,
{
    if q < 0 || q >= buf.len() {
        Body::Open { text }
    } else if buf[q] >= FIRST_WIDE {
        Body::Malformed { at: q }
    } else if buf[q] == BACKSLASH {
        if q + 1 >= buf.len() {
            Body::Cut
        } else {
            body_from(buf, sections, start, q + 2, text.push(buf[q + 1] as char))
        }
    } else {
        match first_where(sections, closes_at(buf, q, start)) {
            Some(by) => Body::Closed { by, text, next: q + sections[by].end.len() },
            None => body_from(buf, sections, start, q + 1, text.push(buf[q] as char)),
        }
    }
}

/// A closed section ends behind where its text began and within the
/// buffer, and a malformed byte lies within the buffer.
pub proof fn lemma_body_bounds(
    buf: Seq<u8>,
    sections: Seq<SectionView>,
    start: Seq<char>,
    q: int,
    text: Seq<char>,
)
    requires
        0 <= q,
    ensures
        body_from(buf, sections, start, q, text) matches Body::Closed { by, next, .. } ==> 0
            <= by < sections.len() && q < next <= buf.len(),
        body_from(buf, sections, start, q, text) matches Body::Malformed { at } ==> q <= at
            < buf.len() && buf[at] >= FIRST_WIDE,
    decreases buf.len() - q,
{
    if q >= buf.len() {
    } else if buf[q] >= FIRST_WIDE {
    } else if buf[q] == BACKSLASH {
        if q + 1 < buf.len() {
            lemma_body_bounds(buf, sections, start, q + 2, text.push(buf[q + 1] as char));
        }
    } else {
        lemma_first_where(sections, closes_at(buf, q, start));
        if first_where(sections, closes_at(buf, q, start)) is None {
            lemma_body_bounds(buf, sections, start, q + 1, text.push(buf[q] as char));
        }
    }
}

/// The outcome of a scan.
pub enum Scan {
    /// The tokens, in the order of the input.
    Done(Seq<TokenView>),
    /// The byte at this index is not single-byte text; there are no tokens.
    Malformed(int),
}

/// The outcome `rest` with `tokens` put in front of its tokens.
pub open spec fn prepend(tokens: Seq<TokenView>, rest: Scan) -> Scan {
    match rest {
        Scan::Done(more) => Scan::Done(tokens + more),
        Scan::Malformed(at) => Scan::Malformed(at),
    }
}

/// No token or one, as a sequence.
pub open spec fn emitted(token: Option<TokenView>) -> Seq<TokenView> {
    match token {
        Some(t) => seq![t],
        None => Seq::empty(),
    }
}

/// What handing on the plain token `buf[from..to]` yields. Where the range
/// is empty this is the whitespace token, if the grammar keeps whitespace.
pub open spec fn word(g: Grammar, buf: Seq<u8>, from: int, to: int) -> Seq<TokenView> {
    emitted(lex(g, byte_text(buf.subrange(from, to)), place_at(buf, from)))
}

/// The byte `b` ends the plain token before it and stands alone: it is a
/// space or a declared symbol.
pub open spec fn breaks(g: Grammar, b: u8) -> bool {
    b == SPACE || symbol_name(g.symbols, b as char) is Some
}

/// The byte at index `i` or the one that follows it breaks.
pub open spec fn breaks_near(g: Grammar, buf: Seq<u8>, i: int) -> bool {
    breaks(g, buf[i]) || (i + 1 < buf.len() && breaks(g, buf[i + 1]))
}

/// The name given to a section that was opened by the marker `start` and
/// never closed: the end marker of the last section declared with this
/// start marker is taken for its end, and the first section declared with
/// this pair of markers gives the name.
pub open spec fn unclosed_name(sections: Seq<SectionView>, start: Seq<char>) -> Seq<char> {
    match section_name(sections, start, ends_for(sections, start).last()) {
        Some(name) => name,
        None => Seq::empty(),
    }
}

/// The outcome of the scan from index `i` on, outside any section, with a
/// plain token under way since index `pending`.
///
/// - Behind the last byte, a token under way is handed on.
/// - A byte that is not single-byte text makes the scan malformed.
/// - Where a start marker stands, the first section declared with a
///   marker that stands there decides which marker it is. A token under
///   way is handed on, and the text of the section is read. If a section
///   with this start marker closes it, the token bears that section's name
///   and the scan goes on behind its end marker. If the buffer ends first,
///   the token bears the name of an unclosed section. If the buffer ends
///   behind a backslash, the scan stops with what it has.
/// - A line end hands on a token under way. If the line end or the byte
///   that follows breaks, an empty token is handed on as well.
/// - A space hands on the token under way, which is the empty one unless
///   the scan began in the middle of a token.
/// - Any other byte joins the token under way, which is handed on at once
///   if this byte or the one that follows breaks.
pub open spec fn scan_from(g: Grammar, buf: Seq<u8>, i: int, pending: int) -> Scan
    decreases buf.len() - i,
{
    if i < 0 || i >= buf.len() {
        if pending < buf.len() {
            Scan::Done(word(g, buf, pending, buf.len() as int))
        } else {
            Scan::Done(Seq::empty())
        }
    } else if buf[i] >= FIRST_WIDE {
        Scan::Malformed(i)
    } else {
        match first_where(g.sections, starts_at(buf, i)) {
            Some(opened) => {
                let start = g.sections[opened].start;
                let before = if pending < i {
                    word(g, buf, pending, i)
                } else {
                    Seq::empty()
                };
                let at = place_at(buf, i);
                match body_from(buf, g.sections, start, i + start.len(), Seq::empty()) {
                    Body::Malformed { at: bad } => Scan::Malformed(bad),
                    Body::Cut => Scan::Done(before),
                    Body::Open { text } => Scan::Done(
                        before.push(
                            TokenView::Section(unclosed_name(g.sections, start), text, at),
                        ),
                    ),
                    Body::Closed { by, text, next } => {
                        proof {
                            lemma_first_where(g.sections, starts_at(buf, i));
                            lemma_body_bounds(
                                buf,
                                g.sections,
                                start,
                                i + start.len(),
                                Seq::empty(),
                            );
                        }
                        prepend(
                            before.push(TokenView::Section(g.sections[by].name, text, at)),
                            scan_from(g, buf, next, next),
                        )
                    },
                }
            },
            None => {
                if buf[i] == NEWLINE {
                    let before = if pending < i {
                        word(g, buf, pending, i)
                    } else {
                        Seq::empty()
                    };
                    let blank = if breaks_near(g, buf, i) {
                        word(g, buf, i, i)
                    } else {
                        Seq::empty()
                    };
                    prepend(before + blank, scan_from(g, buf, i + 1, i + 1))
                } else if buf[i] == SPACE {
                    prepend(word(g, buf, pending, i), scan_from(g, buf, i + 1, i + 1))
                } else if breaks_near(g, buf, i) {
                    prepend(word(g, buf, pending, i + 1), scan_from(g, buf, i + 1, i + 1))
                } else {
                    scan_from(g, buf, i + 1, pending)
                }
            },
        }
    }
}

/// The outcome of scanning `buf` under the grammar `g`.
pub open spec fn scan(g: Grammar, buf: Seq<u8>) -> Scan {
    scan_from(g, buf, 0, 0)
}

} // verus!
