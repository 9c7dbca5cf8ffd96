//! The scanner itself: the loop that turns the buffer into tokens.

use vstd::prelude::*;
use vstd::pervasive::unreached;
use vstd::string::*;
use crate::grammar::{
    delimited_by, ends_for, lex, section_name, spaced, symbol_views, with_space, Grammar,
    Lexer, SectionView, StartOrSection, Value,
};
use crate::number::{decimal_text, render_unsigned};
use crate::position::{Cursor, NEWLINE};
use crate::scan::{
    body_from, breaks, breaks_near, closes_at, emitted, lemma_body_bounds, occurs_at, prepend,
    reads_as, scan, scan_from, starts_at, word, Body, Scan, BACKSLASH, FIRST_WIDE, SPACE,
};
use crate::search::{
    first_where, is_first_where, lemma_first_where, lemma_first_where_is,
    lemma_first_where_none, none_where,
};
use crate::text::{byte_text, chars_of, push_char, texts};
use crate::token::{place_of, views, Loc, Token, TokenView};

verus! {

/// The scan met a byte that is not single-byte text.
#[derive(Debug, PartialEq, Eq, Clone, Copy)]
pub struct ScanError {
    /// The index of the byte in the buffer.
    pub offset: usize,
    /// The byte itself.
    pub byte: u8,
}

impl ScanError {
    /// The error in words.
    pub open spec fn text(self) -> Seq<char> {
        "byte "@ + decimal_text(self.byte as nat) + " at offset "@ + decimal_text(
            self.offset as nat,
        ) + " is not single-byte text"@
    }

    /// The error in words: the byte and where it stands.
    pub fn message(&self) -> (s: String)
        ensures
            s@ == self.text(),
    {
        let mut s = "byte ".to_owned();
        s.append(render_unsigned(self.byte as usize).as_str());
        s.append(" at offset ");
        s.append(render_unsigned(self.offset).as_str());
        s.append(" is not single-byte text");
        s
    }
}

/// The character sequences of a run of markers.
spec fn marker_views(markers: Seq<Vec<char>>) -> Seq<Seq<char>> {
    markers.map_values(|m: Vec<char>| m@)
}

/// The markers that stand in `buf` at index `i`.
spec fn ends_at(buf: Seq<u8>, i: int) -> spec_fn(Seq<char>) -> bool {
    |e: Seq<char>| occurs_at(buf, i, e)
}

/// How the text of an open section went on, told by the end markers that
/// were tried on it.
enum Reading {
    /// The marker number `which` stands at the first place where any of
    /// them does.
    Closed { which: int, text: Seq<char>, next: int },
    /// The buffer ended before any marker.
    Open { text: Seq<char> },
    /// The buffer ended right behind a backslash.
    Cut,
    /// The byte at index `at` is not single-byte text.
    Malformed { at: int },
}

/// Reads on in an open section from index `q`, with `text` gathered so
/// far, trying the markers `ends` in their order at every byte that is not
/// escaped.
spec fn reading_from(buf: Seq<u8>, ends: Seq<Seq<char>>, q: int, text: Seq<char>)
    -> Reading
    decreases buf.len() - q,
{
    if q < 0 || q >= buf.len() {
        Reading::Open { text }
    } else if buf[q] >= FIRST_WIDE {
        Reading::Malformed { at: q }
    } else if buf[q] == BACKSLASH {
        if q + 1 >= buf.len() {
            Reading::Cut
        } else {
            reading_from(buf, ends, q + 2, text.push(buf[q + 1] as char))
        }
    } else {
        match first_where(ends, ends_at(buf, q)) {
            Some(which) => Reading::Closed { which, text, next: q + ends[which].len() },
            None => reading_from(buf, ends, q + 1, text.push(buf[q] as char)),
        }
    }
}

/// How the reading of a section's text ended.
enum BodyEnd {
    Closed { which: usize, text: String, next: usize },
    Open { text: String },
    Cut,
    Malformed { at: usize },
}

/// What an ended reading tells.
spec fn told(end: BodyEnd) -> Reading {
    match end {
        BodyEnd::Closed { which, text, next } => Reading::Closed {
            which: which as int,
            text: text@,
            next: next as int,
        },
        BodyEnd::Open { text } => Reading::Open { text: text@ },
        BodyEnd::Cut => Reading::Cut,
        BodyEnd::Malformed { at } => Reading::Malformed { at: at as int },
    }
}

/// The token of a section with the given markers and text: it is named
/// after the first section declared with these two markers.
spec fn named_section(
    g: Grammar,
    start: Seq<char>,
    end: Seq<char>,
    text: Seq<char>,
    at: crate::token::Place,
) -> TokenView {
    let name = match section_name(g.sections, start, end) {
        Some(name) => name,
        None => Seq::empty(),
    };
    TokenView::Section(name, text, at)
}

/// Where no section that begins with `start` closes at index `q`, none of
/// the end markers that go with `start` stands there.
proof fn lemma_no_marker_closes(
    sections: Seq<SectionView>,
    start: Seq<char>,
    buf: Seq<u8>,
    q: int,
)
    requires
        none_where(sections, closes_at(buf, q, start)),
    ensures
        none_where(ends_for(sections, start), ends_at(buf, q)),
    decreases sections.len(),
{
    if sections.len() > 0 {
        let rest = sections.drop_last();
        assert forall|x: int| 0 <= x < rest.len() implies !closes_at(buf, q, start)(
            #[trigger] rest[x],
        ) by {
            assert(rest[x] == sections[x]);
        }
        lemma_no_marker_closes(rest, start, buf, q);
        let ends = ends_for(sections, start);
        assert forall|w: int| 0 <= w < ends.len() implies !ends_at(buf, q)(#[trigger] ends[w]) by {
            if w < ends_for(rest, start).len() {
                assert(ends[w] == ends_for(rest, start)[w]);
            } else {
                assert(ends[w] == sections.last().end);
                assert(!closes_at(buf, q, start)(sections[sections.len() - 1]));
            }
        }
    }
}

/// Where the section number `by` is the first that begins with `start` and
/// closes at index `q`, its end marker is the first of the end markers
/// that go with `start` to stand there, and it is the first section
/// declared with its pair of markers.
proof fn lemma_first_marker_closes(
    sections: Seq<SectionView>,
    start: Seq<char>,
    buf: Seq<u8>,
    q: int,
    by: int,
) -> (which: int)
    requires
        is_first_where(sections, closes_at(buf, q, start), by),
    ensures
        is_first_where(ends_for(sections, start), ends_at(buf, q), which),
        ends_for(sections, start)[which] == sections[by].end,
        section_name(sections, start, sections[by].end) == Some(sections[by].name),
    decreases sections.len(),
{
    let rest = sections.drop_last();
    let ends = ends_for(sections, start);
    let which: int;
    assert forall|x: int| 0 <= x < by implies !closes_at(buf, q, start)(#[trigger] rest[x]) by {
        assert(rest[x] == sections[x]);
    }
    if by == sections.len() - 1 {
        lemma_no_marker_closes(rest, start, buf, q);
        which = ends_for(rest, start).len() as int;
        assert(ends[which] == sections[by].end);
        assert forall|w: int| 0 <= w < which implies !ends_at(buf, q)(#[trigger] ends[w]) by {
            assert(ends[w] == ends_for(rest, start)[w]);
        }
    } else {
        assert(rest[by] == sections[by]);
        which = lemma_first_marker_closes(rest, start, buf, q, by);
        assert(ends[which] == ends_for(rest, start)[which]);
        assert forall|w: int| 0 <= w < which implies !ends_at(buf, q)(#[trigger] ends[w]) by {
            assert(ends[w] == ends_for(rest, start)[w]);
        }
    }
    let pair = delimited_by(start, sections[by].end);
    assert forall|x: int| 0 <= x < by implies !pair(#[trigger] sections[x]) by {
        assert(!closes_at(buf, q, start)(sections[x]));
    }
    lemma_first_where_is(sections, pair, by);
    which
}

/// Reading by the end markers that go with `start` tells the same as
/// reading by the sections that begin with `start`.
proof fn lemma_reading_is_body(
    buf: Seq<u8>,
    sections: Seq<SectionView>,
    start: Seq<char>,
    q: int,
    text: Seq<char>,
)
    requires
        0 <= q,
    ensures
        match body_from(buf, sections, start, q, text) {
            Body::Closed { by, text: body, next } => {
                &&& reading_from(buf, ends_for(sections, start), q, text) matches Reading::Closed {
                    which,
                    text: read,
                    next: behind,
                }
                &&& read == body
                &&& behind == next
                &&& 0 <= by < sections.len()
                &&& 0 <= which < ends_for(sections, start).len()
                &&& section_name(sections, start, ends_for(sections, start)[which]) == Some(
                    sections[by].name,
                )
            },
            Body::Open { text: body } => reading_from(buf, ends_for(sections, start), q, text)
                == (Reading::Open { text: body }),
            Body::Cut => reading_from(buf, ends_for(sections, start), q, text) == Reading::Cut,
            Body::Malformed { at } => reading_from(buf, ends_for(sections, start), q, text) == (
            Reading::Malformed { at }),
        },
    decreases buf.len() - q,
{
    if q >= buf.len() {
    } else if buf[q] >= FIRST_WIDE {
    } else if buf[q] == BACKSLASH {
        if q + 1 < buf.len() {
            lemma_reading_is_body(buf, sections, start, q + 2, text.push(buf[q + 1] as char));
        }
    } else {
        let ends = ends_for(sections, start);
        lemma_first_where(sections, closes_at(buf, q, start));
        match first_where(sections, closes_at(buf, q, start)) {
            Some(by) => {
                let which = lemma_first_marker_closes(sections, start, buf, q, by);
                lemma_first_where_is(ends, ends_at(buf, q), which);
            },
            None => {
                lemma_no_marker_closes(sections, start, buf, q);
                lemma_first_where_none(ends, ends_at(buf, q));
                lemma_reading_is_body(buf, sections, start, q + 1, text.push(buf[q] as char));
            },
        }
    }
}

/// Putting tokens in front of an outcome twice is putting both runs in
/// front of it at once.
proof fn lemma_prepend_twice(first: Seq<TokenView>, second: Seq<TokenView>, rest: Scan)
    ensures
        prepend(first, prepend(second, rest)) == prepend(first + second, rest),
{
    match rest {
        Scan::Done(more) => {
            assert(first + (second + more) =~= (first + second) + more);
        },
        Scan::Malformed(_) => {},
    }
}

/// A section's own end marker is among the end markers that go with its
/// start marker.
proof fn lemma_ends_for_nonempty(sections: Seq<crate::grammar::SectionView>, j: int)
    requires
        0 <= j < sections.len(),
    ensures
        ends_for(sections, sections[j].start).len() > 0,
    decreases sections.len(),
{
    if j < sections.len() - 1 {
        assert(sections.drop_last()[j] == sections[j]);
        lemma_ends_for_nonempty(sections.drop_last(), j);
    }
}

/// Moves the scan to index `to` with no token under way: the cursor goes
/// there, the mark joins it, and the pending text is emptied.
fn begin_at(buf: &Vec<u8>, here: &mut Cursor, mark: &mut Cursor, pending: &mut String, to: usize)
    requires
        old(here).tracks(buf@),
        old(here).index <= to <= buf.len(),
    ensures
        final(here).tracks(buf@),
        final(here).index == to,
        *final(mark) == *final(here),
        final(pending)@ == byte_text(buf@.subrange(to as int, to as int)),
{
    here.advance(buf, to);
    *mark = here.same();
    *pending = String::new();
    assert(byte_text(buf@.subrange(to as int, to as int)) =~= Seq::<char>::empty());
}

/// Tells whether `marker` stands in `buf` at index `i`.
fn marker_occurs(buf: &Vec<u8>, i: usize, marker: &Vec<char>) -> (r: bool)
    requires
        i <= buf.len(),
    ensures
        r == occurs_at(buf@, i as int, marker@),
{
    let m = marker.len();
    if m == 0 || m > buf.len() - i {
        return false;
    }
    let mut j: usize = 0;
    while j < m
        invariant
            j <= m,
            m == marker.len(),
            i + m <= buf.len(),
            forall|t: int| 0 <= t < j ==> reads_as(buf@[i + t], #[trigger] marker@[t]),
        decreases m - j,
    {
        let b = buf[i + j];
        if b >= FIRST_WIDE || marker[j] != b as char {
            assert(!reads_as(buf@[i + j], marker@[j as int]));
            return false;
        }
        j += 1;
    }
    true
}

/// The first of `ends` that stands in `buf` at index `q`.
fn closing(buf: &Vec<u8>, q: usize, ends: &Vec<Vec<char>>) -> (r: Option<usize>)
    requires
        q <= buf.len(),
    ensures
        match first_where(marker_views(ends@), ends_at(buf@, q as int)) {
            Some(which) => r == Some(which as usize) && which < ends.len(),
            None => r is None,
        },
{
    let ghost markers = marker_views(ends@);
    let ghost wanted = ends_at(buf@, q as int);
    let mut w: usize = 0;
    while w < ends.len()
        invariant
            w <= ends.len(),
            q <= buf.len(),
            markers == marker_views(ends@),
            wanted == ends_at(buf@, q as int),
            forall|t: int| 0 <= t < w ==> !wanted(#[trigger] markers[t]),
        decreases ends.len() - w,
    {
        if marker_occurs(buf, q, &ends[w]) {
            proof {
                assert(wanted(markers[w as int]));
                lemma_first_where_is(markers, wanted, w as int);
            }
            return Some(w);
        }
        w += 1;
    }
    proof {
        lemma_first_where_none(markers, wanted);
    }
    None
}

/// Reads the text of a section whose start marker ends just before index
/// `from`, with `ends` as the markers that may close it.
fn read_body(buf: &Vec<u8>, ends: &Vec<Vec<char>>, from: usize) -> (r: BodyEnd)
    requires
        from <= buf.len(),
    ensures
        told(r) == reading_from(buf@, marker_views(ends@), from as int, Seq::empty()),
{
    let ghost markers = marker_views(ends@);
    let mut text = String::new();
    let mut q: usize = from;
    while q < buf.len()
        invariant
            from <= q <= buf.len(),
            markers == marker_views(ends@),
            reading_from(buf@, markers, from as int, Seq::empty()) == reading_from(
                buf@,
                markers,
                q as int,
                text@,
            ),
        decreases buf.len() - q,
    {
        let b = buf[q];
        if b >= FIRST_WIDE {
            return BodyEnd::Malformed { at: q };
        }
        if b == BACKSLASH {
            if q + 1 >= buf.len() {
                return BodyEnd::Cut;
            }
            push_char(&mut text, buf[q + 1] as char);
            q += 2;
        } else {
            match closing(buf, q, ends) {
                Some(which) => {
                    proof {
                        lemma_first_where(markers, ends_at(buf@, q as int));
                    }
                    let next = q + ends[which].len();
                    return BodyEnd::Closed { which, text, next };
                },
                None => {
                    push_char(&mut text, b as char);
                    q += 1;
                },
            }
        }
    }
    BodyEnd::Open { text }
}

impl Lexer {
    /// Declares the space as a symbol called `Space`, unless it is declared
    /// already.
    pub fn declare_space(&mut self)
        ensures
            symbol_views(final(self).symbols@) == with_space(symbol_views(old(self).symbols@)),
            final(self).keywords == old(self).keywords,
            final(self).sections == old(self).sections,
            final(self).buffer == old(self).buffer,
            final(self).allow_whitespace == old(self).allow_whitespace,
    {
        if self.symbols_contain(&' ').is_none() {
            let ghost before = self.symbols@;
            let name = "Space".to_owned();
            self.symbols.push((' ', name));
            assert(symbol_views(self.symbols@) =~= symbol_views(before).push((' ', "Space"@)));
        }
    }

    /// The start marker of every section, as characters.
    fn start_markers(&self) -> (starts: Vec<Vec<char>>)
        ensures
            starts.len() == self.sections.len(),
            forall|j: int|
                0 <= j < starts.len() ==> (#[trigger] starts@[j])@ == self.sections@[j].start@,
    {
        let mut starts: Vec<Vec<char>> = Vec::new();
        let mut j: usize = 0;
        while j < self.sections.len()
            invariant
                j <= self.sections.len(),
                starts.len() == j,
                forall|t: int|
                    0 <= t < j ==> (#[trigger] starts@[t])@ == self.sections@[t].start@,
            decreases self.sections.len() - j,
        {
            starts.push(chars_of(self.sections[j].start.as_str()));
            j += 1;
        }
        starts
    }

    /// The first section whose start marker stands in the buffer at index
    /// `i`.
    fn opening(&self, starts: &Vec<Vec<char>>, i: usize) -> (r: Option<usize>)
        requires
            i <= self.buffer.len(),
            starts.len() == self.sections.len(),
            forall|j: int|
                0 <= j < starts.len() ==> (#[trigger] starts@[j])@ == self.sections@[j].start@,
        ensures
            match first_where(self.grammar().sections, starts_at(self.buffer@, i as int)) {
                Some(opened) => r == Some(opened as usize) && opened < self.sections.len(),
                None => r is None,
            },
    {
        let ghost declared = self.grammar().sections;
        let ghost wanted = starts_at(self.buffer@, i as int);
        let mut j: usize = 0;
        while j < starts.len()
            invariant
                j <= starts.len(),
                i <= self.buffer.len(),
                starts.len() == self.sections.len(),
                forall|t: int|
                    0 <= t < starts.len() ==> (#[trigger] starts@[t])@
                        == self.sections@[t].start@,
                declared == self.grammar().sections,
                wanted == starts_at(self.buffer@, i as int),
                forall|t: int| 0 <= t < j ==> !wanted(#[trigger] declared[t]),
            decreases starts.len() - j,
        {
            if marker_occurs(&self.buffer, i, &starts[j]) {
                proof {
                    assert(declared[j as int].start == starts@[j as int]@);
                    assert(wanted(declared[j as int]));
                    lemma_first_where_is(declared, wanted, j as int);
                }
                return Some(j);
            }
            assert(declared[j as int].start == starts@[j as int]@);
            j += 1;
        }
        proof {
            lemma_first_where_none(declared, wanted);
        }
        None
    }

    /// Tells whether the byte `b` is a space or a declared symbol.
    fn byte_breaks(&self, b: u8) -> (r: bool)
        ensures
            r == breaks(self.grammar(), b),
    {
        b == SPACE || self.symbols_contain(&(b as char)).is_some()
    }

    /// Classifies `pending` and appends the token, if there is one.
    fn hand_on(&self, pending: &String, at: Loc, tokens: &mut Vec<Token>)
        ensures
            views(final(tokens)@) == views(old(tokens)@) + emitted(
                lex(self.grammar(), pending@, place_of(at)),
            ),
    {
        let ghost before = tokens@;
        match self.lex_token(pending, at) {
            Some(token) => {
                tokens.push(token);
                assert(views(tokens@) =~= views(before) + seq![token@]);
            },
            None => {
                assert(views(tokens@) =~= views(before) + Seq::<TokenView>::empty());
            },
        }
    }

    /// The token of a section with the given markers and text that began
    /// at `at`.
    fn section_found(&self, start: &String, end: &String, text: String, at: Loc) -> (t: Token)
        ensures
            t@ == named_section(self.grammar(), start@, end@, text@, place_of(at)),
    {
        let name = match self.section_exists(start.as_str(), end.as_str()) {
            Ok(name) => name,
            Err(_) => String::new(),
        };
        Token::Section(name, text, at)
    }

    /// Scans the buffer under the grammar as it stands.
    ///
    /// The result is exactly what `scan` says of the grammar and the
    /// buffer: the tokens in order, or the first byte met that is not
    /// single-byte text. The scan fails on nothing else.
    pub fn scan_buffer(&self) -> (r: Result<Vec<Token>, ScanError>)
        ensures
            match scan(self.grammar(), self.buffer@) {
                Scan::Done(tokens) => r matches Ok(found) && views(found@) == tokens,
                Scan::Malformed(at) => r matches Err(e) && e.offset == at && 0 <= at
                    < self.buffer.len() && e.byte == self.buffer@[at] && e.byte >= FIRST_WIDE,
            },
    {
        let ghost g = self.grammar();
        let ghost buf = self.buffer@;
        let n = self.buffer.len();
        let starts = self.start_markers();
        let mut tokens: Vec<Token> = Vec::new();
        let mut pending = String::new();
        let mut here = Cursor::origin();
        let mut mark = Cursor::origin();
        assert(byte_text(buf.subrange(0, 0)) =~= Seq::<char>::empty());
        assert(views(tokens@) =~= Seq::<TokenView>::empty());
        assert(prepend(Seq::empty(), scan_from(g, buf, 0, 0)) == scan_from(g, buf, 0, 0)) by {
            match scan_from(g, buf, 0, 0) {
                Scan::Done(more) => {
                    assert(Seq::<TokenView>::empty() + more =~= more);
                },
                Scan::Malformed(_) => {},
            }
        }
        while here.index < n
            invariant
                g == self.grammar(),
                buf == self.buffer@,
                n == self.buffer.len(),
                starts.len() == self.sections.len(),
                forall|j: int|
                    0 <= j < starts.len() ==> (#[trigger] starts@[j])@
                        == self.sections@[j].start@,
                mark.index <= here.index <= n,
                here.tracks(buf),
                mark.tracks(buf),
                pending@ == byte_text(buf.subrange(mark.index as int, here.index as int)),
                scan(g, buf) == prepend(
                    views(tokens@),
                    scan_from(g, buf, here.index as int, mark.index as int),
                ),
            decreases n - here.index,
        {
            let i = here.index;
            let ghost k = mark.index as int;
            let ghost so_far = views(tokens@);
            let b = self.buffer[i];
            if b >= FIRST_WIDE {
                return Err(ScanError { offset: i, byte: b });
            }
            match self.opening(&starts, i) {
                Some(opened) => {
                    proof {
                        lemma_first_where(g.sections, starts_at(buf, i as int));
                        lemma_ends_for_nonempty(g.sections, opened as int);
                    }
                    let start = &self.sections[opened].start;
                    if mark.index < i {
                        let at = mark.loc(&self.buffer);
                        self.hand_on(&pending, at, &mut tokens);
                    }
                    let ghost before = if k < i {
                        word(g, buf, k, i as int)
                    } else {
                        Seq::empty()
                    };
                    assert(views(tokens@) =~= so_far + before);
                    let at = here.loc(&self.buffer);
                    let found = match self.is_section(Value::Start(start.clone())) {
                        Ok(StartOrSection::Start(found)) => found,
                        _ => unreached(),
                    };
                    let markers = markers_of(&found);
                    let from = i + starts[opened].len();
                    proof {
                        lemma_body_bounds(buf, g.sections, start@, from as int, Seq::empty());
                        lemma_reading_is_body(buf, g.sections, start@, from as int, Seq::empty());
                    }
                    match read_body(&self.buffer, &markers, from) {
                        BodyEnd::Malformed { at: bad } => {
                            return Err(ScanError { offset: bad, byte: self.buffer[bad] });
                        },
                        BodyEnd::Cut => {
                            return Ok(tokens);
                        },
                        BodyEnd::Open { text } => {
                            let ghost seen = views(tokens@);
                            let token = self.section_found(
                                start,
                                &found[found.len() - 1],
                                text,
                                at,
                            );
                            tokens.push(token);
                            assert(views(tokens@) =~= seen.push(token@));
                            assert(seen.push(token@) =~= so_far + before.push(token@));
                            return Ok(tokens);
                        },
                        BodyEnd::Closed { which, text, next } => {
                            let ghost seen = views(tokens@);
                            let token = self.section_found(start, &found[which], text, at);
                            tokens.push(token);
                            assert(views(tokens@) =~= seen.push(token@));
                            assert(seen.push(token@) =~= so_far + before.push(token@));
                            proof {
                                lemma_prepend_twice(
                                    so_far,
                                    before.push(token@),
                                    scan_from(g, buf, next as int, next as int),
                                );
                            }
                            begin_at(&self.buffer, &mut here, &mut mark, &mut pending, next);
                        },
                    }
                },
                None => {
                    let near = self.byte_breaks(b) || (i + 1 < n && self.byte_breaks(
                        self.buffer[i + 1],
                    ));
                    assert(near == breaks_near(g, buf, i as int));
                    if b == NEWLINE {
                        let ghost before = if k < i {
                            word(g, buf, k, i as int)
                        } else {
                            Seq::empty()
                        };
                        let ghost blank = if near {
                            word(g, buf, i as int, i as int)
                        } else {
                            Seq::empty()
                        };
                        if mark.index < i {
                            let at = mark.loc(&self.buffer);
                            self.hand_on(&pending, at, &mut tokens);
                        }
                        if near {
                            let nothing = String::new();
                            assert(byte_text(buf.subrange(i as int, i as int)) =~= nothing@);
                            let at = here.loc(&self.buffer);
                            self.hand_on(&nothing, at, &mut tokens);
                        }
                        assert(views(tokens@) =~= so_far + (before + blank));
                        proof {
                            lemma_prepend_twice(
                                so_far,
                                before + blank,
                                scan_from(g, buf, i + 1, i + 1),
                            );
                        }
                        begin_at(&self.buffer, &mut here, &mut mark, &mut pending, i + 1);
                    } else if b == SPACE {
                        let at = mark.loc(&self.buffer);
                        self.hand_on(&pending, at, &mut tokens);
                        proof {
                            lemma_prepend_twice(
                                so_far,
                                word(g, buf, k, i as int),
                                scan_from(g, buf, i + 1, i + 1),
                            );
                        }
                        begin_at(&self.buffer, &mut here, &mut mark, &mut pending, i + 1);
                    } else {
                        push_char(&mut pending, b as char);
                        assert(pending@ =~= byte_text(buf.subrange(k, i + 1)));
                        if near {
                            let at = mark.loc(&self.buffer);
                            self.hand_on(&pending, at, &mut tokens);
                            proof {
                                lemma_prepend_twice(
                                    so_far,
                                    word(g, buf, k, i + 1),
                                    scan_from(g, buf, i + 1, i + 1),
                                );
                            }
                            begin_at(&self.buffer, &mut here, &mut mark, &mut pending, i + 1);
                        } else {
                            here.advance(&self.buffer, i + 1);
                        }
                    }
                },
            }
        }
        if mark.index < n {
            let at = mark.loc(&self.buffer);
            self.hand_on(&pending, at, &mut tokens);
        }
        assert(views(tokens@) =~= views(tokens@) + Seq::<TokenView>::empty());
        Ok(tokens)
    }

    /// Turns the buffer into tokens.
    ///
    /// The space is first declared as a symbol, if it is not yet; nothing
    /// else of the scanner changes, and the tokens are the same with and
    /// without that declaration. The result is exactly what `scan` says of
    /// the grammar and the buffer: the tokens in order, or, where a byte is
    /// met that is not single-byte text, that byte and no token at all.
    pub fn tokenize(&mut self) -> (r: Result<Vec<Token>, ScanError>)
        ensures
            symbol_views(final(self).symbols@) == with_space(symbol_views(old(self).symbols@)),
            final(self).keywords == old(self).keywords,
            final(self).sections == old(self).sections,
            final(self).buffer == old(self).buffer,
            final(self).allow_whitespace == old(self).allow_whitespace,
            match scan(old(self).grammar(), old(self).buffer@) {
                Scan::Done(tokens) => r matches Ok(found) && views(found@) == tokens,
                Scan::Malformed(at) => r matches Err(e) && e.offset == at && 0 <= at < old(
                    self,
                ).buffer.len() && e.byte == old(self).buffer@[at] && e.byte >= FIRST_WIDE,
            },
    {
        self.declare_space();
        proof {
            assert(self.grammar() == spaced(old(self).grammar()));
            crate::guarantees::declared_space_is_silent(old(self).grammar(), self.buffer@);
        }
        self.scan_buffer()
    }
}

/// The markers of a run of strings, as characters.
fn markers_of(strings: &Vec<String>) -> (markers: Vec<Vec<char>>)
    ensures
        marker_views(markers@) == texts(strings@),
{
    let mut markers: Vec<Vec<char>> = Vec::new();
    let mut j: usize = 0;
    while j < strings.len()
        invariant
            j <= strings.len(),
            marker_views(markers@) == texts(strings@.take(j as int)),
        decreases strings.len() - j,
    {
        let ghost before = markers@;
        markers.push(chars_of(strings[j].as_str()));
        assert(marker_views(markers@) =~= marker_views(before).push(strings@[j as int]@));
        assert(texts(strings@.take(j + 1)) =~= texts(strings@.take(j as int)).push(
            strings@[j as int]@,
        ));
        j += 1;
    }
    assert(strings@.take(j as int) =~= strings@);
    markers
}

} // verus!
