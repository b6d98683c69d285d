//! The spans of a source that no rename may touch: string literals, text
//! blocks, character literals and comments, found by a lexical scan.

use vstd::prelude::*;

verus! {

pub const QUOTE: u8 = 34;

pub const APOSTROPHE: u8 = 39;

pub const SLASH: u8 = 47;

pub const STAR: u8 = 42;

pub const BACKSLASH: u8 = 92;

pub const NEWLINE: u8 = 10;

/// A byte that means nothing to the scanner: no quote, apostrophe, slash,
/// star, backslash or line end.
pub open spec fn plain(b: u8) -> bool {
    b != QUOTE && b != APOSTROPHE && b != SLASH && b != STAR && b != BACKSLASH && b != NEWLINE
}

/// Every byte of `text` from `from` up to `to` is plain.
pub open spec fn plain_run(text: Seq<u8>, from: int, to: int) -> bool {
    forall|i: int| from <= i < to ==> plain(#[trigger] text[i])
}

/// A text that is not empty and holds plain bytes only.
pub open spec fn plain_text(text: Seq<u8>) -> bool {
    text.len() > 0 && plain_run(text, 0, text.len() as int)
}

/// Whether a byte means nothing to the scanner.
pub fn is_plain(b: u8) -> (yes: bool)
    ensures
        yes == plain(b),
{
    b != QUOTE && b != APOSTROPHE && b != SLASH && b != STAR && b != BACKSLASH && b != NEWLINE
}

/// A span `[start, end)` of the source that is exempt from renaming.
#[derive(Clone, Copy, PartialEq, Eq, Structural, Debug)]
pub struct ProtectedRange {
    pub start: usize,
    pub end: usize,
}

/// A span with integer offsets.
pub ghost struct Span {
    pub start: int,
    pub end: int,
}

impl View for ProtectedRange {
    type V = Span;

    open spec fn view(&self) -> Span {
        Span { start: self.start as int, end: self.end as int }
    }
}

/// The spans of a sequence of ranges.
pub open spec fn spans(ranges: Seq<ProtectedRange>) -> Seq<Span> {
    ranges.map_values(|r: ProtectedRange| r@)
}

/// What the scanner is inside of.
#[derive(Clone, Copy, PartialEq, Eq, Structural, Debug)]
pub enum Lexical {
    Code,
    /// A string literal, from its opening quote.
    Text,
    /// A text block, from its three opening quotes.
    TextBlock,
    /// A character literal, from its opening apostrophe.
    Character,
    /// A comment from `//` to the end of the line.
    LineComment,
    /// A comment from `/*` to the next `*/`.
    BlockComment,
}

/// The byte at `pos` is `b`.
pub open spec fn at(src: Seq<u8>, pos: int, b: u8) -> bool {
    0 <= pos < src.len() && src[pos] == b
}

/// Where the scanner stands after a backslash at `pos` and the byte that it
/// takes with it.
pub open spec fn after_escape(src: Seq<u8>, pos: int) -> int {
    if pos + 2 <= src.len() {
        pos + 2
    } else {
        src.len() as int
    }
}

/// The protected spans that close at or after `pos`, for a scanner that
/// stands at `pos` in the given state and, outside code, has entered that
/// state at `open`. A backslash inside a literal takes the next byte with it,
/// so an escaped quote does not end the literal; what is still open at the
/// end of the source is protected up to the end.
pub open spec fn scan(src: Seq<u8>, pos: int, state: Lexical, open: int) -> Seq<Span>
    decreases src.len() - pos,
{
    if pos < 0 || pos >= src.len() {
        if state == Lexical::Code {
            Seq::empty()
        } else {
            seq![Span { start: open, end: src.len() as int }]
        }
    } else {
        match state {
            Lexical::Code => {
                if at(src, pos, QUOTE) && at(src, pos + 1, QUOTE) && at(src, pos + 2, QUOTE) {
                    scan(src, pos + 3, Lexical::TextBlock, pos)
                } else if at(src, pos, QUOTE) {
                    scan(src, pos + 1, Lexical::Text, pos)
                } else if at(src, pos, APOSTROPHE) {
                    scan(src, pos + 1, Lexical::Character, pos)
                } else if at(src, pos, SLASH) && at(src, pos + 1, SLASH) {
                    scan(src, pos + 2, Lexical::LineComment, pos)
                } else if at(src, pos, SLASH) && at(src, pos + 1, STAR) {
                    scan(src, pos + 2, Lexical::BlockComment, pos)
                } else {
                    scan(src, pos + 1, Lexical::Code, open)
                }
            },
            Lexical::Text => {
                if at(src, pos, BACKSLASH) {
                    scan(src, after_escape(src, pos), Lexical::Text, open)
                } else if at(src, pos, QUOTE) {
                    seq![Span { start: open, end: pos + 1 }] + scan(
                        src,
                        pos + 1,
                        Lexical::Code,
                        open,
                    )
                } else {
                    scan(src, pos + 1, Lexical::Text, open)
                }
            },
            Lexical::TextBlock => {
                if at(src, pos, BACKSLASH) {
                    scan(src, after_escape(src, pos), Lexical::TextBlock, open)
                } else if at(src, pos, QUOTE) && at(src, pos + 1, QUOTE) && at(
                    src,
                    pos + 2,
                    QUOTE,
                ) {
                    seq![Span { start: open, end: pos + 3 }] + scan(
                        src,
                        pos + 3,
                        Lexical::Code,
                        open,
                    )
                } else {
                    scan(src, pos + 1, Lexical::TextBlock, open)
                }
            },
            Lexical::Character => {
                if at(src, pos, BACKSLASH) {
                    scan(src, after_escape(src, pos), Lexical::Character, open)
                } else if at(src, pos, APOSTROPHE) {
                    seq![Span { start: open, end: pos + 1 }] + scan(
                        src,
                        pos + 1,
                        Lexical::Code,
                        open,
                    )
                } else {
                    scan(src, pos + 1, Lexical::Character, open)
                }
            },
            Lexical::LineComment => {
                if at(src, pos, NEWLINE) {
                    seq![Span { start: open, end: pos }] + scan(src, pos + 1, Lexical::Code, open)
                } else {
                    scan(src, pos + 1, Lexical::LineComment, open)
                }
            },
            Lexical::BlockComment => {
                if at(src, pos, STAR) && at(src, pos + 1, SLASH) {
                    seq![Span { start: open, end: pos + 2 }] + scan(
                        src,
                        pos + 2,
                        Lexical::Code,
                        open,
                    )
                } else {
                    scan(src, pos + 1, Lexical::BlockComment, open)
                }
            },
        }
    }
}

/// The protected spans of a source, in the order in which they occur.
pub open spec fn protected_spans(src: Seq<u8>) -> Seq<Span> {
    scan(src, 0, Lexical::Code, 0)
}

/// Whether the span `[start, end)` shares a byte with one of `spans`.
pub open spec fn touches(spans: Seq<Span>, start: int, end: int) -> bool {
    exists|k: int| 0 <= k < spans.len() && start < (#[trigger] spans[k]).end && spans[k].start < end
}

/// The spans hold at least one byte each and lie inside `len` bytes.
pub open spec fn spans_in_bounds(spans: Seq<Span>, len: int) -> bool {
    forall|k: int| 0 <= k < spans.len() ==> 0 <= (#[trigger] spans[k]).start < spans[k].end <= len
}

proof fn lemma_cons_in_bounds(first: Span, rest: Seq<Span>, len: int)
    requires
        0 <= first.start < first.end <= len,
        spans_in_bounds(rest, len),
    ensures
        spans_in_bounds(seq![first] + rest, len),
{
    let all = seq![first] + rest;
    assert forall|k: int| 0 <= k < all.len() implies 0 <= (#[trigger] all[k]).start < all[k].end
        <= len by {
        if k > 0 {
            assert(all[k] == rest[k - 1]);
        }
    }
}

/// Every span that the scanner reports holds at least one byte and lies
/// inside the source.
pub proof fn lemma_scan_in_bounds(src: Seq<u8>, pos: int, state: Lexical, open: int)
    requires
        0 <= pos,
        state != Lexical::Code ==> 0 <= open < pos && open < src.len(),
    ensures
        spans_in_bounds(scan(src, pos, state, open), src.len() as int),
    decreases src.len() - pos,
{
    let len = src.len() as int;
    if pos >= src.len() {
    } else {
        match state {
            Lexical::Code => {
                if at(src, pos, QUOTE) && at(src, pos + 1, QUOTE) && at(src, pos + 2, QUOTE) {
                    lemma_scan_in_bounds(src, pos + 3, Lexical::TextBlock, pos);
                } else if at(src, pos, QUOTE) {
                    lemma_scan_in_bounds(src, pos + 1, Lexical::Text, pos);
                } else if at(src, pos, APOSTROPHE) {
                    lemma_scan_in_bounds(src, pos + 1, Lexical::Character, pos);
                } else if at(src, pos, SLASH) && at(src, pos + 1, SLASH) {
                    lemma_scan_in_bounds(src, pos + 2, Lexical::LineComment, pos);
                } else if at(src, pos, SLASH) && at(src, pos + 1, STAR) {
                    lemma_scan_in_bounds(src, pos + 2, Lexical::BlockComment, pos);
                } else {
                    lemma_scan_in_bounds(src, pos + 1, Lexical::Code, open);
                }
            },
            Lexical::Text => {
                if at(src, pos, BACKSLASH) {
                    lemma_scan_in_bounds(src, after_escape(src, pos), Lexical::Text, open);
                } else if at(src, pos, QUOTE) {
                    let rest = scan(src, pos + 1, Lexical::Code, open);
                    lemma_scan_in_bounds(src, pos + 1, Lexical::Code, open);
                    lemma_cons_in_bounds(Span { start: open, end: pos + 1 }, rest, len);
                } else {
                    lemma_scan_in_bounds(src, pos + 1, Lexical::Text, open);
                }
            },
            Lexical::TextBlock => {
                if at(src, pos, BACKSLASH) {
                    lemma_scan_in_bounds(src, after_escape(src, pos), Lexical::TextBlock, open);
                } else if at(src, pos, QUOTE) && at(src, pos + 1, QUOTE) && at(
                    src,
                    pos + 2,
                    QUOTE,
                ) {
                    let rest = scan(src, pos + 3, Lexical::Code, open);
                    lemma_scan_in_bounds(src, pos + 3, Lexical::Code, open);
                    lemma_cons_in_bounds(Span { start: open, end: pos + 3 }, rest, len);
                } else {
                    lemma_scan_in_bounds(src, pos + 1, Lexical::TextBlock, open);
                }
            },
            Lexical::Character => {
                if at(src, pos, BACKSLASH) {
                    lemma_scan_in_bounds(src, after_escape(src, pos), Lexical::Character, open);
                } else if at(src, pos, APOSTROPHE) {
                    let rest = scan(src, pos + 1, Lexical::Code, open);
                    lemma_scan_in_bounds(src, pos + 1, Lexical::Code, open);
                    lemma_cons_in_bounds(Span { start: open, end: pos + 1 }, rest, len);
                } else {
                    lemma_scan_in_bounds(src, pos + 1, Lexical::Character, open);
                }
            },
            Lexical::LineComment => {
                if at(src, pos, NEWLINE) {
                    let rest = scan(src, pos + 1, Lexical::Code, open);
                    lemma_scan_in_bounds(src, pos + 1, Lexical::Code, open);
                    lemma_cons_in_bounds(Span { start: open, end: pos }, rest, len);
                } else {
                    lemma_scan_in_bounds(src, pos + 1, Lexical::LineComment, open);
                }
            },
            Lexical::BlockComment => {
                if at(src, pos, STAR) && at(src, pos + 1, SLASH) {
                    let rest = scan(src, pos + 2, Lexical::Code, open);
                    lemma_scan_in_bounds(src, pos + 2, Lexical::Code, open);
                    lemma_cons_in_bounds(Span { start: open, end: pos + 2 }, rest, len);
                } else {
                    lemma_scan_in_bounds(src, pos + 1, Lexical::BlockComment, open);
                }
            },
        }
    }
}

/// The spans stand in the order of the source and share no byte: each ends
/// where the next begins, or before.
pub open spec fn spans_ordered(spans: Seq<Span>) -> bool {
    forall|i: int, j: int|
        0 <= i < j < spans.len() ==> (#[trigger] spans[i]).end <= (#[trigger] spans[j]).start
}

/// No span begins before `floor`.
pub open spec fn spans_from(spans: Seq<Span>, floor: int) -> bool {
    forall|k: int| 0 <= k < spans.len() ==> (#[trigger] spans[k]).start >= floor
}

proof fn lemma_cons_ordered(first: Span, rest: Seq<Span>)
    requires
        first.start <= first.end,
        spans_ordered(rest),
        spans_from(rest, first.end),
    ensures
        spans_ordered(seq![first] + rest),
        spans_from(seq![first] + rest, first.start),
{
    let all = seq![first] + rest;
    assert forall|i: int, j: int| 0 <= i < j < all.len() implies (#[trigger] all[i]).end <= (
    #[trigger] all[j]).start by {
        assert(all[j] == rest[j - 1]);
        if i > 0 {
            assert(all[i] == rest[i - 1]);
        }
    }
    assert forall|k: int| 0 <= k < all.len() implies (#[trigger] all[k]).start >= first.start by {
        if k > 0 {
            assert(all[k] == rest[k - 1]);
        }
    }
}

proof fn lemma_spans_from_lower(spans: Seq<Span>, floor: int, lower: int)
    requires
        spans_from(spans, floor),
        lower <= floor,
    ensures
        spans_from(spans, lower),
{
}

/// The spans that the scanner reports stand in the order of the source and
/// share no byte, and none begins before the scanner stands, or before the
/// span that it is inside of.
pub proof fn lemma_scan_ordered(src: Seq<u8>, pos: int, state: Lexical, open: int)
    requires
        0 <= pos,
        state != Lexical::Code ==> 0 <= open < pos && open < src.len(),
    ensures
        spans_ordered(scan(src, pos, state, open)),
        spans_from(scan(src, pos, state, open), if state == Lexical::Code { pos } else { open }),
    decreases src.len() - pos,
{
    if pos >= src.len() {
    } else {
        match state {
            Lexical::Code => {
                if at(src, pos, QUOTE) && at(src, pos + 1, QUOTE) && at(src, pos + 2, QUOTE) {
                    lemma_scan_ordered(src, pos + 3, Lexical::TextBlock, pos);
                } else if at(src, pos, QUOTE) {
                    lemma_scan_ordered(src, pos + 1, Lexical::Text, pos);
                } else if at(src, pos, APOSTROPHE) {
                    lemma_scan_ordered(src, pos + 1, Lexical::Character, pos);
                } else if at(src, pos, SLASH) && at(src, pos + 1, SLASH) {
                    lemma_scan_ordered(src, pos + 2, Lexical::LineComment, pos);
                } else if at(src, pos, SLASH) && at(src, pos + 1, STAR) {
                    lemma_scan_ordered(src, pos + 2, Lexical::BlockComment, pos);
                } else {
                    lemma_scan_ordered(src, pos + 1, Lexical::Code, open);
                    lemma_spans_from_lower(scan(src, pos + 1, Lexical::Code, open), pos + 1, pos);
                }
            },
            Lexical::Text => {
                if at(src, pos, BACKSLASH) {
                    lemma_scan_ordered(src, after_escape(src, pos), Lexical::Text, open);
                } else if at(src, pos, QUOTE) {
                    lemma_scan_ordered(src, pos + 1, Lexical::Code, open);
                    lemma_cons_ordered(
                        Span { start: open, end: pos + 1 },
                        scan(src, pos + 1, Lexical::Code, open),
                    );
                } else {
                    lemma_scan_ordered(src, pos + 1, Lexical::Text, open);
                }
            },
            Lexical::TextBlock => {
                if at(src, pos, BACKSLASH) {
                    lemma_scan_ordered(src, after_escape(src, pos), Lexical::TextBlock, open);
                } else if at(src, pos, QUOTE) && at(src, pos + 1, QUOTE) && at(
                    src,
                    pos + 2,
                    QUOTE,
                ) {
                    lemma_scan_ordered(src, pos + 3, Lexical::Code, open);
                    lemma_cons_ordered(
                        Span { start: open, end: pos + 3 },
                        scan(src, pos + 3, Lexical::Code, open),
                    );
                } else {
                    lemma_scan_ordered(src, pos + 1, Lexical::TextBlock, open);
                }
            },
            Lexical::Character => {
                if at(src, pos, BACKSLASH) {
                    lemma_scan_ordered(src, after_escape(src, pos), Lexical::Character, open);
                } else if at(src, pos, APOSTROPHE) {
                    lemma_scan_ordered(src, pos + 1, Lexical::Code, open);
                    lemma_cons_ordered(
                        Span { start: open, end: pos + 1 },
                        scan(src, pos + 1, Lexical::Code, open),
                    );
                } else {
                    lemma_scan_ordered(src, pos + 1, Lexical::Character, open);
                }
            },
            Lexical::LineComment => {
                if at(src, pos, NEWLINE) {
                    lemma_scan_ordered(src, pos + 1, Lexical::Code, open);
                    lemma_spans_from_lower(scan(src, pos + 1, Lexical::Code, open), pos + 1, pos);
                    lemma_cons_ordered(
                        Span { start: open, end: pos },
                        scan(src, pos + 1, Lexical::Code, open),
                    );
                } else {
                    lemma_scan_ordered(src, pos + 1, Lexical::LineComment, open);
                }
            },
            Lexical::BlockComment => {
                if at(src, pos, STAR) && at(src, pos + 1, SLASH) {
                    lemma_scan_ordered(src, pos + 2, Lexical::Code, open);
                    lemma_cons_ordered(
                        Span { start: open, end: pos + 2 },
                        scan(src, pos + 2, Lexical::Code, open),
                    );
                } else {
                    lemma_scan_ordered(src, pos + 1, Lexical::BlockComment, open);
                }
            },
        }
    }
}

/// The protected ranges of `src`.
pub fn protected_ranges(src: &[u8]) -> (ranges: Vec<ProtectedRange>)
    ensures
        spans(ranges@) == protected_spans(src@),
        forall|k: int|
            0 <= k < ranges@.len() ==> (#[trigger] ranges@[k]).start < ranges@[k].end <= src@.len(),
{
    let n: usize = src.len();
    let mut ranges: Vec<ProtectedRange> = Vec::new();
    let mut pos: usize = 0;
    let mut state = Lexical::Code;
    let mut open: usize = 0;
    assert(spans(ranges@) =~= Seq::<Span>::empty());
    while pos < n
        invariant
            n == src@.len(),
            pos <= n,
            spans(ranges@) + scan(src@, pos as int, state, open as int) == protected_spans(src@),
        decreases n - pos,
    {
        let b: u8 = src[pos];
        let ghost before = spans(ranges@);
        let ghost rest = scan(src@, pos as int, state, open as int);
        let mut next: usize = pos + 1;
        let mut closed: bool = false;
        let mut close_end: usize = 0;
        let mut next_state = state;
        let mut next_open: usize = open;
        match state {
            Lexical::Code => {
                if b == QUOTE && n - pos > 2 && src[pos + 1] == QUOTE && src[pos + 2] == QUOTE {
                    next = pos + 3;
                    next_state = Lexical::TextBlock;
                    next_open = pos;
                } else if b == QUOTE {
                    next_state = Lexical::Text;
                    next_open = pos;
                } else if b == APOSTROPHE {
                    next_state = Lexical::Character;
                    next_open = pos;
                } else if b == SLASH && n - pos > 1 && src[pos + 1] == SLASH {
                    next = pos + 2;
                    next_state = Lexical::LineComment;
                    next_open = pos;
                } else if b == SLASH && n - pos > 1 && src[pos + 1] == STAR {
                    next = pos + 2;
                    next_state = Lexical::BlockComment;
                    next_open = pos;
                }
            },
            Lexical::Text => {
                if b == BACKSLASH {
                    next = if n - pos > 1 {
                        pos + 2
                    } else {
                        n
                    };
                } else if b == QUOTE {
                    closed = true;
                    close_end = pos + 1;
                    next_state = Lexical::Code;
                }
            },
            Lexical::TextBlock => {
                if b == BACKSLASH {
                    next = if n - pos > 1 {
                        pos + 2
                    } else {
                        n
                    };
                } else if b == QUOTE && n - pos > 2 && src[pos + 1] == QUOTE && src[pos + 2]
                    == QUOTE {
                    closed = true;
                    close_end = pos + 3;
                    next = pos + 3;
                    next_state = Lexical::Code;
                }
            },
            Lexical::Character => {
                if b == BACKSLASH {
                    next = if n - pos > 1 {
                        pos + 2
                    } else {
                        n
                    };
                } else if b == APOSTROPHE {
                    closed = true;
                    close_end = pos + 1;
                    next_state = Lexical::Code;
                }
            },
            Lexical::LineComment => {
                if b == NEWLINE {
                    closed = true;
                    close_end = pos;
                    next_state = Lexical::Code;
                }
            },
            Lexical::BlockComment => {
                if b == STAR && n - pos > 1 && src[pos + 1] == SLASH {
                    closed = true;
                    close_end = pos + 2;
                    next = pos + 2;
                    next_state = Lexical::Code;
                }
            },
        }
        proof {
            let after = scan(src@, next as int, next_state, next_open as int);
            if closed {
                assert(rest == seq![Span { start: open as int, end: close_end as int }] + scan(
                    src@,
                    next as int,
                    Lexical::Code,
                    open as int,
                ));
                assert(scan(src@, next as int, Lexical::Code, open as int) == after);
            } else {
                assert(rest == after);
            }
        }
        if closed {
            ranges.push(ProtectedRange { start: open, end: close_end });
            proof {
                assert(spans(ranges@) =~= before.push(
                    Span { start: open as int, end: close_end as int },
                ));
                assert(spans(ranges@) + scan(src@, next as int, next_state, next_open as int)
                    =~= before + rest);
            }
        }
        pos = next;
        state = next_state;
        open = next_open;
    }
    if state != Lexical::Code {
        let ghost before = spans(ranges@);
        ranges.push(ProtectedRange { start: open, end: n });
        proof {
            assert(spans(ranges@) =~= before + scan(src@, pos as int, state, open as int));
        }
    } else {
        proof {
            assert(spans(ranges@) =~= spans(ranges@) + scan(
                src@,
                pos as int,
                state,
                open as int,
            ));
        }
    }
    proof {
        lemma_scan_in_bounds(src@, 0, Lexical::Code, 0);
        assert forall|k: int| 0 <= k < ranges@.len() implies (#[trigger] ranges@[k]).start
            < ranges@[k].end <= src@.len() by {
            assert(spans(ranges@)[k] == ranges@[k]@);
        }
    }
    ranges
}

} // verus!
