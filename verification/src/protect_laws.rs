//! What holds of the scanner when a run of plain bytes gives way to another:
//! the protected spans stay what they were, moved with the bytes behind the
//! run.

use vstd::prelude::*;
use crate::patch::{apply_in_order, Edit};
use crate::patch_laws::{
    lemma_last_fits,
    lemma_separated_init,
    lemma_shift_floor,
    lemma_shift_none,
    separated_desc,
    shift_before,
};
use crate::protect::{
    after_escape,
    at,
    plain,
    plain_run,
    plain_text,
    protected_spans,
    scan,
    Lexical,
    Span,
    APOSTROPHE,
    BACKSLASH,
    NEWLINE,
    QUOTE,
    SLASH,
    STAR,
};

verus! {

/// `after` is `before` with the bytes from `start` up to `end`, a run of plain
/// bytes, given way to the run of plain bytes from `start` up to `new_end`.
/// Neither run is empty.
pub open spec fn swapped(before: Seq<u8>, after: Seq<u8>, start: int, end: int, new_end: int) -> bool {
    &&& 0 <= start < end <= before.len()
    &&& start < new_end
    &&& after.len() == before.len() + new_end - end
    &&& forall|i: int| 0 <= i < start ==> #[trigger] after[i] == before[i]
    &&& forall|i: int| end <= i < before.len() ==> after[i + new_end - end] == #[trigger] before[i]
    &&& plain_run(before, start, end)
    &&& plain_run(after, start, new_end)
}

/// Where place `p` of the text before the change is found after it: a place
/// up to the start of the run stays, a place behind it moves by `growth`.
pub open spec fn moved(p: int, start: int, growth: int) -> int {
    if p <= start {
        p
    } else {
        p + growth
    }
}

/// A span with both its ends moved.
pub open spec fn moved_span(span: Span, start: int, growth: int) -> Span {
    Span { start: moved(span.start, start, growth), end: moved(span.end, start, growth) }
}

/// The spans, each with both its ends moved.
pub open spec fn moved_spans(spans: Seq<Span>, start: int, growth: int) -> Seq<Span> {
    Seq::new(spans.len(), |k: int| moved_span(spans[k], start, growth))
}

/// Over a run of plain bytes the scanner stays in its state and reports
/// nothing.
pub proof fn lemma_plain_run(src: Seq<u8>, pos: int, to: int, state: Lexical, open: int)
    requires
        0 <= pos <= to <= src.len(),
        plain_run(src, pos, to),
    ensures
        scan(src, pos, state, open) == scan(src, to, state, open),
    decreases to - pos,
{
    if pos < to {
        assert(plain(src[pos]));
        lemma_plain_run(src, pos + 1, to, state, open);
    }
}

proof fn lemma_moved_cons(first: Span, rest: Seq<Span>, start: int, growth: int)
    ensures
        moved_spans(seq![first] + rest, start, growth) == seq![moved_span(first, start, growth)]
            + moved_spans(rest, start, growth),
{
    assert(moved_spans(seq![first] + rest, start, growth) =~= seq![
        moved_span(first, start, growth),
    ] + moved_spans(rest, start, growth));
}

/// The scanner reports of the text after the change what it reports of the
/// text before it, moved.
#[verifier::rlimit(100)]
#[verifier::spinoff_prover]
pub proof fn lemma_scan_swapped(
    before: Seq<u8>,
    after: Seq<u8>,
    start: int,
    end: int,
    new_end: int,
    pos: int,
    state: Lexical,
    open: int,
)
    requires
        swapped(before, after, start, end, new_end),
        0 <= pos <= before.len(),
        pos <= start + 1 || pos >= end,
    ensures
        scan(
            after,
            if pos >= end { pos + new_end - end } else { pos },
            state,
            moved(open, start, new_end - end),
        ) == moved_spans(scan(before, pos, state, open), start, new_end - end),
    decreases before.len() - pos,
{
    let g = new_end - end;
    let o = moved(open, start, g);
    if start <= pos < end {
        lemma_plain_run(before, pos, end, state, open);
        lemma_plain_run(after, pos, new_end, state, o);
        lemma_scan_swapped(before, after, start, end, new_end, end, state, open);
    } else if pos >= before.len() {
        assert(scan(after, pos + g, state, o) =~= moved_spans(scan(before, pos, state, open), start, g));
    } else {
        let np = if pos >= end { pos + g } else { pos };
        assert(after[np] == before[pos]);
        if pos + 1 < before.len() && (pos + 1 < start || pos + 1 >= end) {
            assert(after[np + 1] == before[pos + 1]);
        }
        if pos + 2 < before.len() && (pos + 2 < start || pos + 2 >= end) && (pos + 1 < start || pos
            + 1 >= end) {
            assert(after[np + 2] == before[pos + 2]);
        }
        if pos < start && pos + 1 >= start {
            assert(plain(before[start]));
            assert(plain(after[start]));
        }
        if pos < start && pos + 2 == start {
            assert(plain(before[start]));
            assert(plain(after[start]));
        }
        match state {
            Lexical::Code => {
                if at(before, pos, QUOTE) && at(before, pos + 1, QUOTE) && at(before, pos + 2, QUOTE) {
                    lemma_scan_swapped(before, after, start, end, new_end, pos + 3, Lexical::TextBlock, pos);
                } else if at(before, pos, QUOTE) {
                    lemma_scan_swapped(before, after, start, end, new_end, pos + 1, Lexical::Text, pos);
                } else if at(before, pos, APOSTROPHE) {
                    lemma_scan_swapped(before, after, start, end, new_end, pos + 1, Lexical::Character, pos);
                } else if at(before, pos, SLASH) && at(before, pos + 1, SLASH) {
                    lemma_scan_swapped(before, after, start, end, new_end, pos + 2, Lexical::LineComment, pos);
                } else if at(before, pos, SLASH) && at(before, pos + 1, STAR) {
                    lemma_scan_swapped(before, after, start, end, new_end, pos + 2, Lexical::BlockComment, pos);
                } else {
                    lemma_scan_swapped(before, after, start, end, new_end, pos + 1, Lexical::Code, open);
                }
            },
            Lexical::Text => {
                if at(before, pos, BACKSLASH) {
                    lemma_scan_swapped(before, after, start, end, new_end, after_escape(before, pos), Lexical::Text, open);
                    if pos + 1 == start {
                        lemma_plain_run(after, start + 1, new_end, Lexical::Text, o);
                    }
                } else if at(before, pos, QUOTE) {
                    lemma_scan_swapped(before, after, start, end, new_end, pos + 1, Lexical::Code, open);
                    lemma_moved_cons(
                        Span { start: open, end: pos + 1 },
                        scan(before, pos + 1, Lexical::Code, open),
                        start,
                        g,
                    );
                } else {
                    lemma_scan_swapped(before, after, start, end, new_end, pos + 1, Lexical::Text, open);
                }
            },
            Lexical::TextBlock => {
                if at(before, pos, BACKSLASH) {
                    lemma_scan_swapped(before, after, start, end, new_end, after_escape(before, pos), Lexical::TextBlock, open);
                    if pos + 1 == start {
                        lemma_plain_run(after, start + 1, new_end, Lexical::TextBlock, o);
                    }
                } else if at(before, pos, QUOTE) && at(before, pos + 1, QUOTE) && at(
                    before,
                    pos + 2,
                    QUOTE,
                ) {
                    lemma_scan_swapped(before, after, start, end, new_end, pos + 3, Lexical::Code, open);
                    lemma_moved_cons(
                        Span { start: open, end: pos + 3 },
                        scan(before, pos + 3, Lexical::Code, open),
                        start,
                        g,
                    );
                } else {
                    lemma_scan_swapped(before, after, start, end, new_end, pos + 1, Lexical::TextBlock, open);
                }
            },
            Lexical::Character => {
                if at(before, pos, BACKSLASH) {
                    lemma_scan_swapped(before, after, start, end, new_end, after_escape(before, pos), Lexical::Character, open);
                    if pos + 1 == start {
                        lemma_plain_run(after, start + 1, new_end, Lexical::Character, o);
                    }
                } else if at(before, pos, APOSTROPHE) {
                    lemma_scan_swapped(before, after, start, end, new_end, pos + 1, Lexical::Code, open);
                    lemma_moved_cons(
                        Span { start: open, end: pos + 1 },
                        scan(before, pos + 1, Lexical::Code, open),
                        start,
                        g,
                    );
                } else {
                    lemma_scan_swapped(before, after, start, end, new_end, pos + 1, Lexical::Character, open);
                }
            },
            Lexical::LineComment => {
                if at(before, pos, NEWLINE) {
                    lemma_scan_swapped(before, after, start, end, new_end, pos + 1, Lexical::Code, open);
                    lemma_moved_cons(
                        Span { start: open, end: pos },
                        scan(before, pos + 1, Lexical::Code, open),
                        start,
                        g,
                    );
                } else {
                    lemma_scan_swapped(before, after, start, end, new_end, pos + 1, Lexical::LineComment, open);
                }
            },
            Lexical::BlockComment => {
                if at(before, pos, STAR) && at(before, pos + 1, SLASH) {
                    lemma_scan_swapped(before, after, start, end, new_end, pos + 2, Lexical::Code, open);
                    lemma_moved_cons(
                        Span { start: open, end: pos + 2 },
                        scan(before, pos + 2, Lexical::Code, open),
                        start,
                        g,
                    );
                } else {
                    lemma_scan_swapped(before, after, start, end, new_end, pos + 1, Lexical::BlockComment, open);
                }
            },
        }
    }
}

/// An edit that puts plain text in the place of plain bytes moves the
/// protected spans with the bytes behind it and changes nothing else of
/// them.
pub proof fn lemma_edit_moves_spans(buf: Seq<u8>, e: Edit)
    requires
        e.fits(buf.len() as int),
        e.start < e.end,
        plain_run(buf, e.start, e.end),
        plain_text(e.text),
    ensures
        protected_spans(e.apply(buf)) == moved_spans(protected_spans(buf), e.start, e.growth()),
{
    let after = e.apply(buf);
    let new_end = e.start + e.text.len();
    assert forall|i: int| e.start <= i < new_end implies plain(#[trigger] after[i]) by {
        assert(after[i] == e.text[i - e.start]);
    }
    assert(swapped(buf, after, e.start, e.end, new_end));
    lemma_scan_swapped(buf, after, e.start, e.end, new_end, 0, Lexical::Code, 0);
}

/// Where place `p` of the source is found after the edits, applied one after
/// the other.
pub open spec fn carried_place(s: Seq<Edit>, p: int) -> int
    decreases s.len(),
{
    if s.len() == 0 {
        p
    } else {
        moved(carried_place(s.drop_last(), p), s.last().start, s.last().growth())
    }
}

/// The spans, each with both its ends carried through the edits.
pub open spec fn carried(s: Seq<Edit>, spans: Seq<Span>) -> Seq<Span> {
    Seq::new(
        spans.len(),
        |k: int|
            Span {
                start: carried_place(s, spans[k].start),
                end: carried_place(s, spans[k].end),
            },
    )
}

/// Every edit puts plain text in the place of at least one plain byte.
pub open spec fn plain_edits(buf: Seq<u8>, s: Seq<Edit>) -> bool {
    forall|k: int|
        0 <= k < s.len() ==> {
            &&& (#[trigger] s[k]).start < s[k].end
            &&& plain_run(buf, s[k].start, s[k].end)
            &&& plain_text(s[k].text)
        }
}

/// Edits that do not overlap and put plain text in the place of plain bytes
/// leave the protected spans what they were, carried along with the bytes.
pub proof fn lemma_edits_move_spans(buf: Seq<u8>, s: Seq<Edit>)
    requires
        separated_desc(s, buf.len() as int),
        plain_edits(buf, s),
    ensures
        protected_spans(apply_in_order(buf, s)) == carried(s, protected_spans(buf)),
    decreases s.len(),
{
    if s.len() == 0 {
        assert(carried(s, protected_spans(buf)) =~= protected_spans(buf));
    } else {
        let init = s.drop_last();
        let e = s.last();
        let mid = apply_in_order(buf, init);
        lemma_separated_init(s, buf.len() as int);
        assert(e == s[s.len() - 1]);
        assert(plain_edits(buf, init)) by {
            assert forall|k: int| 0 <= k < init.len() implies {
                &&& (#[trigger] init[k]).start < init[k].end
                &&& plain_run(buf, init[k].start, init[k].end)
                &&& plain_text(init[k].text)
            } by {
                assert(init[k] == s[k]);
            }
        }
        lemma_edits_move_spans(buf, init);
        lemma_last_fits(buf, s);
        assert forall|i: int| e.start <= i < e.end implies plain(#[trigger] mid[i]) by {
            assert(mid.subrange(0, e.end)[i] == buf.subrange(0, e.end)[i]);
            assert(plain(buf[i]));
        }
        lemma_edit_moves_spans(mid, e);
        assert(moved_spans(carried(init, protected_spans(buf)), e.start, e.growth()) =~= carried(
            s,
            protected_spans(buf),
        ));
    }
}

/// A place that no edit reaches across is carried by the growth of the
/// edits that end at or before it.
pub proof fn lemma_carried_place(s: Seq<Edit>, len: int, p: int)
    requires
        separated_desc(s, len),
        forall|k: int| 0 <= k < s.len() ==> (#[trigger] s[k]).start < s[k].end,
        forall|k: int| 0 <= k < s.len() ==> (#[trigger] s[k]).end <= p || p <= s[k].start,
    ensures
        carried_place(s, p) == p + shift_before(s, p),
    decreases s.len(),
{
    if s.len() > 0 {
        let init = s.drop_last();
        let e = s.last();
        lemma_separated_init(s, len);
        assert(e == s[s.len() - 1]);
        assert forall|k: int| 0 <= k < init.len() implies (#[trigger] init[k]).start
            < init[k].end && (init[k].end <= p || p <= init[k].start) by {
            assert(init[k] == s[k]);
        }
        lemma_carried_place(init, len, p);
        if e.end <= p {
            assert forall|k: int| 0 <= k < init.len() implies (#[trigger] init[k]).start
                >= e.end by {}
            lemma_shift_floor(init, len, e.end, p);
        } else {
            assert forall|k: int| 0 <= k < init.len() implies (#[trigger] init[k]).end > p by {}
            lemma_shift_none(init, p);
        }
    }
}

/// The two ends of a range that no edit touches are moved alike.
pub proof fn lemma_same_shift(s: Seq<Edit>, lo: int, hi: int)
    requires
        lo < hi,
        forall|k: int| 0 <= k < s.len() ==> (#[trigger] s[k]).start < s[k].end,
        forall|k: int| 0 <= k < s.len() ==> (#[trigger] s[k]).end <= lo || hi <= s[k].start,
    ensures
        shift_before(s, hi) == shift_before(s, lo),
    decreases s.len(),
{
    if s.len() > 0 {
        let init = s.drop_last();
        assert(s.last() == s[s.len() - 1]);
        assert forall|k: int| 0 <= k < init.len() implies (#[trigger] init[k]).start
            < init[k].end && (init[k].end <= lo || hi <= init[k].start) by {
            assert(init[k] == s[k]);
        }
        lemma_same_shift(init, lo, hi);
    }
}

} // verus!
