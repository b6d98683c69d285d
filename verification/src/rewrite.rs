//! Which replacements a renamer may make: the rule by which a span is taken
//! or left, what holds of the spans that were taken, and the rewrite in
//! progress that the renamers fill.

use vstd::prelude::*;
use vstd::utf8::*;
use vstd::slice::*;
use crate::keywords::{is_reserved, is_reserved_word};
use crate::laws::{lemma_clean_keeps_protected, lemma_clean_output, protected_text_kept};
use crate::patch::{apply_replacements, models, patched, Edit, Replacement};
use crate::patch_laws::pairwise_apart;
use crate::protect::{
    lemma_scan_in_bounds,
    is_plain,
    plain_run,
    plain_text,
    protected_ranges,
    protected_spans,
    spans,
    touches,
    Lexical,
    Span,
};

verus! {

/// Whether the span `[start, end)` of `source` may be replaced when `edits`
/// have been taken before it: it holds at least one byte and lies inside the
/// source, it begins and ends between two characters, what it holds is no
/// reserved word and no byte that means anything to the scanner of protected
/// text, it shares no byte with a string, a character literal or a comment,
/// and none with a span taken before.
#[verifier::opaque]
pub open spec fn acceptable(source: Seq<u8>, edits: Seq<Edit>, start: int, end: int) -> bool {
    &&& 0 <= start < end <= source.len()
    &&& is_char_boundary(source, start)
    &&& is_char_boundary(source, end)
    &&& !is_reserved(source.subrange(start, end))
    &&& plain_run(source, start, end)
    &&& !touches(protected_spans(source), start, end)
    &&& forall|k: int| 0 <= k < edits.len() ==> (#[trigger] edits[k]).end <= start || end <= edits[k].start
}

/// What holds of the edits that a renamer has taken: each was acceptable when
/// it was taken, and its new text is valid UTF-8, not empty and plain.
pub open spec fn clean(source: Seq<u8>, edits: Seq<Edit>) -> bool {
    &&& pairwise_apart(edits, source.len() as int)
    &&& forall|k: int|
        0 <= k < edits.len() ==> {
            &&& (#[trigger] edits[k]).start < edits[k].end
            &&& is_char_boundary(source, edits[k].start)
            &&& is_char_boundary(source, edits[k].end)
            &&& valid_utf8(edits[k].text)
            &&& plain_text(edits[k].text)
            &&& plain_run(source, edits[k].start, edits[k].end)
            &&& !is_reserved(source.subrange(edits[k].start, edits[k].end))
            &&& !touches(protected_spans(source), edits[k].start, edits[k].end)
        }
}

/// Taking an acceptable span keeps the edits clean.
pub proof fn lemma_take_keeps_clean(source: Seq<u8>, edits: Seq<Edit>, e: Edit)
    requires
        clean(source, edits),
        acceptable(source, edits, e.start, e.end),
        valid_utf8(e.text),
        plain_text(e.text),
    ensures
        clean(source, edits.push(e)),
{
    reveal(acceptable);
    let all = edits.push(e);
    assert forall|k: int| 0 <= k < all.len() implies {
        &&& (#[trigger] all[k]).start < all[k].end
        &&& 0 <= all[k].start <= all[k].end <= source.len()
        &&& is_char_boundary(source, all[k].start)
        &&& is_char_boundary(source, all[k].end)
        &&& valid_utf8(all[k].text)
        &&& plain_text(all[k].text)
        &&& plain_run(source, all[k].start, all[k].end)
        &&& !is_reserved(source.subrange(all[k].start, all[k].end))
        &&& !touches(protected_spans(source), all[k].start, all[k].end)
    } by {
        if k < edits.len() {
            assert(all[k] == edits[k]);
        }
    }
    assert forall|i: int, j: int|
        0 <= i < all.len() && 0 <= j < all.len() && i != j implies crate::patch_laws::apart(
        #[trigger] all[i],
        #[trigger] all[j],
    ) && all[i].start != all[j].start by {
        assert(all[i].start < all[i].end && all[j].start < all[j].end);
        if i < edits.len() {
            assert(all[i] == edits[i]);
        }
        if j < edits.len() {
            assert(all[j] == edits[j]);
        }
    }
}

/// Byte `i` lies in one of the first `count` spans.
pub open spec fn within(spans: Seq<Span>, count: int, i: int) -> bool {
    exists|k: int| 0 <= k < count && (#[trigger] spans[k]).start <= i < spans[k].end
}

/// Byte `i` of the source is spoken for: it lies in a string, a character
/// literal or a comment, or in a span that has been taken.
pub open spec fn spoken_for(source: Seq<u8>, edits: Seq<Edit>, i: int) -> bool {
    ||| within(protected_spans(source), protected_spans(source).len() as int, i)
    ||| exists|k: int| 0 <= k < edits.len() && (#[trigger] edits[k]).start <= i < edits[k].end
}

/// A span of which a byte is spoken for may not be replaced.
proof fn lemma_spoken_for_refuses(source: Seq<u8>, edits: Seq<Edit>, start: int, end: int, i: int)
    requires
        start <= i < end,
        spoken_for(source, edits, i),
    ensures
        !acceptable(source, edits, start, end),
{
    reveal(acceptable);
    let protected = protected_spans(source);
    if within(protected, protected.len() as int, i) {
        let k = choose|k: int| 0 <= k < protected.len() && (#[trigger] protected[k]).start <= i
            < protected[k].end;
        assert(start < protected[k].end && protected[k].start < end);
    } else {
        let k = choose|k: int| 0 <= k < edits.len() && (#[trigger] edits[k]).start <= i
            < edits[k].end;
        assert(!(edits[k].end <= start || end <= edits[k].start));
    }
}

/// A span of which no byte is spoken for shares no byte with a protected
/// span or with a span that has been taken.
proof fn lemma_free_span(source: Seq<u8>, edits: Seq<Edit>, start: int, end: int)
    requires
        clean(source, edits),
        0 <= start < end <= source.len(),
        forall|i: int| start <= i < end ==> !spoken_for(source, edits, i),
    ensures
        !touches(protected_spans(source), start, end),
        forall|k: int| 0 <= k < edits.len() ==> (#[trigger] edits[k]).end <= start || end
            <= edits[k].start,
{
    let protected = protected_spans(source);
    lemma_scan_in_bounds(source, 0, Lexical::Code, 0);
    assert forall|k: int| 0 <= k < protected.len() implies !(start < (#[trigger] protected[k]).end
        && protected[k].start < end) by {
        if start < protected[k].end && protected[k].start < end {
            let i = if start <= protected[k].start { protected[k].start } else { start };
            assert(protected[k].start <= i < protected[k].end);
            assert(within(protected, protected.len() as int, i));
            assert(spoken_for(source, edits, i));
        }
    }
    assert forall|k: int| 0 <= k < edits.len() implies (#[trigger] edits[k]).end <= start || end
        <= edits[k].start by {
        if !(edits[k].end <= start || end <= edits[k].start) {
            let i = if start <= edits[k].start { edits[k].start } else { start };
            assert(edits[k].start <= i < edits[k].end);
            assert(spoken_for(source, edits, i));
        }
    }
}

/// A rewrite in progress: a source, the replacements taken so far, and for
/// every byte of the source whether it is spoken for.
pub struct Rewrite<'a> {
    source: &'a str,
    spoken: Vec<bool>,
    edits: Vec<Replacement>,
}

impl<'a> Rewrite<'a> {
    /// The bytes of the source.
    pub closed spec fn source(&self) -> Seq<u8> {
        encode_utf8(self.source@)
    }

    /// The edits taken so far, in the order in which they were taken.
    pub closed spec fn taken(&self) -> Seq<Edit> {
        models(self.edits@)
    }

    /// The edits taken are clean, and the bytes that are spoken for are known.
    pub closed spec fn wf(&self) -> bool {
        &&& clean(self.source(), self.taken())
        &&& self.spoken@.len() == self.source().len()
        &&& forall|i: int|
            0 <= i < self.spoken@.len() ==> #[trigger] self.spoken@[i] == spoken_for(
                self.source(),
                self.taken(),
                i,
            )
    }

    /// A rewrite of `source` in which nothing has been taken yet.
    pub fn new(source: &'a str) -> (rw: Rewrite<'a>)
        ensures
            rw.wf(),
            rw.source() == encode_utf8(source@),
            rw.taken() == Seq::<Edit>::empty(),
    {
        let bytes = source.as_bytes();
        let n: usize = bytes.len();
        let ranges = protected_ranges(bytes);
        let ghost protected = protected_spans(bytes@);
        let mut spoken: Vec<bool> = vec![false; n];
        let mut r: usize = 0;
        while r < ranges.len()
            invariant
                r <= ranges@.len(),
                n == bytes@.len(),
                spoken@.len() == n,
                spans(ranges@) == protected,
                forall|k: int|
                    0 <= k < ranges@.len() ==> (#[trigger] ranges@[k]).start < ranges@[k].end <= n,
                forall|i: int| 0 <= i < n ==> #[trigger] spoken@[i] == within(protected, r as int, i),
            decreases ranges@.len() - r,
        {
            let range = ranges[r];
            assert(protected[r as int] == range@);
            let mut i: usize = range.start;
            while i < range.end
                invariant
                    range.start <= i <= range.end <= n,
                    spoken@.len() == n,
                    r < ranges@.len(),
                    spans(ranges@) == protected,
                    protected[r as int] == range@,
                    forall|j: int|
                        0 <= j < n ==> #[trigger] spoken@[j] == (within(protected, r as int, j) || (
                        range.start <= j < i)),
                decreases range.end - i,
            {
                spoken.set(i, true);
                i += 1;
            }
            proof {
                assert forall|j: int| 0 <= j < n implies #[trigger] spoken@[j] == within(
                    protected,
                    r + 1,
                    j,
                ) by {
                    if within(protected, r as int, j) {
                        let k = choose|k: int| 0 <= k < r && (#[trigger] protected[k]).start <= j
                            < protected[k].end;
                        assert(0 <= k < r + 1 && protected[k].start <= j < protected[k].end);
                    } else if range.start <= j < range.end {
                        assert(protected[r as int].start <= j < protected[r as int].end);
                    } else if within(protected, r + 1, j) {
                        let k = choose|k: int| 0 <= k < r + 1 && (#[trigger] protected[k]).start
                            <= j < protected[k].end;
                        assert(k < r);
                    }
                }
            }
            r += 1;
        }
        let rw = Rewrite { source, spoken, edits: Vec::new() };
        proof {
            assert(rw.taken() =~= Seq::<Edit>::empty());
            assert(ranges@.len() == protected.len());
        }
        rw
    }

    /// The number of replacements taken.
    pub fn len(&self) -> (n: usize)
        ensures
            n == self.taken().len(),
    {
        self.edits.len()
    }

    /// The bytes of the source.
    pub fn bytes(&self) -> (bytes: &[u8])
        ensures
            bytes@ == self.source(),
    {
        self.source.as_bytes()
    }

    /// Whether the span `[start, end)` may be replaced.
    pub fn accepts(&self, start: usize, end: usize) -> (ok: bool)
        requires
            self.wf(),
        ensures
            ok == acceptable(self.source(), self.taken(), start as int, end as int),
    {
        let bytes = self.source.as_bytes();
        if !(start < end && end <= bytes.len()) {
            proof {
                reveal(acceptable);
            }
            return false;
        }
        if !self.source.is_char_boundary(start) || !self.source.is_char_boundary(end) {
            proof {
                reveal(acceptable);
            }
            return false;
        }
        if is_reserved_word(slice_subrange(bytes, start, end)) {
            proof {
                reveal(acceptable);
            }
            return false;
        }
        let mut i: usize = start;
        while i < end
            invariant
                self.wf(),
                bytes@ == self.source(),
                start <= i <= end <= self.source().len(),
                forall|j: int| start <= j < i ==> !spoken_for(self.source(), self.taken(), j),
                plain_run(self.source(), start as int, i as int),
            decreases end - i,
        {
            if !is_plain(bytes[i]) {
                proof {
                    reveal(acceptable);
                }
                return false;
            }
            if self.spoken[i] {
                proof {
                    lemma_spoken_for_refuses(
                        self.source(),
                        self.taken(),
                        start as int,
                        end as int,
                        i as int,
                    );
                }
                return false;
            }
            i += 1;
        }
        proof {
            reveal(acceptable);
            lemma_free_span(self.source(), self.taken(), start as int, end as int);
        }
        true
    }

    /// Takes the span `[start, end)`, to be replaced by `text`.
    pub fn take(&mut self, start: usize, end: usize, text: String)
        requires
            old(self).wf(),
            acceptable(old(self).source(), old(self).taken(), start as int, end as int),
            plain_text(encode_utf8(text@)),
        ensures
            final(self).wf(),
            final(self).source() == old(self).source(),
            final(self).taken() == old(self).taken().push(
                Edit { start: start as int, end: end as int, text: encode_utf8(text@) },
            ),
    {
        let ghost e = Edit { start: start as int, end: end as int, text: encode_utf8(text@) };
        let ghost before = self.taken();
        proof {
            reveal(acceptable);
            encode_utf8_valid_utf8(text@);
            lemma_take_keeps_clean(self.source(), before, e);
        }
        let mut i: usize = start;
        while i < end
            invariant
                start <= i <= end <= self.spoken@.len(),
                self.spoken@.len() == old(self).spoken@.len(),
                self.source == old(self).source,
                self.edits == old(self).edits,
                forall|j: int|
                    0 <= j < self.spoken@.len() ==> #[trigger] self.spoken@[j] == (old(
                        self,
                    ).spoken@[j] || (start <= j < i)),
            decreases end - i,
        {
            self.spoken.set(i, true);
            i += 1;
        }
        self.edits.push(Replacement::new(start, end, text));
        proof {
            let after = before.push(e);
            assert(self.taken() =~= after);
            assert forall|j: int| 0 <= j < self.spoken@.len() implies #[trigger] self.spoken@[j]
                == spoken_for(self.source(), after, j) by {
                if spoken_for(self.source(), before, j) {
                    if !within(
                        protected_spans(self.source()),
                        protected_spans(self.source()).len() as int,
                        j,
                    ) {
                        let k = choose|k: int| 0 <= k < before.len() && (#[trigger] before[k]).start
                            <= j < before[k].end;
                        assert(after[k] == before[k]);
                    }
                } else if start <= j < end {
                    assert(after[before.len() as int] == e);
                } else if spoken_for(self.source(), after, j) {
                    let k = choose|k: int| 0 <= k < after.len() && (#[trigger] after[k]).start <= j
                        < after[k].end;
                    if k < before.len() {
                        assert(after[k] == before[k]);
                    }
                }
            }
        }
    }

    /// The source with the replacements taken applied: its strings, character
    /// literals and comments are kept byte for byte.
    pub fn finish(self) -> (result: String)
        requires
            self.wf(),
        ensures
            encode_utf8(result@) == patched(self.source(), self.taken()),
            protected_text_kept(self.source(), encode_utf8(result@)),
    {
        let result = apply_replacements(self.source, self.edits.as_slice());
        proof {
            let bytes = self.source();
            encode_utf8_valid_utf8(self.source@);
            lemma_clean_output(bytes, self.taken());
            lemma_clean_keeps_protected(bytes, self.taken());
            decode_utf8_encode_utf8(patched(bytes, self.taken()));
        }
        result
    }
}

} // verus!
