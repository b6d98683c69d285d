//! The text-patching primitive: a set of pending replacements over byte ranges
//! is applied to an immutable source in one rewrite.

use vstd::prelude::*;
use vstd::utf8::*;
use vstd::slice::*;
use crate::patch_laws::{lemma_apply_in_prefix, lemma_splice_step, separated_desc};

verus! {

/// A pending replacement of the byte range `[start, end)` of a source by `text`.
pub struct Replacement {
    pub start: usize,
    pub end: usize,
    pub text: String,
}

/// What a [`Replacement`] stands for: integer offsets and the UTF-8 bytes of its text.
pub ghost struct Edit {
    pub start: int,
    pub end: int,
    pub text: Seq<u8>,
}

impl View for Replacement {
    type V = Edit;

    open spec fn view(&self) -> Edit {
        Edit { start: self.start as int, end: self.end as int, text: encode_utf8(self.text@) }
    }
}

impl Replacement {
    /// The replacement of `[start, end)` by `text`.
    pub fn new(start: usize, end: usize, text: String) -> (r: Replacement)
        ensures
            r.start == start,
            r.end == end,
            r.text == text,
    {
        Replacement { start, end, text }
    }
}

impl Edit {
    /// The span lies inside a buffer of `len` bytes.
    pub open spec fn fits(self, len: int) -> bool {
        0 <= self.start <= self.end <= len
    }

    /// By how many bytes the buffer grows when the edit is applied.
    pub open spec fn growth(self) -> int {
        self.text.len() - (self.end - self.start)
    }

    /// The buffer after the edit; an edit that does not fit leaves it unchanged.
    pub open spec fn apply(self, buf: Seq<u8>) -> Seq<u8> {
        if self.fits(buf.len() as int) {
            buf.subrange(0, self.start) + self.text + buf.subrange(self.end, buf.len() as int)
        } else {
            buf
        }
    }
}

/// The models of a sequence of replacements.
pub open spec fn models(rs: Seq<Replacement>) -> Seq<Edit> {
    rs.map_values(|r: Replacement| r@)
}

/// The edits applied one after the other, the first of the sequence first.
pub open spec fn apply_in_order(buf: Seq<u8>, edits: Seq<Edit>) -> Seq<u8>
    decreases edits.len(),
{
    if edits.len() == 0 {
        buf
    } else {
        edits.last().apply(apply_in_order(buf, edits.drop_last()))
    }
}

/// `e` placed into a sequence ordered by descending start, behind every edit
/// that starts at or after it.
pub open spec fn insert_desc(sorted: Seq<Edit>, e: Edit) -> Seq<Edit>
    decreases sorted.len(),
{
    if sorted.len() == 0 {
        seq![e]
    } else if sorted[0].start < e.start {
        seq![e] + sorted
    } else {
        seq![sorted[0]] + insert_desc(sorted.drop_first(), e)
    }
}

/// The edits ordered by descending start; edits with equal starts keep their order.
pub open spec fn sort_desc(edits: Seq<Edit>) -> Seq<Edit>
    decreases edits.len(),
{
    if edits.len() == 0 {
        Seq::empty()
    } else {
        insert_desc(sort_desc(edits.drop_last()), edits.last())
    }
}

/// The edits whose span lies inside a source of `len` bytes, in their order:
/// an edit whose span is reversed or reaches past the end of the source is
/// left out.
pub open spec fn admitted(edits: Seq<Edit>, len: int) -> Seq<Edit>
    decreases edits.len(),
{
    if edits.len() == 0 {
        Seq::empty()
    } else if edits.last().fits(len) {
        admitted(edits.drop_last(), len).push(edits.last())
    } else {
        admitted(edits.drop_last(), len)
    }
}

/// The source after all edits. An edit whose span does not lie inside the
/// source has no part in it. The others are taken by descending start and
/// applied in that order; where spans overlap, an edit is skipped if its span
/// no longer fits the buffer that the edits before it have left.
pub open spec fn patched(source: Seq<u8>, edits: Seq<Edit>) -> Seq<u8> {
    apply_in_order(source, sort_desc(admitted(edits, source.len() as int)))
}

/// The text that invalid UTF-8 is turned into, every malformed sequence
/// replaced by U+FFFD.
pub uninterp spec fn lossy_text(bytes: Seq<u8>) -> Seq<char>;

/// The text of a byte buffer: its decoding where it is valid UTF-8, the lossy
/// reconstruction otherwise.
pub open spec fn text_of(bytes: Seq<u8>) -> Seq<char> {
    if valid_utf8(bytes) {
        decode_utf8(bytes)
    } else {
        lossy_text(bytes)
    }
}

/// `String::from_utf8_lossy`, made into an owned string. Valid UTF-8 is
/// decoded as it stands; for anything else the result is the lossy
/// reconstruction that std computes, which is not spelled out here.
#[verifier::external_body]
pub(crate) fn string_from_utf8_lossy(bytes: &[u8]) -> (r: String)
    ensures
        valid_utf8(bytes@) ==> r@ == decode_utf8(bytes@),
        !valid_utf8(bytes@) ==> r@ == lossy_text(bytes@),
{
    String::from_utf8_lossy(bytes).into_owned()
}

/// The edits that `order` selects, the last of `order` first.
pub open spec fn pick_back(edits: Seq<Edit>, order: Seq<usize>) -> Seq<Edit> {
    Seq::new(order.len(), |k: int| edits[order[order.len() - 1 - k] as int])
}

/// Inserting by descending start is inserting at the first place whose edit
/// starts before the new one.
pub proof fn lemma_insert_desc_at(s: Seq<Edit>, e: Edit, pos: int)
    requires
        0 <= pos <= s.len(),
        forall|k: int| 0 <= k < pos ==> s[k].start >= e.start,
        pos < s.len() ==> s[pos].start < e.start,
    ensures
        insert_desc(s, e) == s.insert(pos, e),
    decreases pos,
{
    if s.len() == 0 {
        assert(s.insert(pos, e) =~= seq![e]);
    } else if pos == 0 {
        assert(s.insert(0, e) =~= seq![e] + s);
    } else {
        let rest = s.drop_first();
        assert forall|k: int| 0 <= k < pos - 1 implies rest[k].start >= e.start by {
            assert(rest[k] == s[k + 1]);
        }
        lemma_insert_desc_at(rest, e, pos - 1);
        assert(s.insert(pos, e) =~= seq![s[0]] + rest.insert(pos - 1, e));
    }
}

/// The indices of the replacements whose span lies inside a source of `len`
/// bytes, by ascending start, equal starts in the reverse of their given
/// order: read from its end, this is the order in which the replacements are
/// applied.
fn ascending_order(replacements: &[Replacement], len: usize) -> (order: Vec<usize>)
    ensures
        forall|k: int| 0 <= k < order@.len() ==> order@[k] < replacements@.len(),
        pick_back(models(replacements@), order@) == sort_desc(
            admitted(models(replacements@), len as int),
        ),
{
    let n: usize = replacements.len();
    let ghost edits = models(replacements@);
    let mut order: Vec<usize> = Vec::new();
    let mut i: usize = 0;
    while i < n
        invariant
            n == replacements@.len(),
            edits == models(replacements@),
            i <= n,
            forall|k: int| 0 <= k < order@.len() ==> order@[k] < i,
            pick_back(edits, order@) == sort_desc(admitted(edits.take(i as int), len as int)),
        decreases n - i,
    {
        proof {
            assert(edits.take(i + 1).drop_last() =~= edits.take(i as int));
            assert(edits.take(i + 1).last() == replacements@[i as int]@);
        }
        if replacements[i].start <= replacements[i].end && replacements[i].end <= len {
            let key: usize = replacements[i].start;
            let mut pos: usize = order.len();
            while pos > 0 && replacements[order[pos - 1]].start >= key
                invariant
                    n == replacements@.len(),
                    edits == models(replacements@),
                    i < n,
                    key == replacements@[i as int].start,
                    pos <= order@.len(),
                    forall|k: int| 0 <= k < order@.len() ==> order@[k] < i,
                    forall|k: int|
                        pos <= k < order@.len() ==> edits[order@[k] as int].start >= key,
                decreases pos,
            {
                pos -= 1;
            }
            proof {
                let sorted = pick_back(edits, order@);
                let e = edits[i as int];
                let at = order@.len() - pos;
                assert forall|k: int| 0 <= k < at implies sorted[k].start >= e.start by {
                    assert(sorted[k] == edits[order@[order@.len() - 1 - k] as int]);
                }
                lemma_insert_desc_at(sorted, e, at);
                let kept = admitted(edits.take(i as int), len as int);
                assert(kept.push(e).drop_last() =~= kept);
                assert(kept.push(e).last() == e);
                assert(pick_back(edits, order@.insert(pos as int, i)) =~= sorted.insert(at, e));
            }
            order.insert(pos, i);
        }
        i += 1;
    }
    proof {
        assert(edits.take(n as int) =~= edits);
    }
    order
}

/// Whether the replacements, in the order in which they are applied, each
/// lie inside a buffer of `len` bytes, wholly before the one applied before
/// them, and start before it.
fn is_separated(replacements: &[Replacement], order: &Vec<usize>, len: usize) -> (ok: bool)
    requires
        forall|k: int| 0 <= k < order@.len() ==> order@[k] < replacements@.len(),
    ensures
        ok == separated_desc(pick_back(models(replacements@), order@), len as int),
{
    let ghost sorted = pick_back(models(replacements@), order@);
    let m: usize = order.len();
    let mut k: usize = 0;
    while k < m
        invariant
            k <= m == order@.len(),
            sorted == pick_back(models(replacements@), order@),
            forall|j: int| 0 <= j < order@.len() ==> order@[j] < replacements@.len(),
            forall|i: int|
                m - k <= i < m ==> 0 <= (#[trigger] sorted[i]).start <= sorted[i].end <= len,
            forall|i: int, j: int|
                m - k <= i < j < m ==> (#[trigger] sorted[j]).end <= (#[trigger] sorted[i]).start
                    && sorted[j].start < sorted[i].start,
        decreases m - k,
    {
        let cur = &replacements[order[k]];
        assert(sorted[m - 1 - k] == cur@);
        if !(cur.start <= cur.end && cur.end <= len) {
            return false;
        }
        if k > 0 {
            let before = &replacements[order[k - 1]];
            assert(sorted[m - k] == before@);
            if before.end > cur.start || before.start >= cur.start {
                return false;
            }
        }
        k += 1;
    }
    true
}

/// One edit applied to a byte buffer.
fn splice(bytes: Vec<u8>, r: &Replacement) -> (out: Vec<u8>)
    ensures
        out@ == r@.apply(bytes@),
{
    if r.start <= r.end && r.end <= bytes.len() {
        let mut out: Vec<u8> = Vec::new();
        out.extend_from_slice(slice_subrange(bytes.as_slice(), 0, r.start));
        out.extend_from_slice(r.text.as_str().as_bytes());
        out.extend_from_slice(slice_subrange(bytes.as_slice(), r.end, bytes.len()));
        out
    } else {
        bytes
    }
}

/// The replacements applied one after the other, each to the whole buffer.
fn splice_each(source: &[u8], replacements: &[Replacement], order: &Vec<usize>) -> (out: Vec<u8>)
    requires
        forall|k: int| 0 <= k < order@.len() ==> order@[k] < replacements@.len(),
    ensures
        out@ == apply_in_order(source@, pick_back(models(replacements@), order@)),
{
    let ghost sorted = pick_back(models(replacements@), order@);
    let m: usize = order.len();
    let mut bytes: Vec<u8> = slice_to_vec(source);
    let mut k: usize = 0;
    while k < m
        invariant
            k <= m == order@.len(),
            forall|j: int| 0 <= j < order@.len() ==> order@[j] < replacements@.len(),
            sorted == pick_back(models(replacements@), order@),
            bytes@ == apply_in_order(source@, sorted.take(k as int)),
        decreases m - k,
    {
        proof {
            assert(sorted.take(k + 1).drop_last() =~= sorted.take(k as int));
            assert(sorted.take(k + 1).last() == replacements@[order@[m - 1 - k] as int]@);
        }
        bytes = splice(bytes, &replacements[order[m - 1 - k]]);
        k += 1;
    }
    proof {
        assert(sorted.take(m as int) =~= sorted);
    }
    bytes
}

/// Replacements that do not overlap applied in one pass over the source:
/// what lies between them is copied, each span gives way to its new text.
fn splice_all(source: &[u8], replacements: &[Replacement], order: &Vec<usize>) -> (out: Vec<u8>)
    requires
        forall|k: int| 0 <= k < order@.len() ==> order@[k] < replacements@.len(),
        separated_desc(pick_back(models(replacements@), order@), source@.len() as int),
    ensures
        out@ == apply_in_order(source@, pick_back(models(replacements@), order@)),
{
    let ghost sorted = pick_back(models(replacements@), order@);
    let m: usize = order.len();
    let mut out: Vec<u8> = Vec::new();
    let mut pos: usize = 0;
    let mut k: usize = 0;
    proof {
        assert(sorted.subrange(m as int, m as int) =~= Seq::<Edit>::empty());
        assert(source@.subrange(0, 0) =~= Seq::<u8>::empty());
    }
    while k < m
        invariant
            k <= m == order@.len(),
            forall|j: int| 0 <= j < order@.len() ==> order@[j] < replacements@.len(),
            sorted == pick_back(models(replacements@), order@),
            separated_desc(sorted, source@.len() as int),
            pos <= source@.len(),
            pos == if k == 0 { 0 } else { sorted[m - k].end },
            out@ == apply_in_order(source@.subrange(0, pos as int), sorted.subrange(m - k, m as int)),
        decreases m - k,
    {
        let r = &replacements[order[k]];
        proof {
            let e = sorted[m - 1 - k];
            let done = sorted.subrange(m - k, m as int);
            assert(e == r@);
            assert(sorted.subrange(m - 1 - k, m as int) =~= seq![e] + done);
            assert(separated_desc(done, pos as int)) by {
                assert forall|i: int| 0 <= i < done.len() implies 0 <= (#[trigger] done[i]).start
                    <= done[i].end <= pos by {
                    assert(done[i] == sorted[m - k + i]);
                }
                assert forall|i: int, j: int| 0 <= i < j < done.len() implies (
                #[trigger] done[j]).end <= (#[trigger] done[i]).start && done[j].start
                    < done[i].start by {
                    assert(done[i] == sorted[m - k + i] && done[j] == sorted[m - k + j]);
                }
            }
            if k > 0 {
                assert(sorted[m - k].end <= sorted[m - 1 - k].start);
            }
            lemma_splice_step(source@, done, e, pos as int);
        }
        out.extend_from_slice(slice_subrange(source, pos, r.start));
        out.extend_from_slice(r.text.as_str().as_bytes());
        pos = r.end;
        k += 1;
    }
    proof {
        assert(sorted.subrange(0, m as int) =~= sorted);
        assert(separated_desc(sorted, pos as int)) by {
            assert forall|i: int| 0 <= i < sorted.len() implies 0 <= (#[trigger] sorted[i]).start
                <= sorted[i].end <= pos by {
                if i > 0 {
                    assert(sorted[i].end <= sorted[0].start);
                }
            }
        }
        lemma_apply_in_prefix(source@, sorted, pos as int);
    }
    out.extend_from_slice(slice_subrange(source, pos, source.len()));
    out
}

/// The bytes of `source` after all of `replacements`.
pub fn patch_bytes(source: &[u8], replacements: &[Replacement]) -> (out: Vec<u8>)
    ensures
        out@ == patched(source@, models(replacements@)),
{
    let order = ascending_order(replacements, source.len());
    if is_separated(replacements, &order, source.len()) {
        splice_all(source, replacements, &order)
    } else {
        splice_each(source, replacements, &order)
    }
}

/// Applies the replacements to `source` in one rewrite. A replacement whose
/// span is reversed or reaches past the end of the source is dropped and has
/// no effect. The others are taken by descending start, so that an applied
/// edit never moves the span of one still pending. The result is always
/// text: bytes that are no valid UTF-8 are reconstructed lossily.
pub fn apply_replacements(source: &str, replacements: &[Replacement]) -> (result: String)
    ensures
        result@ == text_of(patched(encode_utf8(source@), models(replacements@))),
{
    let bytes = patch_bytes(source.as_bytes(), replacements);
    string_from_utf8_lossy(bytes.as_slice())
}

} // verus!
