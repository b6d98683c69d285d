//! What holds of the text-patching primitive: that edits outside the source
//! have no effect, the length of its output, and, for edits that do not
//! overlap, where every byte of the output comes from.

use vstd::prelude::*;
use vstd::utf8::*;
use crate::patch::{
    admitted,
    apply_in_order,
    insert_desc,
    lemma_insert_desc_at,
    patched,
    sort_desc,
    Edit,
};

verus! {

/// The growth of the edits that are applied when `edits` meet, in this order,
/// a buffer of `len` bytes: an edit counts if it fits the buffer as the edits
/// before it have left it.
pub open spec fn applied_growth(len: int, edits: Seq<Edit>) -> int
    decreases edits.len(),
{
    if edits.len() == 0 {
        0
    } else {
        let before = applied_growth(len, edits.drop_last());
        let e = edits.last();
        before + if e.fits(len + before) { e.growth() } else { 0 }
    }
}

/// The growth of all the edits together.
pub open spec fn total_growth(edits: Seq<Edit>) -> int
    decreases edits.len(),
{
    if edits.len() == 0 {
        0
    } else {
        total_growth(edits.drop_last()) + edits.last().growth()
    }
}

/// The growth of the edits that end at or before `pos`: by so much a byte at
/// `pos` is moved by them.
pub open spec fn shift_before(edits: Seq<Edit>, pos: int) -> int
    decreases edits.len(),
{
    if edits.len() == 0 {
        0
    } else {
        shift_before(edits.drop_last(), pos) + if edits.last().end <= pos {
            edits.last().growth()
        } else {
            0
        }
    }
}

/// Two spans that share no byte.
pub open spec fn apart(a: Edit, b: Edit) -> bool {
    a.end <= b.start || b.end <= a.start
}

/// Every edit has its span inside a buffer of `len` bytes, no two spans
/// share a byte, and no two edits start at the same place. A span may be
/// empty: the edit then inserts its text.
pub open spec fn pairwise_apart(edits: Seq<Edit>, len: int) -> bool {
    &&& forall|i: int|
        0 <= i < edits.len() ==> 0 <= (#[trigger] edits[i]).start <= edits[i].end <= len
    &&& forall|i: int, j: int|
        0 <= i < edits.len() && 0 <= j < edits.len() && i != j ==> apart(
            #[trigger] edits[i],
            #[trigger] edits[j],
        ) && edits[i].start != edits[j].start
}

/// As [`pairwise_apart`], and ordered so that every edit lies wholly before
/// the ones in front of it and starts before them.
pub open spec fn separated_desc(s: Seq<Edit>, len: int) -> bool {
    &&& forall|i: int| 0 <= i < s.len() ==> 0 <= (#[trigger] s[i]).start <= s[i].end <= len
    &&& forall|i: int, j: int|
        0 <= i < j < s.len() ==> (#[trigger] s[j]).end <= (#[trigger] s[i]).start && s[j].start
            < s[i].start
}

/// The growth of the edits that start before `pos`.
pub open spec fn growth_left_of(edits: Seq<Edit>, pos: int) -> int
    decreases edits.len(),
{
    if edits.len() == 0 {
        0
    } else {
        growth_left_of(edits.drop_last(), pos) + if edits.last().start < pos {
            edits.last().growth()
        } else {
            0
        }
    }
}

/// The length of the output is the length of the input plus the growth of
/// the edits that were applied.
pub proof fn lemma_apply_in_order_len(buf: Seq<u8>, edits: Seq<Edit>)
    ensures
        apply_in_order(buf, edits).len() == buf.len() + applied_growth(buf.len() as int, edits),
    decreases edits.len(),
{
    if edits.len() > 0 {
        lemma_apply_in_order_len(buf, edits.drop_last());
    }
}

/// Every edit that is admitted lies inside the source, and every edit that
/// lies inside the source is admitted.
pub proof fn lemma_admitted(edits: Seq<Edit>, len: int)
    ensures
        admitted(edits, len).len() <= edits.len(),
        forall|k: int|
            0 <= k < admitted(edits, len).len() ==> (#[trigger] admitted(edits, len)[k]).fits(len)
                && edits.contains(admitted(edits, len)[k]),
        forall|i: int|
            0 <= i < edits.len() && (#[trigger] edits[i]).fits(len) ==> admitted(
                edits,
                len,
            ).contains(edits[i]),
    decreases edits.len(),
{
    if edits.len() > 0 {
        let init = edits.drop_last();
        let e = edits.last();
        let a = admitted(init, len);
        let all = admitted(edits, len);
        lemma_admitted(init, len);
        assert forall|k: int| 0 <= k < all.len() implies (#[trigger] all[k]).fits(len)
            && edits.contains(all[k]) by {
            if k < a.len() {
                assert(all[k] == a[k]);
                let i = choose|i: int| 0 <= i < init.len() && init[i] == a[k];
                assert(edits[i] == a[k]);
            } else {
                assert(all[k] == e);
                assert(edits[edits.len() - 1] == e);
            }
        }
        assert forall|i: int| 0 <= i < edits.len() && (#[trigger] edits[i]).fits(len) implies all.contains(
            edits[i],
        ) by {
            if i < init.len() {
                assert(init[i] == edits[i]);
                let k = choose|k: int| 0 <= k < a.len() && a[k] == init[i];
                assert(all[k] == a[k]);
            } else {
                assert(all[all.len() - 1] == e);
            }
        }
    }
}

/// Where every edit lies inside the source, all are admitted.
pub proof fn lemma_admitted_all(edits: Seq<Edit>, len: int)
    requires
        forall|i: int| 0 <= i < edits.len() ==> (#[trigger] edits[i]).fits(len),
    ensures
        admitted(edits, len) == edits,
    decreases edits.len(),
{
    if edits.len() > 0 {
        let init = edits.drop_last();
        assert forall|i: int| 0 <= i < init.len() implies (#[trigger] init[i]).fits(len) by {
            assert(init[i] == edits[i]);
        }
        lemma_admitted_all(init, len);
        assert(edits.last() == edits[edits.len() - 1]);
        assert(init.push(edits.last()) =~= edits);
    }
}

/// An edit whose span is reversed or reaches past the end of the source has
/// no effect: the output is that of the other edits alone.
pub proof fn lemma_dropped_edits_have_no_effect(source: Seq<u8>, edits: Seq<Edit>)
    ensures
        patched(source, edits) == patched(source, admitted(edits, source.len() as int)),
{
    lemma_admitted(edits, source.len() as int);
    lemma_admitted_all(admitted(edits, source.len() as int), source.len() as int);
}

/// Patching never fails, and its output is as long as the source plus the
/// sum, over the edits that were applied, of the length of the new text less
/// the length of the span it replaces.
pub proof fn lemma_patched_len(source: Seq<u8>, edits: Seq<Edit>)
    ensures
        patched(source, edits).len() == source.len() + applied_growth(
            source.len() as int,
            sort_desc(admitted(edits, source.len() as int)),
        ),
{
    lemma_apply_in_order_len(source, sort_desc(admitted(edits, source.len() as int)));
}

/// Edits that all end behind `pos` do not move the byte at `pos`.
pub proof fn lemma_shift_none(s: Seq<Edit>, pos: int)
    requires
        forall|i: int| 0 <= i < s.len() ==> (#[trigger] s[i]).end > pos,
    ensures
        shift_before(s, pos) == 0,
    decreases s.len(),
{
    if s.len() > 0 {
        let init = s.drop_last();
        assert forall|i: int| 0 <= i < init.len() implies (#[trigger] init[i]).end > pos by {
            assert(init[i] == s[i]);
        }
        lemma_shift_none(init, pos);
    }
}

proof fn lemma_left_none(s: Seq<Edit>, pos: int)
    requires
        forall|i: int| 0 <= i < s.len() ==> (#[trigger] s[i]).start >= pos,
    ensures
        growth_left_of(s, pos) == 0,
    decreases s.len(),
{
    if s.len() > 0 {
        let init = s.drop_last();
        assert forall|i: int| 0 <= i < init.len() implies (#[trigger] init[i]).start >= pos by {
            assert(init[i] == s[i]);
        }
        lemma_left_none(init, pos);
    }
}

/// Without its last edit a separated sequence is separated, and the last
/// edit lies wholly before the others.
pub proof fn lemma_separated_init(s: Seq<Edit>, len: int)
    requires
        separated_desc(s, len),
        s.len() > 0,
    ensures
        separated_desc(s.drop_last(), len),
        forall|i: int|
            0 <= i < s.len() - 1 ==> s.last().end <= (#[trigger] s.drop_last()[i]).start
                && s.last().start < s.drop_last()[i].start && s.drop_last()[i].start
                <= s.drop_last()[i].end,
        0 <= s.last().start <= s.last().end <= len,
{
    let init = s.drop_last();
    assert(s.last() == s[s.len() - 1]);
    assert forall|i: int| 0 <= i < init.len() implies 0 <= (#[trigger] init[i]).start
        <= init[i].end <= len by {
        assert(init[i] == s[i]);
    }
    assert forall|i: int, j: int| 0 <= i < j < init.len() implies (#[trigger] init[j]).end <= (
    #[trigger] init[i]).start && init[j].start < init[i].start by {
        assert(init[i] == s[i]);
        assert(init[j] == s[j]);
    }
    assert forall|i: int| 0 <= i < s.len() - 1 implies s.last().end <= (#[trigger] init[i]).start
        && s.last().start < init[i].start && init[i].start <= init[i].end by {
        assert(init[i] == s[i]);
    }
}

/// Edits that all lie at or after `m` never move a byte at or after `m` to
/// a place before `m`.
pub proof fn lemma_shift_floor(s: Seq<Edit>, len: int, m: int, pos: int)
    requires
        separated_desc(s, len),
        forall|i: int| 0 <= i < s.len() ==> (#[trigger] s[i]).start >= m,
        pos >= m,
    ensures
        pos + shift_before(s, pos) >= m,
    decreases s.len(),
{
    if s.len() > 0 {
        let init = s.drop_last();
        let f = s.last();
        lemma_separated_init(s, len);
        assert(f == s[s.len() - 1]);
        if f.end <= pos {
            lemma_shift_floor(init, len, f.end, pos);
        } else {
            assert forall|i: int| 0 <= i < init.len() implies (#[trigger] init[i]).end > pos by {}
            lemma_shift_none(init, pos);
        }
    }
}

/// As [`lemma_shift_floor`], for the edits that start before `pos`, where
/// none of them reaches past `pos`.
proof fn lemma_left_floor(s: Seq<Edit>, len: int, m: int, pos: int)
    requires
        separated_desc(s, len),
        forall|i: int| 0 <= i < s.len() ==> (#[trigger] s[i]).start >= m,
        forall|i: int| 0 <= i < s.len() && (#[trigger] s[i]).start < pos ==> s[i].end <= pos,
        pos >= m,
    ensures
        pos + growth_left_of(s, pos) >= m,
    decreases s.len(),
{
    if s.len() > 0 {
        let init = s.drop_last();
        let f = s.last();
        lemma_separated_init(s, len);
        assert(f == s[s.len() - 1]);
        assert forall|i: int| 0 <= i < init.len() && (#[trigger] init[i]).start
            < pos implies init[i].end <= pos by {
            assert(init[i] == s[i]);
        }
        if f.start < pos {
            lemma_left_floor(init, len, f.end, pos);
        } else {
            assert forall|i: int| 0 <= i < init.len() implies (#[trigger] init[i]).start
                >= pos by {}
            lemma_left_none(init, pos);
        }
    }
}

/// A range of the buffer that no edit touches is found again in the output,
/// moved by the growth of the edits before it.
pub proof fn lemma_range_preserved(buf: Seq<u8>, s: Seq<Edit>, lo: int, hi: int)
    requires
        separated_desc(s, buf.len() as int),
        0 <= lo < hi <= buf.len(),
        forall|i: int| 0 <= i < s.len() ==> (#[trigger] s[i]).end <= lo || hi <= s[i].start,
    ensures
        0 <= lo + shift_before(s, lo),
        hi + shift_before(s, lo) <= apply_in_order(buf, s).len(),
        apply_in_order(buf, s).subrange(lo + shift_before(s, lo), hi + shift_before(s, lo))
            == buf.subrange(lo, hi),
    decreases s.len(),
{
    if s.len() == 0 {
        assert(buf.subrange(lo, hi) =~= apply_in_order(buf, s).subrange(lo, hi));
    } else {
        let init = s.drop_last();
        let e = s.last();
        let mid = apply_in_order(buf, init);
        let out = apply_in_order(buf, s);
        let len = buf.len() as int;
        lemma_separated_init(s, len);
        assert(e == s[s.len() - 1]);
        assert forall|i: int| 0 <= i < init.len() implies (#[trigger] init[i]).end <= lo || hi
            <= init[i].start by {
            assert(init[i] == s[i]);
        }
        // the edit applied last fits what the others have left
        assert(e.fits(mid.len() as int)) by {
            if e.end > 0 {
                assert forall|i: int| 0 <= i < init.len() implies (#[trigger] init[i]).end
                    > 0 by {}
                lemma_shift_none(init, 0);
                lemma_range_preserved(buf, init, 0, e.end);
            }
        }
        lemma_range_preserved(buf, init, lo, hi);
        let sh = shift_before(init, lo);
        if hi <= e.start {
            assert forall|i: int| 0 <= i < init.len() implies (#[trigger] init[i]).end > lo by {}
            lemma_shift_none(init, lo);
            assert(out.subrange(lo, hi) =~= mid.subrange(lo, hi));
        } else {
            assert forall|i: int| 0 <= i < init.len() implies (#[trigger] init[i]).start
                >= e.end by {}
            lemma_shift_floor(init, len, e.end, lo);
            assert(out.subrange(lo + sh + e.growth(), hi + sh + e.growth()) =~= mid.subrange(
                lo + sh,
                hi + sh,
            ));
        }
    }
}

/// The edit that is applied last fits what the edits before it have left,
/// and these have left the buffer up to the end of its span as it was.
pub proof fn lemma_last_fits(buf: Seq<u8>, s: Seq<Edit>)
    requires
        separated_desc(s, buf.len() as int),
        s.len() > 0,
    ensures
        s.last().fits(apply_in_order(buf, s.drop_last()).len() as int),
        apply_in_order(buf, s.drop_last()).subrange(0, s.last().end) == buf.subrange(
            0,
            s.last().end,
        ),
{
    let init = s.drop_last();
    let e = s.last();
    lemma_separated_init(s, buf.len() as int);
    if e.end > 0 {
        assert forall|i: int| 0 <= i < init.len() implies (#[trigger] init[i]).end > 0 by {}
        lemma_shift_none(init, 0);
        lemma_range_preserved(buf, init, 0, e.end);
    } else {
        assert(apply_in_order(buf, init).subrange(0, 0) =~= buf.subrange(0, 0));
    }
}

/// The text of every edit is found in the output, at the start of its span
/// moved by the growth of the edits that start before it.
pub proof fn lemma_text_placed(buf: Seq<u8>, s: Seq<Edit>, k: int)
    requires
        separated_desc(s, buf.len() as int),
        0 <= k < s.len(),
    ensures
        0 <= s[k].start + growth_left_of(s, s[k].start),
        s[k].start + growth_left_of(s, s[k].start) + s[k].text.len() <= apply_in_order(
            buf,
            s,
        ).len(),
        apply_in_order(buf, s).subrange(
            s[k].start + growth_left_of(s, s[k].start),
            s[k].start + growth_left_of(s, s[k].start) + s[k].text.len(),
        ) == s[k].text,
    decreases s.len(),
{
    let init = s.drop_last();
    let e = s.last();
    let mid = apply_in_order(buf, init);
    let out = apply_in_order(buf, s);
    let len = buf.len() as int;
    lemma_separated_init(s, len);
    assert(e == s[s.len() - 1]);
    lemma_last_fits(buf, s);
    if k == s.len() - 1 {
        assert forall|i: int| 0 <= i < init.len() implies (#[trigger] init[i]).start
            >= e.start by {}
        lemma_left_none(init, e.start);
        assert(out.subrange(e.start, e.start + e.text.len()) =~= e.text);
    } else {
        assert(init[k] == s[k]);
        lemma_text_placed(buf, init, k);
        let p = s[k].start + growth_left_of(init, s[k].start);
        assert forall|i: int| 0 <= i < init.len() implies (#[trigger] init[i]).start >= e.end by {}
        assert forall|i: int| 0 <= i < init.len() && (#[trigger] init[i]).start
            < s[k].start implies init[i].end <= s[k].start by {
            if i < k {
                assert(init[k].start < init[i].start);
            } else if i > k {
                assert(init[i].end <= init[k].start);
            }
        }
        lemma_left_floor(init, len, e.end, s[k].start);
        assert(out.subrange(p + e.growth(), p + e.growth() + s[k].text.len()) =~= mid.subrange(
            p,
            p + s[k].text.len(),
        ));
    }
}

/// Applying a sequence of edits is applying its first, then the others.
pub proof fn lemma_apply_front(buf: Seq<u8>, s: Seq<Edit>)
    requires
        s.len() > 0,
    ensures
        apply_in_order(buf, s) == apply_in_order(s[0].apply(buf), s.drop_first()),
    decreases s.len(),
{
    let rest = s.drop_first();
    let init = s.drop_last();
    if s.len() == 1 {
        assert(apply_in_order(buf, init) == buf);
        assert(apply_in_order(s[0].apply(buf), rest) == s[0].apply(buf));
    } else {
        lemma_apply_front(buf, init);
        assert(init.drop_first() =~= rest.drop_last());
        assert(init[0] == s[0]);
        assert(rest.last() == s.last());
        assert(apply_in_order(s[0].apply(buf), rest) == rest.last().apply(
            apply_in_order(s[0].apply(buf), rest.drop_last()),
        ));
    }
}

/// Edits that lie within the first `p` bytes of a buffer leave the rest of
/// the buffer as it is.
pub proof fn lemma_apply_in_prefix(buf: Seq<u8>, s: Seq<Edit>, p: int)
    requires
        separated_desc(s, p),
        0 <= p <= buf.len(),
    ensures
        apply_in_order(buf, s) == apply_in_order(buf.subrange(0, p), s) + buf.subrange(
            p,
            buf.len() as int,
        ),
    decreases s.len(),
{
    let head = buf.subrange(0, p);
    let tail = buf.subrange(p, buf.len() as int);
    if s.len() == 0 {
        assert(buf =~= head + tail);
    } else {
        let init = s.drop_last();
        let e = s.last();
        let mid = apply_in_order(head, init);
        lemma_separated_init(s, p);
        assert(e == s[s.len() - 1]);
        lemma_apply_in_prefix(buf, init, p);
        lemma_last_fits(head, s);
        assert(e.apply(mid + tail) =~= e.apply(mid) + tail);
    }
}

/// One step of applying edits that do not overlap from the left: when the
/// edits before `pos` have been applied to the source up to `pos`, the source
/// up to the end of the next edit is what has been made so far, the source
/// from `pos` to the edit, and the new text of the edit.
pub proof fn lemma_splice_step(source: Seq<u8>, done: Seq<Edit>, e: Edit, pos: int)
    requires
        separated_desc(done, pos),
        0 <= pos <= e.start <= e.end <= source.len(),
    ensures
        apply_in_order(source.subrange(0, e.end), seq![e] + done) == apply_in_order(
            source.subrange(0, pos),
            done,
        ) + source.subrange(pos, e.start) + e.text,
{
    let upto = source.subrange(0, e.end);
    let all = seq![e] + done;
    lemma_apply_front(upto, all);
    assert(all[0] == e);
    assert(all.drop_first() =~= done);
    let after = e.apply(upto);
    assert(after =~= source.subrange(0, e.start) + e.text);
    lemma_apply_in_prefix(after, done, pos);
    assert(after.subrange(0, pos) =~= source.subrange(0, pos));
    assert(after.subrange(pos, after.len() as int) =~= source.subrange(pos, e.start) + e.text);
    assert(apply_in_order(source.subrange(0, pos), done) + (source.subrange(pos, e.start) + e.text)
        =~= apply_in_order(source.subrange(0, pos), done) + source.subrange(pos, e.start)
        + e.text);
}

/// Edits that do not overlap are all applied.
pub proof fn lemma_separated_growth(len: int, s: Seq<Edit>)
    requires
        0 <= len,
        separated_desc(s, len),
    ensures
        applied_growth(len, s) == total_growth(s),
        len + total_growth(s) >= 0,
        s.len() > 0 ==> len + total_growth(s) >= s.last().start + s.last().text.len(),
    decreases s.len(),
{
    if s.len() > 0 {
        let init = s.drop_last();
        let e = s.last();
        lemma_separated_init(s, len);
        lemma_separated_growth(len, init);
        assert(e == s[s.len() - 1]);
        if init.len() > 0 {
            assert(init.last() == init[init.len() - 1]);
            assert(e.end <= init[init.len() - 1].start);
        }
    }
}

/// The place at which [`insert_desc`] puts `e`.
pub open spec fn insert_pos(s: Seq<Edit>, e: Edit) -> int
    decreases s.len(),
{
    if s.len() == 0 || s[0].start < e.start {
        0
    } else {
        1 + insert_pos(s.drop_first(), e)
    }
}

proof fn lemma_insert_pos(s: Seq<Edit>, e: Edit)
    ensures
        0 <= insert_pos(s, e) <= s.len(),
        forall|k: int| 0 <= k < insert_pos(s, e) ==> (#[trigger] s[k]).start >= e.start,
        insert_pos(s, e) < s.len() ==> s[insert_pos(s, e)].start < e.start,
        insert_desc(s, e) == s.insert(insert_pos(s, e), e),
    decreases s.len(),
{
    if s.len() == 0 || s[0].start < e.start {
    } else {
        let rest = s.drop_first();
        lemma_insert_pos(rest, e);
        assert forall|k: int| 0 <= k < insert_pos(s, e) implies (#[trigger] s[k]).start
            >= e.start by {
            if k > 0 {
                assert(s[k] == rest[k - 1]);
            }
        }
        if insert_pos(rest, e) < rest.len() {
            assert(s[insert_pos(s, e)] == rest[insert_pos(rest, e)]);
        }
    }
    lemma_insert_desc_at(s, e, insert_pos(s, e));
}

proof fn lemma_insert_separated(s: Seq<Edit>, e: Edit, len: int)
    requires
        separated_desc(s, len),
        0 <= e.start <= e.end <= len,
        forall|i: int| 0 <= i < s.len() ==> apart(#[trigger] s[i], e) && s[i].start != e.start,
    ensures
        separated_desc(insert_desc(s, e), len),
{
    lemma_insert_pos(s, e);
    let pos = insert_pos(s, e);
    let t = s.insert(pos, e);
    assert forall|i: int| 0 <= i < t.len() implies 0 <= (#[trigger] t[i]).start <= t[i].end
        <= len by {
        if i < pos {
            assert(t[i] == s[i]);
        } else if i > pos {
            assert(t[i] == s[i - 1]);
        }
    }
    assert forall|i: int, j: int| 0 <= i < j < t.len() implies (#[trigger] t[j]).end <= (
    #[trigger] t[i]).start && t[j].start < t[i].start by {
        if j < pos {
            assert(t[i] == s[i] && t[j] == s[j]);
        } else if j == pos {
            assert(t[i] == s[i]);
            assert(apart(s[i], e) && s[i].start != e.start);
        } else if i < pos {
            assert(t[i] == s[i] && t[j] == s[j - 1]);
        } else if i == pos {
            assert(t[j] == s[j - 1]);
            assert(apart(s[j - 1], e) && s[j - 1].start != e.start);
            if j - 1 > pos {
                assert(s[j - 1].start < s[pos].start);
            }
        } else {
            assert(t[i] == s[i - 1] && t[j] == s[j - 1]);
        }
    }
}

proof fn lemma_sums_insert(s: Seq<Edit>, e: Edit, at: int, pos: int)
    requires
        0 <= at <= s.len(),
    ensures
        total_growth(s.insert(at, e)) == total_growth(s) + e.growth(),
        shift_before(s.insert(at, e), pos) == shift_before(s, pos) + if e.end <= pos {
            e.growth()
        } else {
            0
        },
        growth_left_of(s.insert(at, e), pos) == growth_left_of(s, pos) + if e.start < pos {
            e.growth()
        } else {
            0
        },
    decreases s.len() - at,
{
    let t = s.insert(at, e);
    if at == s.len() {
        assert(t.drop_last() =~= s);
        assert(t.last() == e);
    } else {
        assert(t.drop_last() =~= s.drop_last().insert(at, e));
        assert(t.last() == s.last());
        lemma_sums_insert(s.drop_last(), e, at, pos);
    }
}

/// No edit starts before one that stands behind it.
pub open spec fn descending(s: Seq<Edit>) -> bool {
    forall|i: int, j: int| 0 <= i < j < s.len() ==> (#[trigger] s[i]).start >= (#[trigger] s[j]).start
}

/// The ordered edits stand by descending start.
pub proof fn lemma_sort_desc_descending(edits: Seq<Edit>)
    ensures
        descending(sort_desc(edits)),
    decreases edits.len(),
{
    if edits.len() > 0 {
        let s = sort_desc(edits.drop_last());
        let e = edits.last();
        lemma_sort_desc_descending(edits.drop_last());
        lemma_insert_pos(s, e);
        let at = insert_pos(s, e);
        let t = s.insert(at, e);
        assert forall|i: int, j: int| 0 <= i < j < t.len() implies (#[trigger] t[i]).start >= (
        #[trigger] t[j]).start by {
            if j < at {
                assert(t[i] == s[i] && t[j] == s[j]);
            } else if j == at {
                assert(t[i] == s[i]);
            } else if i < at {
                assert(t[i] == s[i] && t[j] == s[j - 1]);
            } else if i == at {
                assert(t[j] == s[j - 1]);
                if j - 1 > at {
                    assert(s[at].start >= s[j - 1].start);
                }
            } else {
                assert(t[i] == s[i - 1] && t[j] == s[j - 1]);
            }
        }
    }
}

/// Ordering the edits keeps them: the ordered sequence holds the same edits,
/// with the same sums.
pub proof fn lemma_sort_desc_keeps(edits: Seq<Edit>, pos: int)
    ensures
        sort_desc(edits).len() == edits.len(),
        forall|k: int| 0 <= k < edits.len() ==> edits.contains(#[trigger] sort_desc(edits)[k]),
        forall|i: int| 0 <= i < edits.len() ==> sort_desc(edits).contains(#[trigger] edits[i]),
        total_growth(sort_desc(edits)) == total_growth(edits),
        shift_before(sort_desc(edits), pos) == shift_before(edits, pos),
        growth_left_of(sort_desc(edits), pos) == growth_left_of(edits, pos),
    decreases edits.len(),
{
    if edits.len() > 0 {
        let init = edits.drop_last();
        let e = edits.last();
        let s = sort_desc(init);
        lemma_sort_desc_keeps(init, pos);
        lemma_insert_pos(s, e);
        let at = insert_pos(s, e);
        lemma_sums_insert(s, e, at, pos);
        let t = s.insert(at, e);
        assert(t == sort_desc(edits));
        assert forall|k: int| 0 <= k < edits.len() implies edits.contains(#[trigger] t[k]) by {
            if k == at {
                assert(edits[edits.len() - 1] == e);
            } else {
                let x = if k < at { s[k] } else { s[k - 1] };
                assert(t[k] == x);
                assert(init.contains(x));
                let i = choose|i: int| 0 <= i < init.len() && init[i] == x;
                assert(edits[i] == x);
            }
        }
        assert forall|i: int| 0 <= i < edits.len() implies t.contains(#[trigger] edits[i]) by {
            if i == edits.len() - 1 {
                assert(t[at] == e);
            } else {
                assert(init[i] == edits[i]);
                assert(s.contains(init[i]));
                let k = choose|k: int| 0 <= k < s.len() && s[k] == init[i];
                if k < at {
                    assert(t[k] == s[k]);
                } else {
                    assert(t[k + 1] == s[k]);
                }
            }
        }
    }
}

/// Edits that do not overlap, once ordered, lie each wholly before the one
/// in front of it.
pub proof fn lemma_sort_desc_separated(edits: Seq<Edit>, len: int)
    requires
        pairwise_apart(edits, len),
    ensures
        separated_desc(sort_desc(edits), len),
    decreases edits.len(),
{
    if edits.len() > 0 {
        let init = edits.drop_last();
        let e = edits.last();
        let s = sort_desc(init);
        assert(e == edits[edits.len() - 1]);
        assert(pairwise_apart(init, len)) by {
            assert forall|i: int| 0 <= i < init.len() implies 0 <= (#[trigger] init[i]).start
                <= init[i].end <= len by {
                assert(init[i] == edits[i]);
            }
            assert forall|i: int, j: int|
                0 <= i < init.len() && 0 <= j < init.len() && i != j implies apart(
                #[trigger] init[i],
                #[trigger] init[j],
            ) && init[i].start != init[j].start by {
                assert(init[i] == edits[i] && init[j] == edits[j]);
            }
        }
        lemma_sort_desc_separated(init, len);
        lemma_sort_desc_keeps(init, 0);
        assert forall|k: int| 0 <= k < s.len() implies apart(#[trigger] s[k], e) && s[k].start
            != e.start by {
            assert(init.contains(s[k]));
            let i = choose|i: int| 0 <= i < init.len() && init[i] == s[k];
            assert(edits[i] == s[k]);
            assert(apart(edits[i], edits[edits.len() - 1]) && edits[i].start != edits[edits.len()
                - 1].start);
        }
        lemma_insert_separated(s, e, len);
    }
}

/// Edits that lie inside the source and do not overlap are all admitted,
/// and once ordered lie each wholly before the one in front of it.
pub proof fn lemma_apart_is_admitted(source: Seq<u8>, edits: Seq<Edit>)
    requires
        pairwise_apart(edits, source.len() as int),
    ensures
        admitted(edits, source.len() as int) == edits,
        patched(source, edits) == apply_in_order(source, sort_desc(edits)),
        separated_desc(sort_desc(edits), source.len() as int),
{
    assert forall|i: int| 0 <= i < edits.len() implies (#[trigger] edits[i]).fits(
        source.len() as int,
    ) by {}
    lemma_admitted_all(edits, source.len() as int);
    lemma_sort_desc_separated(edits, source.len() as int);
}

/// Where no two edits overlap, all of them are applied: the output is as long
/// as the source plus the growth of every edit. An edit may insert: its span
/// may be empty.
pub proof fn lemma_patched_len_apart(source: Seq<u8>, edits: Seq<Edit>)
    requires
        pairwise_apart(edits, source.len() as int),
    ensures
        patched(source, edits).len() == source.len() + total_growth(edits),
{
    let s = sort_desc(edits);
    lemma_apart_is_admitted(source, edits);
    lemma_sort_desc_keeps(edits, 0);
    lemma_separated_growth(source.len() as int, s);
    lemma_apply_in_order_len(source, s);
}

/// Where no two edits overlap, a range of the source that no edit touches
/// stands in the output byte for byte, moved by the growth of the edits that
/// lie before it.
pub proof fn lemma_patched_preserves(source: Seq<u8>, edits: Seq<Edit>, lo: int, hi: int)
    requires
        pairwise_apart(edits, source.len() as int),
        0 <= lo < hi <= source.len(),
        forall|i: int| 0 <= i < edits.len() ==> (#[trigger] edits[i]).end <= lo || hi <= edits[i].start,
    ensures
        0 <= lo + shift_before(edits, lo),
        hi + shift_before(edits, lo) <= patched(source, edits).len(),
        patched(source, edits).subrange(lo + shift_before(edits, lo), hi + shift_before(edits, lo))
            == source.subrange(lo, hi),
{
    let s = sort_desc(edits);
    lemma_apart_is_admitted(source, edits);
    lemma_sort_desc_keeps(edits, lo);
    assert forall|k: int| 0 <= k < s.len() implies (#[trigger] s[k]).end <= lo || hi
        <= s[k].start by {
        assert(edits.contains(s[k]));
        let i = choose|i: int| 0 <= i < edits.len() && edits[i] == s[k];
        assert(edits[i].end <= lo || hi <= edits[i].start);
    }
    lemma_range_preserved(source, s, lo, hi);
}

/// Where no two edits overlap, the new text of each stands in the output, at
/// the start of its span moved by the growth of the edits that start before
/// it.
pub proof fn lemma_patched_places(source: Seq<u8>, edits: Seq<Edit>, i: int)
    requires
        pairwise_apart(edits, source.len() as int),
        0 <= i < edits.len(),
    ensures
        0 <= edits[i].start + growth_left_of(edits, edits[i].start),
        edits[i].start + growth_left_of(edits, edits[i].start) + edits[i].text.len() <= patched(
            source,
            edits,
        ).len(),
        patched(source, edits).subrange(
            edits[i].start + growth_left_of(edits, edits[i].start),
            edits[i].start + growth_left_of(edits, edits[i].start) + edits[i].text.len(),
        ) == edits[i].text,
{
    let s = sort_desc(edits);
    lemma_apart_is_admitted(source, edits);
    lemma_sort_desc_keeps(edits, edits[i].start);
    assert(s.contains(edits[i]));
    let k = choose|k: int| 0 <= k < s.len() && s[k] == edits[i];
    lemma_text_placed(source, s, k);
}

/// Every edit begins and ends between two characters of `buf` and brings
/// valid UTF-8.
pub open spec fn on_boundaries(buf: Seq<u8>, edits: Seq<Edit>) -> bool {
    forall|k: int|
        0 <= k < edits.len() ==> {
            &&& is_char_boundary(buf, (#[trigger] edits[k]).start)
            &&& is_char_boundary(buf, edits[k].end)
            &&& valid_utf8(edits[k].text)
        }
}

proof fn lemma_boundary_at_seam(x: Seq<u8>, y: Seq<u8>)
    requires
        valid_utf8(x),
        valid_utf8(y),
    ensures
        valid_utf8(x + y),
        is_char_boundary(x + y, x.len() as int),
{
    valid_utf8_concat(x, y);
    if y.len() == 0 {
        is_char_boundary_start_end_of_seq(x + y);
    } else {
        assert(is_char_boundary(y, 0));
        is_char_boundary_iff_not_is_continuation_byte(y, 0);
        assert((x + y)[x.len() as int] == y[0]);
        is_char_boundary_iff_not_is_continuation_byte(x + y, x.len() as int);
    }
}

proof fn lemma_boundary_carried(a: Seq<u8>, b: Seq<u8>, p: int)
    requires
        valid_utf8(a),
        valid_utf8(b),
        0 <= p < a.len(),
        p < b.len(),
        a[p] == b[p],
        is_char_boundary(a, p),
    ensures
        is_char_boundary(b, p),
{
    is_char_boundary_iff_not_is_continuation_byte(a, p);
    is_char_boundary_iff_not_is_continuation_byte(b, p);
}

/// Edits on character boundaries keep the buffer valid UTF-8, and keep the
/// boundaries that lie at or before the first of them.
proof fn lemma_apply_valid(buf: Seq<u8>, s: Seq<Edit>, p: int)
    requires
        valid_utf8(buf),
        separated_desc(s, buf.len() as int),
        on_boundaries(buf, s),
        0 <= p <= buf.len(),
        is_char_boundary(buf, p),
        forall|k: int| 0 <= k < s.len() ==> p <= (#[trigger] s[k]).start,
    ensures
        valid_utf8(apply_in_order(buf, s)),
        p <= apply_in_order(buf, s).len(),
        is_char_boundary(apply_in_order(buf, s), p),
    decreases s.len(),
{
    if s.len() > 0 {
        let init = s.drop_last();
        let e = s.last();
        let mid = apply_in_order(buf, init);
        let out = apply_in_order(buf, s);
        let len = buf.len() as int;
        lemma_separated_init(s, len);
        assert(e == s[s.len() - 1]);
        assert(on_boundaries(buf, init)) by {
            assert forall|k: int| 0 <= k < init.len() implies {
                &&& is_char_boundary(buf, (#[trigger] init[k]).start)
                &&& is_char_boundary(buf, init[k].end)
                &&& valid_utf8(init[k].text)
            } by {
                assert(init[k] == s[k]);
            }
        }
        assert forall|k: int| 0 <= k < init.len() implies e.end <= (#[trigger] init[k]).start by {}
        assert forall|k: int| 0 <= k < init.len() implies e.start <= (#[trigger] init[k]).start by {}
        lemma_apply_valid(buf, init, e.start);
        lemma_apply_valid(buf, init, e.end);
        assert(e.fits(mid.len() as int));
        let a = mid.subrange(0, e.start);
        let b = mid.subrange(e.end, mid.len() as int);
        valid_utf8_split(mid, e.start);
        valid_utf8_split(mid, e.end);
        lemma_boundary_at_seam(e.text, b);
        lemma_boundary_at_seam(a, e.text + b);
        assert(out =~= a + (e.text + b));
        if p < e.start {
            assert forall|k: int| 0 <= k < init.len() implies p <= (#[trigger] init[k]).start by {}
            lemma_apply_valid(buf, init, p);
            assert(out[p] == mid[p]);
            lemma_boundary_carried(mid, out, p);
        }
    }
}

/// Where no two edits overlap and each begins and ends between two
/// characters of a source that is valid UTF-8, the output is valid UTF-8.
pub proof fn lemma_patched_valid(source: Seq<u8>, edits: Seq<Edit>)
    requires
        valid_utf8(source),
        pairwise_apart(edits, source.len() as int),
        on_boundaries(source, edits),
    ensures
        valid_utf8(patched(source, edits)),
{
    let s = sort_desc(edits);
    lemma_apart_is_admitted(source, edits);
    lemma_sort_desc_keeps(edits, 0);
    assert forall|k: int| 0 <= k < s.len() implies {
        &&& is_char_boundary(source, (#[trigger] s[k]).start)
        &&& is_char_boundary(source, s[k].end)
        &&& valid_utf8(s[k].text)
    } by {
        assert(edits.contains(s[k]));
        let i = choose|i: int| 0 <= i < edits.len() && edits[i] == s[k];
        assert(is_char_boundary(source, edits[i].start));
    }
    lemma_apply_valid(source, s, 0);
}

} // verus!
