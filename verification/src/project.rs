//! The change projector: maps an edit list, keyed by original-content
//! offsets, to non-overlapping ranges in resulting-content coordinates,
//! for highlighting.  The edits are re-sorted ascending by start offset and
//! walked with a running shift that accumulates the net length change of
//! the edits already passed; the shift saturates at zero rather than going
//! negative.

use vstd::prelude::*;
use crate::edits::{Edit, EditKind};

verus! {

#[derive(Clone, Copy, Debug, PartialEq, Eq, Structural)]
pub enum ChangedRangeKind {
    Insert,
    Delete,
}

/// A highlighted span in post-edit coordinates; not replayable.
#[derive(Clone, Debug, PartialEq, Eq, Structural)]
pub struct ChangedRange {
    pub start: usize,
    pub end: usize,
    pub kind: ChangedRangeKind,
}

/// Inserts `e` after every element whose start does not exceed `e`'s, the
/// step of a stable insertion sort by start offset.
pub open spec fn insert_by_start(e: Edit, s: Seq<Edit>) -> Seq<Edit>
    decreases s.len(),
{
    if s.len() == 0 {
        seq![e]
    } else if s.last().start <= e.start {
        s.push(e)
    } else {
        insert_by_start(e, s.drop_last()).push(s.last())
    }
}

/// The edits sorted ascending by start offset; edits with equal starts keep
/// their relative order.
pub open spec fn sort_by_start(s: Seq<Edit>) -> Seq<Edit>
    decreases s.len(),
{
    if s.len() == 0 {
        s
    } else {
        insert_by_start(s.last(), sort_by_start(s.drop_last()))
    }
}

/// Total character count of the edits' texts.
pub open spec fn total_text_len(s: Seq<Edit>) -> int
    decreases s.len(),
{
    if s.len() == 0 {
        0
    } else {
        total_text_len(s.drop_last()) + s.last().text@.len()
    }
}

/// The running coordinate shift in force when the projector reaches edit
/// `j` of a sorted list: insertions add their text length, deletions
/// subtract theirs, saturating at zero.
pub open spec fn proj_shift(s: Seq<Edit>, j: int) -> int
    decreases j,
{
    if j <= 0 {
        0
    } else {
        let prev = proj_shift(s, j - 1);
        let e = s[j - 1];
        if e.kind is Insert {
            prev + e.text@.len()
        } else {
            if prev - e.text@.len() >= 0 {
                prev - e.text@.len()
            } else {
                0
            }
        }
    }
}

pub proof fn lemma_proj_shift_nonneg(s: Seq<Edit>, j: int)
    ensures
        proj_shift(s, j) >= 0,
    decreases j,
{
    if j > 0 {
        lemma_proj_shift_nonneg(s, j - 1);
    }
}

pub proof fn lemma_total_text_len_nonneg(s: Seq<Edit>)
    ensures
        total_text_len(s) >= 0,
    decreases s.len(),
{
    if s.len() > 0 {
        lemma_total_text_len_nonneg(s.drop_last());
    }
}

pub proof fn lemma_total_text_len_take_step(s: Seq<Edit>, j: int)
    requires
        0 <= j < s.len(),
    ensures
        total_text_len(s.take(j + 1)) == total_text_len(s.take(j)) + s[j].text@.len(),
{
    assert(s.take(j + 1).drop_last() =~= s.take(j));
    assert(s.take(j + 1).last() == s[j]);
}

pub proof fn lemma_total_text_len_take_le(s: Seq<Edit>, j: int)
    requires
        0 <= j <= s.len(),
    ensures
        total_text_len(s.take(j)) <= total_text_len(s),
    decreases s.len() - j,
{
    if j == s.len() {
        assert(s.take(j) =~= s);
    } else {
        lemma_total_text_len_take_step(s, j);
        lemma_total_text_len_take_le(s, j + 1);
    }
}

/// The shift never exceeds the total text length of the edits passed.
pub proof fn lemma_proj_shift_le(s: Seq<Edit>, j: int)
    requires
        0 <= j <= s.len(),
    ensures
        proj_shift(s, j) <= total_text_len(s.take(j)),
    decreases j,
{
    if j == 0 {
        assert(s.take(0) =~= Seq::<Edit>::empty());
    } else {
        lemma_proj_shift_le(s, j - 1);
        lemma_total_text_len_take_step(s, j - 1);
        lemma_proj_shift_nonneg(s, j - 1);
    }
}

pub proof fn lemma_insert_text_len(e: Edit, s: Seq<Edit>)
    ensures
        total_text_len(insert_by_start(e, s)) == total_text_len(s) + e.text@.len(),
    decreases s.len(),
{
    if s.len() == 0 {
        assert(seq![e].drop_last() =~= Seq::<Edit>::empty());
        assert(seq![e].last() == e);
        assert(total_text_len(Seq::<Edit>::empty()) == 0);
        assert(total_text_len(seq![e]) == e.text@.len());
    } else if s.last().start <= e.start {
        assert(s.push(e).drop_last() =~= s);
        assert(s.push(e).last() == e);
    } else {
        lemma_insert_text_len(e, s.drop_last());
        let t = insert_by_start(e, s.drop_last());
        assert(t.push(s.last()).drop_last() =~= t);
        assert(t.push(s.last()).last() == s.last());
    }
}

pub proof fn lemma_sort_text_len(s: Seq<Edit>)
    ensures
        total_text_len(sort_by_start(s)) == total_text_len(s),
    decreases s.len(),
{
    if s.len() > 0 {
        lemma_sort_text_len(s.drop_last());
        lemma_insert_text_len(s.last(), sort_by_start(s.drop_last()));
    }
}

/// Sortedness by start offset.
pub open spec fn sorted_by_start(s: Seq<Edit>) -> bool {
    forall|i: int| 0 <= i < s.len() - 1 ==> (#[trigger] s[i].start) <= s[i + 1].start
}

#[verifier::rlimit(50)]
pub proof fn lemma_insert_sorted(e: Edit, s: Seq<Edit>)
    requires
        sorted_by_start(s),
    ensures
        sorted_by_start(insert_by_start(e, s)),
        insert_by_start(e, s).len() == s.len() + 1,
    decreases s.len(),
{
    if s.len() == 0 {
    } else if s.last().start <= e.start {
        let t = s.push(e);
        assert forall|i: int| 0 <= i < t.len() - 1 implies (#[trigger] t[i].start) <= t[i
            + 1].start by {
            if i < s.len() - 1 {
                assert(s[i].start <= s[i + 1].start);
            }
        }
    } else {
        assert(sorted_by_start(s.drop_last())) by {
            assert forall|i: int| 0 <= i < s.drop_last().len() - 1 implies (#[trigger] s.drop_last()[i].start)
                <= s.drop_last()[i + 1].start by {
                assert(s[i].start <= s[i + 1].start);
            }
        }
        lemma_insert_sorted(e, s.drop_last());
        let u = insert_by_start(e, s.drop_last());
        let t = u.push(s.last());
        assert(u.len() == s.len());
        // every element of u is either e or an element of s.drop_last(),
        // so the pushed last element stays the largest
        assert forall|i: int| 0 <= i < s.drop_last().len() implies (#[trigger] s.drop_last()[i].start)
            <= s.last().start by {
            assert(s.drop_last()[i] == s[i]);
            lemma_sorted_upto(s, i, s.len() - 1);
        }
        lemma_insert_last_le(e, s.drop_last(), s.last());
        assert forall|i: int| 0 <= i < t.len() - 1 implies (#[trigger] t[i].start) <= t[i
            + 1].start by {
            if i < u.len() - 1 {
                assert(u[i].start <= u[i + 1].start);
            }
        }
    }
}

/// If `b` bounds `e` and every element of a sorted `s` from above, it also
/// bounds the last element of the insertion result.
#[verifier::rlimit(50)]
pub proof fn lemma_insert_last_le(e: Edit, s: Seq<Edit>, b: Edit)
    requires
        e.start <= b.start,
        forall|i: int| 0 <= i < s.len() ==> (#[trigger] s[i].start) <= b.start,
    ensures
        insert_by_start(e, s).len() == s.len() + 1,
        insert_by_start(e, s).last().start <= b.start,
        forall|i: int|
            0 <= i < insert_by_start(e, s).len() ==> (#[trigger] insert_by_start(e, s)[i].start)
                <= b.start,
    decreases s.len(),
{
    if s.len() == 0 {
    } else if s.last().start <= e.start {
        let t = s.push(e);
        assert forall|i: int| 0 <= i < t.len() implies (#[trigger] t[i].start) <= b.start by {
            if i < s.len() {
                assert(s[i].start <= b.start);
            }
        }
    } else {
        assert(forall|i: int|
            0 <= i < s.drop_last().len() ==> (#[trigger] s.drop_last()[i].start) <= b.start)
            by {
            assert(forall|i: int|
                0 <= i < s.drop_last().len() ==> s.drop_last()[i] == s[i]);
        }
        lemma_insert_last_le(e, s.drop_last(), b);
        let u = insert_by_start(e, s.drop_last());
        let t = u.push(s.last());
        assert forall|i: int| 0 <= i < t.len() implies (#[trigger] t[i].start) <= b.start by {
            if i < u.len() {
                assert(u[i].start <= b.start);
            }
        }
    }
}

pub proof fn lemma_sort_sorted(s: Seq<Edit>)
    ensures
        sorted_by_start(sort_by_start(s)),
        sort_by_start(s).len() == s.len(),
    decreases s.len(),
{
    if s.len() > 0 {
        lemma_sort_sorted(s.drop_last());
        lemma_insert_sorted(s.last(), sort_by_start(s.drop_last()));
    }
}

/// A start-offset bound satisfied by every element survives insertion.
#[verifier::rlimit(50)]
pub proof fn lemma_insert_bound(e: Edit, s: Seq<Edit>, bound: int)
    requires
        e.start <= bound,
        forall|i: int| 0 <= i < s.len() ==> (#[trigger] s[i].start) <= bound,
    ensures
        forall|i: int|
            0 <= i < insert_by_start(e, s).len() ==> (#[trigger] insert_by_start(e, s)[i].start)
                <= bound,
    decreases s.len(),
{
    if s.len() == 0 {
    } else if s.last().start <= e.start {
        let t = s.push(e);
        assert forall|i: int| 0 <= i < t.len() implies (#[trigger] t[i].start) <= bound by {
            if i < s.len() {
                assert(s[i].start <= bound);
            }
        }
    } else {
        assert(forall|i: int|
            0 <= i < s.drop_last().len() ==> (#[trigger] s.drop_last()[i].start) <= bound) by {
            assert(forall|i: int|
                0 <= i < s.drop_last().len() ==> s.drop_last()[i] == s[i]);
        }
        lemma_insert_bound(e, s.drop_last(), bound);
        let u = insert_by_start(e, s.drop_last());
        let t = u.push(s.last());
        assert forall|i: int| 0 <= i < t.len() implies (#[trigger] t[i].start) <= bound by {
            if i < u.len() {
                assert(u[i].start <= bound);
            }
        }
    }
}

pub proof fn lemma_sort_bound(s: Seq<Edit>, bound: int)
    requires
        forall|i: int| 0 <= i < s.len() ==> (#[trigger] s[i].start) <= bound,
    ensures
        forall|i: int|
            0 <= i < sort_by_start(s).len() ==> (#[trigger] sort_by_start(s)[i].start) <= bound,
    decreases s.len(),
{
    if s.len() > 0 {
        assert(forall|i: int|
            0 <= i < s.drop_last().len() ==> (#[trigger] s.drop_last()[i].start) <= bound) by {
            assert(forall|i: int|
                0 <= i < s.drop_last().len() ==> s.drop_last()[i] == s[i]);
        }
        lemma_sort_bound(s.drop_last(), bound);
        lemma_insert_bound(s.last(), sort_by_start(s.drop_last()), bound);
    }
}

/// Inserting into a sorted list at the position found by scanning from the
/// back yields exactly the stable-insertion result.
#[verifier::rlimit(50)]
pub proof fn lemma_insert_position(e: Edit, s: Seq<Edit>, j: int)
    requires
        0 <= j <= s.len(),
        forall|i: int| 0 <= i < j ==> (#[trigger] s[i].start) <= e.start,
        forall|i: int| j <= i < s.len() ==> (#[trigger] s[i].start) > e.start,
    ensures
        insert_by_start(e, s) == s.take(j) + seq![e] + s.skip(j),
    decreases s.len(),
{
    if s.len() == 0 {
        assert(s.take(0) =~= Seq::<Edit>::empty());
        assert(s.skip(0) =~= Seq::<Edit>::empty());
        assert(s.take(0) + seq![e] + s.skip(0) =~= seq![e]);
    } else if j == s.len() {
        assert(s.last().start <= e.start);
        assert(s.take(j) =~= s);
        assert(s.skip(j) =~= Seq::<Edit>::empty());
        assert(s.take(j) + seq![e] + s.skip(j) =~= s.push(e));
    } else {
        assert(s.last().start > e.start);
        assert(forall|i: int|
            0 <= i < j ==> (#[trigger] s.drop_last()[i].start) <= e.start) by {
            assert(forall|i: int| 0 <= i < s.len() - 1 ==> s.drop_last()[i] == s[i]);
        }
        assert(forall|i: int|
            j <= i < s.drop_last().len() ==> (#[trigger] s.drop_last()[i].start) > e.start) by {
            assert(forall|i: int| 0 <= i < s.len() - 1 ==> s.drop_last()[i] == s[i]);
        }
        lemma_insert_position(e, s.drop_last(), j);
        assert(s.drop_last().take(j) =~= s.take(j));
        assert((s.take(j) + seq![e] + s.drop_last().skip(j)).push(s.last()) =~= s.take(j)
            + seq![e] + s.skip(j));
    }
}

/// Stable insertion sort of an edit list by ascending start offset.
#[verifier::rlimit(50)]
fn sort_edits_by_start(edits: &Vec<Edit>) -> (r: Vec<Edit>)
    ensures
        r@ == sort_by_start(edits@),
        sorted_by_start(r@),
{
    let ghost orig = edits@;
    let mut sorted: Vec<Edit> = Vec::new();
    let mut i: usize = 0;
    proof {
        assert(orig.take(0) =~= Seq::<Edit>::empty());
    }
    while i < edits.len()
        invariant
            orig == edits@,
            0 <= i <= orig.len(),
            sorted@ == sort_by_start(orig.take(i as int)),
            sorted_by_start(sorted@),
        decreases orig.len() - i,
    {
        let e = edits[i].duplicate();
        let mut j = sorted.len();
        while j > 0 && sorted[j - 1].start > e.start
            invariant
                0 <= j <= sorted@.len(),
                sorted_by_start(sorted@),
                forall|t: int| j <= t < sorted@.len() ==> (#[trigger] sorted@[t].start) > e.start,
            decreases j,
        {
            j = j - 1;
        }
        proof {
            assert forall|t: int| 0 <= t < j implies (#[trigger] sorted@[t].start) <= e.start by {
                assert(sorted@[j - 1].start <= e.start);
                lemma_sorted_upto(sorted@, t, j - 1);
            }
            lemma_insert_position(e, sorted@, j as int);
            lemma_insert_sorted(e, sorted@);
        }
        let ghost before = sorted@;
        sorted.insert(j, e);
        proof {
            assert(sorted@ =~= before.take(j as int) + seq![e] + before.skip(j as int));
            assert(orig.take(i + 1).drop_last() =~= orig.take(i as int));
            assert(orig.take(i + 1).last() == orig[i as int]);
            assert(sorted@ == sort_by_start(orig.take(i + 1)));
        }
        i = i + 1;
    }
    proof {
        assert(orig.take(orig.len() as int) =~= orig);
    }
    sorted
}

/// Projects a (re-sorted) edit list into post-edit highlight ranges: each
/// edit yields one range at its shifted start, spanning its text length;
/// insertions then raise the shift by that length and deletions lower it,
/// saturating at zero.
#[verifier::rlimit(50)]
pub fn compute_changed_ranges_normalized(edits: &Vec<Edit>) -> (r: Vec<ChangedRange>)
    requires
        forall|i: int|
            0 <= i < edits@.len() ==> (#[trigger] edits@[i].start) + total_text_len(edits@)
                <= usize::MAX,
    ensures
        r@.len() == edits@.len(),
        sort_by_start(edits@).len() == edits@.len(),
        forall|j: int|
            0 <= j < r@.len() ==> {
                let e = sort_by_start(edits@)[j];
                &&& (#[trigger] r@[j]).start == e.start + proj_shift(sort_by_start(edits@), j)
                &&& r@[j].end == r@[j].start + e.text@.len()
                &&& (r@[j].kind is Insert <==> e.kind is Insert)
            },
{
    let ghost orig = edits@;
    let sorted = sort_edits_by_start(edits);
    let ghost ss = sort_by_start(orig);
    proof {
        lemma_sort_sorted(orig);
        lemma_sort_text_len(orig);
        lemma_total_text_len_nonneg(orig);
        if orig.len() > 0 {
            assert(orig[0].start + total_text_len(orig) <= usize::MAX);
            lemma_sort_bound(orig, usize::MAX - total_text_len(orig));
        }
    }
    let mut out: Vec<ChangedRange> = Vec::new();
    let mut shift: usize = 0;
    let mut j: usize = 0;
    while j < sorted.len()
        invariant
            sorted@ == ss,
            ss == sort_by_start(orig),
            ss.len() == orig.len(),
            total_text_len(ss) == total_text_len(orig),
            0 <= j <= ss.len(),
            forall|t: int|
                0 <= t < ss.len() ==> (#[trigger] ss[t].start) <= usize::MAX - total_text_len(
                    orig,
                ),
            0 <= total_text_len(orig) <= usize::MAX,
            shift == proj_shift(ss, j as int),
            shift <= total_text_len(ss.take(j as int)),
            out@.len() == j,
            forall|t: int|
                0 <= t < j ==> {
                    let e = ss[t];
                    &&& (#[trigger] out@[t]).start == e.start + proj_shift(ss, t)
                    &&& out@[t].end == out@[t].start + e.text@.len()
                    &&& (out@[t].kind is Insert <==> e.kind is Insert)
                },
        decreases ss.len() - j,
    {
        let e = &sorted[j];
        let tl = e.text.as_str().unicode_len();
        proof {
            lemma_total_text_len_take_step(ss, j as int);
            lemma_total_text_len_take_le(ss, j + 1);
            assert(shift + tl <= total_text_len(ss));
            assert(e.start <= usize::MAX - total_text_len(orig));
        }
        let start = e.start + shift;
        let end = start + tl;
        match e.kind {
            EditKind::Insert => {
                out.push(ChangedRange { start, end, kind: ChangedRangeKind::Insert });
                shift = shift + tl;
            },
            EditKind::Delete => {
                out.push(ChangedRange { start, end, kind: ChangedRangeKind::Delete });
                shift = if shift >= tl {
                    shift - tl
                } else {
                    0
                };
            },
        }
        proof {
            lemma_proj_shift_le(ss, j + 1);
        }
        j = j + 1;
    }
    out
}

/// In a sorted list, earlier elements' starts never exceed later ones'.
pub proof fn lemma_sorted_upto(s: Seq<Edit>, a: int, b: int)
    requires
        sorted_by_start(s),
        0 <= a <= b < s.len(),
    ensures
        s[a].start <= s[b].start,
    decreases b - a,
{
    if a < b {
        lemma_sorted_upto(s, a, b - 1);
        assert(s[b - 1].start <= s[b].start);
    }
}

/// The projection law: for an edit list that is sorted ascending by start
/// offset, whose edits replace non-overlapping ranges in order, and whose
/// deletions carry exactly the deleted text, the projected range starts
/// never decrease, and no range has negative length.
pub proof fn lemma_projection_monotone(edits: Seq<Edit>)
    requires
        forall|i: int|
            0 <= i < edits.len() ==> ((#[trigger] edits[i].kind) is Insert ==> edits[i].start
                == edits[i].end),
        forall|i: int|
            0 <= i < edits.len() ==> ((#[trigger] edits[i].kind) is Delete ==> edits[i].start
                + edits[i].text@.len() == edits[i].end),
        forall|i: int| 0 <= i < edits.len() - 1 ==> (#[trigger] edits[i].end) <= edits[i + 1].start,
        forall|i: int| 0 <= i < edits.len() ==> (#[trigger] edits[i].start) <= edits[i].end,
    ensures
        forall|j: int|
            0 <= j < edits.len() - 1 ==> (#[trigger] edits[j].start) + proj_shift(edits, j)
                <= edits[j + 1].start + proj_shift(edits, j + 1),
        forall|j: int|
            0 <= j < edits.len() ==> (#[trigger] edits[j].start) + proj_shift(edits, j) <= (
            edits[j].start + proj_shift(edits, j)) + edits[j].text@.len(),
{
    assert forall|j: int| 0 <= j < edits.len() - 1 implies (#[trigger] edits[j].start)
        + proj_shift(edits, j) <= edits[j + 1].start + proj_shift(edits, j + 1) by {
        let sh = proj_shift(edits, j);
        let e = edits[j];
        lemma_proj_shift_nonneg(edits, j);
        if e.kind is Insert {
            assert(proj_shift(edits, j + 1) == sh + e.text@.len());
        } else {
            assert(e.start + e.text@.len() == e.end);
            assert(e.end <= edits[j + 1].start);
        }
    }
}

} // verus!
