//! The diff engine: computes a normalized, replayable edit list between two
//! strings at character granularity, and a line-level `-`/`+` rendering for
//! prompt summaries.
//!
//! The character- and line-level differences themselves come from the
//! `similar` crate, behind two trusted wrappers whose contracts state the
//! defining property of a diff: the old text is exactly the concatenation
//! of the equal and deleted pieces, the new text exactly that of the equal
//! and inserted pieces.  Everything that turns those pieces into edits is
//! verified.

use vstd::prelude::*;
use crate::edits::{
    apply_chain, apply_edits_spec, apply_upto, edit_ok, edits_wf, lemma_apply_chain_concat,
    lemma_apply_chain_le, lemma_apply_concat, Edit, EditKind,
};
use crate::strutil::str_eq;

verus! {

/// How one contiguous piece of text figures in a diff.
#[derive(Clone, Copy, Debug, PartialEq, Eq, Structural)]
pub enum SpanTag {
    Equal,
    Delete,
    Insert,
}

/// One contiguous piece of a diff between two texts.
#[derive(Clone, Debug)]
pub struct DiffSpan {
    pub tag: SpanTag,
    pub text: String,
}

/// What `sp` contributes to the source (old) text.
pub open spec fn span_src_text(sp: DiffSpan) -> Seq<char> {
    if sp.tag is Insert {
        Seq::empty()
    } else {
        sp.text@
    }
}

/// What `sp` contributes to the destination (new) text.
pub open spec fn span_dst_text(sp: DiffSpan) -> Seq<char> {
    if sp.tag is Delete {
        Seq::empty()
    } else {
        sp.text@
    }
}

/// The source text a span list stands for: equal and deleted pieces.
pub open spec fn spans_src(spans: Seq<DiffSpan>) -> Seq<char>
    decreases spans.len(),
{
    if spans.len() == 0 {
        Seq::empty()
    } else {
        spans_src(spans.drop_last()) + span_src_text(spans.last())
    }
}

/// The destination text a span list stands for: equal and inserted pieces.
pub open spec fn spans_dst(spans: Seq<DiffSpan>) -> Seq<char>
    decreases spans.len(),
{
    if spans.len() == 0 {
        Seq::empty()
    } else {
        spans_dst(spans.drop_last()) + span_dst_text(spans.last())
    }
}

pub proof fn lemma_spans_take_step(spans: Seq<DiffSpan>, k: int)
    requires
        0 <= k < spans.len(),
    ensures
        spans_src(spans.take(k + 1)) == spans_src(spans.take(k)) + span_src_text(spans[k]),
        spans_dst(spans.take(k + 1)) == spans_dst(spans.take(k)) + span_dst_text(spans[k]),
{
    assert(spans.take(k + 1).drop_last() =~= spans.take(k));
    assert(spans.take(k + 1).last() == spans[k]);
}

pub proof fn lemma_spans_split(spans: Seq<DiffSpan>, k: int)
    requires
        0 <= k <= spans.len(),
    ensures
        spans_src(spans) == spans_src(spans.take(k)) + spans_src(spans.skip(k)),
        spans_dst(spans) == spans_dst(spans.take(k)) + spans_dst(spans.skip(k)),
    decreases spans.len() - k,
{
    if k == spans.len() {
        assert(spans.take(k) =~= spans);
        assert(spans.skip(k) =~= Seq::<DiffSpan>::empty());
        assert(spans_src(spans) + spans_src(spans.skip(k)) =~= spans_src(spans));
        assert(spans_dst(spans) + spans_dst(spans.skip(k)) =~= spans_dst(spans));
    } else {
        lemma_spans_split(spans, k + 1);
        lemma_spans_take_step(spans, k);
        let tail = spans.skip(k);
        assert(tail.len() > 0);
        assert(tail[0] == spans[k]);
        lemma_spans_front(tail);
        assert(tail.drop_first() =~= spans.skip(k + 1));
        assert((spans_src(spans.take(k)) + span_src_text(spans[k])) + spans_src(spans.skip(k + 1))
            =~= spans_src(spans.take(k)) + (span_src_text(spans[k]) + spans_src(
            spans.skip(k + 1),
        )));
        assert((spans_dst(spans.take(k)) + span_dst_text(spans[k])) + spans_dst(spans.skip(k + 1))
            =~= spans_dst(spans.take(k)) + (span_dst_text(spans[k]) + spans_dst(
            spans.skip(k + 1),
        )));
    }
}

/// Unfolds [`spans_src`] and [`spans_dst`] from the front.
pub proof fn lemma_spans_front(spans: Seq<DiffSpan>)
    requires
        spans.len() > 0,
    ensures
        spans_src(spans) == span_src_text(spans[0]) + spans_src(spans.drop_first()),
        spans_dst(spans) == span_dst_text(spans[0]) + spans_dst(spans.drop_first()),
    decreases spans.len(),
{
    if spans.len() == 1 {
        assert(spans.drop_last() =~= Seq::<DiffSpan>::empty());
        assert(spans.drop_first() =~= Seq::<DiffSpan>::empty());
        assert(span_src_text(spans[0]) + spans_src(spans.drop_first()) =~= span_src_text(
            spans[0],
        ));
        assert(Seq::<char>::empty() + span_src_text(spans.last()) =~= span_src_text(spans[0]));
        assert(span_dst_text(spans[0]) + spans_dst(spans.drop_first()) =~= span_dst_text(
            spans[0],
        ));
        assert(Seq::<char>::empty() + span_dst_text(spans.last()) =~= span_dst_text(spans[0]));
    } else {
        lemma_spans_front(spans.drop_last());
        assert(spans.drop_last()[0] == spans[0]);
        assert(spans.drop_last().drop_first() =~= spans.drop_first().drop_last());
        assert(spans.drop_first().last() == spans.last());
        assert((span_src_text(spans[0]) + spans_src(spans.drop_first().drop_last()))
            + span_src_text(spans.last()) =~= span_src_text(spans[0]) + (spans_src(
            spans.drop_first().drop_last(),
        ) + span_src_text(spans.drop_first().last())));
        assert((span_dst_text(spans[0]) + spans_dst(spans.drop_first().drop_last()))
            + span_dst_text(spans.last()) =~= span_dst_text(spans[0]) + (spans_dst(
            spans.drop_first().drop_last(),
        ) + span_dst_text(spans.drop_first().last())));
    }
}

/// Relies on `similar::TextDiff::from_chars` and `iter_all_changes`: the
/// changes walk both texts completely and in order, so the old text is the
/// concatenation of the equal and deleted values, the new text that of the
/// equal and inserted values; every change carries at least one character.
#[verifier::external_body]
fn diff_chars(old: &str, new: &str) -> (r: Vec<DiffSpan>)
    ensures
        spans_src(r@) == old@,
        spans_dst(r@) == new@,
        forall|i: int| 0 <= i < r@.len() ==> (#[trigger] r@[i].text)@.len() >= 1,
{
    let diff = similar::TextDiff::from_chars(old, new);
    let mut v = Vec::new();
    for change in diff.iter_all_changes() {
        let tag = match change.tag() {
            similar::ChangeTag::Equal => SpanTag::Equal,
            similar::ChangeTag::Delete => SpanTag::Delete,
            similar::ChangeTag::Insert => SpanTag::Insert,
        };
        v.push(DiffSpan { tag, text: change.value().to_string() });
    }
    v
}

/// The meaning of an intermediate edit list, in which an edit may still
/// carry replacement text for a non-empty range: each edit replaces
/// `old[start..end)` with its text, and untouched characters of
/// `old[c0..upto)` are copied through.
pub open spec fn patch_apply(old: Seq<char>, edits: Seq<Edit>, c0: int, upto: int) -> Seq<char>
    decreases edits.len(),
{
    if edits.len() == 0 {
        old.subrange(c0, upto)
    } else {
        let e = edits[0];
        old.subrange(c0, e.start as int) + e.text@ + patch_apply(
            old,
            edits.drop_first(),
            e.end as int,
            upto,
        )
    }
}

/// The cursor of [`patch_apply`] moves from `c0` to exactly `cend`:
/// the edits replace ascending, non-overlapping ranges.
pub open spec fn patch_chain(edits: Seq<Edit>, c0: int, cend: int) -> bool
    decreases edits.len(),
{
    if edits.len() == 0 {
        cend == c0
    } else {
        let e = edits[0];
        c0 <= e.start && e.start <= e.end && patch_chain(edits.drop_first(), e.end as int, cend)
    }
}

pub proof fn lemma_patch_chain_le(edits: Seq<Edit>, c0: int, cend: int)
    requires
        patch_chain(edits, c0, cend),
    ensures
        c0 <= cend,
    decreases edits.len(),
{
    if edits.len() > 0 {
        lemma_patch_chain_le(edits.drop_first(), edits[0].end as int, cend);
    }
}

pub proof fn lemma_patch_chain_concat(a: Seq<Edit>, b: Seq<Edit>, c0: int, cmid: int, cend: int)
    requires
        patch_chain(a, c0, cmid),
        patch_chain(b, cmid, cend),
    ensures
        patch_chain(a + b, c0, cend),
    decreases a.len(),
{
    if a.len() == 0 {
        assert(a + b =~= b);
    } else {
        assert((a + b)[0] == a[0]);
        assert((a + b).drop_first() =~= a.drop_first() + b);
        lemma_patch_chain_concat(a.drop_first(), b, a[0].end as int, cmid, cend);
    }
}

/// Splitting an intermediate edit list splits its application.
pub proof fn lemma_patch_concat(
    old: Seq<char>,
    a: Seq<Edit>,
    b: Seq<Edit>,
    c0: int,
    cend: int,
    upto: int,
)
    requires
        0 <= c0,
        cend <= old.len(),
        patch_chain(a, c0, cend),
    ensures
        patch_apply(old, a + b, c0, upto) == patch_apply(old, a, c0, cend) + patch_apply(
            old,
            b,
            cend,
            upto,
        ),
    decreases a.len(),
{
    if a.len() == 0 {
        assert(a + b =~= b);
        assert(old.subrange(c0, c0) =~= Seq::<char>::empty());
        assert(old.subrange(c0, c0) + patch_apply(old, b, c0, upto) =~= patch_apply(
            old,
            b,
            c0,
            upto,
        ));
    } else {
        let e = a[0];
        assert((a + b)[0] == e);
        assert((a + b).drop_first() =~= a.drop_first() + b);
        lemma_patch_concat(old, a.drop_first(), b, e.end as int, cend, upto);
        assert((old.subrange(c0, e.start as int) + e.text@ + patch_apply(
            old,
            a.drop_first(),
            e.end as int,
            cend,
        )) + patch_apply(old, b, cend, upto) =~= old.subrange(c0, e.start as int) + e.text@ + (
        patch_apply(old, a.drop_first(), e.end as int, cend) + patch_apply(old, b, cend, upto)));
    }
}


/// Appending the untouched piece `old[ca..upto)` to the content produced so
/// far gives the content produced up to `upto`.
proof fn lemma_patch_tail(old: Seq<char>, a: Seq<Edit>, ca: int, upto: int)
    requires
        0 <= ca <= upto <= old.len(),
        patch_chain(a, 0, ca),
    ensures
        patch_apply(old, a, 0, upto) == patch_apply(old, a, 0, ca) + old.subrange(ca, upto),
{
    assert(a + Seq::<Edit>::empty() =~= a);
    lemma_patch_concat(old, a, Seq::empty(), 0, ca, upto);
    reveal_with_fuel(patch_apply, 2);
}

/// Pushing one more replacement extends the produced content by the
/// untouched gap and the replacement's text.
proof fn lemma_patch_push(old: Seq<char>, a: Seq<Edit>, e2: Edit, ca: int)
    requires
        0 <= ca <= e2.start as int,
        e2.start <= e2.end,
        e2.end <= old.len(),
        patch_chain(a, 0, ca),
    ensures
        patch_chain(a.push(e2), 0, e2.end as int),
        patch_apply(old, a.push(e2), 0, e2.end as int) == patch_apply(old, a, 0, ca) + (
        old.subrange(ca, e2.start as int) + e2.text@),
{
    reveal_with_fuel(patch_apply, 3);
    reveal_with_fuel(patch_chain, 3);
    assert(a.push(e2) =~= a + seq![e2]);
    assert(seq![e2][0] == e2);
    assert(seq![e2].drop_first() =~= Seq::<Edit>::empty());
    lemma_patch_concat(old, a, seq![e2], 0, ca, e2.end as int);
    assert(old.subrange(e2.end as int, e2.end as int) =~= Seq::<char>::empty());
    assert(patch_apply(old, seq![e2], ca, e2.end as int) =~= old.subrange(ca, e2.start as int)
        + e2.text@);
    assert(patch_chain(seq![e2], ca, e2.end as int));
    lemma_patch_chain_concat(a, seq![e2], 0, ca, e2.end as int);
}

/// Consuming one more span extends the matched prefix of the old text by
/// that span's source contribution.
proof fn lemma_spans_prefix(spans: Seq<DiffSpan>, k: int, old: Seq<char>, old_pos: int)
    requires
        0 <= k < spans.len(),
        spans_src(spans) == old,
        old.subrange(0, old_pos) == spans_src(spans.take(k)),
        old_pos == spans_src(spans.take(k)).len(),
    ensures
        old_pos + span_src_text(spans[k]).len() <= old.len(),
        spans_src(spans.take(k + 1)).len() == old_pos + span_src_text(spans[k]).len(),
        old.subrange(0, old_pos + span_src_text(spans[k]).len()) == spans_src(spans.take(k + 1)),
        old.subrange(old_pos, old_pos + span_src_text(spans[k]).len()) == span_src_text(spans[k]),
{
    lemma_spans_take_step(spans, k);
    lemma_spans_split(spans, k + 1);
    let l = span_src_text(spans[k]).len() as int;
    assert(old.len() == spans_src(spans.take(k + 1)).len() + spans_src(spans.skip(k + 1)).len());
    assert(old.subrange(0, old_pos + l) =~= spans_src(spans.take(k + 1))) by {
        assert forall|i: int| 0 <= i < old_pos + l implies #[trigger] old.subrange(
            0,
            old_pos + l,
        )[i] == spans_src(spans.take(k + 1))[i] by {
            assert(old[i] == (spans_src(spans.take(k + 1)) + spans_src(spans.skip(k + 1)))[i]);
        }
    }
    assert(old.subrange(old_pos, old_pos + l) =~= span_src_text(spans[k])) by {
        assert forall|i: int| 0 <= i < l implies #[trigger] old.subrange(
            old_pos,
            old_pos + l,
        )[i] == span_src_text(spans[k])[i] by {
            assert(old[old_pos + i] == (spans_src(spans.take(k + 1)) + spans_src(
                spans.skip(k + 1),
            ))[old_pos + i]);
            assert(spans_src(spans.take(k + 1))[old_pos + i] == (spans_src(spans.take(k))
                + span_src_text(spans[k]))[old_pos + i]);
        }
    }
}

/// Computes the normalized character-level edit list that turns `old` into
/// `new`.  Every returned edit is a pure insertion (a point with non-empty
/// text) or a pure deletion (a non-empty range whose text is the deleted
/// slice of `old` verbatim); the list is ordered by ascending start
/// offset, deleted ranges are pairwise disjoint, the only overlap of
/// adjacent edits is an insertion right after the same-start deletion it
/// was split from, and applying the list to `old` reproduces `new`
/// exactly.  Identical inputs yield the empty list.
#[verifier::rlimit(100)]
pub fn compute_text_edits(old: &str, new: &str) -> (r: Vec<Edit>)
    ensures
        edits_wf(r@, old@),
        apply_edits_spec(old@, r@) == new@,
        old@ == new@ ==> r@.len() == 0,
{
    if str_eq(old, new) {
        let r: Vec<Edit> = Vec::new();
        proof {
            assert(apply_upto(old@, r@, 0, old@.len() as int) =~= old@);
        }
        return r;
    }
    let old_total = old.unicode_len();
    let spans = diff_chars(old, new);
    let mut edits: Vec<Edit> = Vec::new();
    let mut old_pos: usize = 0;
    let ghost mut cur: int = 0;
    let ghost mut prev_cur: int = 0;
    let mut k: usize = 0;
    proof {
        assert(spans@.take(0) =~= Seq::<DiffSpan>::empty());
        assert(old@.subrange(0, 0) =~= Seq::<char>::empty());
        assert(patch_apply(old@, edits@, 0, 0) =~= Seq::<char>::empty());
    }
    while k < spans.len()
        invariant
            old_total == old@.len(),
            0 <= k <= spans@.len(),
            spans_src(spans@) == old@,
            spans_dst(spans@) == new@,
            forall|i: int| 0 <= i < spans@.len() ==> (#[trigger] spans@[i].text)@.len() >= 1,
            old@.subrange(0, old_pos as int) == spans_src(spans@.take(k as int)),
            old_pos == spans_src(spans@.take(k as int)).len(),
            old_pos <= old_total,
            patch_chain(edits@, 0, cur),
            0 <= cur <= old_pos,
            edits@.len() == 0 ==> cur == 0,
            edits@.len() > 0 ==> patch_chain(edits@.drop_last(), 0, prev_cur) && 0 <= prev_cur
                <= edits@.last().start && edits@.last().start <= edits@.last().end && cur
                == edits@.last().end,
            patch_apply(old@, edits@, 0, old_pos as int) == spans_dst(spans@.take(k as int)),
            forall|i: int|
                0 <= i < edits@.len() ==> ((#[trigger] edits@[i].kind) is Insert <==> edits@[i].start
                    == edits@[i].end),
            forall|i: int|
                0 <= i < edits@.len() ==> ((#[trigger] edits@[i].kind) is Insert
                    ==> edits@[i].text@.len() >= 1),
        decreases spans@.len() - k,
    {
        let sp = &spans[k];
        let l = sp.text.as_str().unicode_len();
        let ghost gs = spans@;
        let ghost gk = k as int;
        proof {
            lemma_spans_take_step(gs, gk);
            assert(l >= 1);
        }
        match sp.tag {
            SpanTag::Equal => {
                proof {
                    lemma_spans_prefix(gs, gk, old@, old_pos as int);
                    assert(span_src_text(gs[gk]) == sp.text@);
                    assert(old_pos + l <= old_total);
                    let ghost base = patch_apply(old@, edits@, 0, cur);
                    lemma_patch_tail(old@, edits@, cur, old_pos as int);
                    lemma_patch_tail(old@, edits@, cur, old_pos + l);
                    assert(old@.subrange(cur, old_pos + l) =~= old@.subrange(cur, old_pos as int)
                        + old@.subrange(old_pos as int, old_pos + l));
                    assert(patch_apply(old@, edits@, 0, old_pos + l) =~= spans_dst(gs.take(gk))
                        + sp.text@);
                }
                old_pos = old_pos + l;
            },
            SpanTag::Delete => {
                proof {
                    lemma_spans_prefix(gs, gk, old@, old_pos as int);
                    assert(span_src_text(gs[gk]) == sp.text@);
                    assert(old_pos + l <= old_total);
                    assert(spans_dst(gs.take(gk + 1)) =~= spans_dst(gs.take(gk)));
                }
                let mut merged = false;
                if edits.len() > 0 {
                    let last_end = edits[edits.len() - 1].end;
                    let last_empty = edits[edits.len() - 1].text.as_str().is_empty();
                    if last_end == old_pos && last_empty {
                        let ghost old_edits = edits@;
                        let last = edits.pop().unwrap();
                        let e2 = Edit {
                            start: last.start,
                            end: old_pos + l,
                            text: String::new(),
                            kind: EditKind::Delete,
                        };
                        edits.push(e2);
                        proof {
                            let prefix = old_edits.drop_last();
                            assert(old_edits =~= prefix.push(last));
                            lemma_patch_push(old@, prefix, last, prev_cur);
                            lemma_patch_push(old@, prefix, e2, prev_cur);
                            assert(e2.text@ =~= last.text@);
                            assert(edits@ =~= prefix.push(e2));
                            assert(patch_apply(old@, edits@, 0, old_pos + l) == spans_dst(
                                gs.take(gk),
                            ));
                            assert(edits@.drop_last() =~= prefix);
                            cur = old_pos + l;
                        }
                        merged = true;
                    }
                }
                if !merged {
                    let ghost old_edits = edits@;
                    let e2 = Edit {
                        start: old_pos,
                        end: old_pos + l,
                        text: String::new(),
                        kind: EditKind::Delete,
                    };
                    edits.push(e2);
                    proof {
                        let ghost base = patch_apply(old@, old_edits, 0, cur);
                        lemma_patch_tail(old@, old_edits, cur, old_pos as int);
                        lemma_patch_push(old@, old_edits, e2, cur);
                        assert(e2.text@ =~= Seq::<char>::empty());
                        assert(base + (old@.subrange(cur, old_pos as int) + e2.text@) =~= base
                            + old@.subrange(cur, old_pos as int));
                        assert(edits@ =~= old_edits.push(e2));
                        assert(patch_apply(old@, edits@, 0, old_pos + l) == spans_dst(
                            gs.take(gk),
                        ));
                        assert(edits@.drop_last() =~= old_edits);
                        prev_cur = cur;
                        cur = old_pos + l;
                    }
                }
                old_pos = old_pos + l;
            },
            SpanTag::Insert => {
                proof {
                    assert(span_src_text(gs[gk]) =~= Seq::<char>::empty());
                    assert(spans_src(gs.take(gk + 1)) =~= spans_src(gs.take(gk)));
                    assert(spans_dst(gs.take(gk + 1)) == spans_dst(gs.take(gk)) + sp.text@);
                }
                let mut merged = false;
                if edits.len() > 0 {
                    let last_end = edits[edits.len() - 1].end;
                    if last_end == old_pos {
                        let ghost old_edits = edits@;
                        let last = edits.pop().unwrap();
                        let ghost last_snap = last;
                        let new_text = last.text.concat(sp.text.as_str());
                        let e2 = Edit {
                            start: last.start,
                            end: last.end,
                            text: new_text,
                            kind: last.kind,
                        };
                        edits.push(e2);
                        proof {
                            let prefix = old_edits.drop_last();
                            assert(old_edits =~= prefix.push(last_snap));
                            lemma_patch_push(old@, prefix, last_snap, prev_cur);
                            lemma_patch_push(old@, prefix, e2, prev_cur);
                            assert(e2.text@ == last_snap.text@ + sp.text@);
                            let ghost base = patch_apply(old@, prefix, 0, prev_cur);
                            assert(base + (old@.subrange(prev_cur, last_snap.start as int) + (
                            last_snap.text@ + sp.text@)) =~= (base + (old@.subrange(
                                prev_cur,
                                last_snap.start as int,
                            ) + last_snap.text@)) + sp.text@);
                            assert(edits@ =~= prefix.push(e2));
                            assert(patch_apply(old@, edits@, 0, old_pos as int) == spans_dst(
                                gs.take(gk),
                            ) + sp.text@);
                            assert(edits@.drop_last() =~= prefix);
                        }
                        merged = true;
                    }
                }
                if !merged {
                    let ghost old_edits = edits@;
                    let e2 = Edit {
                        start: old_pos,
                        end: old_pos,
                        text: sp.text.clone(),
                        kind: EditKind::Insert,
                    };
                    edits.push(e2);
                    proof {
                        let ghost base = patch_apply(old@, old_edits, 0, cur);
                        lemma_patch_tail(old@, old_edits, cur, old_pos as int);
                        lemma_patch_push(old@, old_edits, e2, cur);
                        assert(base + (old@.subrange(cur, old_pos as int) + e2.text@) =~= (base
                            + old@.subrange(cur, old_pos as int)) + sp.text@);
                        assert(edits@ =~= old_edits.push(e2));
                        assert(patch_apply(old@, edits@, 0, old_pos as int) == spans_dst(
                            gs.take(gk),
                        ) + sp.text@);
                        assert(edits@.drop_last() =~= old_edits);
                        prev_cur = cur;
                        cur = old_pos as int;
                    }
                }
            },
        }
        k = k + 1;
    }
    proof {
        assert(spans@.take(spans@.len() as int) =~= spans@);
        assert(old_pos == old_total);
    }
    // Normalization: split every range-and-text edit into a pure deletion
    // followed by a pure insertion, and recover each deletion's text from
    // the original.
    let ghost mid = edits@;
    let ghost cfin = cur;
    let mut result: Vec<Edit> = Vec::new();
    let ghost mut cj: int = 0;
    let mut j: usize = 0;
    proof {
        assert(mid.take(0) =~= Seq::<Edit>::empty());
        assert(mid.skip(0) =~= mid);
        assert(apply_upto(old@, result@, 0, 0) =~= old@.subrange(0, 0));
        assert(patch_apply(old@, mid.take(0), 0, 0) =~= old@.subrange(0, 0));
    }
    while j < edits.len()
        invariant
            old_total == old@.len(),
            mid == edits@,
            0 <= j <= mid.len(),
            0 <= cj,
            cfin <= old@.len(),
            patch_chain(mid.take(j as int), 0, cj),
            patch_chain(mid.skip(j as int), cj, cfin),
            apply_chain(result@, 0, cj),
            apply_upto(old@, result@, 0, cj) == patch_apply(old@, mid.take(j as int), 0, cj),
            forall|i: int| 0 <= i < result@.len() ==> edit_ok(#[trigger] result@[i], old@),
            forall|i: int|
                0 <= i < result@.len() - 1 ==> (#[trigger] result@[i].start) <= result@[i
                    + 1].start,
            forall|i: int| 0 <= i < result@.len() ==> (#[trigger] result@[i].start) <= cj,
            forall|i: int| 0 <= i < result@.len() ==> (#[trigger] result@[i].end) <= cj,
            forall|i: int|
                0 <= i < result@.len() - 1 ==> result@[i + 1].start >= (
                #[trigger] result@[i].end) || (result@[i].kind is Delete && result@[i
                    + 1].kind is Insert && result@[i + 1].start == result@[i].start),
            forall|i: int, t: int|
                0 <= i < t < result@.len() && (#[trigger] result@[i].kind) is Delete && (
                #[trigger] result@[t].kind) is Delete ==> result@[i].end <= result@[t].start,
            forall|i: int|
                0 <= i < mid.len() ==> ((#[trigger] mid[i].kind) is Insert <==> mid[i].start
                    == mid[i].end),
            forall|i: int|
                0 <= i < mid.len() ==> ((#[trigger] mid[i].kind) is Insert
                    ==> mid[i].text@.len() >= 1),
        decreases mid.len() - j,
    {
        let e = &edits[j];
        let ghost gj = j as int;
        proof {
            reveal_with_fuel(patch_apply, 4);
            reveal_with_fuel(patch_chain, 4);
            reveal_with_fuel(apply_upto, 4);
            reveal_with_fuel(apply_chain, 4);
            assert(mid.skip(gj)[0] == mid[gj]);
            assert(mid.skip(gj).drop_first() =~= mid.skip(gj + 1));
            lemma_patch_chain_le(mid.skip(gj), cj, cfin);
            lemma_patch_chain_le(mid.skip(gj + 1), mid[gj].end as int, cfin);
            assert(mid.take(gj + 1) =~= mid.take(gj) + seq![mid[gj]]);
            assert(seq![mid[gj]][0] == mid[gj]);
            assert(seq![mid[gj]].drop_first() =~= Seq::<Edit>::empty());
            lemma_patch_concat(old@, mid.take(gj), seq![mid[gj]], 0, cj, mid[gj].end as int);
            lemma_patch_chain_concat(
                mid.take(gj),
                seq![mid[gj]],
                0,
                cj,
                mid[gj].end as int,
            );
        }
        if e.start < e.end {
            let del_text = old.substring_char(e.start, e.end).to_owned();
            let d = Edit { start: e.start, end: e.end, text: del_text, kind: EditKind::Delete };
            let ghost old_res = result@;
            result.push(d);
            if !e.text.as_str().is_empty() {
                let ins = Edit {
                    start: e.start,
                    end: e.start,
                    text: e.text.clone(),
                    kind: EditKind::Insert,
                };
                result.push(ins);
                proof {
                    assert(result@ =~= old_res + seq![d, ins]);
                    lemma_apply_concat(old@, old_res, seq![d, ins], 0, cj, mid[gj].end as int);
                    assert(seq![d, ins][0] == d);
                    assert(seq![d, ins].drop_first() =~= seq![ins]);
                    assert(seq![ins][0] == ins);
                    assert(seq![ins].drop_first() =~= Seq::<Edit>::empty());
                    assert(old@.subrange(mid[gj].end as int, mid[gj].end as int) =~= Seq::<
                        char,
                    >::empty());
                    assert(apply_upto(old@, seq![d, ins], cj, mid[gj].end as int) =~= old@.subrange(
                        cj,
                        mid[gj].start as int,
                    ) + mid[gj].text@);
                    assert(patch_apply(old@, seq![mid[gj]], cj, mid[gj].end as int)
                        =~= old@.subrange(cj, mid[gj].start as int) + mid[gj].text@);
                    assert(apply_upto(old@, result@, 0, mid[gj].end as int) == patch_apply(
                        old@,
                        mid.take(gj + 1),
                        0,
                        mid[gj].end as int,
                    ));
                    assert(apply_chain(seq![d, ins], cj, mid[gj].end as int));
                    lemma_apply_chain_concat(old_res, seq![d, ins], 0, cj, mid[gj].end as int);
                    cj = mid[gj].end as int;
                }
            } else {
                proof {
                    assert(result@ =~= old_res + seq![d]);
                    lemma_apply_concat(old@, old_res, seq![d], 0, cj, mid[gj].end as int);
                    assert(seq![d][0] == d);
                    assert(seq![d].drop_first() =~= Seq::<Edit>::empty());
                    assert(old@.subrange(mid[gj].end as int, mid[gj].end as int) =~= Seq::<
                        char,
                    >::empty());
                    assert(apply_upto(old@, seq![d], cj, mid[gj].end as int) =~= old@.subrange(
                        cj,
                        mid[gj].start as int,
                    ));
                    assert(mid[gj].text@ =~= Seq::<char>::empty());
                    assert(patch_apply(old@, seq![mid[gj]], cj, mid[gj].end as int)
                        =~= old@.subrange(cj, mid[gj].start as int));
                    assert(apply_upto(old@, result@, 0, mid[gj].end as int) == patch_apply(
                        old@,
                        mid.take(gj + 1),
                        0,
                        mid[gj].end as int,
                    ));
                    assert(apply_chain(seq![d], cj, mid[gj].end as int));
                    lemma_apply_chain_concat(old_res, seq![d], 0, cj, mid[gj].end as int);
                    cj = mid[gj].end as int;
                }
            }
        } else {
            let c2 = e.duplicate();
            let ghost old_res = result@;
            result.push(c2);
            proof {
                assert(mid[gj].kind is Insert);
                assert(result@ =~= old_res + seq![mid[gj]]);
                lemma_apply_concat(old@, old_res, seq![mid[gj]], 0, cj, mid[gj].end as int);
                assert(old@.subrange(mid[gj].end as int, mid[gj].end as int) =~= Seq::<
                    char,
                >::empty());
                assert(apply_upto(old@, seq![mid[gj]], cj, mid[gj].end as int) =~= old@.subrange(
                    cj,
                    mid[gj].start as int,
                ) + mid[gj].text@);
                assert(patch_apply(old@, seq![mid[gj]], cj, mid[gj].end as int) =~= old@.subrange(
                    cj,
                    mid[gj].start as int,
                ) + mid[gj].text@);
                assert(apply_upto(old@, result@, 0, mid[gj].end as int) == patch_apply(
                    old@,
                    mid.take(gj + 1),
                    0,
                    mid[gj].end as int,
                ));
                assert(apply_chain(seq![mid[gj]], cj, mid[gj].end as int));
                lemma_apply_chain_concat(old_res, seq![mid[gj]], 0, cj, mid[gj].end as int);
                cj = mid[gj].end as int;
            }
        }
        j = j + 1;
    }
    proof {
        reveal_with_fuel(patch_apply, 3);
        reveal_with_fuel(patch_chain, 3);
        reveal_with_fuel(apply_upto, 3);
        assert(mid.take(mid.len() as int) =~= mid);
        assert(mid.skip(mid.len() as int) =~= Seq::<Edit>::empty());
        assert(patch_chain(Seq::<Edit>::empty(), cj, cfin));
        assert(cj == cfin);
        assert(result@ + Seq::<Edit>::empty() =~= result@);
        lemma_apply_concat(old@, result@, Seq::empty(), 0, cfin, old@.len() as int);
        assert(mid + Seq::<Edit>::empty() =~= mid);
        lemma_patch_concat(old@, mid, Seq::empty(), 0, cfin, old@.len() as int);
        assert(apply_upto(old@, Seq::<Edit>::empty(), cfin, old@.len() as int) == old@.subrange(
            cfin,
            old@.len() as int,
        ));
        assert(patch_apply(old@, Seq::<Edit>::empty(), cfin, old@.len() as int) == old@.subrange(
            cfin,
            old@.len() as int,
        ));
        assert(apply_edits_spec(old@, result@) == patch_apply(old@, mid, 0, old@.len() as int));
    }
    result
}


/// Splits an edit that both removes a range and carries replacement text
/// into a pure deletion (text cleared) followed by a pure insertion at the
/// deletion's start.  An edit already in one of the pure forms is returned
/// unchanged.
pub fn split_replace_edit(edit: &Edit) -> (r: Vec<Edit>)
    ensures
        (edit.start == edit.end || edit.text@.len() == 0) ==> r@.len() == 1 && r@[0] == *edit,
        (edit.start != edit.end && edit.text@.len() > 0) ==> ({
            &&& r@.len() == 2
            &&& r@[0].start == edit.start
            &&& r@[0].end == edit.end
            &&& r@[0].text@.len() == 0
            &&& r@[0].kind is Delete
            &&& r@[1].start == edit.start
            &&& r@[1].end == edit.start
            &&& r@[1].text@ == edit.text@
            &&& r@[1].kind is Insert
        }),
{
    let mut r: Vec<Edit> = Vec::new();
    if edit.start == edit.end || edit.text.as_str().is_empty() {
        r.push(edit.duplicate());
    } else {
        r.push(
            Edit { start: edit.start, end: edit.end, text: String::new(), kind: EditKind::Delete },
        );
        r.push(
            Edit {
                start: edit.start,
                end: edit.start,
                text: edit.text.clone(),
                kind: EditKind::Insert,
            },
        );
    }
    r
}

/// An integer standing for a span tag, used to model the line diff.
pub open spec fn tag_id(t: SpanTag) -> int {
    match t {
        SpanTag::Equal => 0,
        SpanTag::Delete => 1,
        SpanTag::Insert => 2,
    }
}

/// The line-level difference of two texts, as the pieces the diff engine
/// reports: a tag (equal, deleted or inserted) and the piece's text, line
/// by line.  Its value is fixed by the diff algorithm; the library states
/// only how it restores the two texts and how it is rendered.
pub uninterp spec fn line_diff_of(old: Seq<char>, new: Seq<char>) -> Seq<(int, Seq<char>)>;

/// `s`, line-terminated: itself if it already ends in `'\n'` or `'\r'`,
/// else with a `'\n'` appended.
pub open spec fn nl_pad(s: Seq<char>) -> Seq<char> {
    if s.len() > 0 && (s.last() == '\n' || s.last() == '\r') {
        s
    } else {
        s + seq!['\n']
    }
}

/// What one line-diff piece contributes to the `-`/`+` rendering: deleted
/// lines prefixed with `-`, inserted lines with `+`, equal lines dropped.
pub open spec fn mark_text(p: (int, Seq<char>)) -> Seq<char> {
    if p.0 == 1 {
        seq!['-'] + nl_pad(p.1)
    } else if p.0 == 2 {
        seq!['+'] + nl_pad(p.1)
    } else {
        Seq::empty()
    }
}

/// The `-`/`+` rendering of a line diff.
pub open spec fn marked_of(m: Seq<(int, Seq<char>)>) -> Seq<char>
    decreases m.len(),
{
    if m.len() == 0 {
        Seq::empty()
    } else {
        marked_of(m.drop_last()) + mark_text(m.last())
    }
}

proof fn lemma_marked_take_step(m: Seq<(int, Seq<char>)>, k: int)
    requires
        0 <= k < m.len(),
    ensures
        marked_of(m.take(k + 1)) == marked_of(m.take(k)) + mark_text(m[k]),
{
    assert(m.take(k + 1).drop_last() =~= m.take(k));
    assert(m.take(k + 1).last() == m[k]);
}

/// Relies on `similar::TextDiff::configure().algorithm(Myers).diff_lines`
/// and `iter_all_changes`: the changes walk both texts completely and in
/// order at line granularity, lines keeping their terminators, so the old
/// text is the concatenation of the equal and deleted values and the new
/// text that of the equal and inserted values; on identical inputs the
/// Myers algorithm reports every line equal.  The piece list itself is a
/// function of the two texts alone, named [`line_diff_of`].
#[verifier::external_body]
fn diff_lines(old: &str, new: &str) -> (r: Vec<DiffSpan>)
    ensures
        r@.map_values(|sp: DiffSpan| (tag_id(sp.tag), sp.text@)) == line_diff_of(old@, new@),
        spans_src(r@) == old@,
        spans_dst(r@) == new@,
        old@ == new@ ==> forall|i: int| 0 <= i < r@.len() ==> (#[trigger] r@[i].tag) is Equal,
{
    let diff = similar::TextDiff::configure().algorithm(similar::Algorithm::Myers).diff_lines(
        old,
        new,
    );
    let mut v = Vec::new();
    for change in diff.iter_all_changes() {
        let tag = match change.tag() {
            similar::ChangeTag::Equal => SpanTag::Equal,
            similar::ChangeTag::Delete => SpanTag::Delete,
            similar::ChangeTag::Insert => SpanTag::Insert,
        };
        v.push(DiffSpan { tag, text: change.value().to_string() });
    }
    v
}

/// Renders the line-level difference of two texts with `-` before deleted
/// lines and `+` before inserted lines, unchanged lines left out.  The
/// result is empty when the texts are equal.
pub fn diff_without_unchanged(old: &str, new: &str) -> (r: String)
    ensures
        r@ == marked_of(line_diff_of(old@, new@)),
        old@ == new@ ==> r@.len() == 0,
{
    let spans = diff_lines(old, new);
    let ghost m = line_diff_of(old@, new@);
    let mut out = String::new();
    let mut i: usize = 0;
    proof {
        reveal_strlit("-");
        reveal_strlit("+");
        reveal_strlit("\n");
        assert(m.take(0) =~= Seq::<(int, Seq<char>)>::empty());
    }
    while i < spans.len()
        invariant
            m == spans@.map_values(|sp: DiffSpan| (tag_id(sp.tag), sp.text@)),
            m == line_diff_of(old@, new@),
            spans_src(spans@) == old@,
            spans_dst(spans@) == new@,
            old@ == new@ ==> forall|k: int|
                0 <= k < spans@.len() ==> (#[trigger] spans@[k].tag) is Equal,
            0 <= i <= spans@.len(),
            "-"@ =~= seq!['-'],
            "+"@ =~= seq!['+'],
            "\n"@ =~= seq!['\n'],
            out@ == marked_of(m.take(i as int)),
            old@ == new@ ==> out@.len() == 0,
        decreases spans@.len() - i,
    {
        let sp = &spans[i];
        proof {
            lemma_marked_take_step(m, i as int);
            assert(m[i as int] == (tag_id(sp.tag), sp.text@));
        }
        match sp.tag {
            SpanTag::Equal => {
                proof {
                    assert(mark_text(m[i as int]) =~= Seq::<char>::empty());
                    assert(out@ + Seq::<char>::empty() =~= out@);
                }
            },
            SpanTag::Delete => {
                out.append("-");
                out.append(sp.text.as_str());
                let tl = sp.text.as_str().unicode_len();
                if tl == 0 || {
                    let last = sp.text.as_str().get_char(tl - 1);
                    last != '\n' && last != '\r'
                } {
                    out.append("\n");
                    assert(nl_pad(sp.text@) =~= sp.text@ + seq!['\n']);
                }
            },
            SpanTag::Insert => {
                out.append("+");
                out.append(sp.text.as_str());
                let tl = sp.text.as_str().unicode_len();
                if tl == 0 || {
                    let last = sp.text.as_str().get_char(tl - 1);
                    last != '\n' && last != '\r'
                } {
                    out.append("\n");
                    assert(nl_pad(sp.text@) =~= sp.text@ + seq!['\n']);
                }
            },
        }
        i = i + 1;
    }
    proof {
        assert(m.take(spans@.len() as int) =~= m);
    }
    out
}


} // verus!
