//! Character-level edits and their application semantics.
//!
//! Every edit is either a pure insertion (`start == end`, `text` carries the
//! inserted content) or a pure deletion (`text` carries the deleted content
//! verbatim).  `start` and `end` are character offsets into the pre-edit
//! content.  [`apply_edits_spec`] gives the meaning of an edit list: the
//! edits are applied left to right, each consuming the original up to its
//! own range.

use vstd::prelude::*;

verus! {

#[derive(Clone, Copy, Debug, PartialEq, Eq, Structural)]
pub enum EditKind {
    Insert,
    Delete,
}

#[derive(Clone, Debug, PartialEq, Eq)]
pub struct Edit {
    pub start: usize,
    pub end: usize,
    pub text: String,
    pub kind: EditKind,
}

impl Edit {
    /// A field-by-field copy; unlike the derived `Clone`, its contract
    /// states that nothing changes.
    pub fn duplicate(&self) -> (r: Edit)
        ensures
            r == *self,
    {
        Edit { start: self.start, end: self.end, text: self.text.clone(), kind: self.kind }
    }
}

/// The result of applying `edits` to `old[c0..c_end)`, reading the edits
/// left to right.  An insertion emits its text at its (cursor-clamped)
/// position; a deletion skips the deleted range of `old`.  Untouched
/// characters are copied through.
pub open spec fn apply_upto(old: Seq<char>, edits: Seq<Edit>, c0: int, c_end: int) -> Seq<char>
    decreases edits.len(),
{
    if edits.len() == 0 {
        old.subrange(c0, c_end)
    } else {
        let e = edits[0];
        let s = if e.start as int >= c0 {
            e.start as int
        } else {
            c0
        };
        if e.kind is Insert {
            old.subrange(c0, s) + e.text@ + apply_upto(old, edits.drop_first(), s, c_end)
        } else {
            let en = if e.end as int >= s {
                e.end as int
            } else {
                s
            };
            old.subrange(c0, s) + apply_upto(old, edits.drop_first(), en, c_end)
        }
    }
}

/// The content that results from applying `edits` to the whole of `old`.
pub open spec fn apply_edits_spec(old: Seq<char>, edits: Seq<Edit>) -> Seq<char> {
    apply_upto(old, edits, 0, old.len() as int)
}

/// A single edit is in normal form with respect to `old`: within bounds,
/// a pure insertion (an insertion point with non-empty text) or a pure
/// deletion (a non-empty range whose text is exactly the deleted slice of
/// `old`).
pub open spec fn edit_ok(e: Edit, old: Seq<char>) -> bool {
    &&& e.start <= e.end <= old.len()
    &&& (e.kind is Insert ==> e.start == e.end && e.text@.len() > 0)
    &&& (e.kind is Delete ==> e.start < e.end && e.text@ == old.subrange(
        e.start as int,
        e.end as int,
    ))
}

/// An edit list is in normal form with respect to `old`: every edit is,
/// the edits are ordered by ascending start offset, deleted ranges are
/// pairwise disjoint, and the only overlap of adjacent edits is an
/// insertion right after the same-start deletion it was split from.
pub open spec fn edits_wf(edits: Seq<Edit>, old: Seq<char>) -> bool {
    &&& forall|i: int| 0 <= i < edits.len() ==> edit_ok(#[trigger] edits[i], old)
    &&& forall|i: int|
        0 <= i < edits.len() - 1 ==> (#[trigger] edits[i].start) <= edits[i + 1].start
    &&& forall|i: int|
        0 <= i < edits.len() - 1 ==> edits[i + 1].start >= (#[trigger] edits[i].end) || (
        edits[i].kind is Delete && edits[i + 1].kind is Insert && edits[i + 1].start == edits[
            i
        ].start)
    &&& forall|i: int, j: int|
        0 <= i < j < edits.len() && (#[trigger] edits[i].kind) is Delete && (
        #[trigger] edits[j].kind) is Delete ==> edits[i].end <= edits[j].start
}

/// The cursor of [`apply_upto`] moves from `c0` to exactly `cend` while it
/// processes `edits`: inserts move it to their (clamped) position,
/// deletions to their (clamped) range end.
pub open spec fn apply_chain(edits: Seq<Edit>, c0: int, cend: int) -> bool
    decreases edits.len(),
{
    if edits.len() == 0 {
        cend == c0
    } else {
        let e = edits[0];
        let s = if e.start as int >= c0 {
            e.start as int
        } else {
            c0
        };
        if e.kind is Insert {
            e.start == e.end && apply_chain(edits.drop_first(), s, cend)
        } else {
            c0 <= e.start && e.start <= e.end && apply_chain(
                edits.drop_first(),
                if e.end as int >= s {
                    e.end as int
                } else {
                    s
                },
                cend,
            )
        }
    }
}

pub proof fn lemma_apply_chain_le(edits: Seq<Edit>, c0: int, cend: int)
    requires
        apply_chain(edits, c0, cend),
    ensures
        c0 <= cend,
    decreases edits.len(),
{
    if edits.len() > 0 {
        let e = edits[0];
        let s = if e.start as int >= c0 {
            e.start as int
        } else {
            c0
        };
        if e.kind is Insert {
            lemma_apply_chain_le(edits.drop_first(), s, cend);
        } else {
            lemma_apply_chain_le(
                edits.drop_first(),
                if e.end as int >= s {
                    e.end as int
                } else {
                    s
                },
                cend,
            );
        }
    }
}

pub proof fn lemma_apply_chain_concat(a: Seq<Edit>, b: Seq<Edit>, c0: int, cmid: int, cend: int)
    requires
        apply_chain(a, c0, cmid),
        apply_chain(b, cmid, cend),
    ensures
        apply_chain(a + b, c0, cend),
    decreases a.len(),
{
    if a.len() == 0 {
        assert(a + b =~= b);
    } else {
        let e = a[0];
        assert((a + b)[0] == e);
        assert((a + b).drop_first() =~= a.drop_first() + b);
        let s = if e.start as int >= c0 {
            e.start as int
        } else {
            c0
        };
        if e.kind is Insert {
            lemma_apply_chain_concat(a.drop_first(), b, s, cmid, cend);
        } else {
            lemma_apply_chain_concat(
                a.drop_first(),
                b,
                if e.end as int >= s {
                    e.end as int
                } else {
                    s
                },
                cmid,
                cend,
            );
        }
    }
}

/// Splitting an edit list splits its application: the front part carries the
/// cursor from `c0` to `cend`, and the back part continues from there.
pub proof fn lemma_apply_concat(
    old: Seq<char>,
    a: Seq<Edit>,
    b: Seq<Edit>,
    c0: int,
    cend: int,
    upto: int,
)
    requires
        0 <= c0,
        cend <= old.len(),
        apply_chain(a, c0, cend),
    ensures
        apply_upto(old, a + b, c0, upto) == apply_upto(old, a, c0, cend) + apply_upto(
            old,
            b,
            cend,
            upto,
        ),
    decreases a.len(),
{
    if a.len() == 0 {
        assert(a + b =~= b);
        assert(old.subrange(c0, c0) =~= Seq::<char>::empty());
        assert(old.subrange(c0, c0) + apply_upto(old, b, c0, upto) =~= apply_upto(
            old,
            b,
            c0,
            upto,
        ));
    } else {
        let e = a[0];
        assert((a + b)[0] == e);
        assert((a + b).drop_first() =~= a.drop_first() + b);
        let s = if e.start as int >= c0 {
            e.start as int
        } else {
            c0
        };
        if e.kind is Insert {
            lemma_apply_concat(old, a.drop_first(), b, s, cend, upto);
            assert((old.subrange(c0, s) + e.text@ + apply_upto(old, a.drop_first(), s, cend))
                + apply_upto(old, b, cend, upto) =~= old.subrange(c0, s) + e.text@ + (apply_upto(
                old,
                a.drop_first(),
                s,
                cend,
            ) + apply_upto(old, b, cend, upto)));
        } else {
            let en = if e.end as int >= s {
                e.end as int
            } else {
                s
            };
            lemma_apply_concat(old, a.drop_first(), b, en, cend, upto);
            assert((old.subrange(c0, s) + apply_upto(old, a.drop_first(), en, cend)) + apply_upto(
                old,
                b,
                cend,
                upto,
            ) =~= old.subrange(c0, s) + (apply_upto(old, a.drop_first(), en, cend) + apply_upto(
                old,
                b,
                cend,
                upto,
            )));
        }
    }
}

/// Applies an edit list to `old`, realizing [`apply_edits_spec`]
/// executably.  Edits must be applied in the order of the list for the
/// result to be meaningful; this is the order the diff engine produces.
pub fn apply_edits(old: &str, edits: &Vec<Edit>) -> (r: String)
    requires
        forall|i: int|
            0 <= i < edits@.len() ==> (#[trigger] edits@[i].start) <= old@.len()
                && edits@[i].end <= old@.len(),
    ensures
        r@ == apply_edits_spec(old@, edits@),
{
    let old_len = old.unicode_len();
    let mut out = String::new();
    let mut cursor: usize = 0;
    let mut i: usize = 0;
    proof {
        assert(edits@.skip(0) =~= edits@);
        assert(out@ + apply_upto(old@, edits@.skip(0), 0, old@.len() as int) =~= apply_upto(
            old@,
            edits@,
            0,
            old@.len() as int,
        ));
    }
    while i < edits.len()
        invariant
            old_len == old@.len(),
            0 <= i <= edits@.len(),
            0 <= cursor <= old_len,
            forall|k: int|
                0 <= k < edits@.len() ==> (#[trigger] edits@[k].start) <= old@.len()
                    && edits@[k].end <= old@.len(),
            apply_edits_spec(old@, edits@) == out@ + apply_upto(
                old@,
                edits@.skip(i as int),
                cursor as int,
                old@.len() as int,
            ),
        decreases edits@.len() - i,
    {
        let e = &edits[i];
        let s = if e.start >= cursor {
            e.start
        } else {
            cursor
        };
        let ghost prev_out = out@;
        let piece = old.substring_char(cursor, s);
        assert(piece@ =~= old@.subrange(cursor as int, s as int));
        out.append(piece);
        proof {
            assert(edits@.skip(i as int)[0] == edits@[i as int]);
            assert(edits@.skip(i as int).drop_first() =~= edits@.skip(i + 1));
        }
        match e.kind {
            EditKind::Insert => {
                out.append(e.text.as_str());
                proof {
                    assert(prev_out + (old@.subrange(cursor as int, s as int) + e.text@
                        + apply_upto(
                        old@,
                        edits@.skip(i + 1),
                        s as int,
                        old@.len() as int,
                    )) =~= out@ + apply_upto(old@, edits@.skip(i + 1), s as int, old@.len() as int));
                }
                cursor = s;
            },
            EditKind::Delete => {
                let en = if e.end >= s {
                    e.end
                } else {
                    s
                };
                proof {
                    assert(prev_out + (old@.subrange(cursor as int, s as int) + apply_upto(
                        old@,
                        edits@.skip(i + 1),
                        en as int,
                        old@.len() as int,
                    )) =~= out@ + apply_upto(old@, edits@.skip(i + 1), en as int, old@.len() as int));
                }
                cursor = en;
            },
        }
        i = i + 1;
    }
    let tail = old.substring_char(cursor, old_len);
    assert(tail@ =~= old@.subrange(cursor as int, old@.len() as int));
    out.append(tail);
    proof {
        assert(edits@.skip(i as int) =~= Seq::<Edit>::empty());
    }
    out
}

} // verus!
