//! The completion orchestrator: owns the per-file snapshot trackers, builds
//! the line-windowed contexts around the cursor, parses the model's
//! token-delimited response into a located search/replace pair, and turns
//! that pair into a buffer-absolute edit list sorted for safe application.
//!
//! The network call to the language model happens outside the library; the
//! application shell sends what [`Coder::autocomplete_request`] assembles
//! and hands the raw response text to [`Coder::edits_from_response`].

use vstd::prelude::*;
use crate::diff::{compute_text_edits, line_diff_of, marked_of};
use crate::edits::{apply_edits_spec, edits_wf, Edit};
use crate::error::{Error, PatchToken};
use crate::prompts::{ctoken, ctoken_spec, dtoken, dtoken_spec, rtoken, rtoken_spec, stoken, stoken_spec};
use crate::strutil::{
    count_char, count_char_upto, find_sub, find_sub_spec, is_blank, join_lines, join_spec,
    lemma_find_from_props, lemma_lines_count, lemma_remove_all_len, lines_spec, remove_all,
    remove_all_spec, split_lines, str_eq, str_is_blank,
};
use crate::tracker::{
    latest_of, now_millis, tracker_update_model, Tracker,
};

verus! {

/// The index of the first entry keyed by `path`, or -1 when none is.
pub open spec fn find_path(m: Seq<(String, Tracker)>, path: Seq<char>) -> int
    decreases m.len(),
{
    if m.len() == 0 {
        -1
    } else if m[0].0@ == path {
        0
    } else {
        let r = find_path(m.drop_first(), path);
        if r == -1 {
            -1
        } else {
            r + 1
        }
    }
}

pub proof fn lemma_find_path_props(m: Seq<(String, Tracker)>, path: Seq<char>)
    ensures
        find_path(m, path) >= -1,
        find_path(m, path) == -1 ==> forall|i: int|
            0 <= i < m.len() ==> (#[trigger] m[i].0)@ != path,
        find_path(m, path) >= 0 ==> 0 <= find_path(m, path) < m.len() && m[find_path(
            m,
            path,
        )].0@ == path,
    decreases m.len(),
{
    if m.len() > 0 && m[0].0@ != path {
        lemma_find_path_props(m.drop_first(), path);
        let r = find_path(m.drop_first(), path);
        assert(forall|j: int|
            0 <= j < m.drop_first().len() ==> #[trigger] m.drop_first()[j] == m[j + 1]);
        if r == -1 {
            assert forall|i: int| 0 <= i < m.len() implies (#[trigger] m[i].0)@ != path by {
                if i > 0 {
                    assert(m.drop_first()[i - 1].0@ != path);
                    assert(m.drop_first()[i - 1] == m[i]);
                }
            }
        } else {
            assert(0 <= r < m.drop_first().len());
            assert(m.drop_first()[r].0@ == path);
            assert(m.drop_first()[r] == m[r + 1]);
            assert(find_path(m, path) == r + 1);
        }
    }
}

/// The first match of a scan is the first match of [`find_path`].
pub proof fn lemma_find_path_first(m: Seq<(String, Tracker)>, path: Seq<char>, i: int)
    requires
        0 <= i < m.len(),
        m[i].0@ == path,
        forall|j: int| 0 <= j < i ==> (#[trigger] m[j].0)@ != path,
    ensures
        find_path(m, path) == i,
    decreases i,
{
    if i > 0 {
        assert(m[0].0@ != path);
        assert(m.drop_first()[i - 1] == m[i]);
        assert(forall|j: int|
            0 <= j < i - 1 ==> (#[trigger] m.drop_first()[j]) == m[j + 1]);
        lemma_find_path_first(m.drop_first(), path, i - 1);
    }
}

/// What one observed content change does to the tracker store: the entry
/// keyed by the path is updated at `now`, or a fresh single-snapshot entry
/// is appended when the path is new (its stamp is the wrapper's own clock
/// reading, of which nothing is promised).
pub open spec fn coder_updated(
    before: Seq<(String, Tracker)>,
    after: Seq<(String, Tracker)>,
    path: Seq<char>,
    content: Seq<char>,
    now: u64,
) -> bool {
    let i = find_path(before, path);
    if i >= 0 {
        &&& after.len() == before.len()
        &&& (forall|j: int| 0 <= j < before.len() && j != i ==> #[trigger] after[j] == before[j])
        &&& after[i].0@ == path
        &&& after[i].1.model() == tracker_update_model(
            before[i].1.model(),
            content,
            now,
            before[i].1.spec_max_age(),
            before[i].1.spec_max_versions(),
        )
        &&& after[i].1.spec_max_age() == before[i].1.spec_max_age()
        &&& after[i].1.spec_max_versions() == before[i].1.spec_max_versions()
    } else {
        &&& after.len() == before.len() + 1
        &&& (forall|j: int| 0 <= j < before.len() ==> #[trigger] after[j] == before[j])
        &&& after.last().0@ == path
        &&& after.last().1.model().len() == 1
        &&& after.last().1.model()[0].1 == content
        &&& after.last().1.spec_max_age() == 1800000u64
        &&& after.last().1.spec_max_versions() == 50
        &&& after.last().1.wf()
    }
}

/// The completion orchestrator's state: one snapshot tracker per observed
/// file path, keyed uniquely.
pub struct Coder {
    trackers: Vec<(String, Tracker)>,
}

impl Coder {
    /// The tracker store, as a sequence of path-keyed entries.
    pub closed spec fn entries(self) -> Seq<(String, Tracker)> {
        self.trackers@
    }

    /// Paths are unique and every tracker respects its caps.
    pub open spec fn wf(self) -> bool {
        &&& forall|i: int, j: int|
            0 <= i < j < self.entries().len() ==> (#[trigger] self.entries()[i].0)@ != (
            #[trigger] self.entries()[j].0)@
        &&& forall|i: int| 0 <= i < self.entries().len() ==> (#[trigger] self.entries()[i].1).wf()
    }

    /// A fresh orchestrator tracking no files yet.
    pub fn new() -> (r: Coder)
        ensures
            r.entries().len() == 0,
            r.wf(),
    {
        Coder { trackers: Vec::new() }
    }

    /// Feeds one observed content state of `path` into its tracker at time
    /// `now`, creating the tracker on first sight of the path.
    pub fn update_at(&mut self, path: &str, content: &str, now: u64)
        ensures
            coder_updated(old(self).entries(), final(self).entries(), path@, content@, now),
            old(self).wf() ==> final(self).wf(),
    {
        let ghost before = self.entries();
        let mut i: usize = 0;
        while i < self.trackers.len()
            invariant
                before == self.trackers@,
                before == old(self).entries(),
                0 <= i <= before.len(),
                forall|j: int| 0 <= j < i ==> (#[trigger] before[j].0)@ != path@,
            decreases before.len() - i,
        {
            if str_eq(self.trackers[i].0.as_str(), path) {
                proof {
                    lemma_find_path_first(before, path@, i as int);
                }
                let entry = self.trackers.remove(i);
                let p = entry.0;
                let mut t = entry.1;
                t.update_at(content.to_owned(), now);
                self.trackers.insert(i, (p, t));
                proof {
                    assert(self.trackers@ =~= before.update(i as int, self.trackers@[i as int]));
                    assert forall|j: int|
                        0 <= j < before.len() && j != i as int implies #[trigger] self.entries()[j]
                        == before[j] by {}
                    if old(self).wf() {
                        assert forall|a: int, b: int|
                            0 <= a < b < self.entries().len() implies (
                        #[trigger] self.entries()[a].0)@ != (#[trigger] self.entries()[b].0)@ by {
                            assert(before[a].0@ != before[b].0@);
                            assert(self.entries()[a].0@ == before[a].0@);
                            assert(self.entries()[b].0@ == before[b].0@);
                        }
                        assert forall|a: int|
                            0 <= a < self.entries().len() implies (
                        #[trigger] self.entries()[a].1).wf() by {
                            if a != i as int {
                                assert(self.entries()[a].1 == before[a].1);
                                assert(before[a].1.wf());
                            } else {
                                assert(before[a].1.wf());
                            }
                        }
                    }
                }
                return ;
            }
            i = i + 1;
        }
        proof {
            lemma_find_path_props(before, path@);
            assert(find_path(before, path@) == -1) by {
                if find_path(before, path@) >= 0 {
                    assert(before[find_path(before, path@)].0@ == path@);
                }
            }
        }
        let t = Tracker::new(content.to_owned());
        self.trackers.push((path.to_owned(), t));
        proof {
            assert(self.entries().last() == self.trackers@[before.len() as int]);
            assert forall|j: int|
                0 <= j < before.len() implies #[trigger] self.entries()[j] == before[j] by {}
            if old(self).wf() {
                assert forall|a: int, b: int|
                    0 <= a < b < self.entries().len() implies (#[trigger] self.entries()[a].0)@
                    != (#[trigger] self.entries()[b].0)@ by {
                    if b < before.len() {
                        assert(before[a].0@ != before[b].0@);
                    } else {
                        assert(before[a].0@ != path@);
                    }
                }
                assert forall|a: int|
                    0 <= a < self.entries().len() implies (#[trigger] self.entries()[a].1).wf()
                    by {
                    if a < before.len() {
                        assert(self.entries()[a].1 == before[a].1);
                        assert(before[a].1.wf());
                    }
                }
            }
        }
    }

    /// Feeds one observed content state of `path` into its tracker,
    /// stamped with the current clock.
    pub fn update(&mut self, path: &str, content: &str)
        ensures
            exists|now: u64|
                coder_updated(old(self).entries(), final(self).entries(), path@, content@, now),
            old(self).wf() ==> final(self).wf(),
    {
        let now = now_millis();
        self.update_at(path, content, now);
    }
}


/// The tracked files that have at least one snapshot, each with the
/// timestamp of its newest snapshot, in store order.
pub open spec fn files_with_times(m: Seq<(String, Tracker)>) -> Seq<(Seq<char>, u64)>
    decreases m.len(),
{
    if m.len() == 0 {
        Seq::empty()
    } else {
        files_with_times(m.drop_last()) + if m.last().1.model().len() > 0 {
            seq![(m.last().0@, m.last().1.model().last().0)]
        } else {
            Seq::empty()
        }
    }
}

proof fn lemma_files_with_times_take_step(m: Seq<(String, Tracker)>, k: int)
    requires
        0 <= k < m.len(),
    ensures
        files_with_times(m.take(k + 1)) == files_with_times(m.take(k)) + if m[k].1.model().len()
            > 0 {
            seq![(m[k].0@, m[k].1.model().last().0)]
        } else {
            Seq::empty()
        },
{
    assert(m.take(k + 1).drop_last() =~= m.take(k));
    assert(m.take(k + 1).last() == m[k]);
}

/// Inserts `e` after every element with an equal or newer timestamp, the
/// step of a stable insertion sort by descending timestamp.
pub open spec fn insert_by_time_desc(e: (Seq<char>, u64), s: Seq<(Seq<char>, u64)>) -> Seq<
    (Seq<char>, u64),
>
    decreases s.len(),
{
    if s.len() == 0 {
        seq![e]
    } else if s.last().1 >= e.1 {
        s.push(e)
    } else {
        insert_by_time_desc(e, s.drop_last()).push(s.last())
    }
}

/// The files sorted by descending timestamp; ties keep their store order.
pub open spec fn sort_by_time_desc(s: Seq<(Seq<char>, u64)>) -> Seq<(Seq<char>, u64)>
    decreases s.len(),
{
    if s.len() == 0 {
        s
    } else {
        insert_by_time_desc(s.last(), sort_by_time_desc(s.drop_last()))
    }
}

pub open spec fn sorted_by_time_desc(s: Seq<(Seq<char>, u64)>) -> bool {
    forall|i: int| 0 <= i < s.len() - 1 ==> (#[trigger] s[i].1) >= s[i + 1].1
}

pub proof fn lemma_sorted_desc_upto(s: Seq<(Seq<char>, u64)>, a: int, b: int)
    requires
        sorted_by_time_desc(s),
        0 <= a <= b < s.len(),
    ensures
        s[a].1 >= s[b].1,
    decreases b - a,
{
    if a < b {
        lemma_sorted_desc_upto(s, a, b - 1);
        assert(s[b - 1].1 >= s[b].1);
    }
}

#[verifier::rlimit(50)]
pub proof fn lemma_insert_desc_last_ge(e: (Seq<char>, u64), s: Seq<(Seq<char>, u64)>, b: u64)
    requires
        e.1 >= b,
        forall|i: int| 0 <= i < s.len() ==> (#[trigger] s[i].1) >= b,
    ensures
        insert_by_time_desc(e, s).len() == s.len() + 1,
        forall|i: int|
            0 <= i < insert_by_time_desc(e, s).len() ==> (#[trigger] insert_by_time_desc(
                e,
                s,
            )[i].1) >= b,
    decreases s.len(),
{
    if s.len() == 0 {
    } else if s.last().1 >= e.1 {
        let t = s.push(e);
        assert forall|i: int| 0 <= i < t.len() implies (#[trigger] t[i].1) >= b by {
            if i < s.len() {
                assert(s[i].1 >= b);
            }
        }
    } else {
        assert(forall|i: int|
            0 <= i < s.drop_last().len() ==> (#[trigger] s.drop_last()[i]) == s[i]);
        lemma_insert_desc_last_ge(e, s.drop_last(), b);
        let u = insert_by_time_desc(e, s.drop_last());
        let t = u.push(s.last());
        assert forall|i: int| 0 <= i < t.len() implies (#[trigger] t[i].1) >= b by {
            if i < u.len() {
                assert(u[i].1 >= b);
            }
        }
    }
}

#[verifier::rlimit(50)]
pub proof fn lemma_insert_desc_sorted(e: (Seq<char>, u64), s: Seq<(Seq<char>, u64)>)
    requires
        sorted_by_time_desc(s),
    ensures
        sorted_by_time_desc(insert_by_time_desc(e, s)),
        insert_by_time_desc(e, s).len() == s.len() + 1,
    decreases s.len(),
{
    if s.len() == 0 {
    } else if s.last().1 >= e.1 {
        let t = s.push(e);
        assert forall|i: int| 0 <= i < t.len() - 1 implies (#[trigger] t[i].1) >= t[i + 1].1 by {
            if i < s.len() - 1 {
                assert(s[i].1 >= s[i + 1].1);
            } else {
                lemma_sorted_desc_upto(s, i, s.len() - 1);
            }
        }
    } else {
        assert(sorted_by_time_desc(s.drop_last())) by {
            assert forall|i: int| 0 <= i < s.drop_last().len() - 1 implies (
            #[trigger] s.drop_last()[i].1) >= s.drop_last()[i + 1].1 by {
                assert(s[i].1 >= s[i + 1].1);
            }
        }
        lemma_insert_desc_sorted(e, s.drop_last());
        let u = insert_by_time_desc(e, s.drop_last());
        let t = u.push(s.last());
        assert forall|i: int| 0 <= i < s.drop_last().len() implies (#[trigger] s.drop_last()[i].1)
            >= s.last().1 by {
            assert(s.drop_last()[i] == s[i]);
            lemma_sorted_desc_upto(s, i, s.len() - 1);
        }
        assert(e.1 >= s.last().1);
        lemma_insert_desc_last_ge(e, s.drop_last(), s.last().1);
        assert forall|i: int| 0 <= i < t.len() - 1 implies (#[trigger] t[i].1) >= t[i + 1].1 by {
            if i < u.len() - 1 {
                assert(u[i].1 >= u[i + 1].1);
            } else {
                assert(u[i].1 >= s.last().1);
            }
        }
    }
}

pub proof fn lemma_sort_desc_sorted(s: Seq<(Seq<char>, u64)>)
    ensures
        sorted_by_time_desc(sort_by_time_desc(s)),
        sort_by_time_desc(s).len() == s.len(),
    decreases s.len(),
{
    if s.len() > 0 {
        lemma_sort_desc_sorted(s.drop_last());
        lemma_insert_desc_sorted(s.last(), sort_by_time_desc(s.drop_last()));
    }
}

/// Inserting at the position found by scanning from the back yields the
/// stable-insertion result.
#[verifier::rlimit(50)]
pub proof fn lemma_insert_desc_position(e: (Seq<char>, u64), s: Seq<(Seq<char>, u64)>, j: int)
    requires
        0 <= j <= s.len(),
        forall|i: int| 0 <= i < j ==> (#[trigger] s[i].1) >= e.1,
        forall|i: int| j <= i < s.len() ==> (#[trigger] s[i].1) < e.1,
    ensures
        insert_by_time_desc(e, s) == s.take(j) + seq![e] + s.skip(j),
    decreases s.len(),
{
    if s.len() == 0 {
        assert(s.take(0) =~= Seq::<(Seq<char>, u64)>::empty());
        assert(s.skip(0) =~= Seq::<(Seq<char>, u64)>::empty());
        assert(s.take(0) + seq![e] + s.skip(0) =~= seq![e]);
    } else if j == s.len() {
        assert(s.last().1 >= e.1);
        assert(s.take(j) =~= s);
        assert(s.skip(j) =~= Seq::<(Seq<char>, u64)>::empty());
        assert(s.take(j) + seq![e] + s.skip(j) =~= s.push(e));
    } else {
        assert(s.last().1 < e.1);
        assert(forall|i: int|
            0 <= i < s.drop_last().len() ==> (#[trigger] s.drop_last()[i]) == s[i]);
        lemma_insert_desc_position(e, s.drop_last(), j);
        assert(s.drop_last().take(j) =~= s.take(j));
        assert((s.take(j) + seq![e] + s.drop_last().skip(j)).push(s.last()) =~= s.take(j)
            + seq![e] + s.skip(j));
    }
}

/// The image of an executable path/time pair list.
pub open spec fn pairs_model(v: Seq<(String, u64)>) -> Seq<(Seq<char>, u64)> {
    v.map_values(|p: (String, u64)| (p.0@, p.1))
}

/// The tracked files ranked by most-recent snapshot timestamp, newest
/// first; files with equally fresh snapshots keep their store order.
pub open spec fn ranked_files(m: Seq<(String, Tracker)>) -> Seq<(Seq<char>, u64)> {
    sort_by_time_desc(files_with_times(m))
}

impl Coder {
    /// The paths of the `n` most recently modified tracked files, newest
    /// first.
    #[verifier::rlimit(50)]
    pub fn last_modified_files(&self, n: usize) -> (r: Vec<String>)
        ensures
            r@.len() == if n <= ranked_files(self.entries()).len() {
                n as int
            } else {
                ranked_files(self.entries()).len() as int
            },
            forall|j: int|
                0 <= j < r@.len() ==> (#[trigger] r@[j])@ == ranked_files(self.entries())[j].0,
    {
        let ghost m = self.entries();
        let mut pairs: Vec<(String, u64)> = Vec::new();
        let mut i: usize = 0;
        proof {
            assert(m.take(0) =~= Seq::<(String, Tracker)>::empty());
            assert(pairs_model(pairs@) =~= Seq::<(Seq<char>, u64)>::empty());
        }
        while i < self.trackers.len()
            invariant
                m == self.trackers@,
                0 <= i <= m.len(),
                pairs_model(pairs@) == files_with_times(m.take(i as int)),
            decreases m.len() - i,
        {
            proof {
                lemma_files_with_times_take_step(m, i as int);
            }
            let snaps = self.trackers[i].1.snapshots();
            let ghost prev = pairs@;
            if snaps.len() > 0 {
                let ts = snaps[snaps.len() - 1].timestamp;
                pairs.push((self.trackers[i].0.clone(), ts));
                proof {
                    assert(m[i as int].1.model().last() == crate::tracker::snap_model(
                        snaps@.last(),
                    ));
                    assert(pairs_model(pairs@) =~= pairs_model(prev).push(
                        (m[i as int].0@, m[i as int].1.model().last().0),
                    ));
                    assert(pairs_model(prev).push((m[i as int].0@, m[i as int].1.model().last().0))
                        =~= pairs_model(prev) + seq![
                        (m[i as int].0@, m[i as int].1.model().last().0),
                    ]);
                }
            } else {
                proof {
                    assert(pairs_model(pairs@) + Seq::<(Seq<char>, u64)>::empty() =~= pairs_model(
                        pairs@,
                    ));
                }
            }
            i = i + 1;
        }
        proof {
            assert(m.take(m.len() as int) =~= m);
        }
        let ghost fw = files_with_times(m);
        let mut sorted: Vec<(String, u64)> = Vec::new();
        let mut k: usize = 0;
        proof {
            assert(fw.take(0) =~= Seq::<(Seq<char>, u64)>::empty());
            lemma_sort_desc_sorted(fw);
        }
        while k < pairs.len()
            invariant
                fw == pairs_model(pairs@),
                fw.len() == pairs@.len(),
                0 <= k <= fw.len(),
                pairs_model(sorted@) == sort_by_time_desc(fw.take(k as int)),
                sorted_by_time_desc(pairs_model(sorted@)),
                sorted@.len() == k,
            decreases fw.len() - k,
        {
            let e = (pairs[k].0.clone(), pairs[k].1);
            let ghost em = (pairs@[k as int].0@, pairs@[k as int].1);
            let mut j = sorted.len();
            while j > 0 && sorted[j - 1].1 < e.1
                invariant
                    0 <= j <= sorted@.len(),
                    e.1 == em.1,
                    sorted_by_time_desc(pairs_model(sorted@)),
                    forall|t: int|
                        j <= t < sorted@.len() ==> (#[trigger] pairs_model(sorted@)[t].1) < em.1,
                decreases j,
            {
                j = j - 1;
            }
            proof {
                assert forall|t: int| 0 <= t < j implies (#[trigger] pairs_model(sorted@)[t].1)
                    >= em.1 by {
                    assert(pairs_model(sorted@)[j - 1].1 >= em.1);
                    lemma_sorted_desc_upto(pairs_model(sorted@), t, j - 1);
                }
                lemma_insert_desc_position(em, pairs_model(sorted@), j as int);
                lemma_insert_desc_sorted(em, pairs_model(sorted@));
            }
            let ghost before_s = sorted@;
            sorted.insert(j, e);
            proof {
                assert(pairs_model(sorted@) =~= pairs_model(before_s).take(j as int) + seq![em]
                    + pairs_model(before_s).skip(j as int));
                assert(fw.take(k + 1).drop_last() =~= fw.take(k as int));
                assert(fw.take(k + 1).last() == fw[k as int]);
                assert(fw[k as int] == em);
                assert(pairs_model(sorted@) == sort_by_time_desc(fw.take(k + 1)));
            }
            k = k + 1;
        }
        proof {
            assert(fw.take(fw.len() as int) =~= fw);
        }
        let mut out: Vec<String> = Vec::new();
        let count = if n <= sorted.len() {
            n
        } else {
            sorted.len()
        };
        let mut j: usize = 0;
        while j < count
            invariant
                pairs_model(sorted@) == ranked_files(m),
                m == self.entries(),
                count == if n <= sorted@.len() {
                    n as int
                } else {
                    sorted@.len() as int
                },
                sorted@.len() == ranked_files(m).len(),
                0 <= j <= count,
                out@.len() == j,
                forall|t: int| 0 <= t < j ==> (#[trigger] out@[t])@ == ranked_files(m)[t].0,
            decreases count - j,
        {
            out.push(sorted[j].0.clone());
            j = j + 1;
        }
        out
    }

    /// The line-diff summaries of the `n` most recently modified files,
    /// each labelled with its path, non-blank summaries only.
    pub fn summarize_recent_edits_for_last_files(&self, n: usize) -> (r: String)
        ensures
            r@ == files_summary(
                self.entries(),
                ranked_paths_take(self.entries(), n as int),
            ),
    {
        let files = self.last_modified_files(n);
        let ghost fps = ranked_paths_take(self.entries(), n as int);
        proof {
            assert(files@.map_values(|p: String| p@) =~= fps);
            assert(fps.skip(0) =~= fps);
        }
        let mut summary = String::new();
        let mut i: usize = 0;
        proof {
            assert(summary@ + files_summary(self.entries(), fps) =~= files_summary(
                self.entries(),
                fps,
            ));
        }
        while i < files.len()
            invariant
                fps == files@.map_values(|p: String| p@),
                0 <= i <= files@.len(),
                fps.len() == files@.len(),
                files_summary(self.entries(), fps) == summary@ + files_summary(
                    self.entries(),
                    fps.skip(i as int),
                ),
            decreases files@.len() - i,
        {
            let path = &files[i];
            proof {
                assert(fps.skip(i as int)[0] == fps[i as int]);
                assert(fps.skip(i as int).drop_first() =~= fps.skip(i + 1));
                assert(fps[i as int] == files@[i as int]@);
            }
            let mut found = false;
            let mut idx: usize = 0;
            let mut t: usize = 0;
            while t < self.trackers.len()
                invariant
                    0 <= t <= self.trackers@.len(),
                    0 <= i < files@.len(),
                    path@ == files@[i as int]@,
                    found ==> t == self.trackers@.len(),
                    !found ==> forall|j: int|
                        0 <= j < t ==> (#[trigger] self.trackers@[j].0)@ != files@[i as int]@,
                    found ==> 0 <= idx < self.trackers@.len() && self.trackers@[idx as int].0@
                        == files@[i as int]@ && (forall|j: int|
                        0 <= j < idx ==> (#[trigger] self.trackers@[j].0)@ != files@[i as int]@),
                decreases self.trackers@.len() - t,
            {
                if str_eq(self.trackers[t].0.as_str(), path.as_str()) {
                    found = true;
                    idx = t;
                    t = self.trackers.len();
                } else {
                    t = t + 1;
                }
            }
            let ghost prev_sum = summary@;
            if found {
                proof {
                    lemma_find_path_first(self.entries(), files@[i as int]@, idx as int);
                }
                let changes = self.trackers[idx].1.summarize_recent_edits();
                if !str_is_blank(changes.as_str()) {
                    summary.append(path.as_str());
                    summary.append(" changes:\n");
                    summary.append(changes.as_str());
                    summary.append("\n\n");
                    proof {
                        assert(prev_sum + (fps[i as int] + " changes:\n"@ + changes@ + "\n\n"@)
                            =~= summary@);
                    }
                }
            } else {
                proof {
                    lemma_find_path_props(self.entries(), files@[i as int]@);
                    assert(find_path(self.entries(), fps[i as int]) == -1) by {
                        if find_path(self.entries(), fps[i as int]) >= 0 {
                            assert(self.entries()[find_path(self.entries(), fps[i as int])].0@
                                == fps[i as int]);
                        }
                    }
                }
            }
            i = i + 1;
        }
        proof {
            assert(fps.skip(fps.len() as int) =~= Seq::<Seq<char>>::empty());
            assert(summary@ + Seq::<char>::empty() =~= summary@);
        }
        summary
    }
}

/// The summary of one tracker: the line-diff rendering between its oldest
/// and newest snapshots, empty when it has none.
pub open spec fn summary_of(t: Tracker) -> Seq<char> {
    if t.model().len() > 0 {
        marked_of(line_diff_of(t.model()[0].1, t.model().last().1))
    } else {
        Seq::empty()
    }
}

/// The ranked file paths, at most `n` of them.
pub open spec fn ranked_paths_take(m: Seq<(String, Tracker)>, n: int) -> Seq<Seq<char>> {
    let ranked = ranked_files(m);
    let count = if n <= ranked.len() {
        n
    } else {
        ranked.len() as int
    };
    ranked.take(count).map_values(|p: (Seq<char>, u64)| p.0)
}

/// The concatenated, labelled, non-blank summaries of the given files.
pub open spec fn files_summary(m: Seq<(String, Tracker)>, files: Seq<Seq<char>>) -> Seq<char>
    decreases files.len(),
{
    if files.len() == 0 {
        Seq::empty()
    } else {
        let part = {
            let i = find_path(m, files[0]);
            if i >= 0 {
                let sm = summary_of(m[i].1);
                if is_blank(sm) {
                    Seq::empty()
                } else {
                    files[0] + " changes:\n"@ + sm + "\n\n"@
                }
            } else {
                Seq::empty()
            }
        };
        part + files_summary(m, files.drop_first())
    }
}


/// The excerpt the context builder produces for a buffer, a cursor
/// position and a window half-height: the cursor marker is inserted at the
/// cursor, the text is split into lines, a window of lines around the
/// cursor's line is selected (a deficit near either end of the file is
/// given to the other side), and the lines are joined again.  The second
/// component is the excerpt's absolute start offset, recovered from the
/// marker's position inside the excerpt.  `None` when the marker cannot be
/// found again, which the error taxonomy reports as a lost context.
pub open spec fn context_spec(orig: Seq<char>, cursor: int, n: int) -> Option<(Seq<char>, int)> {
    let marked = orig.take(cursor) + ctoken_spec() + orig.skip(cursor);
    let lines = lines_spec(marked);
    let max_row = if lines.len() > 0 {
        lines.len() - 1
    } else {
        0
    };
    let nl = count_char(orig.take(cursor), '\n');
    let cl = if nl <= max_row {
        nl
    } else {
        max_row
    };
    let after = if cl < n {
        n + (n - cl)
    } else {
        n
    };
    let before = if cl >= n && cl + n > max_row {
        n + (cl + n - max_row)
    } else {
        n
    };
    let start_line = if cl >= before {
        cl - before
    } else {
        0
    };
    let end_line = if cl + after <= max_row {
        cl + after
    } else {
        max_row
    };
    let excerpt = join_spec(lines.subrange(start_line, end_line + 1));
    match find_sub_spec(excerpt, ctoken_spec()) {
        Some(rel) => Some(
            (
                excerpt,
                if cursor >= rel {
                    cursor - rel
                } else {
                    0
                },
            ),
        ),
        None => None,
    }
}

/// What the patch parser yields for a model response and a cursor
/// position: the anchored start offset, the search text (cursor marker
/// stripped) and the replacement text (the text strictly between the
/// divide marker and the first close marker after it, cursor markers
/// stripped), or the first missing marker.  Text after the close marker
/// is discarded, so a response with trailing chatter never reaches the
/// buffer.  The start offset comes from the caller's cursor position and
/// the characters before the marker inside the search text; an offset
/// claimed by the model is never trusted.
pub open spec fn parse_patch_spec(patch: Seq<char>, cursor: int) -> Result<
    (int, Seq<char>, Seq<char>),
    Error,
> {
    match find_sub_spec(patch, stoken_spec()) {
        None => Err(Error::PatchFormat(PatchToken::Search)),
        Some(si) => match find_sub_spec(patch, dtoken_spec()) {
            None => Err(Error::PatchFormat(PatchToken::Divide)),
            Some(di) => match find_sub_spec(
                patch.skip(di + dtoken_spec().len()),
                rtoken_spec(),
            ) {
                None => Err(Error::PatchFormat(PatchToken::Replace)),
                Some(ri) => if di < si + stoken_spec().len() {
                    Err(Error::PatchFormat(PatchToken::Divide))
                } else {
                    let search_raw = patch.subrange(si + stoken_spec().len(), di);
                    match find_sub_spec(search_raw, ctoken_spec()) {
                        None => Err(Error::PatchFormat(PatchToken::Cursor)),
                        Some(ci) => {
                            let start = if cursor >= ci {
                                cursor - ci
                            } else {
                                0
                            };
                            let search = remove_all_spec(search_raw, ctoken_spec());
                            let replace_raw = patch.skip(di + dtoken_spec().len()).take(ri);
                            let replace = remove_all_spec(replace_raw, ctoken_spec());
                            Ok((start, search, replace))
                        },
                    }
                },
            },
        },
    }
}

/// An edit list correctly realizes a parsed search/replace pair
/// `t = (start, search, replace)`: some normalized edit list turns the
/// search text into the replacement, and the result is that list shifted
/// to the anchored start and re-sorted by descending start offset, edits
/// with equal starts keeping their order — so a deletion still precedes
/// the insertion that was split from it.
pub open spec fn edits_response_ok(edits: Seq<Edit>, t: (int, Seq<char>, Seq<char>)) -> bool {
    exists|base: Seq<Edit>, sh: Seq<Edit>|
        {
            &&& edits_wf(base, t.1)
            &&& apply_edits_spec(t.1, base) == t.2
            &&& (t.1 == t.2 ==> base.len() == 0)
            &&& #[trigger] shifted_of(sh, base, t.0)
            &&& edits == sort_by_start_desc(sh)
            &&& forall|v: usize| #[trigger] starts_at(edits, v) == starts_at(sh, v)
        }
}

/// `shifted` is `base` with every edit moved `k` characters to the right,
/// into buffer-absolute coordinates.
pub open spec fn shifted_of(shifted: Seq<Edit>, base: Seq<Edit>, k: int) -> bool {
    &&& shifted.len() == base.len()
    &&& forall|i: int|
        0 <= i < base.len() ==> (#[trigger] shifted[i]).start == base[i].start + k && shifted[
            i
        ].end == base[i].end + k && shifted[i].text@ == base[i].text@ && shifted[i].kind
            == base[i].kind
}

/// Inserts `e` after every edit whose start offset is at least `e`'s, the
/// step of a stable insertion sort by descending start offset.
pub open spec fn insert_by_start_desc(e: Edit, s: Seq<Edit>) -> Seq<Edit>
    decreases s.len(),
{
    if s.len() == 0 {
        seq![e]
    } else if s.last().start >= e.start {
        s.push(e)
    } else {
        insert_by_start_desc(e, s.drop_last()).push(s.last())
    }
}

/// The edits sorted by descending start offset; edits with equal starts
/// keep their relative order.
pub open spec fn sort_by_start_desc(s: Seq<Edit>) -> Seq<Edit>
    decreases s.len(),
{
    if s.len() == 0 {
        s
    } else {
        insert_by_start_desc(s.last(), sort_by_start_desc(s.drop_last()))
    }
}

pub open spec fn sorted_by_start_desc(s: Seq<Edit>) -> bool {
    forall|i: int| 0 <= i < s.len() - 1 ==> (#[trigger] s[i].start) >= s[i + 1].start
}

pub proof fn lemma_sorted_start_desc_upto(s: Seq<Edit>, a: int, b: int)
    requires
        sorted_by_start_desc(s),
        0 <= a <= b < s.len(),
    ensures
        s[a].start >= s[b].start,
    decreases b - a,
{
    if a < b {
        lemma_sorted_start_desc_upto(s, a, b - 1);
        assert(s[b - 1].start >= s[b].start);
    }
}

#[verifier::rlimit(50)]
pub proof fn lemma_insert_start_desc_ge(e: Edit, s: Seq<Edit>, b: usize)
    requires
        e.start >= b,
        forall|i: int| 0 <= i < s.len() ==> (#[trigger] s[i].start) >= b,
    ensures
        insert_by_start_desc(e, s).len() == s.len() + 1,
        forall|i: int|
            0 <= i < insert_by_start_desc(e, s).len() ==> (#[trigger] insert_by_start_desc(
                e,
                s,
            )[i].start) >= b,
    decreases s.len(),
{
    if s.len() == 0 {
    } else if s.last().start >= e.start {
        let t = s.push(e);
        assert forall|i: int| 0 <= i < t.len() implies (#[trigger] t[i].start) >= b by {
            if i < s.len() {
                assert(s[i].start >= b);
            }
        }
    } else {
        assert(forall|i: int|
            0 <= i < s.drop_last().len() ==> (#[trigger] s.drop_last()[i]) == s[i]);
        lemma_insert_start_desc_ge(e, s.drop_last(), b);
        let u = insert_by_start_desc(e, s.drop_last());
        let t = u.push(s.last());
        assert forall|i: int| 0 <= i < t.len() implies (#[trigger] t[i].start) >= b by {
            if i < u.len() {
                assert(u[i].start >= b);
            }
        }
    }
}

#[verifier::rlimit(50)]
pub proof fn lemma_insert_start_desc_sorted(e: Edit, s: Seq<Edit>)
    requires
        sorted_by_start_desc(s),
    ensures
        sorted_by_start_desc(insert_by_start_desc(e, s)),
        insert_by_start_desc(e, s).len() == s.len() + 1,
    decreases s.len(),
{
    if s.len() == 0 {
    } else if s.last().start >= e.start {
        let t = s.push(e);
        assert forall|i: int| 0 <= i < t.len() - 1 implies (#[trigger] t[i].start) >= t[i
            + 1].start by {
            if i < s.len() - 1 {
                assert(s[i].start >= s[i + 1].start);
            } else {
                lemma_sorted_start_desc_upto(s, i, s.len() - 1);
            }
        }
    } else {
        assert(sorted_by_start_desc(s.drop_last())) by {
            assert forall|i: int| 0 <= i < s.drop_last().len() - 1 implies (
            #[trigger] s.drop_last()[i].start) >= s.drop_last()[i + 1].start by {
                assert(s[i].start >= s[i + 1].start);
            }
        }
        lemma_insert_start_desc_sorted(e, s.drop_last());
        let u = insert_by_start_desc(e, s.drop_last());
        let t = u.push(s.last());
        assert forall|i: int| 0 <= i < s.drop_last().len() implies (
        #[trigger] s.drop_last()[i].start) >= s.last().start by {
            assert(s.drop_last()[i] == s[i]);
            lemma_sorted_start_desc_upto(s, i, s.len() - 1);
        }
        assert(e.start >= s.last().start);
        lemma_insert_start_desc_ge(e, s.drop_last(), s.last().start);
        assert forall|i: int| 0 <= i < t.len() - 1 implies (#[trigger] t[i].start) >= t[i
            + 1].start by {
            if i < u.len() - 1 {
                assert(u[i].start >= u[i + 1].start);
            } else {
                assert(u[i].start >= s.last().start);
            }
        }
    }
}

pub proof fn lemma_sort_start_desc_sorted(s: Seq<Edit>)
    ensures
        sorted_by_start_desc(sort_by_start_desc(s)),
        sort_by_start_desc(s).len() == s.len(),
    decreases s.len(),
{
    if s.len() > 0 {
        lemma_sort_start_desc_sorted(s.drop_last());
        lemma_insert_start_desc_sorted(s.last(), sort_by_start_desc(s.drop_last()));
    }
}

#[verifier::rlimit(50)]
pub proof fn lemma_insert_start_desc_position(e: Edit, s: Seq<Edit>, j: int)
    requires
        0 <= j <= s.len(),
        forall|i: int| 0 <= i < j ==> (#[trigger] s[i].start) >= e.start,
        forall|i: int| j <= i < s.len() ==> (#[trigger] s[i].start) < e.start,
    ensures
        insert_by_start_desc(e, s) == s.take(j) + seq![e] + s.skip(j),
    decreases s.len(),
{
    if s.len() == 0 {
        assert(s.take(0) =~= Seq::<Edit>::empty());
        assert(s.skip(0) =~= Seq::<Edit>::empty());
        assert(s.take(0) + seq![e] + s.skip(0) =~= seq![e]);
    } else if j == s.len() {
        assert(s.last().start >= e.start);
        assert(s.take(j) =~= s);
        assert(s.skip(j) =~= Seq::<Edit>::empty());
        assert(s.take(j) + seq![e] + s.skip(j) =~= s.push(e));
    } else {
        assert(s.last().start < e.start);
        assert(forall|i: int|
            0 <= i < s.drop_last().len() ==> (#[trigger] s.drop_last()[i]) == s[i]);
        lemma_insert_start_desc_position(e, s.drop_last(), j);
        assert(s.drop_last().take(j) =~= s.take(j));
        assert((s.take(j) + seq![e] + s.drop_last().skip(j)).push(s.last()) =~= s.take(j)
            + seq![e] + s.skip(j));
    }
}

/// The edits of a list that start at offset `v`, in list order.
pub open spec fn starts_at(edits: Seq<Edit>, v: usize) -> Seq<Edit> {
    edits.filter(|x: Edit| x.start == v)
}

/// The stable insertion puts an edit after every edit with the same start
/// offset, so a fixed-start filter sees it appended at the back.
proof fn lemma_insert_desc_filter(e: Edit, s: Seq<Edit>, v: usize)
    ensures
        starts_at(insert_by_start_desc(e, s), v) == if e.start == v {
            starts_at(s, v).push(e)
        } else {
            starts_at(s, v)
        },
    decreases s.len(),
{
    reveal_with_fuel(Seq::filter, 3);
    if s.len() == 0 {
        assert(seq![e].drop_last() =~= Seq::<Edit>::empty());
        assert(seq![e].last() == e);
    } else if s.last().start >= e.start {
        assert(s.push(e).drop_last() =~= s);
        assert(s.push(e).last() == e);
    } else {
        let u = insert_by_start_desc(e, s.drop_last());
        lemma_insert_desc_filter(e, s.drop_last(), v);
        assert(u.push(s.last()).drop_last() =~= u);
        assert(u.push(s.last()).last() == s.last());
        assert(s.last().start < e.start);
    }
}

/// The stable descending sort keeps the relative order of edits with equal
/// start offsets: filtering on any one start gives the same subsequence
/// before and after sorting.
pub proof fn lemma_sort_desc_filter(s: Seq<Edit>, v: usize)
    ensures
        starts_at(sort_by_start_desc(s), v) == starts_at(s, v),
    decreases s.len(),
{
    reveal_with_fuel(Seq::filter, 3);
    if s.len() > 0 {
        lemma_sort_desc_filter(s.drop_last(), v);
        lemma_insert_desc_filter(s.last(), sort_by_start_desc(s.drop_last()), v);
    }
}

/// Stable insertion sort of an edit list by descending start offset, the
/// order in which a caller can apply edits directly against a live buffer.
#[verifier::rlimit(50)]
fn sort_edits_desc(edits: Vec<Edit>) -> (r: Vec<Edit>)
    ensures
        r@ == sort_by_start_desc(edits@),
        sorted_by_start_desc(r@),
        forall|v: usize| #[trigger] starts_at(r@, v) == starts_at(edits@, v),
{
    let ghost orig = edits@;
    let mut sorted: Vec<Edit> = Vec::new();
    let mut i: usize = 0;
    proof {
        assert(orig.take(0) =~= Seq::<Edit>::empty());
    }
    while i < edits.len()
        invariant
            orig == edits@,
            0 <= i <= orig.len(),
            sorted@ == sort_by_start_desc(orig.take(i as int)),
            sorted_by_start_desc(sorted@),
        decreases orig.len() - i,
    {
        let e = edits[i].duplicate();
        let mut j = sorted.len();
        while j > 0 && sorted[j - 1].start < e.start
            invariant
                0 <= j <= sorted@.len(),
                sorted_by_start_desc(sorted@),
                forall|t: int| j <= t < sorted@.len() ==> (#[trigger] sorted@[t].start) < e.start,
            decreases j,
        {
            j = j - 1;
        }
        proof {
            assert forall|t: int| 0 <= t < j implies (#[trigger] sorted@[t].start) >= e.start by {
                assert(sorted@[j - 1].start >= e.start);
                lemma_sorted_start_desc_upto(sorted@, t, j - 1);
            }
            lemma_insert_start_desc_position(e, sorted@, j as int);
            lemma_insert_start_desc_sorted(e, sorted@);
        }
        let ghost before = sorted@;
        sorted.insert(j, e);
        proof {
            assert(sorted@ =~= before.take(j as int) + seq![e] + before.skip(j as int));
            assert(orig.take(i + 1).drop_last() =~= orig.take(i as int));
            assert(orig.take(i + 1).last() == orig[i as int]);
            assert(sorted@ == sort_by_start_desc(orig.take(i + 1)));
        }
        i = i + 1;
    }
    proof {
        assert(orig.take(orig.len() as int) =~= orig);
        assert forall|v: usize| #[trigger] starts_at(sorted@, v) == starts_at(orig, v) by {
            lemma_sort_desc_filter(orig, v);
        }
    }
    sorted
}

impl Coder {
    /// Builds the excerpt of `original` around the cursor described by
    /// [`context_spec`]: the cursor marker inserted, a window of
    /// `context_lines` lines on each side selected (with end-of-file
    /// deficits given to the other side), and the excerpt's absolute start
    /// offset recovered from the marker.
    #[verifier::rlimit(50)]
    pub fn build_context(&self, original: &str, cursor: usize, context_lines: usize) -> (r:
        Result<(String, usize), Error>)
        requires
            cursor <= original@.len(),
            original@.len() + ctoken_spec().len() + 2 * context_lines <= usize::MAX,
        ensures
            match r {
                Ok(p) => context_spec(original@, cursor as int, context_lines as int) == Some(
                    (p.0@, p.1 as int),
                ),
                Err(e) => context_spec(original@, cursor as int, context_lines as int) is None
                    && e == Error::ContextLost,
            },
    {
        let olen = original.unicode_len();
        let prefix = original.substring_char(0, cursor);
        let suffix = original.substring_char(cursor, olen);
        let mut marked = prefix.to_owned();
        marked.append(ctoken());
        marked.append(suffix);
        proof {
            crate::prompts::lemma_ctoken_nonempty();
            assert(prefix@ =~= original@.take(cursor as int));
            assert(suffix@ =~= original@.skip(cursor as int));
        }
        let ghost gm = original@.take(cursor as int) + ctoken_spec() + original@.skip(
            cursor as int,
        );
        proof {
            assert(marked@ == gm);
            lemma_lines_count(gm);
        }
        let lines = split_lines(marked.as_str());
        let ghost gl = lines_spec(gm);
        proof {
            assert(lines@.map_values(|x: String| x@) == gl);
            assert(lines@.len() == gl.len());
            assert(gm.len() > 0);
            assert(gl.len() >= 1);
        }
        let nl = count_char_upto(original, '\n', cursor);
        let max_row = lines.len() - 1;
        let cl = if nl <= max_row {
            nl
        } else {
            max_row
        };
        let mut before = context_lines;
        let mut after = context_lines;
        if cl < context_lines {
            after = after + (context_lines - cl);
        } else if cl + context_lines > max_row {
            before = before + (cl + context_lines) - max_row;
        }
        let start_line = if cl >= before {
            cl - before
        } else {
            0
        };
        let end_line = if cl + after <= max_row {
            cl + after
        } else {
            max_row
        };
        let excerpt = join_lines(&lines, start_line, end_line + 1);
        proof {
            assert(lines@.subrange(start_line as int, end_line + 1).map_values(|x: String| x@)
                =~= gl.subrange(start_line as int, end_line + 1));
        }
        match find_sub(excerpt.as_str(), ctoken()) {
            Some(rel) => {
                let s = if cursor >= rel {
                    cursor - rel
                } else {
                    0
                };
                Ok((excerpt, s))
            },
            None => Err(Error::ContextLost),
        }
    }

    /// Decodes a token-delimited model response into the located
    /// search/replace pair described by [`parse_patch_spec`].  A missing
    /// marker is a hard parse failure naming that marker; nothing of the
    /// response is trusted for absolute positions.
    #[verifier::rlimit(50)]
    pub fn parse_patch(&self, patch: &str, cursor: usize) -> (r: Result<
        (usize, String, String),
        Error,
    >)
        ensures
            match r {
                Ok(t) => parse_patch_spec(patch@, cursor as int) == Ok::<
                    (int, Seq<char>, Seq<char>),
                    Error,
                >((t.0 as int, t.1@, t.2@)),
                Err(e) => parse_patch_spec(patch@, cursor as int) == Err::<
                    (int, Seq<char>, Seq<char>),
                    Error,
                >(e),
            },
    {
        proof {
            reveal_strlit("<|SEARCH|>");
            reveal_strlit("<|DIVIDE|>");
            reveal_strlit("<|REPLACE|>");
            reveal_strlit("<|cursor|>");
        }
        let plen = patch.unicode_len();
        let si = match find_sub(patch, stoken()) {
            None => {
                return Err(Error::PatchFormat(PatchToken::Search));
            },
            Some(i) => i,
        };
        let di = match find_sub(patch, dtoken()) {
            None => {
                return Err(Error::PatchFormat(PatchToken::Divide));
            },
            Some(i) => i,
        };
        proof {
            lemma_find_from_props(patch@, stoken_spec(), 0);
            lemma_find_from_props(patch@, dtoken_spec(), 0);
        }
        let dto_len = dtoken().unicode_len();
        let tail = patch.substring_char(di + dto_len, plen);
        proof {
            assert(tail@ =~= patch@.skip(di + dtoken_spec().len()));
        }
        let ri = match find_sub(tail, rtoken()) {
            None => {
                return Err(Error::PatchFormat(PatchToken::Replace));
            },
            Some(i) => i,
        };
        let sto_len = stoken().unicode_len();
        if di < si + sto_len {
            return Err(Error::PatchFormat(PatchToken::Divide));
        }
        let search_raw = patch.substring_char(si + sto_len, di);
        proof {
            assert(search_raw@ =~= patch@.subrange(si + stoken_spec().len(), di as int));
        }
        let ci = match find_sub(search_raw, ctoken()) {
            None => {
                return Err(Error::PatchFormat(PatchToken::Cursor));
            },
            Some(i) => i,
        };
        let start = if cursor >= ci {
            cursor - ci
        } else {
            0
        };
        let search = remove_all(search_raw, ctoken());
        proof {
            lemma_find_from_props(tail@, rtoken_spec(), 0);
        }
        let replace_raw = tail.substring_char(0, ri);
        proof {
            assert(replace_raw@ =~= patch@.skip(di + dtoken_spec().len()).take(ri as int));
        }
        let replace = remove_all(replace_raw, ctoken());
        Ok((start, search, replace))
    }

    /// Turns a raw model response into a buffer-absolute edit list: the
    /// response is parsed into a located search/replace pair, the diff
    /// engine computes the normalized edits between the two, every edit is
    /// shifted to the pair's anchored start, and the list is sorted by
    /// descending start offset so a caller can apply it directly against
    /// the live buffer.
    #[verifier::rlimit(50)]
    pub fn edits_from_response(&self, response: &str, cursor: usize) -> (r: Result<
        Vec<Edit>,
        Error,
    >)
        requires
            cursor + response@.len() <= usize::MAX,
        ensures
            r is Ok ==> parse_patch_spec(response@, cursor as int) is Ok,
            r is Ok ==> sorted_by_start_desc(r->Ok_0@),
            r is Ok ==> edits_response_ok(
                r->Ok_0@,
                parse_patch_spec(response@, cursor as int)->Ok_0,
            ),
            r is Err ==> parse_patch_spec(response@, cursor as int) == Err::<
                (int, Seq<char>, Seq<char>),
                Error,
            >(r->Err_0),
    {
        let parsed = match self.parse_patch(response, cursor) {
            Err(e) => {
                return Err(e);
            },
            Ok(t) => t,
        };
        let start = parsed.0;
        let search = parsed.1;
        let replace = parsed.2;
        let base = compute_text_edits(search.as_str(), replace.as_str());
        proof {
            // the anchored start plus any edit offset stays within the
            // machine's range: the start never exceeds the cursor and the
            // search text is part of the response
            lemma_find_from_props(response@, stoken_spec(), 0);
            lemma_find_from_props(response@, dtoken_spec(), 0);
            let fs = find_sub_spec(response@, stoken_spec()).unwrap();
            let fd = find_sub_spec(response@, dtoken_spec()).unwrap();
            assert(fd + dtoken_spec().len() <= response@.len());
            assert(0 <= fs);
            assert(fs + stoken_spec().len() <= fd);
            let raw = response@.subrange(fs + stoken_spec().len(), fd);
            assert(raw.len() == fd - fs - stoken_spec().len());
            lemma_remove_all_len(raw, ctoken_spec());
            assert(search@ == remove_all_spec(raw, ctoken_spec()));
            assert(search@.len() <= response@.len());
            assert(find_sub_spec(raw, ctoken_spec()) is Some);
            let ci = find_sub_spec(raw, ctoken_spec()).unwrap();
            assert(start as int == if cursor as int >= ci {
                cursor - ci
            } else {
                0
            });
            lemma_find_from_props(raw, ctoken_spec(), 0);
            assert(start <= cursor);
        }
        let mut shifted: Vec<Edit> = Vec::new();
        let mut i: usize = 0;
        while i < base.len()
            invariant
                0 <= i <= base@.len(),
                start + search@.len() <= usize::MAX,
                edits_wf(base@, search@),
                shifted@.len() == i,
                forall|t: int|
                    0 <= t < i ==> (#[trigger] shifted@[t]).start == base@[t].start + start
                        && shifted@[t].end == base@[t].end + start && shifted@[t].text@
                        == base@[t].text@ && shifted@[t].kind == base@[t].kind,
            decreases base@.len() - i,
        {
            let e = &base[i];
            let e2 = Edit {
                start: e.start + start,
                end: e.end + start,
                text: e.text.clone(),
                kind: e.kind,
            };
            shifted.push(e2);
            i = i + 1;
        }
        let ghost sh = shifted@;
        let sorted = sort_edits_desc(shifted);
        proof {
            let t = (start as int, search@, replace@);
            assert(parse_patch_spec(response@, cursor as int) == Ok::<
                (int, Seq<char>, Seq<char>),
                Error,
            >(t));
            assert(edits_wf(base@, t.1));
            assert(apply_edits_spec(t.1, base@) == t.2);
            assert(t.1 == t.2 ==> base@.len() == 0);
            assert(shifted_of(sh, base@, t.0));
            assert(sorted@ == sort_by_start_desc(sh));
            assert(edits_response_ok(sorted@, t)) by {
                assert(exists|base2: Seq<Edit>, sh2: Seq<Edit>|
                    {
                        &&& edits_wf(base2, t.1)
                        &&& apply_edits_spec(t.1, base2) == t.2
                        &&& (t.1 == t.2 ==> base2.len() == 0)
                        &&& #[trigger] shifted_of(sh2, base2, t.0)
                        &&& sorted@ == sort_by_start_desc(sh2)
                        &&& forall|v: usize| #[trigger] starts_at(sorted@, v) == starts_at(
                            sh2,
                            v,
                        )
                    });
            }
        }
        Ok(sorted)
    }

    /// Assembles what one autocomplete request sends to the language
    /// model: the tight excerpt (three lines each side), the broad excerpt
    /// (a thousand lines each side), and the labelled summaries of the
    /// three most recently modified files.  A cursor beyond the end of the
    /// buffer is a recoverable offset error; a lost cursor marker is a
    /// lost context.
    pub fn autocomplete_request(&self, content: &str, cursor: usize) -> (r: Result<
        (String, String, String),
        Error,
    >)
        requires
            content@.len() + ctoken_spec().len() + 2000 <= usize::MAX,
        ensures
            match r {
                Ok(t) => {
                    &&& cursor <= content@.len()
                    &&& (context_spec(content@, cursor as int, 3) matches Some(small) && t.0@
                        == small.0)
                    &&& (context_spec(content@, cursor as int, 1000) matches Some(big) && t.1@
                        == big.0)
                    &&& t.2@ == files_summary(
                        self.entries(),
                        ranked_paths_take(self.entries(), 3),
                    )
                },
                Err(e) => {
                    ||| (cursor > content@.len() && e == Error::OffsetOutOfBounds)
                    ||| (cursor <= content@.len() && e == Error::ContextLost && (context_spec(
                        content@,
                        cursor as int,
                        3,
                    ) is None || context_spec(content@, cursor as int, 1000) is None))
                },
            },
    {
        let clen = content.unicode_len();
        if cursor > clen {
            return Err(Error::OffsetOutOfBounds);
        }
        let small = match self.build_context(content, cursor, 3) {
            Err(e) => {
                return Err(e);
            },
            Ok(p) => p,
        };
        let big = match self.build_context(content, cursor, 1000) {
            Err(e) => {
                return Err(e);
            },
            Ok(p) => p,
        };
        let summary = self.summarize_recent_edits_for_last_files(3);
        Ok((small.0, big.0, summary))
    }
}

} // verus!
