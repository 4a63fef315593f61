//! Per-file bounded history of content snapshots, capped by age and count,
//! oldest evicted first, with a line-diff summary of the retained drift.
//!
//! Wall-clock readings come from a trusted wrapper around `std::time`;
//! every eviction decision is made by verified code that takes the reading
//! as an argument, so it is verified for every possible clock value.

use vstd::prelude::*;
use crate::diff::{diff_without_unchanged, line_diff_of, marked_of};

verus! {

/// One observed state of a file's content.
#[derive(Debug)]
pub struct Snapshot {
    pub timestamp: u64,
    pub content: String,
}

/// The mathematical image of a snapshot: its timestamp and content.
pub open spec fn snap_model(s: Snapshot) -> (u64, Seq<char>) {
    (s.timestamp, s.content@)
}

/// The mathematical image of a snapshot list.
pub open spec fn snaps_model(snaps: Seq<Snapshot>) -> Seq<(u64, Seq<char>)> {
    snaps.map_values(|s: Snapshot| snap_model(s))
}

/// Whether a snapshot stamped `ts` still falls within the retention window
/// at time `now`; a stamp in the future counts as fresh.
pub open spec fn live_at(p: (u64, Seq<char>), now: u64, max_age: u64) -> bool {
    now < p.0 || now - p.0 <= max_age
}

/// The snapshots that survive the age filter, order kept.
pub open spec fn live_model(m: Seq<(u64, Seq<char>)>, now: u64, max_age: u64) -> Seq<
    (u64, Seq<char>),
>
    decreases m.len(),
{
    if m.len() == 0 {
        Seq::empty()
    } else {
        live_model(m.drop_last(), now, max_age) + if live_at(m.last(), now, max_age) {
            seq![m.last()]
        } else {
            Seq::empty()
        }
    }
}

/// The newest `max_versions` snapshots; older ones are dropped from the
/// front.
pub open spec fn capped_model(m: Seq<(u64, Seq<char>)>, max_versions: int) -> Seq<
    (u64, Seq<char>),
> {
    if m.len() <= max_versions {
        m
    } else {
        m.skip(m.len() - max_versions)
    }
}

/// The content of the newest snapshot; empty when there is none.
pub open spec fn latest_of(m: Seq<(u64, Seq<char>)>) -> Seq<char> {
    if m.len() > 0 {
        m.last().1
    } else {
        Seq::empty()
    }
}

/// What one update does to a snapshot list: nothing when the content
/// equals the newest snapshot's; otherwise the new content is appended
/// with stamp `now` and the age and count caps are enforced.
pub open spec fn tracker_update_model(
    m: Seq<(u64, Seq<char>)>,
    content: Seq<char>,
    now: u64,
    max_age: u64,
    max_versions: int,
) -> Seq<(u64, Seq<char>)> {
    if latest_of(m) == content {
        m
    } else {
        capped_model(live_model(m.push((now, content)), now, max_age), max_versions)
    }
}

proof fn lemma_live_model_take_step(m: Seq<(u64, Seq<char>)>, k: int, now: u64, max_age: u64)
    requires
        0 <= k < m.len(),
    ensures
        live_model(m.take(k + 1), now, max_age) == live_model(m.take(k), now, max_age) + if live_at(
            m[k],
            now,
            max_age,
        ) {
            seq![m[k]]
        } else {
            Seq::empty()
        },
{
    assert(m.take(k + 1).drop_last() =~= m.take(k));
    assert(m.take(k + 1).last() == m[k]);
}

/// Relies on `std::time::SystemTime::now` and `duration_since`: the system
/// clock's milliseconds since the Unix epoch, or zero before it.  Nothing
/// is promised of the value.
#[verifier::external_body]
pub(crate) fn now_millis() -> u64 {
    match std::time::SystemTime::now().duration_since(std::time::UNIX_EPOCH) {
        Ok(d) => d.as_millis() as u64,
        Err(_) => 0,
    }
}

/// Bounded history of one file's snapshots, newest last.
pub struct Tracker {
    snapshots: Vec<Snapshot>,
    max_age: u64,
    max_versions: usize,
}

impl Tracker {
    /// The retention window in milliseconds.
    pub closed spec fn spec_max_age(self) -> u64 {
        self.max_age
    }

    /// The count cap.
    pub closed spec fn spec_max_versions(self) -> int {
        self.max_versions as int
    }

    /// The mathematical image of the history.
    pub closed spec fn model(self) -> Seq<(u64, Seq<char>)> {
        snaps_model(self.snapshots@)
    }

    /// The history never exceeds its count cap.
    pub closed spec fn wf(self) -> bool {
        self.snapshots@.len() <= self.max_versions
    }

    /// Seeds the history with one snapshot of the given content, stamped
    /// with the current clock; the caps are 30 minutes and 50 versions.
    pub fn new(initial: String) -> (r: Tracker)
        ensures
            r.wf(),
            r.spec_max_age() == 1800000u64,
            r.spec_max_versions() == 50,
            r.model().len() == 1,
            r.model()[0].1 == initial@,
    {
        let now = now_millis();
        let mut snapshots: Vec<Snapshot> = Vec::new();
        snapshots.push(Snapshot { timestamp: now, content: initial });
        let r = Tracker { snapshots, max_age: 1800000, max_versions: 50 };
        proof {
            assert(r.model() =~= seq![(now, r.snapshots@[0].content@)]);
        }
        r
    }

    /// The newest snapshot's content, or the empty string.
    pub fn latest(&self) -> (r: String)
        ensures
            r@ == latest_of(self.model()),
    {
        if self.snapshots.len() > 0 {
            let r = self.snapshots[self.snapshots.len() - 1].content.clone();
            proof {
                assert(self.model().last() == snap_model(self.snapshots@.last()));
            }
            r
        } else {
            String::new()
        }
    }

    /// The oldest retained snapshot's content, if any.
    pub fn oldest(&self) -> (r: Option<String>)
        ensures
            match r {
                Some(s) => self.model().len() > 0 && s@ == self.model()[0].1,
                None => self.model().len() == 0,
            },
    {
        if self.snapshots.len() > 0 {
            Some(self.snapshots[0].content.clone())
        } else {
            None
        }
    }

    /// Read access to the retained snapshots, oldest first.
    pub fn snapshots(&self) -> (r: &Vec<Snapshot>)
        ensures
            snaps_model(r@) == self.model(),
    {
        &self.snapshots
    }

    /// Drops snapshots older than the retention window, then drops the
    /// oldest until the count cap holds, judging age against `now`.
    pub fn cleanup_at(&mut self, now: u64)
        ensures
            final(self).model() == capped_model(
                live_model(old(self).model(), now, old(self).spec_max_age()),
                old(self).spec_max_versions(),
            ),
            final(self).spec_max_age() == old(self).spec_max_age(),
            final(self).spec_max_versions() == old(self).spec_max_versions(),
            final(self).wf(),
    {
        let ghost m = self.model();
        let ghost age = self.max_age;
        let mut kept: Vec<Snapshot> = Vec::new();
        let mut i: usize = 0;
        proof {
            assert(m.take(0) =~= Seq::<(u64, Seq<char>)>::empty());
            assert(snaps_model(kept@) =~= Seq::<(u64, Seq<char>)>::empty());
        }
        while i < self.snapshots.len()
            invariant
                m == snaps_model(self.snapshots@),
                age == self.max_age,
                0 <= i <= self.snapshots@.len(),
                m.len() == self.snapshots@.len(),
                snaps_model(kept@) == live_model(m.take(i as int), now, age),
            decreases self.snapshots@.len() - i,
        {
            let s = &self.snapshots[i];
            proof {
                lemma_live_model_take_step(m, i as int, now, age);
                assert(m[i as int] == snap_model(self.snapshots@[i as int]));
            }
            let is_live = now < s.timestamp || now - s.timestamp <= self.max_age;
            let ghost prev_kept = kept@;
            if is_live {
                kept.push(Snapshot { timestamp: s.timestamp, content: s.content.clone() });
                proof {
                    assert(snaps_model(kept@) =~= snaps_model(prev_kept).push(m[i as int]));
                    assert(snaps_model(prev_kept).push(m[i as int]) =~= snaps_model(prev_kept)
                        + seq![m[i as int]]);
                }
            } else {
                proof {
                    assert(snaps_model(kept@) + Seq::<(u64, Seq<char>)>::empty() =~= snaps_model(
                        kept@,
                    ));
                }
            }
            i = i + 1;
        }
        proof {
            assert(m.take(m.len() as int) =~= m);
        }
        let ghost live = live_model(m, now, age);
        if kept.len() > self.max_versions {
            let excess = kept.len() - self.max_versions;
            let mut trimmed: Vec<Snapshot> = Vec::new();
            let mut j: usize = excess;
            proof {
                assert(snaps_model(trimmed@) =~= live.skip(excess as int).take(0));
            }
            while j < kept.len()
                invariant
                    live == snaps_model(kept@),
                    excess == kept@.len() - self.max_versions,
                    0 < excess <= j <= kept@.len(),
                    live.len() == kept@.len(),
                    snaps_model(trimmed@) == live.skip(excess as int).take(j - excess),
                decreases kept@.len() - j,
            {
                let s = &kept[j];
                let ghost prev = trimmed@;
                trimmed.push(Snapshot { timestamp: s.timestamp, content: s.content.clone() });
                proof {
                    assert(snaps_model(trimmed@) =~= snaps_model(prev).push(live[j as int]));
                    assert(live.skip(excess as int).take(j + 1 - excess) =~= live.skip(
                        excess as int,
                    ).take(j - excess).push(live[j as int]));
                }
                j = j + 1;
            }
            proof {
                assert(live.skip(excess as int).take(kept@.len() - excess) =~= live.skip(
                    excess as int,
                ));
            }
            self.snapshots = trimmed;
        } else {
            self.snapshots = kept;
            proof {
                assert(capped_model(live, self.max_versions as int) == live);
            }
        }
    }

    /// Drops stale and excess snapshots, judging age against the clock.
    pub fn cleanup(&mut self)
        ensures
            exists|now: u64|
                final(self).model() == capped_model(
                    live_model(old(self).model(), now, old(self).spec_max_age()),
                    old(self).spec_max_versions(),
                ),
            final(self).spec_max_age() == old(self).spec_max_age(),
            final(self).spec_max_versions() == old(self).spec_max_versions(),
            final(self).wf(),
    {
        let now = now_millis();
        self.cleanup_at(now);
    }

    /// Records the content if it differs from the newest snapshot, stamped
    /// `now`, and then enforces the retention caps against `now`.
    pub fn update_at(&mut self, new_content: String, now: u64)
        ensures
            final(self).model() == tracker_update_model(
                old(self).model(),
                new_content@,
                now,
                old(self).spec_max_age(),
                old(self).spec_max_versions(),
            ),
            final(self).spec_max_age() == old(self).spec_max_age(),
            final(self).spec_max_versions() == old(self).spec_max_versions(),
            latest_of(old(self).model()) == new_content@ ==> final(self).model() == old(
                self,
            ).model(),
            old(self).wf() ==> final(self).wf(),
    {
        let same = {
            let l = self.latest();
            l == new_content
        };
        if same {
            return ;
        }
        let ghost m = self.model();
        self.snapshots.push(Snapshot { timestamp: now, content: new_content });
        proof {
            assert(self.model() =~= m.push((now, self.snapshots@.last().content@)));
        }
        self.cleanup_at(now);
    }

    /// Records the content if it differs from the newest snapshot, stamped
    /// with the current clock, and then enforces the retention caps.
    pub fn update(&mut self, new_content: String)
        ensures
            exists|now: u64|
                final(self).model() == tracker_update_model(
                    old(self).model(),
                    new_content@,
                    now,
                    old(self).spec_max_age(),
                    old(self).spec_max_versions(),
                ),
            final(self).spec_max_age() == old(self).spec_max_age(),
            final(self).spec_max_versions() == old(self).spec_max_versions(),
            latest_of(old(self).model()) == new_content@ ==> final(self).model() == old(
                self,
            ).model(),
            old(self).wf() ==> final(self).wf(),
    {
        let now = now_millis();
        self.update_at(new_content, now);
    }

    /// The cumulative drift of the retained history: the line-diff
    /// rendering between the oldest and newest snapshots, empty when the
    /// history is empty or shows no textual difference.
    pub fn summarize_recent_edits(&self) -> (r: String)
        ensures
            self.model().len() > 0 ==> r@ == marked_of(
                line_diff_of(self.model()[0].1, self.model().last().1),
            ),
            self.model().len() == 0 ==> r@.len() == 0,
            self.model().len() > 0 && self.model()[0].1 == self.model().last().1 ==> r@.len()
                == 0,
    {
        if self.snapshots.len() > 0 {
            let first = &self.snapshots[0];
            let last = &self.snapshots[self.snapshots.len() - 1];
            proof {
                assert(self.model()[0] == snap_model(self.snapshots@[0]));
                assert(self.model().last() == snap_model(self.snapshots@.last()));
            }
            diff_without_unchanged(first.content.as_str(), last.content.as_str())
        } else {
            String::new()
        }
    }
}


/// The stamped snapshot pairs of an update run: content `i` carries
/// stamp `i`.
pub open spec fn stamped(stamps: Seq<u64>, contents: Seq<Seq<char>>) -> Seq<(u64, Seq<char>)> {
    Seq::new(contents.len(), |i: int| (stamps[i], contents[i]))
}

/// The history after a run of updates: content `i` recorded at clock
/// reading `stamps[i]`, in order.
pub open spec fn tracker_update_run(
    m: Seq<(u64, Seq<char>)>,
    contents: Seq<Seq<char>>,
    stamps: Seq<u64>,
    max_age: u64,
    max_versions: int,
) -> Seq<(u64, Seq<char>)>
    decreases contents.len(),
{
    if contents.len() == 0 {
        m
    } else {
        tracker_update_run(
            tracker_update_model(m, contents[0], stamps[0], max_age, max_versions),
            contents.drop_first(),
            stamps.drop_first(),
            max_age,
            max_versions,
        )
    }
}

/// The age filter keeps a history whose snapshots are all live.
proof fn lemma_live_model_all_live(m: Seq<(u64, Seq<char>)>, now: u64, max_age: u64)
    requires
        forall|i: int| 0 <= i < m.len() ==> live_at(#[trigger] m[i], now, max_age),
    ensures
        live_model(m, now, max_age) == m,
    decreases m.len(),
{
    if m.len() > 0 {
        assert(forall|i: int| 0 <= i < m.drop_last().len() ==> #[trigger] m.drop_last()[i] == m[i]);
        lemma_live_model_all_live(m.drop_last(), now, max_age);
        assert(live_at(m.last(), now, max_age));
        assert(m.drop_last() + seq![m.last()] =~= m);
    }
}

/// Capping the front part of a history and then capping the whole is the
/// same as capping the whole once: the count cap only ever drops from the
/// front.
proof fn lemma_capped_absorb(a: Seq<(u64, Seq<char>)>, b: Seq<(u64, Seq<char>)>, max_versions: int)
    requires
        max_versions >= 1,
    ensures
        capped_model(capped_model(a, max_versions) + b, max_versions) == capped_model(
            a + b,
            max_versions,
        ),
{
    if a.len() <= max_versions {
    } else {
        let d = a.len() - max_versions;
        let ap = a.skip(d);
        assert(capped_model(a, max_versions) == ap);
        assert(ap + b =~= (a + b).skip(d));
        let total = a.len() + b.len();
        if ap.len() + b.len() <= max_versions {
            assert(b.len() == 0);
            assert(capped_model(ap + b, max_versions) == ap + b);
            assert(a + b =~= a);
            assert(capped_model(a + b, max_versions) =~= ap + b);
        } else {
            assert(capped_model(ap + b, max_versions) == (ap + b).skip(
                ap.len() + b.len() - max_versions,
            ));
            assert(capped_model(a + b, max_versions) == (a + b).skip(total - max_versions));
            assert((ap + b).skip(ap.len() + b.len() - max_versions) =~= (a + b).skip(
                total - max_versions,
            ));
        }
    }
}

/// The eviction law: a run of updates whose contents each differ from the
/// history's newest content, and whose snapshots all stay within the
/// retention window, leaves exactly the newest `max_versions` of the
/// original history followed by the stamped run, oldest evicted first.
/// In particular, a freshly seeded tracker updated `n` times with
/// pairwise-adjacent-distinct contents retains the last
/// `min(n + 1, max_versions)` snapshots of seed-then-updates, in order.
pub proof fn lemma_tracker_update_run(
    m0: Seq<(u64, Seq<char>)>,
    contents: Seq<Seq<char>>,
    stamps: Seq<u64>,
    max_age: u64,
    max_versions: int,
)
    requires
        max_versions >= 1,
        m0.len() <= max_versions,
        stamps.len() == contents.len(),
        contents.len() > 0 ==> contents[0] != latest_of(m0),
        forall|i: int| 0 <= i < contents.len() - 1 ==> #[trigger] contents[i + 1] != contents[i],
        forall|i: int, j: int|
            0 <= i < m0.len() && 0 <= j < stamps.len() ==> live_at(
                #[trigger] m0[i],
                #[trigger] stamps[j],
                max_age,
            ),
        forall|i: int, j: int|
            0 <= i <= j < stamps.len() ==> #[trigger] live_at(
                (stamps[i], contents[i]),
                stamps[j],
                max_age,
            ),
    ensures
        tracker_update_run(m0, contents, stamps, max_age, max_versions) == capped_model(
            m0 + stamped(stamps, contents),
            max_versions,
        ),
        tracker_update_run(m0, contents, stamps, max_age, max_versions).len() == if m0.len()
            + contents.len() <= max_versions {
            (m0.len() + contents.len()) as int
        } else {
            max_versions as int
        },
    decreases contents.len(),
{
    if contents.len() == 0 {
        assert(m0 + stamped(stamps, contents) =~= m0);
    } else {
        let p0 = (stamps[0], contents[0]);
        let pushed = m0.push(p0);
        assert(latest_of(m0) != contents[0]);
        assert(forall|i: int| 0 <= i < pushed.len() - 1 ==> #[trigger] pushed[i] == m0[i]);
        assert(pushed.last() == p0);
        assert forall|i: int| 0 <= i < pushed.len() implies live_at(
            #[trigger] pushed[i],
            stamps[0],
            max_age,
        ) by {
            if i < m0.len() {
                assert(live_at(m0[i], stamps[0], max_age));
            } else {
                assert(live_at((stamps[0], contents[0]), stamps[0], max_age));
            }
        }
        lemma_live_model_all_live(pushed, stamps[0], max_age);
        let m1 = capped_model(pushed, max_versions);
        assert(tracker_update_model(m0, contents[0], stamps[0], max_age, max_versions) == m1);
        let d = if pushed.len() <= max_versions {
            0int
        } else {
            pushed.len() - max_versions
        };
        assert(m1 =~= pushed.skip(d));
        assert(d < pushed.len());
        assert(m1.len() >= 1);
        assert(m1.last() == pushed.last());
        let contents1 = contents.drop_first();
        let stamps1 = stamps.drop_first();
        assert(forall|i: int| 0 <= i < contents1.len() ==> #[trigger] contents1[i] == contents[i
            + 1]);
        assert(forall|i: int| 0 <= i < stamps1.len() ==> #[trigger] stamps1[i] == stamps[i + 1]);
        assert(contents1.len() > 0 ==> contents1[0] != latest_of(m1));
        assert forall|i: int, j: int|
            0 <= i < m1.len() && 0 <= j < stamps1.len() implies live_at(
            #[trigger] m1[i],
            #[trigger] stamps1[j],
            max_age,
        ) by {
            assert(m1[i] == pushed[i + d]);
            if i + d < m0.len() {
                assert(live_at(m0[i + d], stamps[j + 1], max_age));
            } else {
                assert(pushed[i + d] == p0);
                assert(live_at((stamps[0], contents[0]), stamps[j + 1], max_age));
            }
        }
        assert forall|i: int, j: int| 0 <= i <= j < stamps1.len() implies #[trigger] live_at(
            (stamps1[i], contents1[i]),
            stamps1[j],
            max_age,
        ) by {
            assert(live_at((stamps[i + 1], contents[i + 1]), stamps[j + 1], max_age));
        }
        lemma_tracker_update_run(m1, contents1, stamps1, max_age, max_versions);
        lemma_capped_absorb(pushed, stamped(stamps1, contents1), max_versions);
        assert(pushed + stamped(stamps1, contents1) =~= m0 + stamped(stamps, contents));
    }
}

} // verus!
