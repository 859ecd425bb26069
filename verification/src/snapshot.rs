//! Snapshots of the process table.
//!
//! A snapshot holds, per visible process, its own accumulated scheduler
//! ticks and the tree-cumulated ticks of its already-reaped descendants,
//! together with the parent forest. Snapshots are built from plain stat
//! records; the caller enumerates the process table and hands the records
//! over.

use vstd::prelude::*;

use crate::engine::{get_cumulated, lemma_cumulated_abs, spec_cumulated, sum_abs};
use crate::forest::{in_subtree, walk_steps_spec, Forest};
use crate::pidmap::PidMap;
use crate::sums::{lemma_sum_congruence, sum_contrib};

verus! {

/// One process's tick counters inside a finalised snapshot.
#[derive(Clone, Copy, Debug)]
pub struct PidSample {
    /// Ticks the process itself has executed since creation (user plus
    /// kernel time).
    pub total_self_ticks: u64,
    /// Ticks of all the process's already-reaped descendants, cumulated
    /// over the subtree visible in this snapshot.
    pub reaped_subtree_ticks: i64,
}

/// One raw stat record, as read from the process table.
#[derive(Clone, Copy, Debug)]
pub struct ProcRecord {
    pub pid: i32,
    /// Parent pid; zero means the kernel root.
    pub ppid: i32,
    /// Own user-time ticks since creation.
    pub utime: u64,
    /// Own kernel-time ticks since creation.
    pub stime: u64,
    /// User-time ticks of reaped children, as the kernel accumulates them.
    pub cutime: i64,
    /// Kernel-time ticks of reaped children.
    pub cstime: i64,
}

/// Bound on the total self ticks of a snapshot and on each cumulated
/// reaped-descendants count; keeps every tree delta inside `i64`.
pub open spec fn tick_cap() -> int {
    0x1000_0000_0000_0000
}

pub struct Snapshot {
    /// Monotone clock in scheduler ticks since boot, taken with the
    /// snapshot.
    pub taken_at_ticks: u64,
    pub samples: PidMap<PidSample>,
    pub forest: Forest,
}

impl Snapshot {
    /// Total self ticks over all processes of the snapshot.
    pub open spec fn sum_self(self) -> int {
        sum_contrib(
            self.samples.keys(),
            |d: i32| self.samples@[d].total_self_ticks as int,
        )
    }

    pub open spec fn wf(self) -> bool {
        &&& self.samples.wf()
        &&& self.forest.wf()
        &&& forall|d: i32| #[trigger]
            self.forest@.contains_key(d) ==> self.samples@.contains_key(d)
                && self.samples@.contains_key(self.forest@[d]) && self.forest@[d] != d
        &&& self.sum_self() <= tick_cap()
        &&& forall|d: i32| #[trigger]
            self.samples@.contains_key(d) ==> -tick_cap() <= self.samples@[d].reaped_subtree_ticks
                <= tick_cap()
    }
}

pub open spec fn rec_self(r: ProcRecord) -> int {
    r.utime + r.stime
}

pub open spec fn rec_reaped(r: ProcRecord) -> int {
    r.cutime + r.cstime
}

/// The records by pid; when a pid occurs twice, the first record wins.
pub open spec fn first_map(records: Seq<ProcRecord>) -> Map<i32, ProcRecord>
    decreases records.len(),
{
    if records.len() == 0 {
        Map::empty()
    } else {
        let m = first_map(records.drop_last());
        if m.contains_key(records.last().pid) {
            m
        } else {
            m.insert(records.last().pid, records.last())
        }
    }
}

/// Parent links among the recorded pids: a recorded parent other than the
/// kernel root and the process itself.
pub open spec fn parent_map_of(m: Map<i32, ProcRecord>) -> Map<i32, i32> {
    Map::new(
        |p: i32| m.contains_key(p) && m[p].ppid != 0 && m[p].ppid != p && m.contains_key(m[p].ppid),
        |p: i32| m[p].ppid,
    )
}

/// Total self ticks over the distinct pids of a record sequence, the
/// first record of each pid counting.
pub open spec fn dedup_sum_self(records: Seq<ProcRecord>) -> int
    decreases records.len(),
{
    if records.len() == 0 {
        0
    } else {
        dedup_sum_self(records.drop_last()) + (if first_map(records.drop_last()).contains_key(
            records.last().pid,
        ) {
            0
        } else {
            rec_self(records.last())
        })
    }
}

/// Total magnitude of the raw reaped-children ticks over the distinct
/// pids of a record sequence.
pub open spec fn dedup_sum_reaped_abs(records: Seq<ProcRecord>) -> int
    decreases records.len(),
{
    if records.len() == 0 {
        0
    } else {
        dedup_sum_reaped_abs(records.drop_last()) + (if first_map(
            records.drop_last(),
        ).contains_key(records.last().pid) {
            0
        } else {
            crate::engine::abs1(rec_reaped(records.last()))
        })
    }
}

/// Exactly when snapshot construction fails: the table's aggregate tick
/// counts overflow what the engine's signed deltas can hold — total self
/// ticks or total reaped magnitude above `tick_cap()`, centuries of
/// machine time — or a parent chain cannot reach a root within one step
/// per record, which is a cycle.
pub open spec fn build_rejected(records: Seq<ProcRecord>) -> bool {
    ||| dedup_sum_self(records) > tick_cap()
    ||| dedup_sum_reaped_abs(records) > tick_cap()
    ||| exists|d: i32|
        parent_map_of(first_map(records)).contains_key(d) && #[trigger] walk_steps_spec(
            parent_map_of(first_map(records)),
            d,
            (records.len() + 1) as nat,
        ).is_none()
}

/// The deduplicated sums are nonnegative and grow along prefixes.
pub proof fn lemma_dedup_sums_prefix(records: Seq<ProcRecord>, i: int)
    requires
        0 <= i <= records.len(),
    ensures
        0 <= dedup_sum_self(records.take(i)) <= dedup_sum_self(records),
        0 <= dedup_sum_reaped_abs(records.take(i)) <= dedup_sum_reaped_abs(records),
    decreases records.len(),
{
    if i == records.len() {
        assert(records.take(i) =~= records);
        if records.len() > 0 {
            lemma_dedup_sums_prefix(records.drop_last(), records.len() - 1);
            assert(records.drop_last().take(records.len() - 1) =~= records.drop_last());
        }
    } else {
        assert(records.drop_last().take(i) =~= records.take(i));
        lemma_dedup_sums_prefix(records.drop_last(), i);
    }
}

/// Records already collected keep their first-wins entry when more
/// records follow.
pub proof fn lemma_first_map_prefix(records: Seq<ProcRecord>, i: int)
    requires
        0 <= i <= records.len(),
    ensures
        forall|p: i32| #[trigger]
            first_map(records.take(i)).contains_key(p) ==> first_map(records).contains_key(p)
                && first_map(records)[p] == first_map(records.take(i))[p],
    decreases records.len() - i,
{
    if i == records.len() {
        assert(records.take(i) =~= records);
    } else {
        assert(records.take(i + 1).drop_last() =~= records.take(i));
        assert(records.take(i + 1).last() == records[i]);
        lemma_first_map_prefix(records, i + 1);
        let fmi = first_map(records.take(i));
        let fmi1 = first_map(records.take(i + 1));
        assert forall|p: i32| #[trigger] fmi.contains_key(p) implies first_map(
            records,
        ).contains_key(p) && first_map(records)[p] == fmi[p] by {
            assert(fmi1.contains_key(p) && fmi1[p] == fmi[p]);
        }
    }
}

/// Every value of `first_map` is one of the records, keyed by its pid.
pub proof fn lemma_first_map_from_records(records: Seq<ProcRecord>, p: i32)
    requires
        first_map(records).contains_key(p),
    ensures
        first_map(records)[p].pid == p,
        exists|i: int| 0 <= i < records.len() && records[i] == first_map(records)[p],
    decreases records.len(),
{
    let m = first_map(records.drop_last());
    if m.contains_key(p) {
        lemma_first_map_from_records(records.drop_last(), p);
        let i = choose|i: int|
            0 <= i < records.drop_last().len() && records.drop_last()[i] == m[p];
        assert(records[i] == first_map(records)[p]);
    } else {
        assert(records[records.len() - 1] == first_map(records)[p]);
    }
}

/// What `d` contributes to `p`'s finalised reaped-descendants total.
pub open spec fn reaped_contrib(records: Seq<ProcRecord>, parent: Map<i32, i32>, p: i32) -> spec_fn(
    i32,
) -> int {
    |d: i32|
        if in_subtree(parent, p, d) {
            rec_reaped(first_map(records)[d])
        } else {
            0
        }
}

impl Snapshot {
    /// Build a snapshot from raw stat records.
    ///
    /// Duplicate pids keep their first record. A parent link is recorded
    /// when the parent is neither the kernel root nor the process itself
    /// and is itself recorded. The reaped-children counts are cumulated
    /// over each subtree, as `reaped_contrib` states. Construction fails
    /// only as `build_rejected` says: on a cycle among the parent links,
    /// or when the table's aggregate tick counts pass `tick_cap()` —
    /// roughly thirty-six million years of scheduler ticks.
    pub fn from_records(taken_at_ticks: u64, records: &Vec<ProcRecord>) -> (r: Option<Snapshot>)
        ensures
            r.is_none() <==> build_rejected(records@),
            match r {
                Some(s) => {
                    &&& s.wf()
                    &&& s.taken_at_ticks == taken_at_ticks
                    &&& forall|p: i32| #[trigger]
                        s.samples@.contains_key(p) <==> first_map(records@).contains_key(p)
                    &&& s.forest@ == parent_map_of(first_map(records@))
                    &&& forall|p: i32| #[trigger]
                        s.samples@.contains_key(p) ==> s.samples@[p].total_self_ticks == rec_self(
                            first_map(records@)[p],
                        )
                    &&& forall|p: i32| #[trigger]
                        s.samples@.contains_key(p) ==> s.samples@[p].reaped_subtree_ticks
                            == sum_contrib(s.samples.keys(), reaped_contrib(records@, s.forest@, p))
                },
                None => true,
            },
    {
        let n = records.len();
        // Collect the first record of every pid, accumulating the
        // deduplicated aggregate sums; reject as soon as one of them
        // overflows what a signed delta can hold.
        let ghost fm = first_map(records@);
        let ghost fself = |q: i32| rec_self(fm[q]);
        let ghost fabs = |q: i32| crate::engine::abs1(rec_reaped(fm[q]));
        let mut raw: PidMap<(u64, i64, i32)> = PidMap::new();
        let mut total_self: u128 = 0;
        let mut total_reap: u128 = 0;
        let mut i2: usize = 0;
        while i2 < n
            invariant
                n == records@.len(),
                i2 <= n,
                fm == first_map(records@),
                fself == (|q: i32| rec_self(fm[q])),
                fabs == (|q: i32| crate::engine::abs1(rec_reaped(fm[q]))),
                raw.wf(),
                raw.entries@.len() <= i2,
                forall|p: i32| #[trigger]
                    raw@.contains_key(p) <==> first_map(records@.take(i2 as int)).contains_key(p),
                forall|p: i32| #[trigger]
                    raw@.contains_key(p) ==> raw@[p].0 == rec_self(
                        first_map(records@.take(i2 as int))[p],
                    ) && raw@[p].1 == rec_reaped(first_map(records@.take(i2 as int))[p])
                        && raw@[p].2 == first_map(records@.take(i2 as int))[p].ppid,
                total_self == dedup_sum_self(records@.take(i2 as int)),
                total_reap == dedup_sum_reaped_abs(records@.take(i2 as int)),
                total_self <= tick_cap(),
                total_reap <= tick_cap(),
                sum_contrib(raw.keys(), fself) == total_self,
                sum_contrib(raw.keys(), fabs) == total_reap,
            decreases n - i2,
        {
            let r = records[i2];
            proof {
                assert(records@.take(i2 + 1).drop_last() =~= records@.take(i2 as int));
                assert(records@.take(i2 + 1).last() == records@[i2 as int]);
            }
            let ghost fmi = first_map(records@.take(i2 as int));
            match raw.get(r.pid) {
                Some(_) => {
                    proof {
                        assert(fmi.contains_key(r.pid));
                        assert(first_map(records@.take(i2 + 1)) == fmi);
                    }
                },
                None => {
                    proof {
                        assert(!fmi.contains_key(r.pid));
                        assert(first_map(records@.take(i2 + 1)) == fmi.insert(
                            r.pid,
                            records@[i2 as int],
                        ));
                    }
                    let slf128: u128 = r.utime as u128 + r.stime as u128;
                    let rp128: i128 = r.cutime as i128 + r.cstime as i128;
                    let rpabs: u128 = if rp128 < 0 {
                        (-rp128) as u128
                    } else {
                        rp128 as u128
                    };
                    proof {
                        assert(slf128 == rec_self(records@[i2 as int]));
                        assert(rpabs == crate::engine::abs1(rec_reaped(records@[i2 as int])));
                        assert(dedup_sum_self(records@.take(i2 + 1)) == total_self + slf128);
                        assert(dedup_sum_reaped_abs(records@.take(i2 + 1)) == total_reap
                            + rpabs);
                    }
                    if total_self + slf128 > 0x1000_0000_0000_0000 || total_reap + rpabs
                        > 0x1000_0000_0000_0000 {
                        proof {
                            lemma_dedup_sums_prefix(records@, i2 + 1);
                            assert(build_rejected(records@));
                        }
                        return None;
                    }
                    total_self = total_self + slf128;
                    total_reap = total_reap + rpabs;
                    let ghost old_raw = raw;
                    raw.set(r.pid, (slf128 as u64, rp128 as i64, r.ppid));
                    proof {
                        // The fresh pid keeps the record at this index.
                        lemma_first_map_prefix(records@, i2 + 1);
                        assert(first_map(records@.take(i2 + 1)).contains_key(r.pid));
                        assert(fm.contains_key(r.pid) && fm[r.pid] == records@[i2 as int]);
                        // Both aggregate sums grow by this record's share.
                        assert(forall|q: i32| #[trigger]
                            raw@.contains_key(q) <==> old_raw@.contains_key(q) || q == r.pid);
                        old_raw.lemma_set_fresh_keys(raw, r.pid);
                        let pos = raw.spec_index_of(r.pid);
                        crate::sums::lemma_sum_remove(raw.keys(), fself, pos);
                        crate::sums::lemma_sum_remove(raw.keys(), fabs, pos);
                        assert(fself(r.pid) == slf128);
                        assert(fabs(r.pid) == rpabs);
                        // Per-entry values follow the first-wins map.
                        assert forall|p: i32| #[trigger]
                            raw@.contains_key(p) implies raw@[p].0 == rec_self(
                            first_map(records@.take(i2 + 1))[p],
                        ) && raw@[p].1 == rec_reaped(first_map(records@.take(i2 + 1))[p])
                            && raw@[p].2 == first_map(records@.take(i2 + 1))[p].ppid by {
                            if p != r.pid {
                                assert(raw@[p] == old_raw@[p]);
                            } else {
                                assert(raw@[p] == (slf128 as u64, rp128 as i64, r.ppid));
                            }
                        }
                    }
                },
            }
            i2 = i2 + 1;
        }
        proof {
            assert(records@.take(n as int) =~= records@);
        }
        // Parent links among recorded pids.
        let ghost pm_goal = parent_map_of(fm);
        let rn = raw.len();
        let mut par: PidMap<i32> = PidMap::new();
        let mut j: usize = 0;
        while j < rn
            invariant
                raw.wf(),
                rn == raw.entries@.len(),
                j <= rn,
                fm == first_map(records@),
                pm_goal == parent_map_of(fm),
                forall|p: i32| #[trigger] raw@.contains_key(p) <==> fm.contains_key(p),
                forall|p: i32| #[trigger]
                    raw@.contains_key(p) ==> raw@[p].0 == rec_self(fm[p]) && raw@[p].1
                        == rec_reaped(fm[p]) && raw@[p].2 == fm[p].ppid,
                par.wf(),
                par.entries@.len() <= j,
                forall|q: i32| #[trigger]
                    par@.contains_key(q) ==> pm_goal.contains_key(q) && par@[q] == pm_goal[q],
                forall|jj: int|
                    0 <= jj < j && pm_goal.contains_key((#[trigger] raw.entries@[jj]).0)
                        ==> par@.contains_key(raw.entries@[jj].0),
            decreases rn - j,
        {
            let p = raw.key_at(j);
            let v = raw.val_at(j);
            proof {
                raw.lemma_entry_is_view(j as int);
            }
            let pp = v.2;
            if pp != 0 && pp != p {
                match raw.get(pp) {
                    Some(_) => {
                        par.set(p, pp);
                    },
                    None => {},
                }
            }
            proof {
                assert forall|jj: int|
                    0 <= jj < j + 1 && pm_goal.contains_key(
                        (#[trigger] raw.entries@[jj]).0,
                    ) implies par@.contains_key(raw.entries@[jj].0) by {
                    if jj == j {
                        let q = raw.entries@[jj].0;
                        assert(fm.contains_key(q));
                        assert(fm[q].ppid == pp);
                    }
                }
            }
            j = j + 1;
        }
        proof {
            assert(par@ =~= pm_goal) by {
                assert forall|q: i32| #[trigger] pm_goal.contains_key(q) implies par@.contains_key(
                    q,
                ) by {
                    assert(fm.contains_key(q));
                    assert(raw@.contains_key(q));
                    let jj = raw.spec_index_of(q);
                    assert(raw.entries@[jj].0 == q);
                }
            }
            par.lemma_len_bound();
        }
        // Cycle check, with one step of fuel per record.
        let fuel: u128 = (n as u128) + 1;
        let forest = match Forest::from_parents(par, fuel) {
            Some(f) => f,
            None => {
                return None;
            },
        };
        // Cumulate the reaped-children ticks over each subtree.
        let mut rr_entries: Vec<(i32, i64)> = Vec::new();
        let mut k: usize = 0;
        while k < rn
            invariant
                raw.wf(),
                rn == raw.entries@.len(),
                k <= rn,
                rr_entries@.len() == k,
                forall|jj: int|
                    0 <= jj < k ==> (#[trigger] rr_entries@[jj]).0 == raw.entries@[jj].0
                        && rr_entries@[jj].1 == raw.entries@[jj].1.1,
            decreases rn - k,
        {
            let p = raw.key_at(k);
            let v = raw.val_at(k);
            rr_entries.push((p, v.1));
            k = k + 1;
        }
        let rr = PidMap { entries: rr_entries };
        proof {
            assert(forall|jj: int|
                0 <= jj < rr.entries@.len() ==> (#[trigger] rr.entries@[jj]).0
                    == raw.entries@[jj].0);
            assert(rr.wf());
            assert(rr.keys() =~= raw.keys());
            rr.lemma_keys_no_duplicates();
            raw.lemma_keys_no_duplicates();
            assert forall|p: i32| #[trigger] rr@.contains_key(p) <==> raw@.contains_key(p) by {
                if rr.spec_contains(p) {
                    let jj = rr.spec_index_of(p);
                    assert(raw.entries@[jj].0 == p);
                }
                if raw.spec_contains(p) {
                    let jj = raw.spec_index_of(p);
                    assert(rr.entries@[jj].0 == p);
                }
            }
            assert forall|p: i32| #[trigger] rr@.contains_key(p) implies rr@[p] == rec_reaped(
                fm[p],
            ) by {
                let jj = rr.spec_index_of(p);
                assert(rr.entries@[jj].0 == p);
                rr.lemma_entry_is_view(jj);
                raw.lemma_entry_is_view(jj);
            }
            assert(sum_abs(rr) <= tick_cap()) by {
                let g = |q: i32| crate::engine::abs1(rr@[q] as int);
                assert forall|jj: int| 0 <= jj < rr.keys().len() implies #[trigger] g(
                    rr.keys()[jj],
                ) == fabs(rr.keys()[jj]) by {
                    rr.lemma_entry_is_view(jj);
                    raw.lemma_entry_is_view(jj);
                }
                crate::sums::lemma_sum_congruence(rr.keys(), g, fabs);
            }
        }
        let cum = get_cumulated(&forest, &rr);
        // Assemble the samples.
        let ghost pmv = forest@;
        let mut s_entries: Vec<(i32, PidSample)> = Vec::new();
        let mut k2: usize = 0;
        while k2 < rn
            invariant
                raw.wf(),
                rr.wf(),
                cum.wf(),
                rn == raw.entries@.len(),
                rr.keys() == raw.keys(),
                cum.keys() == rr.keys(),
                k2 <= rn,
                s_entries@.len() == k2,
                forall|p: i32| #[trigger] raw@.contains_key(p) <==> fm.contains_key(p),
                forall|p: i32| #[trigger]
                    raw@.contains_key(p) ==> raw@[p].0 == rec_self(fm[p]) && raw@[p].1
                        == rec_reaped(fm[p]) && raw@[p].2 == fm[p].ppid,
                forall|p: i32| #[trigger]
                    rr@.contains_key(p) <==> raw@.contains_key(p),
                forall|p: i32| #[trigger]
                    rr@.contains_key(p) ==> rr@[p] == rec_reaped(fm[p]),
                sum_abs(rr) <= tick_cap(),
                forall|p: i32| #[trigger]
                    cum@.contains_key(p) <==> rr@.contains_key(p),
                forall|p: i32| #[trigger]
                    rr@.contains_key(p) ==> cum@[p] == spec_cumulated(rr, pmv, p),
                forall|jj: int|
                    0 <= jj < k2 ==> (#[trigger] s_entries@[jj]).0 == raw.entries@[jj].0
                        && s_entries@[jj].1.total_self_ticks == raw.entries@[jj].1.0
                        && s_entries@[jj].1.reaped_subtree_ticks == spec_cumulated(
                        rr,
                        pmv,
                        raw.entries@[jj].0,
                    ),
            decreases rn - k2,
        {
            let p = raw.key_at(k2);
            let v = raw.val_at(k2);
            let c = cum.val_at(k2);
            proof {
                raw.lemma_entry_is_view(k2 as int);
                cum.lemma_entry_is_view(k2 as int);
                assert(cum.keys()[k2 as int] == raw.keys()[k2 as int]);
                assert(rr@.contains_key(p)) by {
                    assert(rr.entries@[k2 as int].0 == p);
                    rr.lemma_entry_is_view(k2 as int);
                }
            }
            s_entries.push((p, PidSample { total_self_ticks: v.0, reaped_subtree_ticks: c }));
            k2 = k2 + 1;
        }
        let samples = PidMap { entries: s_entries };
        let snap = Snapshot { taken_at_ticks, samples, forest };
        proof {
            assert(forall|jj: int|
                0 <= jj < samples.entries@.len() ==> (#[trigger] samples.entries@[jj]).0
                    == raw.entries@[jj].0);
            assert(samples.wf());
            assert(samples.keys() =~= raw.keys());
            samples.lemma_keys_no_duplicates();
            // Membership and per-entry values.
            assert forall|p: i32| #[trigger]
                samples@.contains_key(p) <==> fm.contains_key(p) by {
                assert(raw@.contains_key(p) <==> fm.contains_key(p));
                if samples.spec_contains(p) {
                    let jj = samples.spec_index_of(p);
                    assert(raw.entries@[jj].0 == p);
                    raw.lemma_entry_is_view(jj);
                }
                if raw.spec_contains(p) {
                    let jj = raw.spec_index_of(p);
                    assert(samples.entries@[jj].0 == p);
                    samples.lemma_entry_is_view(jj);
                }
            }
            assert forall|p: i32| #[trigger]
                samples@.contains_key(p) implies samples@[p].total_self_ticks == rec_self(fm[p])
                && samples@[p].reaped_subtree_ticks == spec_cumulated(rr, pmv, p) by {
                let jj = samples.spec_index_of(p);
                assert(samples.entries@[jj].0 == p);
                samples.lemma_entry_is_view(jj);
                raw.lemma_entry_is_view(jj);
            }
            // Reaped totals as stated over the snapshot's own keys.
            assert forall|p: i32| #[trigger]
                samples@.contains_key(p) implies samples@[p].reaped_subtree_ticks == sum_contrib(
                samples.keys(),
                reaped_contrib(records@, pmv, p),
            ) by {
                let f1 = crate::engine::cumul_contrib(rr, pmv, p);
                let f2 = reaped_contrib(records@, pmv, p);
                assert forall|jj: int| 0 <= jj < rr.keys().len() implies #[trigger] f1(
                    rr.keys()[jj],
                ) == f2(rr.keys()[jj]) by {
                    rr.lemma_entry_is_view(jj);
                    raw.lemma_entry_is_view(jj);
                }
                crate::sums::lemma_sum_congruence(rr.keys(), f1, f2);
                assert(samples.keys() == rr.keys());
            }
            // Well-formedness.
            assert(snap.wf()) by {
                assert forall|d: i32| #[trigger]
                    snap.forest@.contains_key(d) implies snap.samples@.contains_key(d)
                    && snap.samples@.contains_key(snap.forest@[d]) && snap.forest@[d] != d by {
                    assert(pm_goal.contains_key(d));
                    assert(fm.contains_key(d) && fm.contains_key(fm[d].ppid));
                }
                assert(snap.sum_self() <= tick_cap()) by {
                    let g = |q: i32| samples@[q].total_self_ticks as int;
                    assert forall|jj: int| 0 <= jj < samples.keys().len() implies #[trigger] g(
                        samples.keys()[jj],
                    ) == fself(samples.keys()[jj]) by {
                        samples.lemma_entry_is_view(jj);
                        raw.lemma_entry_is_view(jj);
                    }
                    crate::sums::lemma_sum_congruence(samples.keys(), g, fself);
                    assert(sum_contrib(samples.keys(), fself) == sum_contrib(
                        raw.keys(),
                        fself,
                    ));
                }
                assert forall|d: i32| #[trigger]
                    snap.samples@.contains_key(d) implies -tick_cap()
                    <= snap.samples@[d].reaped_subtree_ticks <= tick_cap() by {
                    lemma_cumulated_abs(rr, pmv, d);
                }
            }
        }
        Some(snap)
    }
}

} // verus!
