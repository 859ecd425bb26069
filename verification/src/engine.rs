//! Tree totals over a forest: the cumulation used both to finalise
//! snapshots and to compute tree tick deltas.

use vstd::prelude::*;

use crate::forest::{in_subtree, lemma_in_subtree_target, Forest};
use crate::pidmap::PidMap;
use crate::snapshot::{tick_cap, PidSample, Snapshot};
use crate::sums::{
    lemma_sum_abs, lemma_sum_add, lemma_sum_congruence, lemma_sum_elem_le, lemma_sum_inject,
    lemma_sum_le, lemma_sum_prefix_le, lemma_sum_take_all, lemma_sum_take_succ, lemma_sum_zero,
    sum_contrib,
};

verus! {

pub open spec fn abs1(x: int) -> int {
    if x < 0 {
        -x
    } else {
        x
    }
}

/// What `d` contributes to the cumulated total of `root`.
pub open spec fn cumul_contrib(values: PidMap<i64>, parent: Map<i32, i32>, root: i32) -> spec_fn(
    i32,
) -> int {
    |d: i32|
        if in_subtree(parent, root, d) {
            values@[d] as int
        } else {
            0
        }
}

/// Sum of the values over the subtree of `root`: the cumulated total.
pub open spec fn spec_cumulated(values: PidMap<i64>, parent: Map<i32, i32>, root: i32) -> int {
    sum_contrib(values.keys(), cumul_contrib(values, parent, root))
}

/// Sum of the absolute values of a whole value map.
pub open spec fn sum_abs(values: PidMap<i64>) -> int {
    sum_contrib(values.keys(), |d: i32| abs1(values@[d] as int))
}

/// A cumulated total is bounded by the sum of the absolute values.
pub proof fn lemma_cumulated_abs(values: PidMap<i64>, parent: Map<i32, i32>, root: i32)
    ensures
        -sum_abs(values) <= spec_cumulated(values, parent, root) <= sum_abs(values),
{
    let f = cumul_contrib(values, parent, root);
    let g = |d: i32| abs1(values@[d] as int);
    assert(forall|i: int|
        0 <= i < values.keys().len() ==> -#[trigger] g(values.keys()[i]) <= #[trigger] f(
            values.keys()[i],
        ) <= g(values.keys()[i]));
    lemma_sum_abs(values.keys(), f, g);
}

/// Cumulated total of the values over the subtree of `root`.
///
/// The bound on the summed absolute values is what lets the total be
/// returned as an `i64`.
pub fn cumulate(root: i32, forest: &Forest, values: &PidMap<i64>) -> (r: i64)
    requires
        forest.wf(),
        values.wf(),
        sum_abs(*values) <= 0x4000_0000_0000_0000,
    ensures
        r == spec_cumulated(*values, forest@, root),
{
    let ghost f = cumul_contrib(*values, forest@, root);
    let ghost g = |d: i32| abs1(values@[d] as int);
    let ghost ks = values.keys();
    proof {
        values.lemma_keys_no_duplicates();
        assert(forall|j: int| 0 <= j < ks.len() ==> 0 <= #[trigger] g(ks[j]));
        crate::sums::lemma_sum_nonneg(ks, g);
    }
    let n = values.len();
    let mut acc: i64 = 0;
    let ghost pabs: int = 0;
    let mut i: usize = 0;
    while i < n
        invariant
            forest.wf(),
            values.wf(),
            sum_abs(*values) <= 0x4000_0000_0000_0000,
            f == cumul_contrib(*values, forest@, root),
            g == (|d: i32| abs1(values@[d] as int)),
            ks == values.keys(),
            n == values.entries@.len(),
            n == ks.len(),
            i <= n,
            acc == sum_contrib(ks.take(i as int), f),
            pabs == sum_contrib(ks.take(i as int), g),
            -pabs <= acc <= pabs,
            pabs <= sum_abs(*values),
        decreases n - i,
    {
        let d = values.key_at(i);
        let v = values.val_at(i);
        proof {
            lemma_sum_take_succ(ks, f, i as int);
            lemma_sum_take_succ(ks, g, i as int);
            assert(forall|j: int| 0 <= j < ks.len() ==> 0 <= #[trigger] g(ks[j]));
            lemma_sum_prefix_le(ks, g, i + 1);
            assert(values@[d] == v);
        }
        if forest.is_in_subtree(root, d) {
            proof {
                assert(f(d) == v as int);
            }
            acc = acc + v;
        } else {
            proof {
                assert(f(d) == 0);
            }
        }
        proof {
            pabs = pabs + g(d);
        }
        i = i + 1;
    }
    proof {
        lemma_sum_take_all(ks, f);
    }
    acc
}

/// What `d` contributes to the cumulated total of a proper ancestor
/// `root`: everything of `cumul_contrib` except the root's own value.
pub open spec fn anc_contrib(values: PidMap<i64>, parent: Map<i32, i32>, root: i32) -> spec_fn(
    i32,
) -> int {
    |d: i32|
        if in_subtree(parent, root, d) && root != d {
            values@[d] as int
        } else {
            0
        }
}

/// A cumulated total is the key's own value plus the contributions of its
/// proper descendants.
proof fn lemma_cumulated_as_anc(values: PidMap<i64>, parent: Map<i32, i32>, p: i32)
    requires
        values.wf(),
        values@.contains_key(p),
    ensures
        spec_cumulated(values, parent, p) == values@[p] + sum_contrib(
            values.keys(),
            anc_contrib(values, parent, p),
        ),
{
    let ks = values.keys();
    values.lemma_keys_no_duplicates();
    let f = cumul_contrib(values, parent, p);
    let g = anc_contrib(values, parent, p);
    let j = values.spec_index_of(p);
    assert(values.entries@[j].0 == p);
    assert(ks[j] == p);
    values.lemma_entry_is_view(j);
    crate::sums::lemma_sum_remove(ks, f, j);
    crate::sums::lemma_sum_remove(ks, g, j);
    let ks1 = ks.remove(j);
    assert(forall|i: int|
        0 <= i < ks1.len() ==> ks1[i] == (if i < j {
            ks[i]
        } else {
            ks[i + 1]
        }));
    assert(forall|i: int| 0 <= i < ks1.len() ==> ks1[i] != p);
    assert(forall|i: int| 0 <= i < ks1.len() ==> #[trigger] f(ks1[i]) == g(ks1[i]));
    lemma_sum_congruence(ks1, f, g);
    assert(f(p) == values@[p] as int);
    assert(g(p) == 0);
}

/// Cumulated totals for every key of the value map: every key starts with
/// its own value, and every key's value is then folded into each of its
/// ancestors, one parent-chain walk per key.
#[verifier::rlimit(100)]
#[verifier::spinoff_prover]
pub fn get_cumulated(forest: &Forest, values: &PidMap<i64>) -> (r: PidMap<i64>)
    requires
        forest.wf(),
        values.wf(),
        sum_abs(*values) <= 0x4000_0000_0000_0000,
    ensures
        r.wf(),
        r.keys() == values.keys(),
        forall|p: i32| #[trigger]
            r@.contains_key(p) <==> values@.contains_key(p),
        forall|p: i32| #[trigger]
            values@.contains_key(p) ==> r@[p] == spec_cumulated(*values, forest@, p),
    {
    let ghost pm = forest@;
    let ghost ks = values.keys();
    proof {
        values.lemma_keys_no_duplicates();
    }
    let n = values.len();
    // Every key starts with its own value, in a wide accumulator.
    let mut acc: Vec<(i32, i128)> = Vec::new();
    let mut i0: usize = 0;
    while i0 < n
        invariant
            values.wf(),
            n == values.entries@.len(),
            i0 <= n,
            acc@.len() == i0,
            forall|j: int|
                0 <= j < i0 ==> (#[trigger] acc@[j]).0 == values.entries@[j].0 && acc@[j].1
                    == values.entries@[j].1,
        decreases n - i0,
    {
        let d = values.key_at(i0);
        let v = values.val_at(i0);
        acc.push((d, v as i128));
        i0 = i0 + 1;
    }
    // Fold every key's value into each of its proper ancestors.
    let mut idx: usize = 0;
    while idx < n
        invariant
            forest.wf(),
            values.wf(),
            pm == forest@,
            ks == values.keys(),
            sum_abs(*values) <= 0x4000_0000_0000_0000,
            n == values.entries@.len(),
            idx <= n,
            acc@.len() == n,
            forall|j: int| 0 <= j < n ==> (#[trigger] acc@[j]).0 == values.entries@[j].0,
            forall|j: int|
                0 <= j < n ==> (#[trigger] acc@[j]).1 == values.entries@[j].1 + sum_contrib(
                    ks.take(idx as int),
                    anc_contrib(*values, pm, values.entries@[j].0),
                ),
        decreases n - idx,
    {
        let d = values.key_at(idx);
        let v = values.val_at(idx);
        let ghost pre = acc@;
        let ghost depth = forest.depth@;
        let mut cur = d;
        let ghost mut visited: Seq<i32> = Seq::empty();
        loop
            invariant
                forest.wf(),
                values.wf(),
                pm == forest@,
                ks == values.keys(),
                sum_abs(*values) <= 0x4000_0000_0000_0000,
                n == values.entries@.len(),
                idx < n,
                d == values.entries@[idx as int].0,
                v == values.entries@[idx as int].1,
                depth == forest.depth@,
                acc@.len() == n,
                pre.len() == n,
                forall|j: int| 0 <= j < n ==> (#[trigger] acc@[j]).0 == values.entries@[j].0,
                forall|j: int|
                    0 <= j < n ==> (#[trigger] pre[j]).1 == values.entries@[j].1 + sum_contrib(
                        ks.take(idx as int),
                        anc_contrib(*values, pm, values.entries@[j].0),
                    ),
                forall|j: int|
                    0 <= j < n ==> (#[trigger] acc@[j]).1 == pre[j].1 + (if visited.contains(
                        values.entries@[j].0,
                    ) {
                        v as int
                    } else {
                        0
                    }),
                forall|q: i32|
                    (#[trigger] in_subtree(pm, q, d) && q != d) <==> (visited.contains(q) || (
                    in_subtree(pm, q, cur) && q != cur)),
                forall|q: i32| #[trigger]
                    visited.contains(q) ==> crate::forest::depth_of(depth, q)
                        >= crate::forest::depth_of(depth, cur),
            ensures
                acc@.len() == n,
                forall|j: int| 0 <= j < n ==> (#[trigger] acc@[j]).0 == values.entries@[j].0,
                forall|j: int|
                    0 <= j < n ==> (#[trigger] acc@[j]).1 == pre[j].1 + (if visited.contains(
                        values.entries@[j].0,
                    ) {
                        v as int
                    } else {
                        0
                    }),
                forall|q: i32|
                    (#[trigger] in_subtree(pm, q, d) && q != d) <==> visited.contains(q),
            decreases crate::forest::depth_of(depth, cur),
        {
            proof {
                crate::forest::lemma_in_subtree_step(pm, depth, cur, cur);
            }
            match forest.parent.get(cur) {
                None => {
                    proof {
                        assert forall|q: i32| #[trigger]
                            in_subtree(pm, q, cur) && q != cur implies false by {
                            crate::forest::lemma_in_subtree_step(pm, depth, q, cur);
                        }
                    }
                    break ;
                },
                Some(pc) => {
                    proof {
                        assert(pm.contains_key(cur));
                        assert(crate::forest::depth_of(depth, pc) < crate::forest::depth_of(
                            depth,
                            cur,
                        ));
                        assert(!visited.contains(pc));
                    }
                    // Add this key's value to the ancestor's accumulator,
                    // if the ancestor is itself a key: binary search over
                    // the sorted keys.
                    let mut lo: usize = 0;
                    let mut hi: usize = n;
                    let mut t: usize = 0;
                    let mut found: bool = false;
                    while lo < hi && !found
                        invariant
                            values.wf(),
                            n == values.entries@.len(),
                            acc@.len() == n,
                            forall|j: int|
                                0 <= j < n ==> (#[trigger] acc@[j]).0 == values.entries@[j].0,
                            lo <= hi <= n,
                            forall|j: int| 0 <= j < lo ==> (#[trigger] acc@[j]).0 < pc,
                            forall|j: int| hi <= j < n ==> (#[trigger] acc@[j]).0 > pc,
                            found ==> t < n && acc@[t as int].0 == pc,
                        decreases hi - lo, (if found {
                            0int
                        } else {
                            1int
                        }),
                    {
                        let mid = lo + (hi - lo) / 2;
                        if acc[mid].0 == pc {
                            t = mid;
                            found = true;
                        } else if acc[mid].0 < pc {
                            proof {
                                assert forall|j: int| 0 <= j < mid + 1 implies (
                                #[trigger] acc@[j]).0 < pc by {
                                    if j < mid {
                                        assert(values.entries@[j].0 < values.entries@[
                                        mid as int].0);
                                    }
                                }
                            }
                            lo = mid + 1;
                        } else {
                            proof {
                                assert forall|j: int| mid <= j < n implies (
                                #[trigger] acc@[j]).0 > pc by {
                                    if j > mid {
                                        assert(values.entries@[mid as int].0 < values.entries@[
                                        j].0);
                                    }
                                }
                            }
                            hi = mid;
                        }
                    }
                    proof {
                        if !found {
                            assert(forall|j: int|
                                0 <= j < n ==> (#[trigger] acc@[j]).0 != pc);
                        }
                    }
                    if found {
                        proof {
                            values.lemma_entry_is_view(t as int);
                            // The accumulator still holds its pre-walk value.
                            assert(acc@[t as int].1 == pre[t as int].1);
                            // That value is bounded by the whole map's weight.
                            let af = anc_contrib(*values, pm, pc);
                            let ab = |q: i32| abs1(values@[q] as int);
                            assert forall|jj: int| 0 <= jj < ks.take(idx as int).len() implies -
                            #[trigger] ab(ks.take(idx as int)[jj]) <= #[trigger] af(
                                ks.take(idx as int)[jj],
                            ) <= ab(ks.take(idx as int)[jj]) by {
                                assert(ks.take(idx as int)[jj] == ks[jj]);
                                values.lemma_entry_is_view(jj);
                            }
                            lemma_sum_abs(ks.take(idx as int), af, ab);
                            assert(forall|jj: int|
                                0 <= jj < ks.len() ==> 0 <= #[trigger] ab(ks[jj]));
                            lemma_sum_prefix_le(ks, ab, idx as int);
                            lemma_sum_congruence(ks, ab, |q: i32| abs1(values@[q] as int));
                        }
                        let e = acc[t];
                        acc[t] = (e.0, e.1 + (v as i128));
                    } else {
                        proof {
                            // Not a key: it has no accumulator and no entry
                            // in any sum.
                            if values.spec_contains(pc) {
                                let jj = values.spec_index_of(pc);
                                assert(values.entries@[jj].0 == pc);
                                assert(acc@[jj].0 == pc);
                            }
                        }
                    }
                    proof {
                        let nv = visited.push(pc);
                        assert forall|q: i32| #[trigger]
                            nv.contains(q) <==> visited.contains(q) || q == pc by {
                            if visited.contains(q) {
                                let iq = choose|iq: int|
                                    0 <= iq < visited.len() && visited[iq] == q;
                                assert(nv[iq] == q);
                            }
                            if q == pc {
                                assert(nv[nv.len() - 1] == q);
                            }
                            if nv.contains(q) {
                                let iq = choose|iq: int| 0 <= iq < nv.len() && nv[iq] == q;
                                if iq < visited.len() {
                                    assert(visited[iq] == q);
                                }
                            }
                        }
                        assert forall|j: int| 0 <= j < n implies (#[trigger] acc@[j]).1 == pre[
                        j].1 + (if nv.contains(values.entries@[j].0) {
                            v as int
                        } else {
                            0
                        }) by {
                            if values.entries@[j].0 == pc && !values.spec_contains(pc) {
                                assert(values.spec_contains(pc));
                            }
                        }
                        // One step up: what is left to visit from `pc` plus
                        // the new member is what was left from `cur`.
                        assert(in_subtree(pm, pc, cur) && pc != cur) by {
                            crate::forest::lemma_in_subtree_step(pm, depth, pc, cur);
                            assert(in_subtree(pm, pc, pc));
                        }
                        assert(in_subtree(pm, pc, d) && pc != d);
                        crate::forest::lemma_in_subtree_depth(pm, depth, pc, d);
                        assert forall|q: i32| #[trigger]
                            in_subtree(pm, q, d) && q != d implies nv.contains(q) || (
                        in_subtree(pm, q, pc) && q != pc) by {
                            if !visited.contains(q) {
                                assert(in_subtree(pm, q, cur) && q != cur);
                                crate::forest::lemma_in_subtree_step(pm, depth, q, cur);
                                assert(q == pc || (in_subtree(pm, q, pc) && q != pc));
                            }
                        }
                        assert forall|q: i32|
                            nv.contains(q) || (in_subtree(pm, q, pc) && q != pc) implies
                        #[trigger] in_subtree(pm, q, d) && q != d by {
                            if nv.contains(q) && !visited.contains(q) {
                                assert(q == pc);
                            }
                            if !nv.contains(q) {
                                assert(in_subtree(pm, q, pc) && q != pc);
                                if q == cur {
                                    crate::forest::lemma_in_subtree_depth(pm, depth, q, pc);
                                    assert(false);
                                }
                                if q == d {
                                    crate::forest::lemma_in_subtree_depth(pm, depth, d, pc);
                                    assert(false);
                                }
                                crate::forest::lemma_in_subtree_step(pm, depth, q, cur);
                                assert(in_subtree(pm, q, cur) && q != cur);
                            }
                        }
                        assert forall|q: i32|
                            (#[trigger] in_subtree(pm, q, d) && q != d) <==> (nv.contains(q) || (
                            in_subtree(pm, q, pc) && q != pc)) by {
                            if in_subtree(pm, q, d) && q != d {
                                assert(nv.contains(q) || (in_subtree(pm, q, pc) && q != pc));
                            }
                            if nv.contains(q) || (in_subtree(pm, q, pc) && q != pc) {
                                assert(in_subtree(pm, q, d) && q != d);
                            }
                        }
                        visited = nv;
                    }
                    cur = pc;
                },
            }
        }
        proof {
            // The walk visited exactly the proper ancestors of `d`.
            values.lemma_entry_is_view(idx as int);
            assert forall|j: int| 0 <= j < n implies (#[trigger] acc@[j]).1
                == values.entries@[j].1 + sum_contrib(
                ks.take(idx + 1),
                anc_contrib(*values, pm, values.entries@[j].0),
            ) by {
                let p = values.entries@[j].0;
                let g = anc_contrib(*values, pm, p);
                crate::sums::lemma_sum_take_succ(ks, g, idx as int);
                assert(ks[idx as int] == d);
                assert(g(d) == (if in_subtree(pm, p, d) && p != d {
                    values@[d] as int
                } else {
                    0
                }));
                assert(visited.contains(p) <==> (in_subtree(pm, p, d) && p != d));
            }
        }
        idx = idx + 1;
    }
    proof {
        assert(ks.take(n as int) =~= ks);
    }
    // Narrow the accumulators back to the engine's signed-delta type.
    let mut out: Vec<(i32, i64)> = Vec::new();
    let mut i: usize = 0;
    while i < n
        invariant
            forest.wf(),
            values.wf(),
            pm == forest@,
            ks == values.keys(),
            sum_abs(*values) <= 0x4000_0000_0000_0000,
            n == values.entries@.len(),
            acc@.len() == n,
            forall|j: int| 0 <= j < n ==> (#[trigger] acc@[j]).0 == values.entries@[j].0,
            forall|j: int|
                0 <= j < n ==> (#[trigger] acc@[j]).1 == values.entries@[j].1 + sum_contrib(
                    ks,
                    anc_contrib(*values, pm, values.entries@[j].0),
                ),
            i <= n,
            out@.len() == i,
            forall|j: int|
                0 <= j < i ==> (#[trigger] out@[j]).0 == values.entries@[j].0 && out@[j].1
                    == spec_cumulated(*values, forest@, values.entries@[j].0),
        decreases n - i,
    {
        let d = values.key_at(i);
        proof {
            values.lemma_entry_is_view(i as int);
            lemma_cumulated_as_anc(*values, pm, d);
            lemma_cumulated_abs(*values, pm, d);
        }
        let c128 = acc[i].1;
        let c: i64 = c128 as i64;
        out.push((d, c));
        i = i + 1;
    }
    let r = PidMap { entries: out };
    proof {
        assert(r.wf()) by {
            assert(forall|a: int, b: int|
                0 <= a < b < r.entries@.len() ==> (#[trigger] r.entries@[a]).0 < (
                #[trigger] r.entries@[b]).0) by {
                assert(forall|j: int|
                    0 <= j < r.entries@.len() ==> (#[trigger] r.entries@[j]).0
                        == values.entries@[j].0);
            }
        }
        assert(r.keys() =~= values.keys());
        assert forall|p: i32| #[trigger]
            r@.contains_key(p) <==> values@.contains_key(p) by {
            if r.spec_contains(p) {
                let j = r.spec_index_of(p);
                assert(values.entries@[j].0 == p);
            }
            if values.spec_contains(p) {
                let j = values.spec_index_of(p);
                assert(r.entries@[j].0 == p);
            }
        }
        assert forall|p: i32| #[trigger]
            values@.contains_key(p) implies r@[p] == spec_cumulated(*values, forest@, p) by {
            let j = values.spec_index_of(p);
            assert(values.entries@[j].0 == p);
            assert(r.entries@[j].0 == p && r.entries@[j].1 == spec_cumulated(
                *values,
                forest@,
                p,
            ));
            r.lemma_entry_is_view(j);
        }
    }
    r
}

/// Self ticks a process had in the previous snapshot, zero if it was not
/// there.
pub open spec fn prev_self(prevs: Map<i32, PidSample>, d: i32) -> int {
    if prevs.contains_key(d) {
        prevs[d].total_self_ticks as int
    } else {
        0
    }
}

/// What `d` contributes to the alive-subtree delta of `p`: its self-tick
/// growth since the previous snapshot, if it lies in `p`'s subtree now.
pub open spec fn alive_contrib(cur: Snapshot, prevs: Map<i32, PidSample>, p: i32) -> spec_fn(
    i32,
) -> int {
    |d: i32|
        if in_subtree(cur.forest@, p, d) {
            cur.samples@[d].total_self_ticks - prev_self(prevs, d)
        } else {
            0
        }
}

/// Ticks consumed during the interval by processes still alive now, summed
/// over the current subtree of `p`.
pub open spec fn alive_sum(cur: Snapshot, prevs: Map<i32, PidSample>, p: i32) -> int {
    sum_contrib(cur.samples.keys(), alive_contrib(cur, prevs, p))
}

/// What `d` contributes to the pre-previous ticks of descendants of `p`
/// that died during the interval: its previous self ticks, if it was in
/// `p`'s previous subtree and has vanished.
pub open spec fn dying_contrib(prev: Snapshot, curs: Map<i32, PidSample>, p: i32) -> spec_fn(
    i32,
) -> int {
    |d: i32|
        if in_subtree(prev.forest@, p, d) && !curs.contains_key(d) {
            prev.samples@[d].total_self_ticks as int
        } else {
            0
        }
}

/// Self ticks, as of the previous snapshot, of every descendant of `p`
/// that has since vanished; those ticks were already reported last time.
pub open spec fn dying_sum(prev: Snapshot, curs: Map<i32, PidSample>, p: i32) -> int {
    sum_contrib(prev.samples.keys(), dying_contrib(prev, curs, p))
}

pub open spec fn reaped_of(s: Map<i32, PidSample>, d: i32) -> int {
    if s.contains_key(d) {
        s[d].reaped_subtree_ticks as int
    } else {
        0
    }
}

/// Ticks consumed during the interval between the snapshots by the subtree
/// rooted at `p`: the growth of the alive subtree, plus the growth of the
/// reaped-descendants total (the full lifetime ticks of descendants that
/// died during the interval), minus the part of those lifetimes that the
/// previous snapshot had already seen. Without a previous snapshot it is
/// the since-boot total of the subtree.
pub open spec fn spec_tick_delta(prev: Option<Snapshot>, cur: Snapshot, p: i32) -> int {
    match prev {
        Some(pv) => alive_sum(cur, pv.samples@, p) + cur.samples@[p].reaped_subtree_ticks
            - reaped_of(pv.samples@, p) - dying_sum(pv, cur.samples@, p),
        None => alive_sum(cur, Map::empty(), p) + cur.samples@[p].reaped_subtree_ticks,
    }
}

/// A process absent from the previous snapshot had no previous subtree:
/// nothing died out of it.
pub proof fn lemma_dying_sum_absent(prev: Snapshot, curs: Map<i32, PidSample>, p: i32)
    requires
        prev.wf(),
        !prev.samples@.contains_key(p),
    ensures
        dying_sum(prev, curs, p) == 0,
{
    let f = dying_contrib(prev, curs, p);
    let ks = prev.samples.keys();
    assert forall|j: int| 0 <= j < ks.len() implies #[trigger] f(ks[j]) == 0 by {
        let d = ks[j];
        prev.samples.lemma_entry_is_view(j);
        if in_subtree(prev.forest@, p, d) {
            if p == d {
                assert(prev.samples@.contains_key(p));
            } else {
                lemma_in_subtree_target(prev.forest@, prev.forest.depth@, p, d);
                let c = choose|c: i32| #[trigger]
                    prev.forest@.contains_key(c) && prev.forest@[c] == p;
                assert(prev.samples@.contains_key(p));
            }
        }
    }
    lemma_sum_zero(ks, f);
}

/// The previous-snapshot contents, or empty when there was none.
pub open spec fn prev_samples_of(prev: Option<&Snapshot>) -> Map<i32, PidSample> {
    match prev {
        Some(pv) => pv.samples@,
        None => Map::empty(),
    }
}

/// Ticks consumed by every process subtree between two snapshots.
///
/// The result has one entry per process visible now; its value at `p` is
/// `spec_tick_delta` for `p`: alive-subtree growth plus the newly reaped
/// lifetimes, corrected by what the previous snapshot had already counted.
pub fn tick_deltas(prev: Option<&Snapshot>, cur: &Snapshot) -> (r: PidMap<i64>)
    requires
        cur.wf(),
        match prev {
            Some(pv) => pv.wf(),
            None => true,
        },
    ensures
        r.wf(),
        r.keys() == cur.samples.keys(),
        forall|p: i32| #[trigger] r@.contains_key(p) <==> cur.samples@.contains_key(p),
        forall|p: i32| #[trigger]
            cur.samples@.contains_key(p) ==> r@[p] == spec_tick_delta(
                match prev {
                    Some(pv) => Some(*pv),
                    None => None,
                },
                *cur,
                p,
            ),
{
    let ghost prevs = prev_samples_of(prev);
    let ghost cks = cur.samples.keys();
    proof {
        cur.samples.lemma_keys_no_duplicates();
    }

    // Per-process self-tick growth since the previous snapshot.
    let n = cur.samples.len();
    let mut sd_entries: Vec<(i32, i64)> = Vec::new();
    let mut i: usize = 0;
    while i < n
        invariant
            cur.wf(),
            match prev {
                Some(pv) => pv.wf(),
                None => true,
            },
            prevs == prev_samples_of(prev),
            n == cur.samples.entries@.len(),
            cks == cur.samples.keys(),
            cks.len() == n,
            i <= n,
            sd_entries@.len() == i,
            forall|j: int|
                0 <= j < i ==> (#[trigger] sd_entries@[j]).0 == cur.samples.entries@[j].0
                    && sd_entries@[j].1 == cur.samples.entries@[j].1.total_self_ticks - prev_self(
                    prevs,
                    cur.samples.entries@[j].0,
                ),
        decreases n - i,
    {
        let d = cur.samples.key_at(i);
        let s = cur.samples.val_at(i);
        proof {
            cur.samples.lemma_entry_is_view(i as int);
            let selfs = |q: i32| cur.samples@[q].total_self_ticks as int;
            assert(forall|j: int|
                0 <= j < cks.len() ==> 0 <= #[trigger] selfs(cks[j])) by {
                assert(forall|j: int|
                    0 <= j < cks.len() ==> cks[j] == cur.samples.entries@[j].0);
            }
            lemma_sum_congruence(
                cks,
                selfs,
                |q: i32| cur.samples@[q].total_self_ticks as int,
            );
            lemma_sum_elem_le(cks, selfs, i as int);
            assert(selfs(d) == cur.samples@[d].total_self_ticks as int);
            assert(sum_contrib(cks, selfs) == cur.sum_self()) by {
                lemma_sum_congruence(
                    cks,
                    selfs,
                    |q: i32| cur.samples@[q].total_self_ticks as int,
                );
            }
        }
        let p_self: u64 = match prev {
            Some(pv) => match pv.samples.get(d) {
                Some(ps) => {
                    proof {
                        let pselfs = |q: i32| pv.samples@[q].total_self_ticks as int;
                        let pks = pv.samples.keys();
                        pv.samples.lemma_keys_no_duplicates();
                        let j = pv.samples.spec_index_of(d);
                        assert(pv.samples.entries@[j].0 == d);
                        assert(pks[j] == d);
                        assert(forall|jj: int|
                            0 <= jj < pks.len() ==> 0 <= #[trigger] pselfs(pks[jj])) by {
                            assert(forall|jj: int|
                                0 <= jj < pks.len() ==> pks[jj] == pv.samples.entries@[jj].0);
                        }
                        lemma_sum_elem_le(pks, pselfs, j);
                        assert(sum_contrib(pks, pselfs) == pv.sum_self()) by {
                            lemma_sum_congruence(
                                pks,
                                pselfs,
                                |q: i32| pv.samples@[q].total_self_ticks as int,
                            );
                        }
                    }
                    ps.total_self_ticks
                },
                None => 0,
            },
            None => 0,
        };
        proof {
            assert(p_self == prev_self(prevs, d));
            assert(cur.samples@[d].total_self_ticks <= tick_cap());
            assert(p_self <= tick_cap());
        }
        let sdv: i64 = (s.total_self_ticks as i64) - (p_self as i64);
        sd_entries.push((d, sdv));
        i = i + 1;
    }
    let sd = PidMap { entries: sd_entries };
    proof {
        assert(forall|j: int|
            0 <= j < sd.entries@.len() ==> (#[trigger] sd.entries@[j]).0
                == cur.samples.entries@[j].0);
        assert(sd.wf());
        assert(sd.keys() =~= cks);
        sd.lemma_keys_no_duplicates();
        // Every key's delta is the spec delta.
        assert forall|j: int| 0 <= j < cks.len() implies sd@[cks[j]]
            == cur.samples@[cks[j]].total_self_ticks - prev_self(prevs, cks[j]) by {
            sd.lemma_entry_is_view(j);
            cur.samples.lemma_entry_is_view(j);
        }
        // The absolute values of the deltas are summable within the cap.
        assert(sum_abs(sd) <= 2 * tick_cap()) by {
            let absf = |q: i32| abs1(sd@[q] as int);
            let selfs = |q: i32| cur.samples@[q].total_self_ticks as int;
            let prevf = |q: i32| prev_self(prevs, q);
            let both = |q: i32| selfs(q) + prevf(q);
            assert forall|j: int| 0 <= j < cks.len() implies #[trigger] absf(cks[j]) <= both(
                cks[j],
            ) by {
                sd.lemma_entry_is_view(j);
                cur.samples.lemma_entry_is_view(j);
            }
            lemma_sum_le(cks, absf, both);
            lemma_sum_add(cks, selfs, prevf, both);
            assert(sum_contrib(cks, selfs) == cur.sum_self()) by {
                lemma_sum_congruence(
                    cks,
                    selfs,
                    |q: i32| cur.samples@[q].total_self_ticks as int,
                );
            }
            match prev {
                Some(pv) => {
                    let pks = pv.samples.keys();
                    let pselfs = |q: i32| pv.samples@[q].total_self_ticks as int;
                    pv.samples.lemma_keys_no_duplicates();
                    assert(forall|j: int|
                        0 <= j < cks.len() ==> 0 <= #[trigger] prevf(cks[j]));
                    assert(forall|j: int|
                        0 <= j < pks.len() ==> 0 <= #[trigger] pselfs(pks[j])) by {
                        assert(forall|j: int|
                            0 <= j < pks.len() ==> pks[j] == pv.samples.entries@[j].0);
                    }
                    assert forall|j: int|
                        0 <= j < cks.len() && #[trigger] prevf(cks[j]) > 0 implies pks.contains(
                        cks[j],
                    ) && prevf(cks[j]) <= pselfs(cks[j]) by {
                        let q = cks[j];
                        assert(prevs.contains_key(q));
                        let jj = pv.samples.spec_index_of(q);
                        assert(pv.samples.entries@[jj].0 == q);
                        assert(pks[jj] == q);
                    }
                    lemma_sum_inject(cks, prevf, pks, pselfs);
                    assert(sum_contrib(pks, pselfs) == pv.sum_self()) by {
                        lemma_sum_congruence(
                            pks,
                            pselfs,
                            |q: i32| pv.samples@[q].total_self_ticks as int,
                        );
                    }
                },
                None => {
                    assert(forall|j: int|
                        0 <= j < cks.len() ==> #[trigger] prevf(cks[j]) == 0);
                    lemma_sum_zero(cks, prevf);
                },
            }
            assert(sum_contrib(cks, absf) == sum_abs(sd)) by {
                lemma_sum_congruence(cks, absf, |q: i32| abs1(sd@[q] as int));
            }
        }
    }

    // Tree totals of the growth, over the current forest.
    let alive = get_cumulated(&cur.forest, &sd);
    proof {
        assert forall|p: i32| #[trigger]
            cur.samples@.contains_key(p) implies alive@.contains_key(p) && alive@[p] == alive_sum(
            *cur,
            prevs,
            p,
        ) && -2 * tick_cap() <= alive@[p] <= 2 * tick_cap() by {
            let j = cur.samples.spec_index_of(p);
            assert(cur.samples.entries@[j].0 == p);
            assert(sd.entries@[j].0 == p);
            assert(sd@.contains_key(p));
            assert(alive@[p] == spec_cumulated(sd, cur.forest@, p));
            let f1 = cumul_contrib(sd, cur.forest@, p);
            let f2 = alive_contrib(*cur, prevs, p);
            assert forall|jj: int| 0 <= jj < cks.len() implies #[trigger] f1(cks[jj]) == f2(
                cks[jj],
            ) by {
                sd.lemma_entry_is_view(jj);
                cur.samples.lemma_entry_is_view(jj);
            }
            lemma_sum_congruence(cks, f1, f2);
            lemma_cumulated_abs(sd, cur.forest@, p);
        }
    }

    // Tree totals, over the previous forest, of the previous self ticks of
    // processes that have vanished.
    let pre: Option<PidMap<i64>> = match prev {
        Some(pv) => {
            let pn = pv.samples.len();
            let mut dy_entries: Vec<(i32, i64)> = Vec::new();
            let mut k: usize = 0;
            proof {
                pv.samples.lemma_keys_no_duplicates();
            }
            while k < pn
                invariant
                    cur.wf(),
                    pv.wf(),
                    pn == pv.samples.entries@.len(),
                    k <= pn,
                    dy_entries@.len() == k,
                    forall|j: int|
                        0 <= j < k ==> (#[trigger] dy_entries@[j]).0 == pv.samples.entries@[j].0
                            && dy_entries@[j].1 == (if cur.samples@.contains_key(
                            pv.samples.entries@[j].0,
                        ) {
                            0
                        } else {
                            pv.samples.entries@[j].1.total_self_ticks as int
                        }),
                decreases pn - k,
            {
                let d = pv.samples.key_at(k);
                let s = pv.samples.val_at(k);
                proof {
                    pv.samples.lemma_entry_is_view(k as int);
                    let pks = pv.samples.keys();
                    let pselfs = |q: i32| pv.samples@[q].total_self_ticks as int;
                    assert(forall|j: int|
                        0 <= j < pks.len() ==> 0 <= #[trigger] pselfs(pks[j])) by {
                        assert(forall|j: int|
                            0 <= j < pks.len() ==> pks[j] == pv.samples.entries@[j].0);
                    }
                    lemma_sum_elem_le(pks, pselfs, k as int);
                    assert(sum_contrib(pks, pselfs) == pv.sum_self()) by {
                        lemma_sum_congruence(
                            pks,
                            pselfs,
                            |q: i32| pv.samples@[q].total_self_ticks as int,
                        );
                    }
                }
                let dv: i64 = match cur.samples.get(d) {
                    Some(_) => 0,
                    None => s.total_self_ticks as i64,
                };
                dy_entries.push((d, dv));
                k = k + 1;
            }
            let dy = PidMap { entries: dy_entries };
            proof {
                let pks = pv.samples.keys();
                assert(forall|j: int|
                    0 <= j < dy.entries@.len() ==> (#[trigger] dy.entries@[j]).0
                        == pv.samples.entries@[j].0);
                assert(dy.wf());
                assert(dy.keys() =~= pks);
                dy.lemma_keys_no_duplicates();
                assert forall|j: int| 0 <= j < pks.len() implies dy@[pks[j]] == (if cur.samples@.contains_key(
                    pks[j],
                ) {
                    0int
                } else {
                    pv.samples@[pks[j]].total_self_ticks as int
                }) by {
                    dy.lemma_entry_is_view(j);
                    pv.samples.lemma_entry_is_view(j);
                }
                assert(sum_abs(dy) <= tick_cap()) by {
                    let absf = |q: i32| abs1(dy@[q] as int);
                    let pselfs = |q: i32| pv.samples@[q].total_self_ticks as int;
                    assert forall|j: int| 0 <= j < pks.len() implies #[trigger] absf(pks[j])
                        <= pselfs(pks[j]) by {
                        dy.lemma_entry_is_view(j);
                        pv.samples.lemma_entry_is_view(j);
                    }
                    lemma_sum_le(pks, absf, pselfs);
                    assert(sum_contrib(pks, pselfs) == pv.sum_self()) by {
                        lemma_sum_congruence(
                            pks,
                            pselfs,
                            |q: i32| pv.samples@[q].total_self_ticks as int,
                        );
                    }
                    assert(sum_contrib(pks, absf) == sum_abs(dy)) by {
                        lemma_sum_congruence(pks, absf, |q: i32| abs1(dy@[q] as int));
                    }
                }
            }
            let pm = get_cumulated(&pv.forest, &dy);
            proof {
                assert forall|p: i32| #[trigger]
                    pm@.contains_key(p) <==> pv.samples@.contains_key(p) by {
                    if dy.spec_contains(p) {
                        let j = dy.spec_index_of(p);
                        assert(pv.samples.entries@[j].0 == p);
                    }
                    if pv.samples.spec_contains(p) {
                        let j = pv.samples.spec_index_of(p);
                        assert(dy.entries@[j].0 == p);
                    }
                }
                let pks = pv.samples.keys();
                assert forall|p: i32| #[trigger]
                    pv.samples@.contains_key(p) implies pm@.contains_key(p) && pm@[p]
                    == dying_sum(*pv, cur.samples@, p) && -tick_cap() <= pm@[p] <= tick_cap() by {
                    let j = pv.samples.spec_index_of(p);
                    assert(pv.samples.entries@[j].0 == p);
                    assert(dy.entries@[j].0 == p);
                    assert(dy@.contains_key(p));
                    assert(pm@[p] == spec_cumulated(dy, pv.forest@, p));
                    let f1 = cumul_contrib(dy, pv.forest@, p);
                    let f2 = dying_contrib(*pv, cur.samples@, p);
                    assert forall|jj: int| 0 <= jj < pks.len() implies #[trigger] f1(pks[jj])
                        == f2(pks[jj]) by {
                        dy.lemma_entry_is_view(jj);
                        pv.samples.lemma_entry_is_view(jj);
                    }
                    lemma_sum_congruence(pks, f1, f2);
                    lemma_cumulated_abs(dy, pv.forest@, p);
                }
            }
            Some(pm)
        },
        None => None,
    };

    // Assemble the per-root deltas.
    let ghost sprev: Option<Snapshot> = match prev {
        Some(pv) => Some(*pv),
        None => None,
    };
    let mut out: Vec<(i32, i64)> = Vec::new();
    let mut i2: usize = 0;
    while i2 < n
        invariant
            cur.wf(),
            match prev {
                Some(pv) => pv.wf(),
                None => true,
            },
            sprev == (match prev {
                Some(pv) => Some(*pv),
                None => None,
            }),
            prevs == prev_samples_of(prev),
            n == cur.samples.entries@.len(),
            cks == cur.samples.keys(),
            i2 <= n,
            out@.len() == i2,
            alive.wf(),
            alive.keys() == cks,
            forall|p: i32| #[trigger]
                cur.samples@.contains_key(p) ==> alive@.contains_key(p) && alive@[p] == alive_sum(
                    *cur,
                    prevs,
                    p,
                ) && -2 * tick_cap() <= alive@[p] <= 2 * tick_cap(),
            match (prev, pre) {
                (Some(pv), Some(pm)) => pm.wf() && (forall|p: i32| #[trigger]
                    pm@.contains_key(p) <==> pv.samples@.contains_key(p)) && (forall|p: i32|
                    #[trigger] pv.samples@.contains_key(p) ==> pm@.contains_key(p) && pm@[p]
                        == dying_sum(*pv, cur.samples@, p) && -tick_cap() <= pm@[p]
                        <= tick_cap()),
                (None, None) => true,
                _ => false,
            },
            forall|j: int|
                0 <= j < i2 ==> (#[trigger] out@[j]).0 == cur.samples.entries@[j].0 && out@[j].1
                    == spec_tick_delta(sprev, *cur, cur.samples.entries@[j].0),
        decreases n - i2,
    {
        let d = cur.samples.key_at(i2);
        let s = cur.samples.val_at(i2);
        proof {
            cur.samples.lemma_entry_is_view(i2 as int);
        }
        let a = match alive.get(d) {
            Some(v) => v,
            None => {
                proof {
                    assert(alive@.contains_key(d));
                    assert(false);
                }
                0
            },
        };
        let reaped_prev: i64 = match prev {
            Some(pv) => match pv.samples.get(d) {
                Some(ps) => ps.reaped_subtree_ticks,
                None => 0,
            },
            None => 0,
        };
        let pre_p: i64 = match (&pre, prev) {
            (Some(pm), Some(pv)) => match pm.get(d) {
                Some(v) => v,
                None => {
                    proof {
                        lemma_dying_sum_absent(*pv, cur.samples@, d);
                    }
                    0
                },
            },
            _ => 0,
        };
        let total128: i128 = (a as i128) + (s.reaped_subtree_ticks as i128) - (reaped_prev
            as i128) - (pre_p as i128);
        proof {
            assert(-tick_cap() <= s.reaped_subtree_ticks <= tick_cap());
            assert(a == alive_sum(*cur, prevs, d) && -2 * tick_cap() <= a <= 2 * tick_cap());
            match prev {
                Some(pv) => {
                    assert(prevs == pv.samples@);
                    assert(reaped_prev == reaped_of(pv.samples@, d));
                    assert(-tick_cap() <= reaped_prev <= tick_cap());
                    assert(pre_p == dying_sum(*pv, cur.samples@, d)) by {
                        if pv.samples@.contains_key(d) {
                        } else {
                            lemma_dying_sum_absent(*pv, cur.samples@, d);
                        }
                    }
                    assert(-tick_cap() <= pre_p <= tick_cap()) by {
                        if !pv.samples@.contains_key(d) {
                            lemma_dying_sum_absent(*pv, cur.samples@, d);
                        }
                    }
                },
                None => {
                    assert(reaped_prev == 0 && pre_p == 0);
                },
            }
            assert(total128 == spec_tick_delta(sprev, *cur, d));
            assert(-0x8000_0000_0000_0000 <= total128 < 0x8000_0000_0000_0000);
        }
        let dv: i64 = total128 as i64;
        out.push((d, dv));
        i2 = i2 + 1;
    }
    let r = PidMap { entries: out };
    proof {
        assert(forall|j: int|
            0 <= j < r.entries@.len() ==> (#[trigger] r.entries@[j]).0
                == cur.samples.entries@[j].0);
        assert(r.wf());
        assert(r.keys() =~= cks);
        assert forall|p: i32| #[trigger]
            r@.contains_key(p) <==> cur.samples@.contains_key(p) by {
            if r.spec_contains(p) {
                let j = r.spec_index_of(p);
                assert(cur.samples.entries@[j].0 == p);
            }
            if cur.samples.spec_contains(p) {
                let j = cur.samples.spec_index_of(p);
                assert(r.entries@[j].0 == p);
            }
        }
        assert forall|p: i32| #[trigger]
            cur.samples@.contains_key(p) implies r@[p] == spec_tick_delta(sprev, *cur, p) by {
            let j = cur.samples.spec_index_of(p);
            assert(cur.samples.entries@[j].0 == p);
            assert(r.entries@[j].0 == p);
            r.lemma_entry_is_view(j);
        }
    }
    r
}

/// One sampling iteration's computation: the per-subtree tick deltas and
/// the divisor for turning them into loads — the ticks elapsed since the
/// previous snapshot, or since boot when there is none. A clock that
/// stepped backwards yields a zero divisor rather than wrapping.
pub fn sample_step(prev: Option<&Snapshot>, cur: &Snapshot) -> (r: (PidMap<i64>, u64))
    requires
        cur.wf(),
        match prev {
            Some(pv) => pv.wf(),
            None => true,
        },
    ensures
        r.0.wf(),
        forall|p: i32| #[trigger] r.0@.contains_key(p) <==> cur.samples@.contains_key(p),
        forall|p: i32| #[trigger]
            cur.samples@.contains_key(p) ==> r.0@[p] == spec_tick_delta(
                match prev {
                    Some(pv) => Some(*pv),
                    None => None,
                },
                *cur,
                p,
            ),
        r.1 == (match prev {
            Some(pv) => if cur.taken_at_ticks >= pv.taken_at_ticks {
                cur.taken_at_ticks - pv.taken_at_ticks
            } else {
                0
            },
            None => cur.taken_at_ticks as int,
        }),
{
    let deltas = tick_deltas(prev, cur);
    let dt: u64 = match prev {
        Some(pv) => {
            if cur.taken_at_ticks >= pv.taken_at_ticks {
                cur.taken_at_ticks - pv.taken_at_ticks
            } else {
                0
            }
        },
        None => cur.taken_at_ticks,
    };
    (deltas, dt)
}

} // verus!
