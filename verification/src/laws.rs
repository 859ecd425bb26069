//! Laws of the tree-delta engine.
//!
//! The engine's contracts state what each function returns; the lemmas
//! here state the global properties that follow and that a user may rely
//! on.

use vstd::prelude::*;

use crate::engine::{
    alive_contrib, alive_sum, cumul_contrib, dying_contrib, dying_sum, spec_cumulated,
    spec_tick_delta,
};
use crate::config::{spec_matches, Test};
use crate::forest::in_subtree;
use crate::numeric::{
    dec_le_dec, f_is_nan, lemma_bits_lt_dec_mono, lemma_dec_le_bits_complement, Dec,
};
use crate::pidmap::PidMap;
use crate::snapshot::{first_map, lemma_first_map_from_records, ProcRecord, Snapshot};
use crate::sums::{lemma_sum_congruence, lemma_sum_remove, lemma_sum_zero, sum_contrib};

verus! {

/// In a forest with no parent links every subtree is just its root, so
/// cumulating returns every value unchanged: cumulation adds nothing that
/// is not below a node, and re-cumulating an already flattened forest is
/// the identity.
pub proof fn lemma_cumulate_no_links_identity(values: PidMap<i64>, p: i32)
    requires
        values.wf(),
    ensures
        spec_cumulated(values, Map::<i32, i32>::empty(), p) == (if values@.contains_key(p) {
            values@[p] as int
        } else {
            0
        }),
{
    let parent = Map::<i32, i32>::empty();
    let f = cumul_contrib(values, parent, p);
    let ks = values.keys();
    values.lemma_keys_no_duplicates();
    assert(forall|d: i32| #[trigger] in_subtree(parent, p, d) <==> p == d);
    if values@.contains_key(p) {
        let j = values.spec_index_of(p);
        assert(values.entries@[j].0 == p);
        assert(ks[j] == p);
        lemma_sum_remove(ks, f, j);
        let ks1 = ks.remove(j);
        assert(forall|i: int|
            0 <= i < ks1.len() ==> ks1[i] == (if i < j {
                ks[i]
            } else {
                ks[i + 1]
            }));
        assert(forall|i: int| 0 <= i < ks1.len() ==> #[trigger] f(ks1[i]) == 0);
        lemma_sum_zero(ks1, f);
        assert(f(p) == values@[p] as int);
    } else {
        assert(forall|i: int| 0 <= i < ks.len() ==> #[trigger] f(ks[i]) == 0) by {
            if values.spec_contains(p) {
                let j = values.spec_index_of(p);
                assert(values.entries@[j].0 == p);
            }
        }
        lemma_sum_zero(ks, f);
    }
}

/// With the current snapshot also taken as the previous one, every tree
/// delta is zero: no process grew, nothing was reaped anew, nothing died.
pub proof fn lemma_tick_delta_self_is_zero(cur: Snapshot, p: i32)
    requires
        cur.wf(),
        cur.samples@.contains_key(p),
    ensures
        spec_tick_delta(Some(cur), cur, p) == 0,
{
    let ks = cur.samples.keys();
    cur.samples.lemma_keys_no_duplicates();
    let fa = alive_contrib(cur, cur.samples@, p);
    assert(forall|i: int| 0 <= i < ks.len() ==> #[trigger] fa(ks[i]) == 0) by {
        assert forall|i: int| 0 <= i < ks.len() implies #[trigger] fa(ks[i]) == 0 by {
            cur.samples.lemma_entry_is_view(i);
        }
    }
    lemma_sum_zero(ks, fa);
    let fd = dying_contrib(cur, cur.samples@, p);
    assert(forall|i: int| 0 <= i < ks.len() ==> #[trigger] fd(ks[i]) == 0) by {
        assert forall|i: int| 0 <= i < ks.len() implies #[trigger] fd(ks[i]) == 0 by {
            cur.samples.lemma_entry_is_view(i);
        }
    }
    lemma_sum_zero(ks, fd);
    assert(alive_sum(cur, cur.samples@, p) == 0);
    assert(dying_sum(cur, cur.samples@, p) == 0);
}

/// Tree deltas depend only on the snapshots' contents. Two well-formed
/// snapshots holding the same samples and the same parent links — however
/// they were assembled — give the same delta at every root; child order
/// does not exist in the parent-link model at all, so no ordering of
/// children can influence a delta.
pub proof fn lemma_tick_delta_content_only(
    prev1: Option<Snapshot>,
    cur1: Snapshot,
    prev2: Option<Snapshot>,
    cur2: Snapshot,
    p: i32,
)
    requires
        cur1.wf(),
        cur2.wf(),
        cur1.samples@ == cur2.samples@,
        cur1.forest@ == cur2.forest@,
        match (prev1, prev2) {
            (Some(a), Some(b)) => a.wf() && b.wf() && a.samples@ == b.samples@ && a.forest@
                == b.forest@,
            (None, None) => true,
            _ => false,
        },
        cur1.samples@.contains_key(p),
    ensures
        spec_tick_delta(prev1, cur1, p) == spec_tick_delta(prev2, cur2, p),
{
    assert forall|k: i32| #[trigger] cur1.samples@.contains_key(k)
        <==> cur2.samples@.contains_key(k) by {}
    cur1.samples.lemma_keys_canonical(cur2.samples);
    let cks = cur1.samples.keys();
    match (prev1, prev2) {
        (Some(a), Some(b)) => {
            lemma_sum_congruence(
                cks,
                alive_contrib(cur1, a.samples@, p),
                alive_contrib(cur2, b.samples@, p),
            );
            assert forall|k: i32| #[trigger] a.samples@.contains_key(k)
                <==> b.samples@.contains_key(k) by {}
            a.samples.lemma_keys_canonical(b.samples);
            lemma_sum_congruence(
                a.samples.keys(),
                dying_contrib(a, cur1.samples@, p),
                dying_contrib(b, cur2.samples@, p),
            );
        },
        (None, None) => {
            lemma_sum_congruence(
                cks,
                alive_contrib(cur1, Map::empty(), p),
                alive_contrib(cur2, Map::empty(), p),
            );
        },
        _ => {},
    }
}

/// In a sequence of records with pairwise distinct pids, the first-wins
/// map holds exactly those records, each under its own pid.
proof fn lemma_first_map_exact(records: Seq<ProcRecord>, i: int)
    requires
        forall|a: int, b: int|
            0 <= a < b < records.len() ==> (#[trigger] records[a]).pid != (
            #[trigger] records[b]).pid,
        0 <= i < records.len(),
    ensures
        first_map(records).contains_key(records[i].pid),
        first_map(records)[records[i].pid] == records[i],
    decreases records.len(),
{
    let m = first_map(records.drop_last());
    assert(forall|a: int|
        0 <= a < records.drop_last().len() ==> records.drop_last()[a] == records[a]);
    if i == records.len() - 1 {
        if m.contains_key(records[i].pid) {
            lemma_first_map_from_records(records.drop_last(), records[i].pid);
            let j = choose|j: int|
                0 <= j < records.drop_last().len() && records.drop_last()[j] == m[records[i].pid];
            assert(records[j].pid == records[i].pid);
            assert(false);
        }
    } else {
        lemma_first_map_exact(records.drop_last(), i);
    }
}

/// The first-wins record map does not depend on the order of the records,
/// as long as the pids are pairwise distinct: any two orderings of the
/// same records produce the same map, and with it the same snapshot and
/// the same tree deltas.
pub proof fn lemma_first_map_order_irrelevant(r1: Seq<ProcRecord>, r2: Seq<ProcRecord>)
    requires
        r1.to_multiset() == r2.to_multiset(),
        forall|a: int, b: int|
            0 <= a < b < r1.len() ==> (#[trigger] r1[a]).pid != (#[trigger] r1[b]).pid,
    ensures
        first_map(r1) == first_map(r2),
{
    broadcast use vstd::seq_lib::group_seq_properties;

    r1.to_multiset_ensures();
    r2.to_multiset_ensures();
    // The pid-distinctness carries over to the permuted sequence.
    assert forall|a: int, b: int|
        0 <= a < b < r2.len() implies (#[trigger] r2[a]).pid != (#[trigger] r2[b]).pid by {
        if r2[a].pid == r2[b].pid {
            if r2[a] == r2[b] {
                // The same record twice: its count is at least two, so the
                // original sequence also repeats it.
                r2.to_multiset_ensures();
                assert(r2.remove(a).to_multiset() =~= r2.to_multiset().remove(r2[a]));
                r2.remove(a).to_multiset_ensures();
                assert(r2.remove(a)[b - 1] == r2[b]);
                assert(r2.remove(a).contains(r2[b]));
                assert(r2.remove(a).to_multiset().count(r2[b]) > 0);
                assert(r1.to_multiset().count(r2[a]) >= 2);
                assert(r1.no_duplicates()) by {
                    assert(forall|x: int, y: int|
                        0 <= x < y < r1.len() ==> r1[x] != r1[y]);
                }
                r1.lemma_multiset_has_no_duplicates();
                assert(r1.to_multiset().contains(r2[a]));
                assert(false);
            } else {
                // Two different records with one pid: both occur in the
                // original sequence, at different places.
                assert(r2.contains(r2[a]) && r2.contains(r2[b]));
                assert(r1.to_multiset().count(r2[a]) > 0);
                assert(r1.to_multiset().count(r2[b]) > 0);
                assert(r1.contains(r2[a]) && r1.contains(r2[b]));
                let x = choose|x: int| 0 <= x < r1.len() && r1[x] == r2[a];
                let y = choose|y: int| 0 <= y < r1.len() && r1[y] == r2[b];
                assert(x != y);
                assert(false);
            }
        }
    }
    assert forall|p: i32| #[trigger]
        first_map(r1).contains_key(p) || first_map(r2).contains_key(p) implies first_map(
        r1,
    ).contains_key(p) == first_map(r2).contains_key(p) && (first_map(r1).contains_key(p)
        ==> first_map(r1)[p] == first_map(r2)[p]) by {
        if first_map(r1).contains_key(p) {
            lemma_first_map_from_records(r1, p);
            let i = choose|i: int| 0 <= i < r1.len() && r1[i] == first_map(r1)[p];
            assert(r1.contains(r1[i]));
            assert(r2.to_multiset().count(r1[i]) > 0);
            assert(r2.contains(r1[i]));
            let j = choose|j: int| 0 <= j < r2.len() && r2[j] == r1[i];
            lemma_first_map_exact(r1, i);
            lemma_first_map_exact(r2, j);
        }
        if first_map(r2).contains_key(p) {
            lemma_first_map_from_records(r2, p);
            let j = choose|j: int| 0 <= j < r2.len() && r2[j] == first_map(r2)[p];
            assert(r2.contains(r2[j]));
            assert(r1.to_multiset().count(r2[j]) > 0);
            assert(r1.contains(r2[j]));
            let i = choose|i: int| 0 <= i < r1.len() && r1[i] == r2[j];
            lemma_first_map_exact(r2, j);
            lemma_first_map_exact(r1, i);
        }
    }
    assert(first_map(r1) =~= first_map(r2));
}

/// An empty range matches nothing: no value is at least a bound and at
/// the same time strictly below that same bound, whichever the bound and
/// whatever the value.
pub proof fn lemma_empty_range_matches_nothing(d: Dec, v: u32)
    ensures
        !spec_matches(Test::Range(Some(d), Some(d)), v),
{
    if !f_is_nan(v) {
        lemma_dec_le_bits_complement(d, v);
    }
}

/// An inverted range matches nothing either: when the high bound is at
/// most the low bound, no value is at least the low bound and strictly
/// below the high one.
pub proof fn lemma_inverted_range_matches_nothing(lo: Dec, hi: Dec, v: u32)
    requires
        dec_le_dec(hi, lo),
    ensures
        !spec_matches(Test::Range(Some(lo), Some(hi)), v),
{
    if !f_is_nan(v) && spec_matches(Test::Range(Some(lo), Some(hi)), v) {
        lemma_bits_lt_dec_mono(v, hi, lo);
        lemma_dec_le_bits_complement(lo, v);
    }
}

} // verus!
