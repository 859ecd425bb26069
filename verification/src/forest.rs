//! The process forest, modelled by a parent map.
//!
//! A snapshot stores, for every process that has a visible parent, that
//! parent's pid. `d` lies in the subtree of `root` when following parent
//! links from `d` reaches `root`. Acyclicity is witnessed by a ghost depth
//! map that strictly decreases along parent links; child order does not
//! exist in this model, which makes tree totals independent of it by
//! construction.

use vstd::prelude::*;

verus! {

/// More steps than any acyclic parent chain over distinct `i32` pids can
/// have.
pub open spec fn chain_fuel() -> nat {
    0x4_0000_0000_0000_0000
}

/// Upper bound admitted for depth values; below `chain_fuel()`.
pub open spec fn depth_cap() -> int {
    0x2_0000_0000_0000_0000
}

/// Following parent links from `d` reaches `root` within `fuel` steps.
pub open spec fn in_subtree_fuel(parent: Map<i32, i32>, root: i32, d: i32, fuel: nat) -> bool
    decreases fuel,
{
    if root == d {
        true
    } else if fuel == 0 {
        false
    } else if parent.contains_key(d) {
        in_subtree_fuel(parent, root, parent[d], (fuel - 1) as nat)
    } else {
        false
    }
}

/// `d` is `root` itself or a descendant of `root`.
pub open spec fn in_subtree(parent: Map<i32, i32>, root: i32, d: i32) -> bool {
    in_subtree_fuel(parent, root, d, chain_fuel())
}

/// The depth map witnesses that parent links are acyclic: every node with a
/// parent has a depth, strictly larger than its parent's depth, and all
/// depths are small.
pub open spec fn wf_parent(parent: Map<i32, i32>, depth: Map<i32, int>) -> bool {
    forall|d: i32| #[trigger]
        parent.contains_key(d) ==> depth.contains_key(d) && depth.contains_key(parent[d]) && 0
            <= depth[parent[d]] < depth[d] <= depth_cap()
}

pub open spec fn depth_of(depth: Map<i32, int>, d: i32) -> int {
    if depth.contains_key(d) {
        depth[d]
    } else {
        0
    }
}

/// With enough fuel, the reachability test no longer depends on the fuel.
pub proof fn lemma_in_subtree_fuel_stable(
    parent: Map<i32, i32>,
    depth: Map<i32, int>,
    root: i32,
    d: i32,
    fuel1: nat,
    fuel2: nat,
)
    requires
        wf_parent(parent, depth),
        fuel1 >= depth_of(depth, d),
        fuel2 >= depth_of(depth, d),
    ensures
        in_subtree_fuel(parent, root, d, fuel1) == in_subtree_fuel(parent, root, d, fuel2),
    decreases fuel1 + fuel2,
{
    if root == d {
    } else if parent.contains_key(d) {
        assert(depth[d] >= 1);
        lemma_in_subtree_fuel_stable(
            parent,
            depth,
            root,
            parent[d],
            (fuel1 - 1) as nat,
            (fuel2 - 1) as nat,
        );
    }
}

/// Reachability unfolds one parent step at a time.
pub proof fn lemma_in_subtree_step(parent: Map<i32, i32>, depth: Map<i32, int>, root: i32, d: i32)
    requires
        wf_parent(parent, depth),
    ensures
        in_subtree(parent, root, d) == (root == d || (parent.contains_key(d) && in_subtree(
            parent,
            root,
            parent[d],
        ))),
{
    if root != d && parent.contains_key(d) {
        lemma_in_subtree_fuel_stable(
            parent,
            depth,
            root,
            parent[d],
            (chain_fuel() - 1) as nat,
            chain_fuel(),
        );
    }
}

/// Number of parent-link steps from `d` to a node without a parent, if that
/// takes at most `fuel` steps.
pub open spec fn walk_steps_spec(parent: Map<i32, i32>, d: i32, fuel: nat) -> Option<nat>
    decreases fuel,
{
    if !parent.contains_key(d) {
        Some(0)
    } else if fuel == 0 {
        None
    } else {
        match walk_steps_spec(parent, parent[d], (fuel - 1) as nat) {
            Some(k) => Some(k + 1),
            None => None,
        }
    }
}

/// A walk that finishes within some fuel finishes identically with more.
pub proof fn lemma_walk_steps_mono(parent: Map<i32, i32>, d: i32, fuel1: nat, fuel2: nat)
    requires
        fuel1 <= fuel2,
        walk_steps_spec(parent, d, fuel1).is_some(),
    ensures
        walk_steps_spec(parent, d, fuel2) == walk_steps_spec(parent, d, fuel1),
    decreases fuel1,
{
    if parent.contains_key(d) {
        lemma_walk_steps_mono(parent, parent[d], (fuel1 - 1) as nat, (fuel2 - 1) as nat);
    }
}

/// Every node of a subtree other than the root has a parent, and the root
/// of a reachable node is either the node itself or reachable from its
/// parent. In particular a node reachable from `root` is `root` or lies in
/// the parent map's key or value set.
pub proof fn lemma_in_subtree_target(
    parent: Map<i32, i32>,
    depth: Map<i32, int>,
    root: i32,
    d: i32,
)
    requires
        wf_parent(parent, depth),
        in_subtree(parent, root, d),
        root != d,
    ensures
        exists|c: i32| #[trigger] parent.contains_key(c) && parent[c] == root,
    decreases depth_of(depth, d),
{
    lemma_in_subtree_step(parent, depth, root, d);
    let p = parent[d];
    if p == root {
        assert(parent.contains_key(d) && parent[d] == root);
    } else {
        lemma_in_subtree_target(parent, depth, root, p);
    }
}

/// A proper ancestor sits strictly higher in the forest: smaller depth.
pub proof fn lemma_in_subtree_depth(
    parent: Map<i32, i32>,
    depth: Map<i32, int>,
    q: i32,
    x: i32,
)
    requires
        wf_parent(parent, depth),
        in_subtree(parent, q, x),
        q != x,
    ensures
        depth_of(depth, q) < depth_of(depth, x),
    decreases depth_of(depth, x),
{
    lemma_in_subtree_step(parent, depth, q, x);
    let p = parent[x];
    assert(parent.contains_key(x));
    if q == p {
    } else {
        lemma_in_subtree_depth(parent, depth, q, p);
    }
}

/// Lift `Some(k)` to `Some(k + s)`.
pub open spec fn add_steps(o: Option<nat>, s: nat) -> Option<nat> {
    match o {
        Some(k) => Some(k + s),
        None => None,
    }
}

/// A walk that finishes does so within as many steps as it has fuel.
pub proof fn lemma_walk_steps_bound(parent: Map<i32, i32>, d: i32, fuel: nat, k: nat)
    requires
        walk_steps_spec(parent, d, fuel) == Some(k),
    ensures
        k <= fuel,
    decreases fuel,
{
    if parent.contains_key(d) {
        let sub = walk_steps_spec(parent, parent[d], (fuel - 1) as nat);
        lemma_walk_steps_bound(parent, parent[d], (fuel - 1) as nat, sub.unwrap());
    }
}

/// A parent map together with a ghost witness of its acyclicity.
pub struct Forest {
    pub parent: crate::pidmap::PidMap<i32>,
    pub depth: Ghost<Map<i32, int>>,
}

impl Forest {
    pub open spec fn wf(self) -> bool {
        self.parent.wf() && wf_parent(self.parent@, self.depth@)
    }

    pub open spec fn view(self) -> Map<i32, i32> {
        self.parent@
    }

    /// Follow parent links from `d` for at most `fuel` steps.
    fn walk_steps(parents: &crate::pidmap::PidMap<i32>, d: i32, fuel: u128) -> (r: Option<u128>)
        requires
            parents.wf(),
        ensures
            match r {
                Some(k) => walk_steps_spec(parents@, d, fuel as nat) == Some(k as nat),
                None => walk_steps_spec(parents@, d, fuel as nat).is_none(),
            },
    {
        let mut cur = d;
        let mut steps: u128 = 0;
        while steps < fuel
            invariant
                parents.wf(),
                steps <= fuel,
                walk_steps_spec(parents@, d, fuel as nat) == add_steps(
                    walk_steps_spec(parents@, cur, (fuel - steps) as nat),
                    steps as nat,
                ),
            decreases fuel - steps,
        {
            match parents.get(cur) {
                Some(p) => {
                    cur = p;
                    steps = steps + 1;
                },
                None => {
                    return Some(steps);
                },
            }
        }
        match parents.get(cur) {
            Some(_) => None,
            None => Some(steps),
        }
    }

    /// Check that the parent map has no cycle, and record depths as the
    /// acyclicity witness. Fails exactly when some parent chain cannot
    /// reach a root within `fuel` steps; with `fuel` above the number of
    /// map entries that means the chain has a cycle.
    pub fn from_parents(parents: crate::pidmap::PidMap<i32>, fuel: u128) -> (r: Option<Forest>)
        requires
            parents.wf(),
            parents.entries@.len() < fuel,
            fuel <= depth_cap(),
        ensures
            match r {
                Some(f) => f.wf() && f.parent == parents,
                None => exists|d: i32|
                    parents@.contains_key(d) && #[trigger] walk_steps_spec(
                        parents@,
                        d,
                        fuel as nat,
                    ).is_none(),
            },
            r.is_none() <==> exists|d: i32|
                parents@.contains_key(d) && #[trigger] walk_steps_spec(
                    parents@,
                    d,
                    fuel as nat,
                ).is_none(),
    {
        proof {
            parents.lemma_len_bound();
        }
        let n = parents.len();
        let mut i: usize = 0;
        while i < n
            invariant
                parents.wf(),
                n == parents.entries@.len(),
                n < fuel <= depth_cap(),
                i <= n,
                forall|j: int|
                    0 <= j < i ==> #[trigger] walk_steps_spec(
                        parents@,
                        parents.entries@[j].0,
                        fuel as nat,
                    ).is_some(),
            decreases n - i,
        {
            let d = parents.key_at(i);
            if Self::walk_steps(&parents, d, fuel).is_none() {
                proof {
                    parents.lemma_entry_is_view(i as int);
                }
                return None;
            }
            i = i + 1;
        }
        let ghost depth = Map::<i32, int>::new(
            |d: i32| true,
            |d: i32|
                match walk_steps_spec(parents@, d, chain_fuel()) {
                    Some(k) => k as int,
                    None => 0,
                },
        );
        proof {
            assert forall|d: i32| #[trigger]
                parents@.contains_key(d) implies depth.contains_key(d) && depth.contains_key(
                parents@[d],
            ) && 0 <= depth[parents@[d]] < depth[d] <= depth_cap() by {
                let j = parents.spec_index_of(d);
                assert(parents.entries@[j].0 == d);
                let w = walk_steps_spec(parents@, d, fuel as nat);
                assert(w.is_some());
                let k = w.unwrap();
                lemma_walk_steps_bound(parents@, d, fuel as nat, k);
                lemma_walk_steps_mono(parents@, d, fuel as nat, chain_fuel());
                let sub = walk_steps_spec(parents@, parents@[d], (fuel - 1) as nat);
                assert(sub == Some((k - 1) as nat));
                lemma_walk_steps_mono(parents@, parents@[d], (fuel - 1) as nat, chain_fuel());
                assert(depth[d] == k as int);
                assert(depth[parents@[d]] == k - 1);
            }
        }
        Some(Forest { parent: parents, depth: Ghost(depth) })
    }

    /// Does `d` lie in the subtree rooted at `root`?
    pub fn is_in_subtree(&self, root: i32, d: i32) -> (r: bool)
        requires
            self.wf(),
        ensures
            r == in_subtree(self@, root, d),
    {
        let mut cur = d;
        loop
            invariant
                self.wf(),
                in_subtree(self@, root, cur) == in_subtree(self@, root, d),
            decreases depth_of(self.depth@, cur),
        {
            if cur == root {
                return true;
            }
            proof {
                lemma_in_subtree_step(self@, self.depth@, root, cur);
            }
            match self.parent.get(cur) {
                Some(p) => {
                    cur = p;
                },
                None => {
                    return false;
                },
            }
        }
    }
}

} // verus!
