//! Sums of an integer-valued function over a sequence of process ids.
//!
//! All tree totals in this crate are stated as `sum_contrib` over the
//! canonical (sorted) key sequence of a map, with the tree structure folded
//! into the summed function. The lemmas here are the small algebra of such
//! sums that the engine's proofs need.

use vstd::prelude::*;

verus! {

/// Sum of `f` over all elements of `s`, in order.
pub open spec fn sum_contrib(s: Seq<i32>, f: spec_fn(i32) -> int) -> int
    decreases s.len(),
{
    if s.len() == 0 {
        0
    } else {
        sum_contrib(s.drop_last(), f) + f(s.last())
    }
}

/// Unfolding step used by loop invariants: extending the summed prefix by
/// one element adds that element's contribution.
pub proof fn lemma_sum_take_succ(s: Seq<i32>, f: spec_fn(i32) -> int, i: int)
    requires
        0 <= i < s.len(),
    ensures
        sum_contrib(s.take(i + 1), f) == sum_contrib(s.take(i), f) + f(s[i]),
{
    assert(s.take(i + 1).drop_last() =~= s.take(i));
    assert(s.take(i + 1).last() == s[i]);
}

/// The whole sequence is its own full prefix.
pub proof fn lemma_sum_take_all(s: Seq<i32>, f: spec_fn(i32) -> int)
    ensures
        sum_contrib(s.take(s.len() as int), f) == sum_contrib(s, f),
{
    assert(s.take(s.len() as int) =~= s);
}

/// Two functions that agree on every element of `s` have equal sums.
pub proof fn lemma_sum_congruence(s: Seq<i32>, f: spec_fn(i32) -> int, g: spec_fn(i32) -> int)
    requires
        forall|i: int| 0 <= i < s.len() ==> f(s[i]) == g(s[i]),
    ensures
        sum_contrib(s, f) == sum_contrib(s, g),
    decreases s.len(),
{
    if s.len() > 0 {
        lemma_sum_congruence(s.drop_last(), f, g);
    }
}

/// A function that vanishes on every element sums to zero.
pub proof fn lemma_sum_zero(s: Seq<i32>, f: spec_fn(i32) -> int)
    requires
        forall|i: int| 0 <= i < s.len() ==> f(s[i]) == 0,
    ensures
        sum_contrib(s, f) == 0,
    decreases s.len(),
{
    if s.len() > 0 {
        lemma_sum_zero(s.drop_last(), f);
    }
}

/// Pointwise bounds give bounds on the sums.
pub proof fn lemma_sum_le(s: Seq<i32>, f: spec_fn(i32) -> int, g: spec_fn(i32) -> int)
    requires
        forall|i: int| 0 <= i < s.len() ==> f(s[i]) <= g(s[i]),
    ensures
        sum_contrib(s, f) <= sum_contrib(s, g),
    decreases s.len(),
{
    if s.len() > 0 {
        lemma_sum_le(s.drop_last(), f, g);
    }
}

/// A nonnegative function has a nonnegative sum.
pub proof fn lemma_sum_nonneg(s: Seq<i32>, f: spec_fn(i32) -> int)
    requires
        forall|i: int| 0 <= i < s.len() ==> 0 <= f(s[i]),
    ensures
        0 <= sum_contrib(s, f),
    decreases s.len(),
{
    if s.len() > 0 {
        lemma_sum_nonneg(s.drop_last(), f);
    }
}

/// The sum is bounded by the absolute values of the summands.
pub proof fn lemma_sum_abs(s: Seq<i32>, f: spec_fn(i32) -> int, g: spec_fn(i32) -> int)
    requires
        forall|i: int| 0 <= i < s.len() ==> -#[trigger] g(s[i]) <= #[trigger] f(s[i]) <= g(s[i]),
    ensures
        -sum_contrib(s, g) <= sum_contrib(s, f) <= sum_contrib(s, g),
    decreases s.len(),
{
    if s.len() > 0 {
        lemma_sum_abs(s.drop_last(), f, g);
    }
}

/// Sums distribute over pointwise addition of the summed functions.
pub proof fn lemma_sum_add(
    s: Seq<i32>,
    f: spec_fn(i32) -> int,
    g: spec_fn(i32) -> int,
    h: spec_fn(i32) -> int,
)
    requires
        forall|i: int| 0 <= i < s.len() ==> h(s[i]) == f(s[i]) + g(s[i]),
    ensures
        sum_contrib(s, h) == sum_contrib(s, f) + sum_contrib(s, g),
    decreases s.len(),
{
    if s.len() > 0 {
        lemma_sum_add(s.drop_last(), f, g, h);
    }
}

/// For a nonnegative function, a prefix sums to at most the whole.
pub proof fn lemma_sum_prefix_le(s: Seq<i32>, f: spec_fn(i32) -> int, i: int)
    requires
        0 <= i <= s.len(),
        forall|j: int| 0 <= j < s.len() ==> 0 <= #[trigger] f(s[j]),
    ensures
        sum_contrib(s.take(i), f) <= sum_contrib(s, f),
    decreases s.len(),
{
    if i == s.len() {
        assert(s.take(i) =~= s);
    } else {
        assert(s.drop_last().take(i) =~= s.take(i));
        assert(forall|j: int| 0 <= j < s.drop_last().len() ==> s.drop_last()[j] == s[j]);
        lemma_sum_prefix_le(s.drop_last(), f, i);
    }
}

/// For a nonnegative function, each element contributes at most the whole.
pub proof fn lemma_sum_elem_le(s: Seq<i32>, f: spec_fn(i32) -> int, i: int)
    requires
        0 <= i < s.len(),
        forall|j: int| 0 <= j < s.len() ==> 0 <= #[trigger] f(s[j]),
    ensures
        f(s[i]) <= sum_contrib(s, f),
{
    lemma_sum_remove(s, f, i);
    let s1 = s.remove(i);
    assert(forall|j: int|
        0 <= j < s1.len() ==> s1[j] == (if j < i {
            s[j]
        } else {
            s[j + 1]
        }));
    lemma_sum_nonneg(s1, f);
}

/// Removing one occurrence of an element from a duplicate-free sequence
/// removes exactly its contribution.
pub proof fn lemma_sum_remove(s: Seq<i32>, f: spec_fn(i32) -> int, i: int)
    requires
        0 <= i < s.len(),
    ensures
        sum_contrib(s, f) == sum_contrib(s.remove(i), f) + f(s[i]),
    decreases s.len(),
{
    if i == s.len() - 1 {
        assert(s.remove(i) =~= s.drop_last());
    } else {
        lemma_sum_remove(s.drop_last(), f, i);
        assert(s.remove(i).drop_last() =~= s.drop_last().remove(i));
        assert(s.remove(i).last() == s.last());
    }
}

/// If every element of `s` with a positive contribution under `f` appears in
/// `t` with an `f2`-contribution at least as large, and both functions are
/// nonnegative, the `f`-sum over `s` is at most the `f2`-sum over `t`.
/// `t` must be duplicate-free; `s` must be duplicate-free as well.
pub proof fn lemma_sum_inject(
    s: Seq<i32>,
    f: spec_fn(i32) -> int,
    t: Seq<i32>,
    f2: spec_fn(i32) -> int,
)
    requires
        s.no_duplicates(),
        t.no_duplicates(),
        forall|i: int| 0 <= i < s.len() ==> 0 <= f(s[i]),
        forall|i: int| 0 <= i < t.len() ==> 0 <= f2(t[i]),
        forall|i: int|
            0 <= i < s.len() && f(s[i]) > 0 ==> t.contains(s[i]) && f(s[i]) <= f2(s[i]),
    ensures
        sum_contrib(s, f) <= sum_contrib(t, f2),
    decreases s.len(),
{
    if s.len() == 0 {
        lemma_sum_nonneg(t, f2);
    } else {
        let x = s.last();
        let s1 = s.drop_last();
        assert(forall|i: int| 0 <= i < s1.len() ==> s1[i] == s[i]);
        if f(x) == 0 {
            lemma_sum_inject(s1, f, t, f2);
        } else {
            let j = choose|j: int| 0 <= j < t.len() && t[j] == x;
            let t1 = t.remove(j);
            lemma_sum_remove(t, f2, j);
            assert(t1.no_duplicates()) by {
                assert(forall|a: int, b: int|
                    0 <= a < b < t1.len() ==> t1[a] != t1[b]) by {
                    assert(forall|a: int|
                        0 <= a < t1.len() ==> t1[a] == (if a < j {
                            t[a]
                        } else {
                            t[a + 1]
                        }));
                }
            }
            assert(forall|i: int|
                0 <= i < s1.len() && f(s1[i]) > 0 ==> t1.contains(s1[i]) && f(s1[i]) <= f2(
                    s1[i],
                )) by {
                assert(forall|i: int| 0 <= i < s1.len() ==> s1[i] != x);
                assert(forall|q: i32|
                    t.contains(q) && q != x ==> t1.contains(q)) by {
                    assert(forall|a: int|
                        0 <= a < t.len() && t[a] != x && a != j ==> t1.contains(t[a])) by {
                        assert(forall|a: int|
                            0 <= a < t.len() && a != j ==> t1[if a < j {
                                a
                            } else {
                                a - 1
                            }] == t[a]);
                    }
                }
            }
            lemma_sum_inject(s1, f, t1, f2);
        }
    }
}

} // verus!
