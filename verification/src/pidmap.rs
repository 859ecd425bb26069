//! A map from process ids to values, backed by a vector sorted strictly by
//! pid.
//!
//! The sorted backing gives every map a canonical key sequence, so that sums
//! over a snapshot's processes can be stated over one fixed sequence, and two
//! maps with equal contents are structurally equal.

use vstd::prelude::*;

verus! {

pub struct PidMap<V> {
    pub entries: Vec<(i32, V)>,
}

/// Two strictly increasing sequences with the same elements are equal.
pub proof fn lemma_sorted_unique(s1: Seq<i32>, s2: Seq<i32>)
    requires
        forall|i: int, j: int| 0 <= i < j < s1.len() ==> #[trigger] s1[i] < #[trigger] s1[j],
        forall|i: int, j: int| 0 <= i < j < s2.len() ==> #[trigger] s2[i] < #[trigger] s2[j],
        forall|k: i32| #[trigger] s1.contains(k) <==> s2.contains(k),
    ensures
        s1 == s2,
    decreases s1.len(),
{
    if s1.len() == 0 {
        if s2.len() > 0 {
            assert(s2.contains(s2[0]));
            assert(s1.contains(s2[0]));
        }
        assert(s1 =~= s2);
    } else if s2.len() == 0 {
        assert(s1.contains(s1[0]));
        assert(s2.contains(s1[0]));
    } else {
        // The last elements are the maxima of equal sets, so they agree.
        let m1 = s1.last();
        let m2 = s2.last();
        assert(s1.contains(m1)) by {
            assert(s1[s1.len() - 1] == m1);
        }
        assert(s2.contains(m2)) by {
            assert(s2[s2.len() - 1] == m2);
        }
        assert(s2.contains(m1));
        assert(s1.contains(m2));
        let i2 = choose|i: int| 0 <= i < s2.len() && s2[i] == m1;
        let i1 = choose|i: int| 0 <= i < s1.len() && s1[i] == m2;
        assert(m1 <= s2.last()) by {
            if i2 < s2.len() - 1 {
                assert(s2[i2] < s2[s2.len() - 1]);
            }
        }
        assert(m2 <= s1.last()) by {
            if i1 < s1.len() - 1 {
                assert(s1[i1] < s1[s1.len() - 1]);
            }
        }
        assert(m1 == m2);
        let d1 = s1.drop_last();
        let d2 = s2.drop_last();
        assert forall|k: i32| #[trigger] d1.contains(k) <==> d2.contains(k) by {
            assert(forall|i: int| 0 <= i < d1.len() ==> d1[i] == s1[i]);
            assert(forall|i: int| 0 <= i < d2.len() ==> d2[i] == s2[i]);
            if d1.contains(k) {
                let i = choose|i: int| 0 <= i < d1.len() && d1[i] == k;
                assert(s1[i] == k && s1.contains(k));
                assert(k < m1);
                assert(s2.contains(k));
                let j = choose|j: int| 0 <= j < s2.len() && s2[j] == k;
                assert(j != s2.len() - 1);
                assert(d2[j] == k);
            }
            if d2.contains(k) {
                let i = choose|i: int| 0 <= i < d2.len() && d2[i] == k;
                assert(s2[i] == k && s2.contains(k));
                assert(k < m2);
                assert(s1.contains(k));
                let j = choose|j: int| 0 <= j < s1.len() && s1[j] == k;
                assert(j != s1.len() - 1);
                assert(d1[j] == k);
            }
        }
        lemma_sorted_unique(d1, d2);
        assert(s1.len() == s2.len());
        assert(forall|i: int| 0 <= i < s1.len() - 1 ==> s1[i] == d1[i] && s2[i] == d2[i]);
        assert(s1 =~= s2);
    }
}

impl<V: Copy> PidMap<V> {
    /// Keys strictly increase: sorted and duplicate-free.
    pub open spec fn wf(self) -> bool {
        forall|i: int, j: int|
            0 <= i < j < self.entries@.len() ==> (#[trigger] self.entries@[i]).0 < (
            #[trigger] self.entries@[j]).0
    }

    /// The canonical key sequence.
    pub open spec fn keys(self) -> Seq<i32> {
        self.entries@.map_values(|e: (i32, V)| e.0)
    }

    pub open spec fn spec_contains(self, k: i32) -> bool {
        exists|i: int| 0 <= i < self.entries@.len() && (#[trigger] self.entries@[i]).0 == k
    }

    pub open spec fn spec_index_of(self, k: i32) -> int {
        choose|i: int| 0 <= i < self.entries@.len() && (#[trigger] self.entries@[i]).0 == k
    }

    /// The abstract contents.
    pub open spec fn view(self) -> Map<i32, V> {
        Map::new(|k: i32| self.spec_contains(k), |k: i32| self.entries@[self.spec_index_of(k)].1)
    }

    pub proof fn lemma_keys_no_duplicates(self)
        requires
            self.wf(),
        ensures
            self.keys().no_duplicates(),
            self.keys().len() == self.entries@.len(),
            forall|i: int| 0 <= i < self.keys().len() ==> self.keys()[i] == self.entries@[i].0,
    {
    }

    /// Every entry is the map's value at its key.
    pub proof fn lemma_entry_is_view(self, i: int)
        requires
            self.wf(),
            0 <= i < self.entries@.len(),
        ensures
            self.spec_contains(self.entries@[i].0),
            self@.contains_key(self.entries@[i].0),
            self@[self.entries@[i].0] == self.entries@[i].1,
    {
        let k = self.entries@[i].0;
        assert(0 <= i < self.entries@.len() && self.entries@[i].0 == k);
        let j = self.spec_index_of(k);
        assert(self.entries@[j].0 == k);
        if i != j {
            assert(false);
        }
    }

    /// Strictly increasing keys grow at least as fast as the index.
    proof fn lemma_key_at_least(self, j: int)
        requires
            self.wf(),
            0 <= j < self.entries@.len(),
        ensures
            self.entries@[j].0 >= self.entries@[0].0 + j,
        decreases j,
    {
        if j > 0 {
            self.lemma_key_at_least(j - 1);
        }
    }

    /// There are no more entries than there are distinct `i32` keys.
    pub proof fn lemma_len_bound(self)
        requires
            self.wf(),
        ensures
            self.entries@.len() <= 0x1_0000_0000,
    {
        if self.entries@.len() > 0x1_0000_0000 {
            self.lemma_key_at_least(0x1_0000_0000);
        }
    }

    /// Sorted backing makes the key sequence canonical: two maps with the
    /// same contents have the same key sequence.
    pub proof fn lemma_keys_canonical<W: Copy>(self, other: PidMap<W>)
        requires
            self.wf(),
            other.wf(),
            forall|k: i32| #[trigger] self@.contains_key(k) <==> other@.contains_key(k),
        ensures
            self.keys() == other.keys(),
    {
        self.lemma_keys_no_duplicates();
        other.lemma_keys_no_duplicates();
        assert forall|k: i32| #[trigger] self.keys().contains(k) <==> other.keys().contains(
            k,
        ) by {
            if self.keys().contains(k) {
                let i = choose|i: int| 0 <= i < self.keys().len() && self.keys()[i] == k;
                self.lemma_entry_is_view(i);
            }
            if other.keys().contains(k) {
                let i = choose|i: int| 0 <= i < other.keys().len() && other.keys()[i] == k;
                other.lemma_entry_is_view(i);
            }
            if self@.contains_key(k) {
                let i = self.spec_index_of(k);
                assert(self.entries@[i].0 == k);
                assert(self.keys()[i] == k);
            }
            if other@.contains_key(k) {
                let i = other.spec_index_of(k);
                assert(other.entries@[i].0 == k);
                assert(other.keys()[i] == k);
            }
        }
        lemma_sorted_unique(self.keys(), other.keys());
    }

    /// After inserting a fresh key, the new key sequence is the old one
    /// with that key at its sorted position: removing it there gives the
    /// old sequence back.
    pub proof fn lemma_set_fresh_keys(self, other: PidMap<V>, k: i32)
        requires
            self.wf(),
            other.wf(),
            !self@.contains_key(k),
            other@.contains_key(k),
            forall|q: i32| #[trigger] other@.contains_key(q) <==> self@.contains_key(q) || q
                == k,
        ensures
            0 <= other.spec_index_of(k) < other.keys().len(),
            other.keys()[other.spec_index_of(k)] == k,
            other.keys().remove(other.spec_index_of(k)) == self.keys(),
    {
        self.lemma_keys_no_duplicates();
        other.lemma_keys_no_duplicates();
        let pos = other.spec_index_of(k);
        assert(other.entries@[pos].0 == k);
        assert(other.keys()[pos] == k);
        let s2 = other.keys().remove(pos);
        assert(forall|i: int|
            0 <= i < s2.len() ==> s2[i] == (if i < pos {
                other.keys()[i]
            } else {
                other.keys()[i + 1]
            }));
        assert(forall|i: int, j: int|
            0 <= i < j < s2.len() ==> #[trigger] s2[i] < #[trigger] s2[j]);
        assert(forall|i: int, j: int|
            0 <= i < j < self.keys().len() ==> #[trigger] self.keys()[i]
                < #[trigger] self.keys()[j]);
        assert forall|q: i32| #[trigger] s2.contains(q) <==> self.keys().contains(q) by {
            if s2.contains(q) {
                let i = choose|i: int| 0 <= i < s2.len() && s2[i] == q;
                let io: int = if i < pos {
                    i
                } else {
                    i + 1
                };
                assert(other.keys()[io] == q);
                assert(io != pos);
                other.lemma_entry_is_view(io);
                assert(q != k);
                assert(self@.contains_key(q));
                let j = self.spec_index_of(q);
                assert(self.entries@[j].0 == q);
                assert(self.keys()[j] == q);
            }
            if self.keys().contains(q) {
                let j = choose|j: int| 0 <= j < self.keys().len() && self.keys()[j] == q;
                self.lemma_entry_is_view(j);
                assert(q != k);
                assert(other@.contains_key(q));
                let io = other.spec_index_of(q);
                assert(other.entries@[io].0 == q);
                assert(other.keys()[io] == q);
                assert(io != pos);
                let i: int = if io < pos {
                    io
                } else {
                    io - 1
                };
                assert(s2[i] == q);
            }
        }
        lemma_sorted_unique(s2, self.keys());
    }

    pub fn new() -> (r: Self)
        ensures
            r.wf(),
            r@ == Map::<i32, V>::empty(),
            r.keys() == Seq::<i32>::empty(),
            r.entries@.len() == 0,
    {
        let r = PidMap { entries: Vec::new() };
        proof {
            assert(r@ =~= Map::<i32, V>::empty());
            assert(r.keys() =~= Seq::<i32>::empty());
        }
        r
    }

    pub fn len(&self) -> (n: usize)
        ensures
            n == self.entries@.len(),
    {
        self.entries.len()
    }

    /// Key of the `i`th entry in canonical order.
    pub fn key_at(&self, i: usize) -> (k: i32)
        requires
            i < self.entries@.len(),
        ensures
            k == self.keys()[i as int],
    {
        self.entries[i].0
    }

    /// Value of the `i`th entry in canonical order.
    pub fn val_at(&self, i: usize) -> (v: V)
        requires
            i < self.entries@.len(),
        ensures
            v == self.entries@[i as int].1,
            self.wf() ==> v == self@[self.keys()[i as int]],
    {
        proof {
            if self.wf() {
                self.lemma_entry_is_view(i as int);
            }
        }
        self.entries[i].1
    }

    pub fn get(&self, k: i32) -> (r: Option<V>)
        requires
            self.wf(),
        ensures
            match r {
                Some(v) => self@.contains_key(k) && self@[k] == v,
                None => !self@.contains_key(k),
            },
    {
        let n = self.entries.len();
        let mut i: usize = 0;
        while i < n
            invariant
                self.wf(),
                n == self.entries@.len(),
                i <= n,
                forall|j: int| 0 <= j < i ==> (#[trigger] self.entries@[j]).0 != k,
            decreases n - i,
        {
            if self.entries[i].0 == k {
                proof {
                    self.lemma_entry_is_view(i as int);
                }
                return Some(self.entries[i].1);
            }
            i = i + 1;
        }
        proof {
            if self.spec_contains(k) {
                let j = self.spec_index_of(k);
                assert(self.entries@[j].0 == k);
                assert(false);
            }
            assert(!self@.contains_key(k));
        }
        None
    }

    /// Insert or replace the value at `k`, keeping the backing sorted.
    pub fn set(&mut self, k: i32, v: V)
        requires
            old(self).wf(),
        ensures
            final(self).wf(),
            final(self)@ == old(self)@.insert(k, v),
            final(self).entries@.len() <= old(self).entries@.len() + 1,
    {
        let ghost olds = *self;
        let n = self.entries.len();
        let mut i: usize = 0;
        while i < n && self.entries[i].0 < k
            invariant
                *self == olds,
                self.wf(),
                n == self.entries@.len(),
                i <= n,
                forall|j: int| 0 <= j < i ==> (#[trigger] self.entries@[j]).0 < k,
            decreases n - i,
        {
            i = i + 1;
        }
        let ghost old_entries = self.entries@;
        if i < n && self.entries[i].0 == k {
            proof {
                olds.lemma_entry_is_view(i as int);
            }
            self.entries[i] = (k, v);
            proof {
                let news = *self;
                assert(forall|j: int|
                    0 <= j < news.entries@.len() && j != i ==> news.entries@[j] == old_entries[j]);
                assert(news.entries@[i as int] == (k, v));
                assert(news.wf());
                news.lemma_entry_is_view(i as int);
                assert forall|q: i32| #[trigger]
                    news@.contains_key(q) || olds@.insert(k, v).contains_key(q) implies news@.contains_key(
                    q,
                ) == olds@.insert(k, v).contains_key(q) && (news@.contains_key(q)
                    ==> news@[q] == olds@.insert(k, v)[q]) by {
                    if q == k {
                    } else {
                        if news.spec_contains(q) {
                            let jn = news.spec_index_of(q);
                            assert(news.entries@[jn].0 == q);
                            assert(jn != i);
                            news.lemma_entry_is_view(jn);
                            olds.lemma_entry_is_view(jn);
                        }
                        if olds.spec_contains(q) {
                            let jo = olds.spec_index_of(q);
                            assert(old_entries[jo].0 == q);
                            assert(jo != i);
                            assert(news.entries@[jo].0 == q);
                        }
                    }
                }
                assert(news@ =~= olds@.insert(k, v));
            }
        } else {
            // Not present: insert at position i; all earlier keys are
            // smaller and all later keys are larger.
            proof {
                assert(forall|j: int|
                    i <= j < self.entries@.len() ==> k < (#[trigger] self.entries@[j]).0) by {
                    if i < self.entries@.len() {
                        assert(self.entries@[i as int].0 >= k);
                        assert(self.entries@[i as int].0 != k);
                    }
                }
            }
            self.entries.insert(i, (k, v));
            proof {
                let news = *self;
                assert(forall|j: int|
                    0 <= j < i ==> (#[trigger] news.entries@[j]) == old_entries[j]);
                assert(news.entries@[i as int] == (k, v));
                assert(forall|j: int|
                    i < j < news.entries@.len() ==> (#[trigger] news.entries@[j]) == old_entries[
                    j - 1]);
                assert(news.wf());
                news.lemma_entry_is_view(i as int);
                assert forall|q: i32| #[trigger]
                    news@.contains_key(q) || olds@.insert(k, v).contains_key(q) implies news@.contains_key(
                    q,
                ) == olds@.insert(k, v).contains_key(q) && (news@.contains_key(q)
                    ==> news@[q] == olds@.insert(k, v)[q]) by {
                    if q == k {
                    } else {
                        if news.spec_contains(q) {
                            let jn = news.spec_index_of(q);
                            assert(news.entries@[jn].0 == q);
                            assert(jn != i);
                            news.lemma_entry_is_view(jn);
                            let jo: int = if jn < i {
                                jn
                            } else {
                                jn - 1
                            };
                            assert(old_entries[jo] == news.entries@[jn]);
                            olds.lemma_entry_is_view(jo);
                        }
                        if olds.spec_contains(q) {
                            let jo = olds.spec_index_of(q);
                            assert(old_entries[jo].0 == q);
                            let jn: int = if jo < i {
                                jo
                            } else {
                                jo + 1
                            };
                            assert(news.entries@[jn] == old_entries[jo]);
                            assert(news.spec_contains(q));
                        }
                    }
                }
                assert(news@ =~= olds@.insert(k, v));
            }
        }
    }
}

} // verus!
