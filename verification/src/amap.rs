//! A small association map from `u128` keys to values, backed by a
//! vector of entries with pairwise-distinct keys and viewed as a
//! `Map<u128, V>`.
//!
//! The venue keys everything it stores by packed integer identifiers
//! (canonical token-pair keys, packed account/token keys, correlation
//! tokens), so one key type suffices.

use vstd::prelude::*;

verus! {

/// The map described by an entry list: later entries win, though with
/// `unique_keys` every key occurs at most once.
pub open spec fn alist_view<V>(s: Seq<(u128, V)>) -> Map<u128, V>
    decreases s.len(),
{
    if s.len() == 0 {
        Map::empty()
    } else {
        alist_view(s.drop_last()).insert(s.last().0, s.last().1)
    }
}

/// All keys in the entry list are pairwise distinct.
pub open spec fn unique_keys<V>(s: Seq<(u128, V)>) -> bool {
    forall|i: int, j: int|
        0 <= i < j < s.len() ==> (#[trigger] s[i]).0 != (#[trigger] s[j]).0
}

/// Sum of the values of an entry list, as an unbounded integer.
pub open spec fn seq_sum(s: Seq<(u128, u128)>) -> int
    decreases s.len(),
{
    if s.len() == 0 {
        0
    } else {
        seq_sum(s.drop_last()) + s.last().1
    }
}

/// Every entry of a unique-keyed list is in the view, with its value.
pub proof fn lemma_alist_index<V>(s: Seq<(u128, V)>, i: int)
    requires
        unique_keys(s),
        0 <= i < s.len(),
    ensures
        alist_view(s).contains_key(s[i].0),
        alist_view(s)[s[i].0] == s[i].1,
    decreases s.len(),
{
    if i < s.len() - 1 {
        lemma_alist_index(s.drop_last(), i);
        assert(s[i].0 != s.last().0);
    }
}

/// A key under none of the entries is not in the view.
pub proof fn lemma_alist_absent<V>(s: Seq<(u128, V)>, k: u128)
    requires
        forall|i: int| 0 <= i < s.len() ==> (#[trigger] s[i]).0 != k,
    ensures
        !alist_view(s).contains_key(k),
    decreases s.len(),
{
    if s.len() > 0 {
        lemma_alist_absent(s.drop_last(), k);
    }
}

/// Appending an entry inserts its key.
pub proof fn lemma_alist_push<V>(s: Seq<(u128, V)>, k: u128, v: V)
    ensures
        alist_view(s.push((k, v))) == alist_view(s).insert(k, v),
{
    assert(s.push((k, v)).drop_last() =~= s);
}

/// Removing the entry at `i` removes its key from the view.
pub proof fn lemma_alist_remove<V>(s: Seq<(u128, V)>, i: int)
    requires
        unique_keys(s),
        0 <= i < s.len(),
    ensures
        alist_view(s.remove(i)) == alist_view(s).remove(s[i].0),
    decreases s.len(),
{
    if i == s.len() - 1 {
        assert(s.remove(i) =~= s.drop_last());
        lemma_alist_absent(s.drop_last(), s[i].0);
        assert(alist_view(s.drop_last()) =~= alist_view(s).remove(s[i].0));
    } else {
        lemma_alist_remove(s.drop_last(), i);
        assert(s.remove(i).drop_last() =~= s.drop_last().remove(i));
        assert(s.remove(i).last() == s.last());
        assert(s[i].0 != s.last().0);
        assert(alist_view(s.drop_last()).remove(s[i].0).insert(s.last().0, s.last().1) =~= alist_view(
            s,
        ).remove(s[i].0));
    }
}

/// Removing the entry at `i` subtracts its value from the sum.
pub proof fn lemma_seq_sum_remove(s: Seq<(u128, u128)>, i: int)
    requires
        0 <= i < s.len(),
    ensures
        seq_sum(s.remove(i)) == seq_sum(s) - s[i].1,
    decreases s.len(),
{
    if i == s.len() - 1 {
        assert(s.remove(i) =~= s.drop_last());
    } else {
        lemma_seq_sum_remove(s.drop_last(), i);
        assert(s.remove(i).drop_last() =~= s.drop_last().remove(i));
        assert(s.remove(i).last() == s.last());
    }
}

/// An association map with pairwise-distinct keys.
pub struct AMap<V> {
    entries: Vec<(u128, V)>,
}

impl<V> View for AMap<V> {
    type V = Map<u128, V>;

    closed spec fn view(&self) -> Map<u128, V> {
        alist_view(self.entries@)
    }
}

impl<V> AMap<V> {
    /// Keys are pairwise distinct.
    pub closed spec fn wf(&self) -> bool {
        unique_keys(self.entries@)
    }

    /// The raw entry list, for statements that depend on it (sums,
    /// enumeration).
    pub closed spec fn entries_view(&self) -> Seq<(u128, V)> {
        self.entries@
    }

    /// Each entry carries the value the map holds for its key, and every
    /// key of the map is under some entry.
    pub proof fn lemma_entries_correspond(&self)
        requires
            self.wf(),
        ensures
            forall|i: int|
                0 <= i < self.entries_view().len() ==> self@.contains_key(
                    (#[trigger] self.entries_view()[i]).0,
                ) && self@[self.entries_view()[i].0] == self.entries_view()[i].1,
            forall|k: u128|
                self@.contains_key(k) ==> exists|i: int|
                    0 <= i < self.entries_view().len() && (#[trigger] self.entries_view()[i]).0
                        == k,
            unique_keys(self.entries_view()),
    {
        assert forall|i: int| 0 <= i < self.entries_view().len() implies self@.contains_key(
            (#[trigger] self.entries_view()[i]).0,
        ) && self@[self.entries_view()[i].0] == self.entries_view()[i].1 by {
            lemma_alist_index(self.entries@, i);
        }
        assert forall|k: u128| self@.contains_key(k) implies exists|i: int|
            0 <= i < self.entries_view().len() && (#[trigger] self.entries_view()[i]).0 == k by {
            if !(exists|i: int|
                0 <= i < self.entries@.len() && (#[trigger] self.entries@[i]).0 == k) {
                assert(forall|i: int|
                    0 <= i < self.entries@.len() ==> (#[trigger] self.entries@[i]).0 != k);
                lemma_alist_absent(self.entries@, k);
            }
            let i0 = choose|i: int|
                0 <= i < self.entries@.len() && (#[trigger] self.entries@[i]).0 == k;
            assert(0 <= i0 < self.entries_view().len() && self.entries_view()[i0].0 == k);
        }
    }

    /// An empty map.
    pub fn new() -> (r: Self)
        ensures
            r.wf(),
            r@ == Map::<u128, V>::empty(),
            r.entries_view().len() == 0,
    {
        let r = AMap { entries: Vec::new() };
        proof {
            assert(r.entries@ =~= Seq::<(u128, V)>::empty());
        }
        r
    }

    fn index_of(&self, k: u128) -> (r: Option<usize>)
        ensures
            match r {
                Some(i) => i < self.entries@.len() && self.entries@[i as int].0 == k,
                None => forall|i: int|
                    0 <= i < self.entries@.len() ==> (#[trigger] self.entries@[i]).0 != k,
            },
    {
        let mut i: usize = 0;
        while i < self.entries.len()
            invariant
                i <= self.entries.len(),
                forall|j: int| 0 <= j < i ==> (#[trigger] self.entries@[j]).0 != k,
            decreases self.entries.len() - i,
        {
            if self.entries[i].0 == k {
                return Some(i);
            }
            i = i + 1;
        }
        None
    }

    /// Looks a key up.
    pub fn get(&self, k: u128) -> (r: Option<&V>)
        requires
            self.wf(),
        ensures
            match r {
                Some(v) => self@.contains_key(k) && *v == self@[k],
                None => !self@.contains_key(k),
            },
    {
        match self.index_of(k) {
            Some(i) => {
                proof {
                    lemma_alist_index(self.entries@, i as int);
                }
                Some(&self.entries[i].1)
            },
            None => {
                proof {
                    lemma_alist_absent(self.entries@, k);
                }
                None
            },
        }
    }

    /// Whether a key is present.
    pub fn contains(&self, k: u128) -> (r: bool)
        requires
            self.wf(),
        ensures
            r == self@.contains_key(k),
    {
        self.get(k).is_some()
    }

    /// Removes a key, returning its value if it was present.
    pub fn remove(&mut self, k: u128) -> (r: Option<V>)
        requires
            old(self).wf(),
        ensures
            final(self).wf(),
            match r {
                Some(v) => old(self)@.contains_key(k) && v == old(self)@[k] && final(self)@
                    == old(self)@.remove(k),
                None => !old(self)@.contains_key(k) && final(self)@ == old(self)@ && final(self).entries_view()
                    == old(self).entries_view(),
            },
    {
        match self.index_of(k) {
            Some(i) => {
                proof {
                    lemma_alist_index(self.entries@, i as int);
                    lemma_alist_remove(self.entries@, i as int);
                }
                let (_, v) = self.entries.remove(i);
                proof {
                    assert(unique_keys(self.entries@)) by {
                        assert forall|a: int, b: int|
                            0 <= a < b < self.entries@.len() implies (#[trigger] self.entries@[a]).0
                            != (#[trigger] self.entries@[b]).0 by {
                            let s0 = old(self).entries@;
                            let ia: int = if a < i { a } else { a + 1 };
                            let ib: int = if b < i { b } else { b + 1 };
                            assert(self.entries@[a] == s0[ia]);
                            assert(self.entries@[b] == s0[ib]);
                        }
                    }
                }
                Some(v)
            },
            None => {
                proof {
                    lemma_alist_absent(self.entries@, k);
                }
                None
            },
        }
    }

    /// Inserts or replaces a key's value.
    pub fn insert(&mut self, k: u128, v: V)
        requires
            old(self).wf(),
        ensures
            final(self).wf(),
            final(self)@ == old(self)@.insert(k, v),
    {
        let _ = self.remove(k);
        proof {
            lemma_alist_push(self.entries@, k, v);
            assert(alist_view(self.entries@).insert(k, v) =~= old(self)@.insert(k, v));
            if !old(self)@.contains_key(k) {
                self.lemma_entries_correspond();
            }
        }
        let ghost pre = self.entries@;
        self.entries.push((k, v));
        proof {
            assert(unique_keys(self.entries@)) by {
                assert forall|a: int, b: int|
                    0 <= a < b < self.entries@.len() implies (#[trigger] self.entries@[a]).0
                    != (#[trigger] self.entries@[b]).0 by {
                    if b == self.entries@.len() - 1 {
                        assert(self.entries@[a] == pre[a]);
                        if pre[a].0 == k {
                            lemma_alist_index(pre, a);
                        }
                    } else {
                        assert(self.entries@[a] == pre[a]);
                        assert(self.entries@[b] == pre[b]);
                    }
                }
            }
        }
    }
}

impl AMap<u128> {
    /// Sum of all stored amounts, as an unbounded integer.
    pub closed spec fn sum(&self) -> int {
        seq_sum(self.entries@)
    }

    /// An empty map sums to zero.
    pub proof fn lemma_sum_empty(&self)
        requires
            self.entries_view().len() == 0,
        ensures
            self.sum() == 0,
    {
    }

    /// Inserts or replaces an amount, and says how the sum moves: up by
    /// the new amount, down by whatever the key held before.
    pub fn insert_amount(&mut self, k: u128, v: u128)
        requires
            old(self).wf(),
        ensures
            final(self).wf(),
            final(self)@ == old(self)@.insert(k, v),
            final(self).sum() == old(self).sum() + v - (if old(self)@.contains_key(k) {
                old(self)@[k] as int
            } else {
                0
            }),
    {
        match self.index_of(k) {
            Some(i) => {
                proof {
                    lemma_alist_index(self.entries@, i as int);
                    lemma_alist_remove(self.entries@, i as int);
                    lemma_seq_sum_remove(self.entries@, i as int);
                }
                let _ = self.entries.remove(i);
                proof {
                    assert(unique_keys(self.entries@)) by {
                        assert forall|a: int, b: int|
                            0 <= a < b < self.entries@.len() implies (#[trigger] self.entries@[a]).0
                            != (#[trigger] self.entries@[b]).0 by {
                            let s0 = old(self).entries@;
                            let ia: int = if a < i { a } else { a + 1 };
                            let ib: int = if b < i { b } else { b + 1 };
                            assert(self.entries@[a] == s0[ia]);
                            assert(self.entries@[b] == s0[ib]);
                        }
                    }
                }
            },
            None => {
                proof {
                    lemma_alist_absent(self.entries@, k);
                }
            },
        }
        let ghost pre = self.entries@;
        proof {
            lemma_alist_push(pre, k, v);
            assert(alist_view(pre).insert(k, v) =~= old(self)@.insert(k, v));
            assert(pre.push((k, v)).drop_last() =~= pre);
        }
        self.entries.push((k, v));
        proof {
            assert(unique_keys(self.entries@)) by {
                assert forall|a: int, b: int|
                    0 <= a < b < self.entries@.len() implies (#[trigger] self.entries@[a]).0
                    != (#[trigger] self.entries@[b]).0 by {
                    if b == self.entries@.len() - 1 {
                        assert(self.entries@[a] == pre[a]);
                        if pre[a].0 == k {
                            lemma_alist_index(pre, a);
                        }
                    } else {
                        assert(self.entries@[a] == pre[a]);
                        assert(self.entries@[b] == pre[b]);
                    }
                }
            }
        }
    }

    /// The stored entries, as a vector of key/amount pairs.
    pub fn entries_list(&self) -> (r: Vec<(u128, u128)>)
        ensures
            r@ == self.entries_view(),
    {
        let mut r: Vec<(u128, u128)> = Vec::new();
        let mut i: usize = 0;
        while i < self.entries.len()
            invariant
                i <= self.entries.len(),
                r@ == self.entries@.take(i as int),
            decreases self.entries.len() - i,
        {
            r.push(self.entries[i]);
            proof {
                assert(r@ =~= self.entries@.take(i + 1));
            }
            i = i + 1;
        }
        proof {
            assert(self.entries@.take(self.entries@.len() as int) =~= self.entries@);
        }
        r
    }
}

} // verus!
