use std::marker::PhantomData;
use vstd::prelude::*;

verus! {

/// The mathematical state of a [`SparseSet`]: its dense table of
/// `(key, value)` entries and its sparse table, which maps a key to the
/// position of the key's entry in the dense table.
pub struct SparseModel<V> {
    pub dense: Seq<(usize, V)>,
    pub sparse: Seq<Option<usize>>,
}

impl<V> SparseModel<V> {
    /// Where the sparse table says the entry of `k` lies.
    pub open spec fn slot(self, k: usize) -> Option<usize> {
        if k < self.sparse.len() {
            self.sparse[k as int]
        } else {
            None
        }
    }

    /// A lookup of `k` finds an entry.
    pub open spec fn contains(self, k: usize) -> bool {
        &&& self.slot(k) is Some
        &&& self.slot(k)->0 < self.dense.len()
    }

    /// The value that a lookup of `k` finds.
    pub open spec fn value(self, k: usize) -> V {
        self.dense[self.slot(k)->0 as int].1
    }

    /// What lookups find.
    pub open spec fn map(self) -> Map<usize, V> {
        Map::new(|k: usize| self.contains(k), |k: usize| self.value(k))
    }

    /// What a lookup of `k` returns.
    pub open spec fn lookup(self, k: usize) -> Option<V> {
        if self.contains(k) {
            Some(self.value(k))
        } else {
            None
        }
    }

    /// Every key of the dense table lies below the length of the sparse table.
    pub open spec fn keys_in_range(self) -> bool {
        forall|d: int| 0 <= d < self.dense.len() ==> (#[trigger] self.dense[d]).0 < self.sparse.len()
    }

    /// The two tables describe each other exactly.
    pub open spec fn wf(self) -> bool {
        &&& self.dense.len() <= usize::MAX
        &&& forall|k: usize|
            #![trigger self.slot(k)]
            self.slot(k) is Some ==> {
                &&& self.slot(k)->0 < self.dense.len()
                &&& self.dense[self.slot(k)->0 as int].0 == k
            }
        &&& forall|d: int|
            #![trigger self.dense[d]]
            0 <= d < self.dense.len() ==> {
                &&& self.dense[d].0 < self.sparse.len()
                &&& self.slot(self.dense[d].0) == Some(d as usize)
            }
    }

    /// Removing `k` does not panic: its slot, if any, lies inside the dense table.
    pub open spec fn removable(self, k: usize) -> bool {
        self.slot(k) is Some ==> self.slot(k)->0 < self.dense.len()
    }

    /// The sparse table grown, if needed, with empty slots up to and including `idx`.
    pub open spec fn grown(sparse: Seq<Option<usize>>, idx: usize) -> Seq<Option<usize>> {
        if idx < sparse.len() {
            sparse
        } else {
            sparse + Seq::new((idx + 1 - sparse.len()) as nat, |i: int| None::<usize>)
        }
    }

    /// The state after inserting `data` under `idx`: a new entry at the end
    /// of the dense table, and the slot of `idx` pointing at it.
    pub open spec fn insert(self, idx: usize, data: V) -> Self {
        SparseModel {
            dense: self.dense.push((idx, data)),
            sparse: Self::grown(self.sparse, idx).update(idx as int, Some(self.dense.len() as usize)),
        }
    }

    /// The state after removing `idx`. The slot of `idx` is cleared, the
    /// last entry of the dense table moves into the removed entry's place,
    /// and, when that entry belongs to another key, that key's slot is
    /// pointed there.
    pub open spec fn remove(self, idx: usize) -> Self {
        match self.slot(idx) {
            None => self,
            Some(d) => {
                let n = self.dense.len();
                let cleared = self.sparse.update(idx as int, None);
                SparseModel {
                    dense: self.dense.update(d as int, self.dense.last()).drop_last(),
                    sparse: if n != 1 && self.dense.last().0 != idx {
                        cleared.update(self.dense.last().0 as int, Some(d))
                    } else {
                        cleared
                    },
                }
            },
        }
    }

    /// The state after the value that a lookup of `k` finds was replaced by `v`.
    pub open spec fn with_value(self, k: usize, v: V) -> Self {
        let d = self.slot(k)->0 as int;
        SparseModel { dense: self.dense.update(d, (self.dense[d].0, v)), sparse: self.sparse }
    }

    /// What removing `idx` returns.
    pub open spec fn removed_value(self, idx: usize) -> Option<V> {
        match self.slot(idx) {
            None => None,
            Some(d) => Some(self.dense[d as int].1),
        }
    }
}

/// A sparse set: values are stored densely together with their keys, and a
/// sparse table maps each key to the position of its entry in the dense table.
///
/// The key type `K` only documents what the keys stand for.
pub struct SparseSet<K, V> {
    dense: Vec<(usize, V)>,
    sparse: Vec<Option<usize>>,
    phantom: PhantomData<K>,
}

impl<K, V> View for SparseSet<K, V> {
    type V = SparseModel<V>;

    closed spec fn view(&self) -> SparseModel<V> {
        SparseModel { dense: self.dense@, sparse: self.sparse@ }
    }
}

impl<K, V> SparseSet<K, V> {
    pub fn create() -> (s: Self)
        ensures
            s@.dense == Seq::<(usize, V)>::empty(),
            s@.sparse == Seq::<Option<usize>>::empty(),
            s@.wf(),
            s@.keys_in_range(),
            s@.map() == Map::<usize, V>::empty(),
    {
        Self::create_with_capacity(0)
    }

    pub fn create_with_capacity(capacity: usize) -> (s: Self)
        ensures
            s@.dense == Seq::<(usize, V)>::empty(),
            s@.sparse == Seq::new(capacity as nat, |i: int| None::<usize>),
            s@.wf(),
            s@.keys_in_range(),
            s@.map() == Map::<usize, V>::empty(),
    {
        let dense = Vec::with_capacity(capacity);
        let mut sparse: Vec<Option<usize>> = Vec::new();
        let mut i: usize = 0;
        while i < capacity
            invariant
                i <= capacity,
                sparse@ == Seq::new(i as nat, |j: int| None::<usize>),
            decreases capacity - i,
        {
            sparse.push(None);
            i = i + 1;
        }
        let s = SparseSet { dense, sparse, phantom: PhantomData };
        assert(s@.map() =~= Map::<usize, V>::empty());
        s
    }

    /// Stores `data` under `idx`, growing the sparse table when needed. An
    /// earlier entry of `idx` stays in the dense table, out of reach of lookups.
    pub fn insert(&mut self, idx: usize, data: V)
        requires
            idx < usize::MAX,
            old(self)@.dense.len() < usize::MAX,
        ensures
            final(self)@ == old(self)@.insert(idx, data),
    {
        if idx >= self.sparse.len() {
            let target = idx + 1;
            while self.sparse.len() < target
                invariant
                    target == idx + 1,
                    self.sparse@.len() <= target,
                    old(self).sparse@.len() <= idx,
                    old(self).sparse@.len() <= self.sparse@.len(),
                    self.sparse@ == SparseModel::<V>::grown(old(self).sparse@, idx).subrange(
                        0,
                        self.sparse@.len() as int,
                    ),
                    self.dense@ == old(self).dense@,
                decreases target - self.sparse@.len(),
            {
                let ghost prev = self.sparse@;
                self.sparse.push(None);
                proof {
                    let g = SparseModel::<V>::grown(old(self).sparse@, idx);
                    assert forall|j: int| 0 <= j < self.sparse@.len() implies self.sparse@[j]
                        == g[j] by {
                        if j < prev.len() {
                            assert(prev[j] == g.subrange(0, prev.len() as int)[j]);
                        } else {
                            let o = old(self).sparse@;
                            let tail = Seq::new((idx + 1 - o.len()) as nat, |i: int| None::<usize>);
                            assert(g == o + tail);
                            assert(g[j] == tail[j - o.len()]);
                        }
                    }
                    assert(self.sparse@ =~= g.subrange(0, self.sparse@.len() as int));
                }
            }
            assert(self.sparse@ =~= SparseModel::<V>::grown(old(self).sparse@, idx));
        }
        self.dense.push((idx, data));
        let pos = self.dense.len() - 1;
        self.sparse.set(idx, Some(pos));
    }

    /// Removes the entry that a lookup of `idx` would find and returns its value.
    pub fn remove(&mut self, idx: usize) -> (r: Option<V>)
        requires
            old(self)@.removable(idx),
            old(self)@.keys_in_range(),
        ensures
            final(self)@ == old(self)@.remove(idx),
            r == old(self)@.removed_value(idx),
    {
        if idx >= self.sparse.len() {
            None
        } else {
            let current = self.sparse[idx];
            self.sparse.set(idx, None);
            let dense_idx = if let Some(d) = current {
                d
            } else {
                assert(self.sparse@ =~= old(self).sparse@);
                return None;
            };
            if self.dense.len() != 1 {
                let key = self.dense[self.dense.len() - 1].0;
                if key != idx {
                    self.sparse.set(key, Some(dense_idx));
                }
            }
            let (_, data) = self.dense.swap_remove(dense_idx);
            proof {
                let m = old(self)@.remove(idx);
                assert(self.sparse@ =~= m.sparse);
                assert(self.dense@ =~= m.dense);
            }
            Some(data)
        }
    }

    fn get_from_sparse(&self, idx: usize) -> (r: Option<usize>)
        ensures
            r == self@.slot(idx),
    {
        if idx < self.sparse.len() {
            self.sparse[idx]
        } else {
            None
        }
    }

    /// The value stored under `idx`, if a lookup finds one.
    pub fn get(&self, idx: usize) -> (r: Option<&V>)
        ensures
            r matches Some(v) ==> self@.lookup(idx) == Some(*v),
            r is None ==> self@.lookup(idx) is None,
    {
        if let Some(d) = self.get_from_sparse(idx) {
            if d < self.dense.len() {
                return Some(&self.dense[d].1);
            }
        }
        None
    }

    /// Mutable access to the value stored under `idx`, if a lookup finds one.
    pub fn get_mut(&mut self, idx: usize) -> (r: Option<&mut V>)
        ensures
            r is Some <==> old(self)@.contains(idx),
            r matches Some(v) ==> {
                &&& *v == old(self)@.value(idx)
                &&& final(self)@ == old(self)@.with_value(idx, *final(v))
            },
            r is None ==> *final(self) == *old(self),
    {
        if let Some(d) = self.get_from_sparse(idx) {
            if d < self.dense.len() {
                return Some(&mut self.dense[d].1);
            }
        }
        None
    }

    /// The dense table: the `(key, value)` entries in storage order.
    pub fn get_dense(&self) -> (r: &Vec<(usize, V)>)
        ensures
            r@ == self@.dense,
    {
        &self.dense
    }
}

/// Replacing the value of a contained key keeps the tables' agreement and
/// changes only what a lookup of that key finds.
pub proof fn law_with_value<V>(m: SparseModel<V>, k: usize, v: V)
    requires
        m.contains(k),
    ensures
        m.wf() ==> m.with_value(k, v).wf(),
        m.keys_in_range() ==> m.with_value(k, v).keys_in_range(),
        m.with_value(k, v).lookup(k) == Some(v),
        forall|j: usize| j != k && m.wf() ==> #[trigger] m.with_value(k, v).lookup(j) == m.lookup(j),
        m.with_value(k, v).slot(k) == m.slot(k),
        forall|j: usize| #[trigger] m.with_value(k, v).slot(j) == m.slot(j),
{
    let m2 = m.with_value(k, v);
    let d = m.slot(k)->0 as int;
    if m.wf() {
        assert forall|j: usize| #![trigger m2.slot(j)] m2.slot(j) is Some implies {
            &&& m2.slot(j)->0 < m2.dense.len()
            &&& m2.dense[m2.slot(j)->0 as int].0 == j
        } by {
            assert(m.slot(j) is Some);
        }
        assert forall|e: int| #![trigger m2.dense[e]] 0 <= e < m2.dense.len() implies {
            &&& m2.dense[e].0 < m2.sparse.len()
            &&& m2.slot(m2.dense[e].0) == Some(e as usize)
        } by {
            assert(m.dense[e].0 == m2.dense[e].0);
        }
    }
    if m.keys_in_range() {
        assert forall|e: int| 0 <= e < m2.dense.len() implies (#[trigger] m2.dense[e]).0 < m2.sparse.len() by {
            assert(m.dense[e].0 == m2.dense[e].0);
        }
    }
    assert forall|j: usize| j != k && m.wf() implies #[trigger] m2.lookup(j) == m.lookup(j) by {
        if m.slot(j) is Some {
            assert(m.slot(j)->0 != m.slot(k)->0);
        }
    }
}

/// Putting back the value a lookup finds changes nothing.
pub proof fn lemma_with_same_value<V>(m: SparseModel<V>, k: usize)
    requires
        m.contains(k),
    ensures
        m.with_value(k, m.value(k)) == m,
{
    let d = m.slot(k)->0 as int;
    assert(m.with_value(k, m.value(k)).dense =~= m.dense);
}

/// Every operation keeps the keys of the dense table below the length of the
/// sparse table.
pub proof fn lemma_keys_in_range<V>(m: SparseModel<V>, idx: usize, v: V)
    requires
        m.keys_in_range(),
    ensures
        m.insert(idx, v).keys_in_range(),
        m.removable(idx) ==> m.remove(idx).keys_in_range(),
        m.contains(idx) ==> m.with_value(idx, v).keys_in_range(),
{
    let m2 = m.insert(idx, v);
    let g = SparseModel::<V>::grown(m.sparse, idx);
    assert forall|d: int| 0 <= d < m2.dense.len() implies (#[trigger] m2.dense[d]).0 < m2.sparse.len() by {
        if d < m.dense.len() {
            assert(m2.dense[d] == m.dense[d]);
        }
    }
    if m.removable(idx) && m.slot(idx) is Some {
        let m3 = m.remove(idx);
        let dd = m.slot(idx)->0 as int;
        assert forall|d: int| 0 <= d < m3.dense.len() implies (#[trigger] m3.dense[d]).0 < m3.sparse.len() by {
            if d == dd {
                assert(m3.dense[d] == m.dense[m.dense.len() - 1]);
            } else {
                assert(m3.dense[d] == m.dense[d]);
            }
        }
    }
    if m.contains(idx) {
        law_with_value(m, idx, v);
    }
}

/// Inserting `v` under `idx` makes a lookup of `idx` find `v`.
pub proof fn law_lookup_after_insert<V>(m: SparseModel<V>, idx: usize, v: V)
    requires
        m.dense.len() < usize::MAX,
    ensures
        m.insert(idx, v).lookup(idx) == Some(v),
{
    let g = SparseModel::<V>::grown(m.sparse, idx);
    assert(idx < g.len());
}

/// On a well-formed set, inserting under `idx` leaves the lookup of every
/// other key as it was.
pub proof fn law_insert_keeps_other_keys<V>(m: SparseModel<V>, idx: usize, v: V, k: usize)
    requires
        k != idx,
        m.wf(),
        m.dense.len() < usize::MAX,
    ensures
        m.insert(idx, v).lookup(k) == m.lookup(k),
{
    let m2 = m.insert(idx, v);
    let g = SparseModel::<V>::grown(m.sparse, idx);
    assert(m2.slot(k) == m.slot(k)) by {
        if k < m.sparse.len() {
            assert(g[k as int] == m.sparse[k as int]);
        } else if k < g.len() {
            let tail = Seq::new((idx + 1 - m.sparse.len()) as nat, |i: int| None::<usize>);
            assert(g == m.sparse + tail);
            assert(g[k as int] == tail[k - m.sparse.len()]);
        }
    }
    if m.slot(k) is Some {
        assert(m.slot(k)->0 < m.dense.len());
        assert(m2.dense[m.slot(k)->0 as int] == m.dense[m.slot(k)->0 as int]);
    }
}

/// On a well-formed set, inserting a key that is absent keeps the set
/// well formed and adds exactly that key with its value.
pub proof fn law_insert_fresh<V>(m: SparseModel<V>, idx: usize, v: V)
    requires
        m.wf(),
        !m.contains(idx),
        m.dense.len() < usize::MAX,
    ensures
        m.insert(idx, v).wf(),
        m.insert(idx, v).map() == m.map().insert(idx, v),
{
    let m2 = m.insert(idx, v);
    let n = m.dense.len();
    assert(m.slot(idx) is None);
    assert forall|k: usize| k != idx implies #[trigger] m2.slot(k) == m.slot(k) by {
        let g = SparseModel::<V>::grown(m.sparse, idx);
        if k < m.sparse.len() {
            assert(g[k as int] == m.sparse[k as int]);
        } else if k < g.len() {
            let tail = Seq::new((idx + 1 - m.sparse.len()) as nat, |i: int| None::<usize>);
            assert(g == m.sparse + tail);
            assert(g[k as int] == tail[k - m.sparse.len()]);
        }
    }
    law_lookup_after_insert(m, idx, v);
    assert forall|k: usize| #![trigger m2.slot(k)] m2.slot(k) is Some implies {
        &&& m2.slot(k)->0 < m2.dense.len()
        &&& m2.dense[m2.slot(k)->0 as int].0 == k
    } by {
        if k != idx {
            assert(m.slot(k) is Some);
        }
    }
    assert forall|d: int| #![trigger m2.dense[d]] 0 <= d < m2.dense.len() implies {
        &&& m2.dense[d].0 < m2.sparse.len()
        &&& m2.slot(m2.dense[d].0) == Some(d as usize)
    } by {
        if d < n {
            assert(m2.dense[d] == m.dense[d]);
            assert(m.dense[d].0 != idx);
            assert(m.slot(m.dense[d].0) == Some(d as usize));
        }
    }
    assert forall|k: usize| m2.map().contains_key(k) == m.map().insert(idx, v).contains_key(k)
        && (m2.map().contains_key(k) ==> m2.map()[k] == m.map().insert(idx, v)[k]) by {
        if k != idx {
            law_insert_keeps_other_keys(m, idx, v, k);
        }
    }
    assert(m2.map() =~= m.map().insert(idx, v));
}

/// On a well-formed set, removing `idx` returns what a lookup of `idx`
/// found and removes exactly that key.
pub proof fn law_remove<V>(m: SparseModel<V>, idx: usize)
    requires
        m.wf(),
    ensures
        m.removed_value(idx) == m.lookup(idx),
        m.remove(idx).lookup(idx) is None,
        m.remove(idx).map() == m.map().remove(idx),
{
    let m2 = m.remove(idx);
    let n = m.dense.len();
    if m.slot(idx) is Some {
        let d = m.slot(idx)->0;
        let last = m.dense.last();
        assert(m.dense[n - 1] == last);
        assert(m.slot(last.0) == Some((n - 1) as usize));
        assert forall|k: usize| k != idx implies #[trigger] m2.lookup(k) == m.lookup(k) by {
            if m.slot(k) is Some {
                let dk = m.slot(k)->0;
                assert(dk != d);
                if k == last.0 {
                    assert(dk == n - 1);
                    assert(m2.slot(k) == Some(d));
                } else {
                    assert(m2.slot(k) == m.slot(k));
                    assert(dk != n - 1);
                    assert(m2.dense[dk as int] == m.dense[dk as int]);
                }
            } else {
                assert(k != last.0);
                assert(m2.slot(k) == m.slot(k));
            }
        }
        if n != 1 && last.0 == idx {
            assert(d == n - 1);
        }
        assert(m2.lookup(idx) is None);
        assert forall|k: usize| m2.map().contains_key(k) == m.map().remove(idx).contains_key(k)
            && (m2.map().contains_key(k) ==> m2.map()[k] == m.map().remove(idx)[k]) by {
            if k != idx {
                assert(m2.lookup(k) == m.lookup(k));
            }
        }
    } else {
        assert forall|k: usize| m2.map().contains_key(k) == m.map().remove(idx).contains_key(k)
            && (m2.map().contains_key(k) ==> m2.map()[k] == m.map().remove(idx)[k]) by {}
    }
    assert(m2.map() =~= m.map().remove(idx));
}

/// On a well-formed set, removing a key keeps the set well formed.
pub proof fn law_remove_keeps_wf<V>(m: SparseModel<V>, idx: usize)
    requires
        m.wf(),
    ensures
        m.remove(idx).wf(),
{
    let m2 = m.remove(idx);
    let n = m.dense.len();
    if m.slot(idx) is Some {
        let d = m.slot(idx)->0;
        let last = m.dense.last();
        assert(m.dense[n - 1] == last);
        assert(m.slot(last.0) == Some((n - 1) as usize));
        if last.0 == idx {
            assert(d == n - 1);
            assert(m2.dense =~= m.dense.drop_last());
            assert forall|k: usize| #![trigger m2.slot(k)] m2.slot(k) is Some implies {
                &&& m2.slot(k)->0 < m2.dense.len()
                &&& m2.dense[m2.slot(k)->0 as int].0 == k
            } by {
                let dk = m.slot(k)->0;
                assert(k != idx);
                assert(m2.slot(k) == m.slot(k));
                assert(dk != d);
            }
            assert forall|e: int| #![trigger m2.dense[e]] 0 <= e < m2.dense.len() implies {
                &&& m2.dense[e].0 < m2.sparse.len()
                &&& m2.slot(m2.dense[e].0) == Some(e as usize)
            } by {
                assert(m2.dense[e] == m.dense[e]);
                assert(m.slot(m.dense[e].0) == Some(e as usize));
                assert(m.dense[e].0 != idx);
            }
        } else {
            assert(n != 1);
            assert forall|k: usize| #![trigger m2.slot(k)] m2.slot(k) is Some implies {
                &&& m2.slot(k)->0 < m2.dense.len()
                &&& m2.dense[m2.slot(k)->0 as int].0 == k
            } by {
                if k == last.0 {
                } else if k != idx {
                    let dk = m.slot(k)->0;
                    assert(dk != d);
                    assert(dk != n - 1);
                }
            }
            assert forall|e: int| #![trigger m2.dense[e]] 0 <= e < m2.dense.len() implies {
                &&& m2.dense[e].0 < m2.sparse.len()
                &&& m2.slot(m2.dense[e].0) == Some(e as usize)
            } by {
                if e == d {
                } else {
                    assert(m2.dense[e] == m.dense[e]);
                    assert(m.slot(m.dense[e].0) == Some(e as usize));
                    assert(m.dense[e].0 != idx);
                    assert(m.dense[e].0 != last.0);
                }
            }
        }
    }
}

/// On a well-formed set, inserting an absent key and removing it again
/// returns the inserted value and gives back the map from before.
pub proof fn law_insert_then_remove<V>(m: SparseModel<V>, idx: usize, v: V)
    requires
        m.wf(),
        !m.contains(idx),
        m.dense.len() < usize::MAX,
    ensures
        m.insert(idx, v).removed_value(idx) == Some(v),
        m.insert(idx, v).remove(idx).map() == m.map(),
{
    law_insert_fresh(m, idx, v);
    law_lookup_after_insert(m, idx, v);
    law_remove(m.insert(idx, v), idx);
    assert(m.map().insert(idx, v).remove(idx) =~= m.map());
}

} // verus!
