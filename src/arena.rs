use std::collections::BTreeMap;
use vstd::laws_cmp::obeys_cmp;
use vstd::prelude::*;

verus! {

broadcast use {vstd::std_specs::btree::group_btree_axioms, vstd::laws_cmp::group_laws_cmp};

/// A keyed store whose records live in a vector, in the order their keys
/// were first inserted, with an ordered index from key to position.
///
/// Records never move once stored, so a position is a stable handle.
#[derive(Debug)]
pub struct Arena<K, V> {
    pub index: BTreeMap<K, usize>,
    pub slots: Vec<(K, V)>,
}

impl<K: Copy + Ord, V> Arena<K, V> {
    /// The index and the vector agree, in both directions.
    pub open spec fn wf(&self) -> bool {
        &&& obeys_cmp::<K>()
        &&& forall|k: K| #[trigger]
            self.index@.contains_key(k) ==> {
                &&& (self.index@[k] as int) < self.slots@.len()
                &&& self.slots@[self.index@[k] as int].0 == k
            }
        &&& forall|i: int|
            0 <= i < self.slots@.len() ==> {
                &&& #[trigger] self.index@.contains_key(self.slots@[i].0)
                &&& self.index@[self.slots@[i].0] == i
            }
    }

    /// The records in insertion order.
    pub open spec fn entries(&self) -> Seq<(K, V)> {
        self.slots@
    }

    pub open spec fn contains(&self, k: K) -> bool {
        self.index@.contains_key(k)
    }

    /// The position of the record stored under `k`.
    pub open spec fn pos(&self, k: K) -> int {
        self.index@[k] as int
    }

    /// The record stored under `k`.
    pub open spec fn at(&self, k: K) -> V {
        self.slots@[self.index@[k] as int].1
    }

    pub fn new() -> (r: Self)
        requires
            obeys_cmp::<K>(),
        ensures
            r.wf(),
            r.entries().len() == 0,
            forall|k: K| !r.contains(k),
    {
        Arena { index: BTreeMap::new(), slots: Vec::new() }
    }

    pub fn len(&self) -> (r: usize)
        ensures
            r == self.entries().len(),
    {
        self.slots.len()
    }

    pub fn find(&self, k: &K) -> (r: Option<usize>)
        requires
            self.wf(),
        ensures
            match r {
                Some(i) => self.contains(*k) && i == self.pos(*k),
                None => !self.contains(*k),
            },
    {
        match self.index.get(k) {
            Some(i) => Some(*i),
            None => None,
        }
    }

    pub fn get(&self, k: &K) -> (r: Option<&V>)
        requires
            self.wf(),
        ensures
            match r {
                Some(v) => self.contains(*k) && *v == self.at(*k),
                None => !self.contains(*k),
            },
    {
        match self.index.get(k) {
            Some(i) => Some(&self.slots[*i].1),
            None => None,
        }
    }

    /// The records as a map from key to value.
    pub open spec fn view(&self) -> Map<K, V> {
        Map::new(|k: K| self.contains(k), |k: K| self.at(k))
    }

    /// `self` is `a` with the value under the stored key `k` replaced by `v`.
    pub open spec fn lent_from(&self, a: &Self, k: K, v: V) -> bool {
        &&& a.contains(k)
        &&& self.index@ == a.index@
        &&& self.entries() == a.entries().update(a.pos(k), (k, v))
    }

    /// `self` is `a` with `v` stored under `k`: in place if `k` was stored,
    /// else appended.
    pub open spec fn grown_from(&self, a: &Self, k: K, v: V) -> bool {
        if a.contains(k) {
            self.lent_from(a, k, v)
        } else {
            &&& self.index@ == a.index@.insert(k, a.entries().len() as usize)
            &&& self.entries().len() == a.entries().len() + 1
            &&& self.entries()[a.entries().len() as int] == (k, v)
            &&& forall|i: int|
                0 <= i < a.entries().len() ==> #[trigger] self.entries()[i] == a.entries()[i]
        }
    }

    pub proof fn lemma_lent(a: &Self, b: &Self, k: K, v: V)
        requires
            a.wf(),
            b.lent_from(a, k, v),
        ensures
            b.wf(),
            b.view() == a.view().insert(k, v),
            forall|j: K| #[trigger] b.contains(j) == a.contains(j),
            forall|j: K| a.contains(j) ==> #[trigger] b.pos(j) == a.pos(j),
    {
        assert forall|j: int| 0 <= j < b.slots@.len() implies {
            &&& #[trigger] b.index@.contains_key(b.slots@[j].0)
            &&& b.index@[b.slots@[j].0] == j
        } by {
            assert(b.slots@[j].0 == a.slots@[j].0);
            assert(a.index@.contains_key(a.slots@[j].0));
        }
        assert forall|j: K| #[trigger] b.index@.contains_key(j) implies {
            &&& (b.index@[j] as int) < b.slots@.len()
            &&& b.slots@[b.index@[j] as int].0 == j
        } by {
            assert(a.index@.contains_key(j));
        }
        assert forall|j: K| b.contains(j) implies #[trigger] b.at(j) == a.view().insert(k, v)[j] by {
            assert(a.index@.contains_key(j));
            if j != k {
                assert(a.pos(j) != a.pos(k));
            }
        }
        assert(b.view() =~= a.view().insert(k, v));
    }

    pub proof fn lemma_grown(a: &Self, b: &Self, k: K, v: V)
        requires
            a.wf(),
            a.contains(k) || a.entries().len() < usize::MAX,
            b.grown_from(a, k, v),
        ensures
            b.wf(),
            b.view() == a.view().insert(k, v),
            forall|j: K| #[trigger] b.contains(j) == (a.contains(j) || j == k),
            forall|j: K| a.contains(j) ==> #[trigger] b.pos(j) == a.pos(j),
            b.contains(k),
            a.contains(k) ==> b.entries() == a.entries().update(a.pos(k), (k, v)),
            !a.contains(k) ==> b.entries() == a.entries().push((k, v)),
    {
        if a.contains(k) {
            Self::lemma_lent(a, b, k, v);
        } else {
            let n = a.slots@.len();
            assert forall|j: K| #[trigger] b.index@.contains_key(j) implies {
                &&& (b.index@[j] as int) < b.slots@.len()
                &&& b.slots@[b.index@[j] as int].0 == j
            } by {
                if j != k {
                    assert(a.index@.contains_key(j));
                }
            }
            assert forall|i: int| 0 <= i < b.slots@.len() implies {
                &&& #[trigger] b.index@.contains_key(b.slots@[i].0)
                &&& b.index@[b.slots@[i].0] == i
            } by {
                if i < n {
                    assert(a.index@.contains_key(a.slots@[i].0));
                }
            }
            assert forall|j: K| b.contains(j) implies #[trigger] b.at(j) == a.view().insert(k, v)[j] by {
                if j != k {
                    assert(a.index@.contains_key(j));
                }
            }
            assert(b.view() =~= a.view().insert(k, v));
            assert(b.entries() =~= a.entries().push((k, v)));
        }
    }

    /// Lends the record stored under `k`, if any.
    pub fn get_mut(&mut self, k: &K) -> (r: Option<&mut V>)
        requires
            old(self).wf(),
        ensures
            match r {
                Some(v) => {
                    &&& *v == old(self).at(*k)
                    &&& final(self).lent_from(old(self), *k, *final(v))
                },
                None => !old(self).contains(*k) && *final(self) == *old(self),
            },
    {
        match self.index.get(k) {
            Some(i) => {
                let i = *i;
                Some(&mut self.slots[i].1)
            },
            None => None,
        }
    }

    /// Lends the record stored under `k`, first appending `v` under `k` if
    /// there is none.
    pub fn get_or_insert(&mut self, k: K, v: V) -> (r: &mut V)
        requires
            old(self).wf(),
            old(self).contains(k) || old(self).entries().len() < usize::MAX,
        ensures
            *r == if old(self).contains(k) {
                old(self).at(k)
            } else {
                v
            },
            final(self).grown_from(old(self), k, *final(r)),
    {
        let i = match self.index.get(&k) {
            Some(i) => *i,
            None => {
                let n = self.slots.len();
                self.index.insert(k, n);
                self.slots.push((k, v));
                n
            },
        };
        assert(self.slots@[i as int].0 == k);
        &mut self.slots[i].1
    }

    /// The record at position `i`.
    pub fn slot(&self, i: usize) -> (r: &(K, V))
        requires
            i < self.entries().len(),
        ensures
            *r == self.entries()[i as int],
    {
        &self.slots[i]
    }
}

} // verus!
