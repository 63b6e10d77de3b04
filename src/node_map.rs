use vstd::prelude::*;
use crate::ballot::NodeId;

verus! {

/// A map from node ids to values that keeps its keys in order of first insertion.
pub struct NodeMap<V> {
    entries: Vec<(NodeId, V)>,
    model: Ghost<Map<NodeId, V>>,
}

impl<V> View for NodeMap<V> {
    type V = Map<NodeId, V>;

    closed spec fn view(&self) -> Map<NodeId, V> {
        self.model@
    }
}

impl<V> NodeMap<V> {
    /// The keys, in the order in which they were first inserted.
    pub closed spec fn keys(&self) -> Seq<NodeId> {
        self.entries@.map_values(|e: (NodeId, V)| e.0)
    }

    /// Each stored value is the one the model maps its key to.
    pub closed spec fn inv(&self) -> bool {
        forall|i: int|
            0 <= i < self.entries@.len() ==> #[trigger] self.model@[self.entries@[i].0]
                == self.entries@[i].1
    }

    /// Each key occurs once, and the keys are exactly the domain of the map.
    pub open spec fn wf(&self) -> bool {
        &&& self.keys().no_duplicates()
        &&& forall|k: NodeId| self@.contains_key(k) <==> #[trigger] self.keys().contains(k)
        &&& self.inv()
    }

    pub fn new() -> (r: Self)
        ensures
            r.wf(),
            r@ == Map::<NodeId, V>::empty(),
            r.keys() == Seq::<NodeId>::empty(),
    {
        let r = NodeMap { entries: Vec::new(), model: Ghost(Map::empty()) };
        assert(r.keys() =~= Seq::<NodeId>::empty());
        r
    }

    /// The number of keys.
    pub fn len(&self) -> (r: usize)
        ensures
            r == self.keys().len(),
    {
        self.entries.len()
    }

    fn find(&self, k: NodeId) -> (r: Option<usize>)
        requires
            self.wf(),
        ensures
            match r {
                Some(i) => i < self.keys().len() && self.keys()[i as int] == k,
                None => !self.keys().contains(k),
            },
    {
        let mut i: usize = 0;
        while i < self.entries.len()
            invariant
                i <= self.entries@.len(),
                forall|j: int| 0 <= j < i ==> self.keys()[j] != k,
            decreases self.entries@.len() - i,
        {
            if self.entries[i].0 == k {
                return Some(i);
            }
            i = i + 1;
        }
        None
    }

    /// Whether `k` is a key of the map.
    pub fn contains_key(&self, k: NodeId) -> (r: bool)
        requires
            self.wf(),
        ensures
            r == self@.contains_key(k),
    {
        match self.find(k) {
            Some(i) => {
                assert(self.keys()[i as int] == k);
                assert(self.keys().contains(k));
                true
            },
            None => false,
        }
    }

    /// The value stored under `k`, if any.
    pub fn get(&self, k: NodeId) -> (r: Option<&V>)
        requires
            self.wf(),
        ensures
            match r {
                Some(v) => self@.contains_key(k) && *v == self@[k],
                None => !self@.contains_key(k),
            },
    {
        match self.find(k) {
            Some(i) => {
                assert(self.keys()[i as int] == self.entries@[i as int].0);
                assert(self.keys().contains(k));
                Some(&self.entries[i].1)
            },
            None => None,
        }
    }

    /// The key at position `i` in insertion order.
    pub fn key_at(&self, i: usize) -> (r: NodeId)
        requires
            i < self.keys().len(),
        ensures
            r == self.keys()[i as int],
    {
        self.entries[i].0
    }

    /// The value of the key at position `i` in insertion order.
    pub fn value_at(&self, i: usize) -> (r: &V)
        requires
            self.wf(),
            i < self.keys().len(),
        ensures
            *r == self@[self.keys()[i as int]],
    {
        assert(self.keys()[i as int] == self.entries@[i as int].0);
        &self.entries[i].1
    }

    /// Replaces the value of the key at position `i`.
    pub fn set_at(&mut self, i: usize, v: V)
        requires
            old(self).wf(),
            i < old(self).keys().len(),
        ensures
            final(self).wf(),
            final(self).keys() == old(self).keys(),
            final(self)@ == old(self)@.insert(old(self).keys()[i as int], v),
    {
        let k = self.entries[i].0;
        let ghost old_entries = self.entries@;
        self.entries.set(i, (k, v));
        self.model = Ghost(self.model@.insert(k, v));
        assert(self.keys() =~= old(self).keys());
        assert forall|j: int| 0 <= j < self.entries@.len() implies #[trigger] self.model@[
            self.entries@[j].0] == self.entries@[j].1 by {
            if j != i {
                assert(old(self).keys()[j] == old_entries[j].0);
                assert(old(self).keys()[i as int] == k);
            }
        }
        assert forall|key: NodeId| self@.contains_key(key) <==> #[trigger] self.keys().contains(
            key) by {
            if key == k {
                assert(self.keys()[i as int] == k);
            }
        }
    }

    /// Stores `v` under `k`; a new key goes after all present ones.
    pub fn insert(&mut self, k: NodeId, v: V)
        requires
            old(self).wf(),
        ensures
            final(self).wf(),
            final(self)@ == old(self)@.insert(k, v),
            final(self).keys() == if old(self)@.contains_key(k) {
                old(self).keys()
            } else {
                old(self).keys().push(k)
            },
    {
        match self.find(k) {
            Some(i) => {
                assert(self.keys()[i as int] == k);
                assert(self.keys().contains(k));
                self.set_at(i, v);
            },
            None => {
                let ghost old_keys = self.keys();
                self.entries.push((k, v));
                self.model = Ghost(self.model@.insert(k, v));
                assert(self.keys() =~= old_keys.push(k));
                assert(forall|j: int| 0 <= j < old_keys.len() ==> old_keys[j] != k);
                assert forall|j: int| 0 <= j < self.entries@.len() implies #[trigger] self.model@[
                    self.entries@[j].0] == self.entries@[j].1 by {
                    if j < old_keys.len() {
                        assert(old_keys[j] == old(self).entries@[j].0);
                        assert(self.entries@[j] == old(self).entries@[j]);
                        assert(old(self).model@[old(self).entries@[j].0] == old(self).entries@[j].1);
                    }
                }
                assert forall|key: NodeId| self@.contains_key(key) <==> #[trigger] self.keys().contains(
                    key) by {
                    if key == k {
                        assert(self.keys()[old_keys.len() as int] == k);
                    } else if self.keys().contains(key) {
                        assert(self.keys() == old_keys.push(k));
                        let j = choose|j: int| 0 <= j < self.keys().len() && self.keys()[j] == key;
                        assert(j < old_keys.len());
                        assert(old_keys[j] == key);
                        assert(old(self).keys().contains(key));
                        assert(old(self)@.contains_key(key));
                    } else if old(self).keys().contains(key) {
                        let j = choose|j: int| 0 <= j < old_keys.len() && old_keys[j] == key;
                        assert(self.keys()[j] == key);
                    }
                }
            },
        }
    }
}

} // verus!
