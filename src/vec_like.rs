use vstd::prelude::*;
use std::collections::HashMap;

verus! {

broadcast use vstd::std_specs::hash::group_hash_axioms;

/// A vector of `max_size` values that all start out as a default value, allocated lazily:
/// only positions written to take up room in the underlying map.
#[derive(Debug, Clone)]
pub struct VecLike<T> {
    default_value: T,
    max_size: usize,
    data: HashMap<usize, T>,
}

impl<T> View for VecLike<T> {
    type V = Seq<T>;

    /// Position `i` holds what was last written there, or the default value.
    closed spec fn view(&self) -> Seq<T> {
        Seq::new(
            self.max_size as nat,
            |i: int|
                if self.data@.contains_key(i as usize) {
                    self.data@[i as usize]
                } else {
                    self.default_value
                },
        )
    }
}

impl<T> VecLike<T> {
    /// The positions that have been written to.
    pub closed spec fn allocated(&self) -> Set<usize> {
        self.data@.dom()
    }

    /// The value of every position that has not been written to.
    pub closed spec fn spec_default_value(&self) -> T {
        self.default_value
    }

    /// Only positions below the size are ever allocated, and finitely many are.
    pub closed spec fn wf(&self) -> bool {
        &&& forall|k: usize| #[trigger] self.data@.contains_key(k) ==> k < self.max_size
        &&& self.data@.dom().finite()
    }
}

impl<T: Clone> VecLike<T> {
    /// Creates a new VecLike with a default value and a maximum size.
    pub fn new(default_value: T, max_size: usize) -> (r: Self)
        ensures
            r.wf(),
            r@ == Seq::new(max_size as nat, |i: int| default_value),
            r.spec_default_value() == default_value,
            r.allocated() == Set::<usize>::empty(),
            r.allocated().finite(),
    {
        let r = VecLike { default_value, max_size, data: HashMap::new() };
        assert(r@ =~= Seq::new(max_size as nat, |i: int| default_value));
        r
    }

    /// The value at `index`, or `None` beyond the size.
    pub fn get(&self, index: usize) -> (r: Option<&T>)
        ensures
            match r {
                Some(v) => index < self@.len() && *v == self@[index as int],
                None => index >= self@.len(),
            },
    {
        if index >= self.max_size {
            None
        } else {
            match self.data.get(&index) {
                Some(v) => Some(v),
                None => Some(&self.default_value),
            }
        }
    }

    /// The value at `index`, which must be below the size.
    pub fn index(&self, index: usize) -> (r: &T)
        requires
            index < self@.len(),
        ensures
            *r == self@[index as int],
    {
        match self.data.get(&index) {
            Some(v) => v,
            None => &self.default_value,
        }
    }

    /// Writes `value` at `index`, which must be below the size.
    pub fn set(&mut self, index: usize, value: T)
        requires
            old(self).wf(),
            index < old(self)@.len(),
        ensures
            final(self).wf(),
            final(self)@ == old(self)@.update(index as int, value),
            final(self).allocated() == old(self).allocated().insert(index),
            final(self).allocated().finite(),
            final(self).spec_default_value() == old(self).spec_default_value(),
    {
        self.data.insert(index, value);
        assert(self@ =~= old(self)@.update(index as int, value));
    }

    /// Whether position `index` has been written to.
    pub fn contains_key(&self, index: usize) -> (r: bool)
        ensures
            r == self.allocated().contains(index),
    {
        self.data.contains_key(&index)
    }

    /// The number of positions that have been written to.
    pub fn allocated_count(&self) -> (r: usize)
        ensures
            r == self.allocated().len(),
    {
        self.data.len()
    }

    /// is_empty checks if the VecLike is empty.
    pub fn is_empty(&self) -> (r: bool)
        ensures
            r == (self@.len() == 0),
    {
        self.max_size == 0
    }
}

impl<T: Default> Default for VecLike<T> {
    fn default() -> (r: Self)
        ensures
            r@.len() == 0,
            r.allocated() == Set::<usize>::empty(),
            r.allocated().finite(),
    {
        VecLike { default_value: T::default(), max_size: 0, data: HashMap::new() }
    }
}

} // verus!
