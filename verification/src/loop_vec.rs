use vstd::prelude::*;

verus! {

/// A vec that stores a 'current' index, which can be incremented and decremented, and loops
/// around at the vec bounds.
///
/// The current index always points at an element, or is `0` while the vec is empty.
pub struct LoopVec<T> {
    index: usize,
    vec: Vec<T>,
}

impl<T> Default for LoopVec<T> {
    fn default() -> (r: Self)
        ensures
            r@ == Seq::<T>::empty(),
            r.current() == 0,
    {
        Self::new()
    }
}

impl<T> LoopVec<T> {
    #[verifier::type_invariant]
    spec fn inv(self) -> bool {
        self.index < self.vec.len() || (self.index == 0 && self.vec.len() == 0)
    }

    /// The elements, in order.
    pub closed spec fn view(&self) -> Seq<T> {
        self.vec@
    }

    /// The current index.
    pub closed spec fn current(&self) -> int {
        self.index as int
    }

    /// The index that follows `i` in a cycle of `len` positions.
    pub open spec fn next_index(i: int, len: int) -> int {
        if len == 0 {
            i
        } else if i + 1 == len {
            0
        } else {
            i + 1
        }
    }

    /// The index that precedes `i` in a cycle of `len` positions.
    pub open spec fn prev_index(i: int, len: int) -> int {
        if i == 0 {
            len - 1
        } else {
            i - 1
        }
    }

    pub fn new() -> (r: Self)
        ensures
            r@ == Seq::<T>::empty(),
            r.current() == 0,
    {
        Self { index: 0, vec: Vec::new() }
    }

    /// Takes the elements of `vec`, with the first one current.
    pub fn from_vec(vec: Vec<T>) -> (r: Self)
        ensures
            r@ == vec@,
            r.current() == 0,
    {
        Self { index: 0, vec }
    }

    pub fn len(&self) -> (n: usize)
        ensures
            n == self@.len(),
    {
        self.vec.len()
    }

    pub fn is_empty(&self) -> (b: bool)
        ensures
            b == (self@.len() == 0),
    {
        self.vec.len() == 0
    }

    /// The element at `i`, or `None` past the end.
    pub fn get(&self, i: usize) -> (r: Option<&T>)
        ensures
            r == if i < self@.len() { Some(&self@[i as int]) } else { None },
    {
        if i < self.vec.len() {
            Some(&self.vec[i])
        } else {
            None
        }
    }

    /// Gets the element at the current index, or `None` if the vec is empty
    pub fn get_current(&self) -> (r: Option<&T>)
        ensures
            r == if self@.len() == 0 { None } else { Some(&self@[self.current()]) },
            self@.len() > 0 ==> 0 <= self.current() < self@.len(),
    {
        proof {
            use_type_invariant(self);
        }
        if self.index < self.vec.len() {
            Some(&self.vec[self.index])
        } else {
            None
        }
    }

    /// The element at the current index, to be changed in place, or `None` if the vec is empty
    pub fn get_current_mut(&mut self) -> (r: Option<&mut T>)
        ensures
            old(self)@.len() == 0 ==> r is None && *final(self) == *old(self),
            old(self)@.len() > 0 ==> r is Some && *r->Some_0 == old(self)@[old(self).current()]
                && final(self)@ == old(self)@.update(old(self).current(), *final(r->Some_0))
                && final(self).current() == old(self).current(),
    {
        proof {
            use_type_invariant(&*self);
        }
        if self.index < self.vec.len() {
            Some(&mut self.vec[self.index])
        } else {
            None
        }
    }

    /// Gets the current index
    pub fn index(&self) -> (i: usize)
        ensures
            i == self.current(),
            i < self@.len() || (i == 0 && self@.len() == 0),
    {
        proof {
            use_type_invariant(self);
        }
        self.index
    }

    /// Makes `index` the current index where the vec has an element there, and tells whether it
    /// has.
    pub fn try_set_index(&mut self, index: usize) -> (done: bool)
        ensures
            done == (index < old(self)@.len()),
            final(self)@ == old(self)@,
            final(self).current() == if done { index as int } else { old(self).current() },
    {
        if index < self.vec.len() {
            self.index = index;
            true
        } else {
            false
        }
    }

    /// Increments the current index, looping around to 0 if incrementing exceeds the bounds of the vec
    pub fn inc(&mut self)
        ensures
            final(self)@ == old(self)@,
            final(self).current() == Self::next_index(old(self).current(), old(self)@.len() as int),
    {
        proof {
            use_type_invariant(&*self);
        }
        let len = self.vec.len();
        if len != 0 {
            self.index = if self.index + 1 == len { 0 } else { self.index + 1 };
        }
    }

    /// Decrements the current index, looping around to the tail of the vec if decrementing puts the index below 0
    pub fn dec(&mut self)
        requires
            old(self)@.len() > 0,
        ensures
            final(self)@ == old(self)@,
            final(self).current() == Self::prev_index(old(self).current(), old(self)@.len() as int),
    {
        proof {
            use_type_invariant(&*self);
        }
        if self.index == 0 {
            self.index = self.vec.len() - 1;
        } else {
            self.index = self.index - 1;
        }
    }
}

} // verus!
