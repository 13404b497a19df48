//! The dense entry storage: a vector with an explicitly tracked
//! reserved capacity.

use vstd::prelude::*;

verus! {

/// A dense vector that tracks its reserved capacity explicitly.
///
/// The map's entry storage reports and reallocates capacity in exact
/// steps, so the capacity is part of the vector's own state rather
/// than an allocation detail. The view is the sequence of the
/// `len` initialized elements; positions past `len` are mere reserve.
pub struct AllocVec<T> {
    buf: Vec<T>,
    cap: usize,
}

impl<T> View for AllocVec<T> {
    type V = Seq<T>;

    closed spec fn view(&self) -> Seq<T> {
        self.buf@
    }
}

impl<T> AllocVec<T> {
    /// The reserved capacity.
    pub closed spec fn spec_capacity(self) -> int {
        self.cap as int
    }

    /// The length never exceeds the reserved capacity.
    pub open spec fn wf(self) -> bool {
        self@.len() <= self.spec_capacity()
    }

    /// Creates an empty vector with no reserved capacity.
    pub fn new() -> (r: Self)
        ensures
            r@ == Seq::<T>::empty(),
            r.spec_capacity() == 0,
            r.wf(),
    {
        AllocVec { buf: Vec::new(), cap: 0 }
    }

    /// Creates an empty vector with the given reserved capacity.
    pub fn with_capacity(cap: usize) -> (r: Self)
        ensures
            r@ == Seq::<T>::empty(),
            r.spec_capacity() == cap,
            r.wf(),
    {
        AllocVec { buf: Vec::with_capacity(cap), cap }
    }

    /// The reserved capacity.
    pub fn capacity(&self) -> (r: usize)
        ensures
            r == self.spec_capacity(),
    {
        self.cap
    }

    /// The number of initialized elements.
    pub fn len(&self) -> (r: usize)
        ensures
            r == self@.len(),
    {
        self.buf.len()
    }

    /// Whether the vector holds no elements.
    pub fn is_empty(&self) -> (r: bool)
        ensures
            r == (self@.len() == 0),
    {
        self.buf.len() == 0
    }

    /// Reserves room for exactly `additional` more elements: the new
    /// capacity is the old one plus `additional`.
    pub fn reserve(&mut self, additional: usize)
        requires
            old(self).spec_capacity() + additional <= usize::MAX,
        ensures
            final(self)@ == old(self)@,
            final(self).spec_capacity() == old(self).spec_capacity() + additional,
    {
        self.cap = self.cap + additional;
        self.buf.reserve(additional);
    }

    /// Changes the reserved capacity to `new_cap`, keeping the elements.
    pub fn reallocate(&mut self, new_cap: usize)
        requires
            old(self)@.len() <= new_cap,
        ensures
            final(self)@ == old(self)@,
            final(self).spec_capacity() == new_cap,
            final(self).wf(),
    {
        if new_cap > self.buf.len() {
            self.buf.reserve(new_cap - self.buf.len());
        }
        self.cap = new_cap;
    }

    /// Shrinks the capacity to `new_cap` when that lies between the
    /// length and the current capacity; otherwise leaves it unchanged.
    pub fn shrink_to(&mut self, new_cap: usize)
        ensures
            final(self)@ == old(self)@,
            final(self).spec_capacity() == (if old(self)@.len() <= new_cap < old(
                self,
            ).spec_capacity() {
                new_cap as int
            } else {
                old(self).spec_capacity()
            }),
    {
        if new_cap < self.cap && new_cap >= self.buf.len() {
            self.cap = new_cap;
        }
    }

    /// Shrinks the capacity to match the length exactly.
    pub fn shrink_to_fit(&mut self)
        requires
            old(self).wf(),
        ensures
            final(self)@ == old(self)@,
            final(self).spec_capacity() == old(self)@.len(),
    {
        if self.cap > self.buf.len() {
            self.cap = self.buf.len();
        }
    }

    /// Appends an element, growing the capacity by one when full.
    pub fn push(&mut self, value: T)
        requires
            old(self).wf(),
            old(self).spec_capacity() < usize::MAX || old(self)@.len() < old(
                self,
            ).spec_capacity(),
        ensures
            final(self)@ == old(self)@.push(value),
            final(self).spec_capacity() == (if old(self)@.len() == old(self).spec_capacity() {
                old(self).spec_capacity() + 1
            } else {
                old(self).spec_capacity()
            }),
            final(self).wf(),
    {
        if self.buf.len() == self.cap {
            self.cap = self.cap + 1;
        }
        self.buf.push(value);
    }

    /// Appends an element only when there is room, handing the element
    /// back otherwise.
    pub fn try_push(&mut self, value: T) -> (r: Result<(), T>)
        ensures
            final(self).spec_capacity() == old(self).spec_capacity(),
            old(self)@.len() < old(self).spec_capacity() ==> r is Ok && final(self)@ == old(
                self,
            )@.push(value),
            old(self)@.len() >= old(self).spec_capacity() ==> r == Result::<(), T>::Err(value)
                && final(self)@ == old(self)@,
    {
        if self.buf.len() >= self.cap {
            return Err(value);
        }
        self.buf.push(value);
        Ok(())
    }

    /// The element at `index`, or nothing when out of bounds.
    pub fn get(&self, index: usize) -> (r: Option<&T>)
        ensures
            index < self@.len() ==> r == Some(&self@[index as int]),
            index >= self@.len() ==> r is None,
    {
        if index < self.buf.len() {
            Some(&self.buf[index])
        } else {
            None
        }
    }

    /// A mutable reference to the element at `index`, or nothing when
    /// out of bounds.
    pub fn get_mut(&mut self, index: usize) -> (r: Option<&mut T>)
        ensures
            index >= old(self)@.len() ==> r is None && final(self)@ == old(self)@,
            index < old(self)@.len() ==> r is Some && *r.unwrap() == old(self)@[index as int]
                && final(self)@ == old(self)@.update(index as int, *final(r.unwrap())),
            final(self).spec_capacity() == old(self).spec_capacity(),
    {
        if index < self.buf.len() {
            Some(&mut self.buf[index])
        } else {
            None
        }
    }

    /// The element at `index`.
    pub fn index(&self, index: usize) -> (r: &T)
        requires
            index < self@.len(),
        ensures
            *r == self@[index as int],
    {
        &self.buf[index]
    }

    /// A mutable reference to the element at `index`.
    pub fn index_mut(&mut self, index: usize) -> (r: &mut T)
        requires
            index < old(self)@.len(),
        ensures
            *r == old(self)@[index as int],
            final(self)@ == old(self)@.update(index as int, *final(r)),
            final(self).spec_capacity() == old(self).spec_capacity(),
    {
        &mut self.buf[index]
    }

    /// The first element.
    pub fn first(&self) -> (r: &T)
        requires
            self@.len() > 0,
        ensures
            *r == self@[0],
    {
        &self.buf[0]
    }

    /// The last element.
    pub fn last(&self) -> (r: &T)
        requires
            self@.len() > 0,
        ensures
            *r == self@[self@.len() - 1],
    {
        &self.buf[self.buf.len() - 1]
    }

    /// Removes and returns the element at `index`, shifting successors
    /// left by one. The capacity is unchanged.
    pub fn remove(&mut self, index: usize) -> (r: T)
        requires
            index < old(self)@.len(),
        ensures
            r == old(self)@[index as int],
            final(self)@ == old(self)@.remove(index as int),
            final(self).spec_capacity() == old(self).spec_capacity(),
    {
        self.buf.remove(index)
    }

    /// Removes and returns the last element. The capacity is unchanged.
    pub fn pop(&mut self) -> (r: T)
        requires
            old(self)@.len() > 0,
        ensures
            r == old(self)@[old(self)@.len() - 1],
            final(self)@ == old(self)@.drop_last(),
            final(self).spec_capacity() == old(self).spec_capacity(),
    {
        let r = self.buf.pop().unwrap();
        proof {
            assert(self.buf@ =~= old(self).buf@.drop_last());
        }
        r
    }

    /// Removes and returns the first element, shifting the rest left
    /// by one. The capacity is unchanged.
    pub fn pop_front(&mut self) -> (r: T)
        requires
            old(self)@.len() > 0,
        ensures
            r == old(self)@[0],
            final(self)@ == old(self)@.remove(0),
            final(self).spec_capacity() == old(self).spec_capacity(),
    {
        self.buf.remove(0)
    }

    /// Overwrites the element at `index` with a new value.
    pub fn replace(&mut self, index: usize, new_value: T)
        requires
            index < old(self)@.len(),
        ensures
            final(self)@ == old(self)@.update(index as int, new_value),
            final(self).spec_capacity() == old(self).spec_capacity(),
    {
        self.buf[index] = new_value;
    }

    /// Drops all elements. The capacity is unchanged.
    pub fn clear(&mut self)
        ensures
            final(self)@ == Seq::<T>::empty(),
            final(self).spec_capacity() == old(self).spec_capacity(),
    {
        self.buf.clear();
    }

    /// The initialized elements as a slice.
    pub fn as_slice(&self) -> (r: &[T])
        ensures
            r@ == self@,
    {
        self.buf.as_slice()
    }

    /// The initialized elements as a mutable slice.
    pub fn as_mut_slice(&mut self) -> (r: &mut [T])
        ensures
            r@ == old(self)@,
            final(r)@ == final(self)@,
            final(self).spec_capacity() == old(self).spec_capacity(),
    {
        self.buf.as_mut_slice()
    }

    /// The resident size in bytes: the metadata plus the reserved
    /// elements, saturating at `usize::MAX`.
    pub fn memory_usage(&self) -> (r: usize)
        ensures
            r == spec_memory_usage(
                self.spec_capacity(),
                vstd::layout::size_of::<T>() as int,
                vstd::layout::size_of::<usize>() as int,
            ),
    {
        let word = core::mem::size_of::<usize>();
        let metadata_size = word.saturating_add(word);
        let elements_size = match self.cap.checked_mul(core::mem::size_of::<T>()) {
            Some(n) => n,
            None => usize::MAX,
        };
        metadata_size.saturating_add(elements_size)
    }
}

/// A sum that saturates at `usize::MAX`.
pub open spec fn sat_sum(a: int, b: int) -> int {
    if a + b <= usize::MAX {
        a + b
    } else {
        usize::MAX as int
    }
}

/// The bytes a vector of capacity `cap` over elements of `elem_size`
/// bytes occupies on a machine whose word is `word` bytes: two words
/// of metadata plus the reserved elements, saturating at `usize::MAX`.
pub open spec fn spec_memory_usage(cap: int, elem_size: int, word: int) -> int {
    let elements = if cap * elem_size <= usize::MAX {
        cap * elem_size
    } else {
        usize::MAX as int
    };
    sat_sum(sat_sum(word, word), elements)
}

impl<T: Clone> AllocVec<T> {
    /// An independent copy whose capacity equals the length: each
    /// element is a clone of the original's.
    pub fn clone_compact(&self) -> (r: Self)
        ensures
            r@.len() == self@.len(),
            forall|i: int|
                0 <= i < self@.len() ==> vstd::pervasive::cloned::<T>(self@[i], #[trigger] r@[i]),
            r.spec_capacity() == self@.len(),
            r.wf(),
    {
        AllocVec { buf: self.buf.clone(), cap: self.buf.len() }
    }
}

impl<T: Clone> Clone for AllocVec<T> {
    /// An independent copy with the same capacity; each element is a
    /// clone of the original's.
    fn clone(&self) -> (r: Self)
        ensures
            r@.len() == self@.len(),
            forall|i: int|
                0 <= i < self@.len() ==> vstd::pervasive::cloned::<T>(self@[i], #[trigger] r@[i]),
            r.spec_capacity() == self.spec_capacity(),
    {
        AllocVec { buf: self.buf.clone(), cap: self.cap }
    }
}

impl<T: Default> AllocVec<T> {
    /// A vector filled with `cap` default values: the length and the
    /// capacity both equal `cap`.
    pub fn with_capacity_and_populate(cap: usize) -> (r: Self)
        ensures
            r@.len() == cap,
            forall|i: int|
                0 <= i < cap ==> call_ensures(T::default, (), #[trigger] r@[i]),
            r.spec_capacity() == cap,
            r.wf(),
    {
        let mut buf: Vec<T> = Vec::with_capacity(cap);
        while buf.len() < cap
            invariant
                buf@.len() <= cap,
                forall|i: int|
                    0 <= i < buf@.len() ==> call_ensures(T::default, (), #[trigger] buf@[i]),
            decreases cap - buf@.len(),
        {
            buf.push(T::default());
        }
        AllocVec { buf, cap }
    }
}

} // verus!
