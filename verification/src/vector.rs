//! A thin dynamic-array wrapper: an ordinary amortized-growth sequence
//! container with positional access, removal and a closure-driven resize.

use vstd::prelude::*;

verus! {

/// A growable sequence of values, abstracting to the sequence of its
/// elements in order.
pub struct Vector<T> {
    data: Vec<T>,
}

impl<T> View for Vector<T> {
    type V = Seq<T>;

    closed spec fn view(&self) -> Seq<T> {
        self.data@
    }
}

impl<T> Vector<T> {
    /// An empty vector.
    pub fn new() -> (v: Self)
        ensures
            v@ == Seq::<T>::empty(),
    {
        Vector { data: Vec::new() }
    }

    /// An empty vector with room reserved for `capacity` elements.
    pub fn with_capacity(capacity: usize) -> (v: Self)
        ensures
            v@ == Seq::<T>::empty(),
    {
        Vector { data: Vec::with_capacity(capacity) }
    }

    /// Appends `item` at the back.
    pub fn push(&mut self, item: T)
        requires
            old(self)@.len() < usize::MAX,
        ensures
            final(self)@ == old(self)@.push(item),
    {
        self.data.push(item);
    }

    /// Takes the last element off, if there is one.
    pub fn pop(&mut self) -> (r: Option<T>)
        ensures
            match r {
                Some(item) => {
                    &&& old(self)@.len() > 0
                    &&& item == old(self)@.last()
                    &&& final(self)@ == old(self)@.drop_last()
                },
                None => {
                    &&& old(self)@.len() == 0
                    &&& final(self)@ == old(self)@
                },
            },
    {
        self.data.pop()
    }

    /// Removes and returns the element at `index`, shifting the elements
    /// behind it forward; out-of-range indices change nothing.
    pub fn remove(&mut self, index: usize) -> (r: Option<T>)
        ensures
            match r {
                Some(item) => {
                    &&& index < old(self)@.len()
                    &&& item == old(self)@[index as int]
                    &&& final(self)@ == old(self)@.remove(index as int)
                },
                None => {
                    &&& index >= old(self)@.len()
                    &&& final(self)@ == old(self)@
                },
            },
    {
        if index < self.data.len() {
            Some(self.data.remove(index))
        } else {
            None
        }
    }

    /// A read-only handle to the element at `index`, if it is in range.
    pub fn get(&self, index: usize) -> (r: Option<&T>)
        ensures
            match r {
                Some(item) => index < self@.len() && *item == self@[index as int],
                None => index >= self@.len(),
            },
    {
        if index < self.data.len() {
            Some(&self.data[index])
        } else {
            None
        }
    }

    /// Number of elements currently stored.
    pub fn len(&self) -> (n: usize)
        ensures
            n == self@.len(),
    {
        self.data.len()
    }

    /// Cuts the vector down to `new_capacity` elements, or grows it to
    /// `new_capacity` by appending `new_element(i)` for each fresh
    /// position `i`.
    pub fn resize<F: Fn(usize) -> T>(&mut self, new_capacity: usize, new_element: F)
        requires
            forall|i: usize|
                old(self)@.len() <= i < new_capacity ==> call_requires(new_element, (i,)),
        ensures
            new_capacity <= old(self)@.len() ==> final(self)@ == old(self)@.subrange(
                0,
                new_capacity as int,
            ),
            new_capacity >= old(self)@.len() ==> {
                &&& final(self)@.len() == new_capacity
                &&& final(self)@.subrange(0, old(self)@.len() as int) == old(self)@
                &&& forall|i: int|
                    old(self)@.len() <= i < new_capacity ==> call_ensures(
                        new_element,
                        ((i as usize),),
                        #[trigger] final(self)@[i],
                    )
            },
    {
        let current_size = self.data.len();
        if new_capacity < current_size {
            self.data.truncate(new_capacity);
        } else if new_capacity > current_size {
            self.data.reserve(new_capacity - current_size);
            let mut i: usize = current_size;
            while i < new_capacity
                invariant
                    current_size <= i <= new_capacity,
                    self.data@.len() == i,
                    self.data@.subrange(0, current_size as int) == old(self)@,
                    forall|x: usize|
                        current_size <= x < new_capacity ==> call_requires(new_element, (x,)),
                    forall|x: int|
                        current_size <= x < i ==> call_ensures(
                            new_element,
                            ((x as usize),),
                            #[trigger] self.data@[x],
                        ),
                decreases new_capacity - i,
            {
                let e = new_element(i);
                self.data.push(e);
                proof {
                    assert(self.data@.subrange(0, current_size as int) =~= old(self)@);
                }
                i = i + 1;
            }
        } else {
            proof {
                assert(self@.subrange(0, new_capacity as int) =~= self@);
            }
        }
        proof {
            if new_capacity <= old(self)@.len() {
                assert(self@ =~= old(self)@.subrange(0, new_capacity as int));
            }
        }
    }
}

} // verus!
