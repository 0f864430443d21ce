//! Small verified containers: a single-value box, a persistent singly-linked
//! list, a one-node binary tree and a vector-backed max-heap.

use vstd::prelude::*;

pub mod binary_tree;
pub mod heap;
pub mod history;
pub mod lists;
pub mod order;

verus! {

/// A box that owns a single value and hands out clones of it.
pub struct MyBox<T: Clone> {
    data: T,
}

impl<T: Clone> MyBox<T> {
    /// The value held by the box.
    pub closed spec fn view(&self) -> T {
        self.data
    }

    /// Wraps `d`.
    pub fn new(d: T) -> (b: Self)
        ensures
            b@ == d,
    {
        MyBox { data: d }
    }

    /// Returns a clone of the held value; the box keeps its own.
    pub fn get(&self) -> (r: T)
        ensures
            cloned(self@, r),
    {
        self.data.clone()
    }
}

} // verus!
