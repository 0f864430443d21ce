//! A persistent singly-linked list: prepending and taking the tail consume the
//! list and give a new one.

use vstd::prelude::*;

verus! {

/// One cell of a list: an element and the rest of the list.
pub struct Node<T: Clone> {
    elem: T,
    link: Box<List<T>>,
}

/// A list: empty, or a head cell followed by a list.
pub enum List<T: Clone> {
    Empty,
    Head(Node<T>),
}

impl<T: Clone> List<T> {
    /// The elements of the list, head first.
    pub closed spec fn view(&self) -> Seq<T>
        decreases self,
    {
        match self {
            List::Empty => Seq::empty(),
            List::Head(n) => seq![n.elem] + n.link.view(),
        }
    }

    /// Creates an empty list.
    pub fn new() -> (l: Self)
        ensures
            l@ == Seq::<T>::empty(),
    {
        List::Empty
    }

    /// Whether the list has no elements.
    pub fn is_empty(&self) -> (r: bool)
        ensures
            r == (self@.len() == 0),
    {
        match *self {
            List::Empty => true,
            _ => false,
        }
    }

    /// Returns a clone of the first element.
    pub fn head(&self) -> (r: T)
        requires
            self@.len() > 0,
        ensures
            cloned(self@[0], r),
    {
        match self {
            List::Empty => vstd::pervasive::unreached(),
            List::Head(n) => n.elem.clone(),
        }
    }

    /// Returns the list with `elem` put in front of it.
    pub fn prepend(self, elem: T) -> (r: Self)
        ensures
            r@ == seq![elem] + self@,
    {
        List::Head(Node { elem: elem, link: Box::new(self) })
    }

    /// Returns the list without its first element.
    pub fn tail(self) -> (r: List<T>)
        requires
            self@.len() > 0,
        ensures
            r@ == self@.drop_first(),
    {
        match self {
            List::Empty => vstd::pervasive::unreached(),
            List::Head(n) => {
                proof {
                    assert((seq![n.elem] + n.link.view()).drop_first() =~= n.link.view());
                }
                *n.link
            },
        }
    }
}

} // verus!
