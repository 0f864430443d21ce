//! A max-priority queue: a binary heap laid out in a vector.
//!
//! The tree is implicit. The node at position `i` has its parent at
//! `(i - 1) / 2` and its children at `2 * i + 1` and `2 * i + 2`; nothing but
//! the position says which node is whose child. The largest element sits at
//! position 0. Elements that compare equal leave the heap in no particular
//! order.

use crate::order::{
    at_least, ge, lemma_ge_reflexive, lemma_ge_then_lt, lemma_ge_transitive, lemma_lt_flips,
    lemma_lt_or_ge, less, lt, total_order,
};
use crate::history::{allowed, effect, Call};
use vstd::multiset::Multiset;
use vstd::prelude::*;

verus! {

/// Position of the parent of the node at position `i > 0`.
pub open spec fn parent_of(i: int) -> int {
    (i - 1) / 2
}

/// The node at position `i` does not outrank its parent.
pub open spec fn ordered_at<T: Ord>(s: Seq<T>, i: int) -> bool {
    ge(s[parent_of(i)], s[i])
}

/// The node at position `i` does not outrank its grandparent.
pub open spec fn under_grandparent<T: Ord>(s: Seq<T>, i: int) -> bool {
    ge(s[parent_of(parent_of(i))], s[i])
}

/// Max-heap order: no node outranks its parent.
pub open spec fn heap_ordered<T: Ord>(s: Seq<T>) -> bool {
    forall|i: int| 0 < i < s.len() ==> #[trigger] ordered_at(s, i)
}

/// Max-heap order with one edge left open: every node but `k` is in
/// order with its parent, and the children of `k` are in order with the
/// parent of `k`, so that `k` may move up past it.
pub open spec fn ordered_but_above<T: Ord>(s: Seq<T>, k: int) -> bool {
    &&& forall|i: int| 0 < i < s.len() && i != k ==> #[trigger] ordered_at(s, i)
    &&& forall|i: int|
        0 < i < s.len() && parent_of(i) == k && k > 0 ==> #[trigger] under_grandparent(s, i)
}

/// Max-heap order with the edges below `k` left open: every node but
/// the children of `k` is in order with its parent, and those children are in
/// order with the parent of `k`, so that `k` may move down past them.
pub open spec fn ordered_but_below<T: Ord>(s: Seq<T>, k: int) -> bool {
    &&& forall|i: int| 0 < i < s.len() && parent_of(i) != k ==> #[trigger] ordered_at(s, i)
    &&& forall|i: int|
        0 < i < s.len() && parent_of(i) == k && k > 0 ==> #[trigger] under_grandparent(s, i)
}

/// `s` with the values at `a` and `b` exchanged.
pub open spec fn swapped<T>(s: Seq<T>, a: int, b: int) -> Seq<T> {
    s.update(a, s[b]).update(b, s[a])
}

/// The layout after sift-up from position `k`: as long as the value that
/// started at `k` outranks its parent, the two are exchanged.
pub open spec fn sifted_up<T: Ord>(s: Seq<T>, k: int) -> Seq<T>
    decreases k,
{
    if 0 < k < s.len() && lt(s[parent_of(k)], s[k]) {
        sifted_up(swapped(s, parent_of(k), k), parent_of(k))
    } else {
        s
    }
}

/// Position of the child of `k` that goes up if one does: the right child
/// where it outranks the left one, the left child otherwise.
pub open spec fn greater_child<T: Ord>(s: Seq<T>, k: int) -> int {
    if 2 * k + 2 < s.len() && lt(s[2 * k + 1], s[2 * k + 2]) {
        2 * k + 2
    } else {
        2 * k + 1
    }
}

/// The layout after sift-down from position `k`: as long as the value that
/// started at `k` is outranked by its greater child, the two are exchanged.
pub open spec fn sifted_down<T: Ord>(s: Seq<T>, k: int) -> Seq<T>
    decreases s.len() - k,
{
    if 0 <= k && 2 * k + 1 < s.len() && lt(s[k], s[greater_child(s, k)]) {
        sifted_down(swapped(s, k, greater_child(s, k)), greater_child(s, k))
    } else {
        s
    }
}

/// `x` is in `m`, and nothing in `m` outranks it.
pub open spec fn is_greatest<T: Ord>(m: Multiset<T>, x: T) -> bool {
    &&& m.contains(x)
    &&& forall|y: T| m.contains(y) ==> ge(x, y)
}

/// A sequence of length 0 holds no elements.
pub proof fn lemma_empty_has_no_elements<T>(s: Seq<T>)
    requires
        s.len() == 0,
    ensures
        s.to_multiset() == Multiset::<T>::empty(),
{
    vstd::seq_lib::to_multiset_len(s);
    vstd::multiset::lemma_multiset_empty_len(s.to_multiset());
}

/// Exchanging two values keeps the collection of values.
pub proof fn lemma_swapped_same_elements<T>(s: Seq<T>, a: int, b: int)
    requires
        0 <= a < s.len(),
        0 <= b < s.len(),
    ensures
        swapped(s, a, b).to_multiset() == s.to_multiset(),
{
    broadcast use vstd::multiset::group_multiset_axioms;

    let mid = s.update(a, s[b]);
    vstd::seq_lib::to_multiset_update(s, a, s[b]);
    vstd::seq_lib::to_multiset_update(mid, b, s[a]);
    vstd::seq_lib::to_multiset_contains(s, s[a]);
    vstd::seq_lib::to_multiset_contains(s, s[b]);
    assert(s.contains(s[a]));
    assert(s.contains(s[b]));
    assert(swapped(s, a, b).to_multiset() =~= s.to_multiset());
}

/// In a heap-ordered sequence nothing outranks the value at position 0.
pub proof fn lemma_root_is_greatest<T: Ord>(s: Seq<T>, i: int)
    requires
        total_order::<T>(),
        heap_ordered(s),
        0 <= i < s.len(),
    ensures
        ge(s[0], s[i]),
    decreases i,
{
    if i == 0 {
        lemma_ge_reflexive(s[0]);
    } else {
        lemma_root_is_greatest(s, parent_of(i));
        assert(ordered_at(s, i));
        lemma_ge_transitive(s[0], s[parent_of(i)], s[i]);
    }
}

/// The root of a non-empty heap-ordered sequence is a greatest element of it.
pub proof fn lemma_root_is_greatest_element<T: Ord>(s: Seq<T>)
    requires
        total_order::<T>(),
        heap_ordered(s),
        s.len() > 0,
    ensures
        is_greatest(s.to_multiset(), s[0]),
{
    vstd::seq_lib::to_multiset_contains(s, s[0]);
    assert(s.contains(s[0]));
    assert forall|y: T| s.to_multiset().contains(y) implies ge(s[0], y) by {
        vstd::seq_lib::to_multiset_contains(s, y);
        let i = choose|i: int| 0 <= i < s.len() && s[i] == y;
        lemma_root_is_greatest(s, i);
    }
}

/// Moving the last value into position 0 and dropping the last slot takes
/// exactly the old root out of the collection.
pub proof fn lemma_root_replaced<T>(s: Seq<T>)
    requires
        s.len() > 0,
    ensures
        s.update(0, s.last()).drop_last().to_multiset() == s.to_multiset().remove(s[0]),
{
    broadcast use vstd::multiset::group_multiset_axioms;

    let t = s.update(0, s.last());
    let n = s.len() - 1;
    vstd::seq_lib::to_multiset_update(s, 0, s.last());
    assert(t.drop_last() =~= t.remove(n));
    vstd::seq_lib::to_multiset_remove(t, n);
    vstd::seq_lib::to_multiset_contains(s, s[0]);
    assert(s.contains(s[0]));
    assert(t.drop_last().to_multiset() =~= s.to_multiset().remove(s[0]));
}

/// Where the node at `c` outranks its parent, exchanging the two leaves the
/// parent's position as the only one that may be out of order with the node
/// above it.
proof fn lemma_lift_keeps_order<T: Ord>(s: Seq<T>, c: int)
    requires
        total_order::<T>(),
        0 < c < s.len(),
        ordered_but_above(s, c),
        lt(s[parent_of(c)], s[c]),
    ensures
        ordered_but_above(swapped(s, parent_of(c), c), parent_of(c)),
{
    let p = parent_of(c);
    let t = swapped(s, p, c);
    lemma_lt_flips(s[p], s[c]);
    assert forall|i: int| 0 < i < t.len() && i != p implies #[trigger] ordered_at(t, i) by {
        if i == c {
        } else if parent_of(i) == p {
            assert(ordered_at(s, i));
            lemma_ge_transitive(s[c], s[p], s[i]);
        } else if parent_of(i) == c {
            assert(under_grandparent(s, i));
        } else {
            assert(ordered_at(s, i));
        }
    }
    assert forall|i: int| 0 < i < t.len() && parent_of(i) == p && p > 0 implies #[trigger]
        under_grandparent(t, i) by {
        assert(ordered_at(s, p));
        if i != c {
            assert(ordered_at(s, i));
            lemma_ge_transitive(s[parent_of(p)], s[p], s[i]);
        }
    }
}

/// Where the node at `c` outranks its parent and is at or above its sibling,
/// exchanging it with the parent leaves the edges below `c` as the only ones
/// that may be out of order.
proof fn lemma_sink_keeps_order<T: Ord>(s: Seq<T>, c: int)
    requires
        total_order::<T>(),
        0 < c < s.len(),
        ordered_but_below(s, parent_of(c)),
        lt(s[parent_of(c)], s[c]),
        forall|i: int| 0 < i < s.len() && parent_of(i) == parent_of(c) ==> #[trigger] ge(s[c], s[i]),
    ensures
        ordered_but_below(swapped(s, parent_of(c), c), c),
{
    let p = parent_of(c);
    let t = swapped(s, p, c);
    lemma_lt_flips(s[p], s[c]);
    assert forall|i: int| 0 < i < t.len() && parent_of(i) != c implies #[trigger] ordered_at(
        t,
        i,
    ) by {
        if i == c {
        } else if parent_of(i) == p {
            assert(ge(s[c], s[i]));
        } else if i == p {
            assert(under_grandparent(s, c));
        } else {
            assert(ordered_at(s, i));
        }
    }
    assert forall|i: int| 0 < i < t.len() && parent_of(i) == c && c > 0 implies #[trigger]
        under_grandparent(t, i) by {
        assert(ordered_at(s, i));
    }
}

/// Exchanges the values of two slots of `v` through `slice::swap`, which std
/// documents as swapping the two elements and panicking when an index is out
/// of bounds: with both in bounds the two slots trade values and every other
/// slot keeps its own.
#[verifier::external_body]
fn swap_slots<T>(v: &mut Vec<T>, a: usize, b: usize)
    requires
        a < old(v)@.len(),
        b < old(v)@.len(),
    ensures
        final(v)@ == swapped(old(v)@, a as int, b as int),
{
    v.swap(a, b);
}

/// Which of a node's two children is meant.
enum ChildType {
    Left,
    Right,
}

/// Position of the left child of the node at position `i`.
fn left_child(i: usize) -> (c: usize)
    requires
        2 * i + 1 <= usize::MAX,
    ensures
        c == 2 * i + 1,
{
    2 * i + 1
}

/// Position of the right child of the node at position `i`.
fn right_child(i: usize) -> (c: usize)
    requires
        2 * i + 2 <= usize::MAX,
    ensures
        c == 2 * i + 2,
{
    2 * i + 2
}

/// A priority queue that hands out its largest element first.
pub struct Heap<T: Ord> {
    store: Vec<T>,
}

impl<T: Ord> Heap<T> {
    /// The elements by position in the implicit tree.
    pub closed spec fn elements(&self) -> Seq<T> {
        self.store@
    }

    /// The heap as the collection of its elements, each as often as it was
    /// pushed and not yet popped.
    pub open spec fn view(&self) -> Multiset<T> {
        self.elements().to_multiset()
    }

    /// The number of elements.
    pub open spec fn spec_len(&self) -> nat {
        self.elements().len()
    }

    /// The elements are laid out in max-heap order.
    pub open spec fn wf(&self) -> bool {
        heap_ordered(self.elements())
    }

    /// Position of the child of `parent` on side `ct`, whether or not the heap
    /// reaches that far.
    spec fn child_position(ct: ChildType, parent: int) -> int {
        match ct {
            ChildType::Left => 2 * parent + 1,
            ChildType::Right => 2 * parent + 2,
        }
    }

    /// Creates an empty heap.
    pub fn new() -> (h: Heap<T>)
        ensures
            h.wf(),
            h.elements() == Seq::<T>::empty(),
            h@ == Multiset::<T>::empty(),
            h.spec_len() == 0,
    {
        let h = Heap { store: Vec::new() };
        proof {
            lemma_empty_has_no_elements(h.elements());
        }
        h
    }

    /// Creates an empty heap with room set aside for `capacity` elements.
    pub fn with_capacity(capacity: usize) -> (h: Heap<T>)
        ensures
            h.wf(),
            h.elements() == Seq::<T>::empty(),
            h@ == Multiset::<T>::empty(),
            h.spec_len() == 0,
    {
        let h = Heap { store: Vec::with_capacity(capacity) };
        proof {
            lemma_empty_has_no_elements(h.elements());
        }
        h
    }

    /// Returns the number of elements in the heap.
    pub fn len(&self) -> (n: usize)
        ensures
            n == self.spec_len(),
            n == self@.len(),
    {
        proof {
            vstd::seq_lib::to_multiset_len(self.elements());
        }
        self.store.len()
    }

    /// Adds `elem` to the heap.
    pub fn push(&mut self, elem: T)
        requires
            total_order::<T>(),
            old(self).wf(),
        ensures
            final(self).wf(),
            final(self).elements() == sifted_up(
                old(self).elements().push(elem),
                old(self).spec_len() as int,
            ),
            final(self)@ == old(self)@.insert(elem),
            final(self)@ == effect(old(self)@, Call::Push(elem)),
            final(self).spec_len() == old(self).spec_len() + 1,
    {
        let len: usize = self.store.len();
        self.store.push(elem);
        proof {
            let before = old(self).elements();
            let after = self.elements();
            vstd::seq_lib::to_multiset_build(before, elem);
            assert forall|i: int| 0 < i < after.len() && i != len implies #[trigger] ordered_at(
                after,
                i,
            ) by {
                assert(ordered_at(before, i));
            }
        }
        self.percolate_up(len);
    }

    /// Removes a greatest element from the heap and returns it, or returns
    /// `None` where the heap is empty.
    pub fn pop(&mut self) -> (r: Option<T>)
        requires
            total_order::<T>(),
            old(self).wf(),
        ensures
            final(self).wf(),
            r.is_none() <==> old(self).spec_len() == 0,
            r.is_none() ==> final(self).elements() == old(self).elements(),
            allowed(old(self)@, Call::Pop(r)),
            final(self)@ == effect(old(self)@, Call::Pop(r)),
            r matches Some(x) ==> {
                &&& x == old(self).elements()[0]
                &&& is_greatest(old(self)@, x)
                &&& final(self).elements() == sifted_down(
                    old(self).elements().update(0, old(self).elements().last()).drop_last(),
                    0,
                )
                &&& final(self)@ == old(self)@.remove(x)
                &&& final(self).spec_len() == old(self).spec_len() - 1
            },
    {
        proof {
            vstd::seq_lib::to_multiset_len(self.elements());
            if self.spec_len() > 0 {
                lemma_root_is_greatest_element(self.elements());
                lemma_root_replaced(self.elements());
            }
        }
        match self.store.len() {
            0 => None,
            1 => {
                let rv = self.store.pop();
                proof {
                    let before = old(self).elements();
                    assert(self.elements() =~= before.update(0, before.last()).drop_last());
                }
                rv
            },
            _ => {
                let rv = self.store.swap_remove(0);
                proof {
                    let before = old(self).elements();
                    let after = self.elements();
                    assert forall|i: int|
                        0 < i < after.len() && parent_of(i) != 0 implies #[trigger] ordered_at(
                        after,
                        i,
                    ) by {
                        assert(ordered_at(before, i));
                    }
                }
                self.percolate_down(0);
                Some(rv)
            },
        }
    }

    /// Moves the element at `child` up the tree, exchanging it with its parent
    /// for as long as it outranks the parent, until the whole heap is in
    /// order.
    fn percolate_up(&mut self, child: usize)
        requires
            total_order::<T>(),
            child < old(self).spec_len(),
            ordered_but_above(old(self).elements(), child as int),
        ensures
            final(self).wf(),
            final(self).elements() == sifted_up(old(self).elements(), child as int),
            final(self)@ == old(self)@,
            final(self).spec_len() == old(self).spec_len(),
        decreases child,
    {
        let maybe_parent = self.parent(child);
        match maybe_parent {
            None => {
                // The root has no parent: nothing is left out of order.
                return;
            },
            Some(parent) => {
                if self.is_violating(parent, child) {
                    proof {
                        lemma_lift_keeps_order(self.elements(), child as int);
                    }
                    self.swap(parent, child);
                    self.percolate_up(parent)
                } else {
                    // The two nodes are in order already.
                    return;
                }
            },
        }
    }

    /// Moves the element at `parent` down the tree, exchanging it with the
    /// greater of the children that outrank it, until the whole heap is in
    /// order.
    fn percolate_down(&mut self, parent: usize)
        requires
            total_order::<T>(),
            parent < old(self).spec_len(),
            ordered_but_below(old(self).elements(), parent as int),
        ensures
            final(self).wf(),
            final(self).elements() == sifted_down(old(self).elements(), parent as int),
            final(self)@ == old(self)@,
            final(self).spec_len() == old(self).spec_len(),
        decreases old(self).spec_len() - parent, 1nat,
    {
        let ghost s = self.elements();
        match (self.left_child(parent), self.right_child(parent)) {
            (None, None) => return,
            (None, Some(_right)) => {
                // A node with a right child has a left child.
                assert(false);
            },
            (Some(left), None) => {
                if self.is_violating(parent, left) {
                    proof {
                        lemma_ge_reflexive(s[left as int]);
                    }
                    self.swap_down(parent, left)
                }
            },
            (Some(left), Some(right)) => {
                match (self.is_violating(parent, left), self.is_violating(parent, right)) {
                    (false, false) => return,
                    (false, true) => {
                        proof {
                            lemma_lt_or_ge(s[parent as int], s[left as int]);
                            lemma_ge_then_lt(s[parent as int], s[left as int], s[right as int]);
                            lemma_ge_reflexive(s[right as int]);
                            lemma_lt_flips(s[parent as int], s[right as int]);
                            lemma_ge_transitive(
                                s[right as int],
                                s[parent as int],
                                s[left as int],
                            );
                        }
                        self.swap_down(parent, right)
                    },
                    (true, false) => {
                        proof {
                            lemma_lt_or_ge(s[parent as int], s[right as int]);
                            lemma_ge_then_lt(s[parent as int], s[right as int], s[left as int]);
                            lemma_lt_flips(s[right as int], s[left as int]);
                            lemma_lt_or_ge(s[left as int], s[right as int]);
                            lemma_ge_reflexive(s[left as int]);
                            lemma_lt_flips(s[parent as int], s[left as int]);
                            lemma_ge_transitive(
                                s[left as int],
                                s[parent as int],
                                s[right as int],
                            );
                        }
                        self.swap_down(parent, left)
                    },
                    (true, true) => {
                        // Both children outrank the parent: the greater of
                        // the two goes up, so that it ends above the other.
                        if at_least(&self.store[left], &self.store[right]) {
                            proof {
                                lemma_lt_or_ge(s[left as int], s[right as int]);
                                lemma_ge_reflexive(s[left as int]);
                            }
                            self.swap_down(parent, left)
                        } else {
                            proof {
                                lemma_ge_reflexive(s[right as int]);
                                lemma_lt_or_ge(s[left as int], s[right as int]);
                                lemma_lt_flips(s[left as int], s[right as int]);
                            }
                            self.swap_down(parent, right)
                        }
                    },
                }
            },
        }
    }

    /// Exchanges the element at `parent` with its child at `child` and goes on
    /// moving it down from there.
    fn swap_down(&mut self, parent: usize, child: usize)
        requires
            total_order::<T>(),
            0 < child < old(self).spec_len(),
            parent == parent_of(child as int),
            ordered_but_below(old(self).elements(), parent as int),
            lt(old(self).elements()[parent as int], old(self).elements()[child as int]),
            forall|i: int|
                0 < i < old(self).spec_len() && parent_of(i) == parent ==> #[trigger] ge(
                    old(self).elements()[child as int],
                    old(self).elements()[i],
                ),
        ensures
            final(self).wf(),
            final(self).elements() == sifted_down(
                swapped(old(self).elements(), parent as int, child as int),
                child as int,
            ),
            final(self)@ == old(self)@,
            final(self).spec_len() == old(self).spec_len(),
        decreases old(self).spec_len() - parent, 0nat,
    {
        proof {
            lemma_sink_keeps_order(self.elements(), child as int);
        }
        self.swap(parent, child);
        self.percolate_down(child);
    }

    /// Whether `idx` is the position of a node.
    fn is_valid(&self, idx: usize) -> (r: bool)
        ensures
            r == (idx < self.spec_len()),
    {
        idx < self.store.len()
    }

    /// Position of the parent of the node at `idx`, or `None` for the root.
    fn parent(&self, idx: usize) -> (r: Option<usize>)
        requires
            idx < self.spec_len(),
        ensures
            r.is_none() <==> idx == 0,
            r matches Some(p) ==> p == parent_of(idx as int) && p < idx,
    {
        if idx == 0 {
            None
        } else {
            Some((idx - 1) / 2)
        }
    }

    /// Position of the child of `parent` on side `ct`, or `None` where the
    /// heap has no such node.
    fn child(&self, ct: ChildType, parent: usize) -> (r: Option<usize>)
        requires
            parent < self.spec_len(),
        ensures
            r.is_some() <==> Self::child_position(ct, parent as int) < self.spec_len(),
            r matches Some(c) ==> c == Self::child_position(ct, parent as int),
    {
        if parent > (usize::MAX - 2) / 2 {
            // The child's position is beyond the length of any vector.
            assert(self.spec_len() == self.store.len());
            return None;
        }
        let child: usize = match ct {
            ChildType::Left => left_child(parent),
            ChildType::Right => right_child(parent),
        };
        if self.is_valid(child) {
            Some(child)
        } else {
            None
        }
    }

    /// Position of the left child of `parent`, or `None` where it has none.
    fn left_child(&self, parent: usize) -> (r: Option<usize>)
        requires
            parent < self.spec_len(),
        ensures
            r.is_some() <==> 2 * parent + 1 < self.spec_len(),
            r matches Some(c) ==> c == 2 * parent + 1,
    {
        self.child(ChildType::Left, parent)
    }

    /// Position of the right child of `parent`, or `None` where it has none.
    fn right_child(&self, parent: usize) -> (r: Option<usize>)
        requires
            parent < self.spec_len(),
        ensures
            r.is_some() <==> 2 * parent + 2 < self.spec_len(),
            r matches Some(c) ==> c == 2 * parent + 2,
    {
        self.child(ChildType::Right, parent)
    }

    /// Whether the node at `child` outranks its parent, the node at `parent`.
    fn is_violating(&self, parent: usize, child: usize) -> (r: bool)
        requires
            total_order::<T>(),
            0 < child < self.spec_len(),
            parent == parent_of(child as int),
        ensures
            r == lt(self.elements()[parent as int], self.elements()[child as int]),
            r == !ordered_at(self.elements(), child as int),
    {
        proof {
            lemma_lt_or_ge(self.elements()[parent as int], self.elements()[child as int]);
        }
        less(&self.store[parent], &self.store[child])
    }

    /// Exchanges the values at positions `a` and `b`.
    fn swap(&mut self, a: usize, b: usize)
        requires
            a < old(self).spec_len(),
            b < old(self).spec_len(),
        ensures
            final(self).elements() == swapped(old(self).elements(), a as int, b as int),
            final(self)@ == old(self)@,
    {
        proof {
            lemma_swapped_same_elements(self.elements(), a as int, b as int);
        }
        if a != b {
            swap_slots(&mut self.store, a, b);
        } else {
            assert(swapped(self.elements(), a as int, b as int) =~= self.elements());
        }
    }
}

} // verus!
