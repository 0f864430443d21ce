//! Histories of calls on a heap, and what holds of every one of them.
//!
//! A heap is looked at here through its view, the collection of its elements.
//! A history lists the calls made on it together with what each returned.
//! `push` and `pop` promise that each of their calls is a step that the
//! history model allows, so whatever is proved of all consistent histories
//! holds of every run of the executable heap.

use crate::heap::is_greatest;
use crate::order::{ge, lemma_ge_reflexive, lemma_ge_transitive, total_order};
use vstd::multiset::Multiset;
use vstd::prelude::*;

verus! {

/// One call on a heap, with what it returned.
pub enum Call<T> {
    /// `push` of the given element.
    Push(T),
    /// `pop` that returned the given result.
    Pop(Option<T>),
}

/// Whether `call` can return what it says on a heap that holds `m`.
pub open spec fn allowed<T: Ord>(m: Multiset<T>, call: Call<T>) -> bool {
    match call {
        Call::Push(_) => true,
        Call::Pop(None) => m.len() == 0,
        Call::Pop(Some(x)) => is_greatest(m, x),
    }
}

/// What a heap that held `m` holds after `call`.
pub open spec fn effect<T>(m: Multiset<T>, call: Call<T>) -> Multiset<T> {
    match call {
        Call::Push(x) => m.insert(x),
        Call::Pop(None) => m,
        Call::Pop(Some(x)) => m.remove(x),
    }
}

/// What a heap that held `m` holds after `calls`, made in order.
pub open spec fn state_after<T>(m: Multiset<T>, calls: Seq<Call<T>>) -> Multiset<T>
    decreases calls.len(),
{
    if calls.len() == 0 {
        m
    } else {
        effect(state_after(m, calls.drop_last()), calls.last())
    }
}

/// Every call of `calls`, made in order on a heap that held `m`, returned
/// something that it can return in the state it was made in.
pub open spec fn consistent<T: Ord>(m: Multiset<T>, calls: Seq<Call<T>>) -> bool
    decreases calls.len(),
{
    calls.len() == 0 || (consistent(m, calls.drop_last()) && allowed(
        state_after(m, calls.drop_last()),
        calls.last(),
    ))
}

/// The number of pushes among `calls`.
pub open spec fn pushes<T>(calls: Seq<Call<T>>) -> nat
    decreases calls.len(),
{
    if calls.len() == 0 {
        0
    } else if calls.last() is Push {
        pushes(calls.drop_last()) + 1
    } else {
        pushes(calls.drop_last())
    }
}

/// The number of pops among `calls` that returned an element.
pub open spec fn pops_with_value<T>(calls: Seq<Call<T>>) -> nat
    decreases calls.len(),
{
    if calls.len() == 0 {
        0
    } else if calls.last() matches Call::Pop(Some(_)) {
        pops_with_value(calls.drop_last()) + 1
    } else {
        pops_with_value(calls.drop_last())
    }
}

/// The history that pushes the elements of `xs` in order.
pub open spec fn pushing<T>(xs: Seq<T>) -> Seq<Call<T>> {
    Seq::new(xs.len(), |i: int| Call::Push(xs[i]))
}

/// The history of pops that returned the elements of `out` in order.
pub open spec fn popping<T>(out: Seq<T>) -> Seq<Call<T>> {
    Seq::new(out.len(), |i: int| Call::Pop(Some(out[i])))
}

/// No element of `out` is outranked by a later one.
pub open spec fn non_increasing<T: Ord>(out: Seq<T>) -> bool {
    forall|i: int, j: int| 0 <= i <= j < out.len() ==> ge(#[trigger] out[i], #[trigger] out[j])
}

/// The length of a heap is what it was at the start, plus the number of
/// pushes, minus the number of pops that returned an element.
pub proof fn lemma_len_counts_calls<T: Ord>(m: Multiset<T>, calls: Seq<Call<T>>)
    requires
        consistent(m, calls),
    ensures
        state_after(m, calls).len() == m.len() + pushes(calls) - pops_with_value(calls),
    decreases calls.len(),
{
    broadcast use vstd::multiset::group_multiset_axioms;

    if calls.len() > 0 {
        lemma_len_counts_calls(m, calls.drop_last());
    }
}

/// A history made in two parts is consistent when the first part is and the
/// second is from the state that the first left, and it ends in the state that
/// the second part ends in.
pub proof fn lemma_history_splits<T: Ord>(m: Multiset<T>, a: Seq<Call<T>>, b: Seq<Call<T>>)
    ensures
        state_after(m, a + b) == state_after(state_after(m, a), b),
        consistent(m, a + b) == (consistent(m, a) && consistent(state_after(m, a), b)),
    decreases b.len(),
{
    if b.len() == 0 {
        assert(a + b =~= a);
    } else {
        assert((a + b).drop_last() =~= a + b.drop_last());
        lemma_history_splits(m, a, b.drop_last());
    }
}

/// Pushes are always allowed, and pushing `xs` adds exactly its elements.
pub proof fn lemma_pushing_adds_all<T: Ord>(m: Multiset<T>, xs: Seq<T>)
    ensures
        consistent(m, pushing(xs)),
        state_after(m, pushing(xs)) == m.add(xs.to_multiset()),
    decreases xs.len(),
{
    broadcast use vstd::multiset::group_multiset_axioms;

    if xs.len() == 0 {
        crate::heap::lemma_empty_has_no_elements(xs);
        assert(m.add(xs.to_multiset()) =~= m);
    } else {
        let front = xs.drop_last();
        assert(pushing(xs).drop_last() =~= pushing(front));
        lemma_pushing_adds_all(m, front);
        assert(xs =~= front.push(xs.last()));
        vstd::seq_lib::to_multiset_build(front, xs.last());
        assert(m.add(front.to_multiset()).insert(xs.last()) =~= m.add(xs.to_multiset()));
    }
}

/// The elements that a run of pops returned, together with what is left, are
/// what the heap held before.
pub proof fn lemma_popping_takes_out<T: Ord>(m: Multiset<T>, out: Seq<T>)
    requires
        consistent(m, popping(out)),
    ensures
        state_after(m, popping(out)).add(out.to_multiset()) == m,
    decreases out.len(),
{
    broadcast use vstd::multiset::group_multiset_axioms;

    if out.len() == 0 {
        crate::heap::lemma_empty_has_no_elements(out);
        assert(m.add(out.to_multiset()) =~= m);
    } else {
        let front = out.drop_last();
        let x = out.last();
        assert(popping(out).drop_last() =~= popping(front));
        lemma_popping_takes_out(m, front);
        assert(out =~= front.push(x));
        vstd::seq_lib::to_multiset_build(front, x);
        let before = state_after(m, popping(front));
        assert(before.contains(x));
        assert(before.remove(x).add(front.to_multiset().insert(x)) =~= before.add(
            front.to_multiset(),
        ));
    }
}

/// A run of pops returns its elements in non-increasing order.
pub proof fn lemma_popping_comes_sorted<T: Ord>(m: Multiset<T>, out: Seq<T>)
    requires
        total_order::<T>(),
        consistent(m, popping(out)),
    ensures
        non_increasing(out),
    decreases out.len(),
{
    broadcast use vstd::multiset::group_multiset_axioms;

    if out.len() == 0 {
    } else if out.len() == 1 {
        lemma_ge_reflexive(out[0]);
    } else {
        let front = out.drop_last();
        let x = out.last();
        assert(popping(out).drop_last() =~= popping(front));
        assert(popping(front).drop_last() =~= popping(front.drop_last()));
        lemma_popping_comes_sorted(m, front);
        // The element popped last was still in the heap when the one before
        // it was popped as a greatest element.
        let earlier = state_after(m, popping(front.drop_last()));
        let y = front.last();
        assert(consistent(m, popping(front)));
        assert(popping(front).last() == Call::Pop(Some(y)));
        assert(allowed(earlier, popping(front).last()));
        assert(is_greatest(earlier, y));
        assert(state_after(m, popping(front)) == earlier.remove(y));
        assert(earlier.contains(x));
        assert(ge(y, x));
        lemma_ge_reflexive(x);
        assert forall|i: int, j: int| 0 <= i <= j < out.len() implies ge(
            #[trigger] out[i],
            #[trigger] out[j],
        ) by {
            if j < out.len() - 1 {
                assert(out[i] == front[i] && out[j] == front[j]);
            } else if i < out.len() - 1 {
                assert(out[i] == front[i]);
                assert(ge(front[i], front[front.len() - 1]));
                lemma_ge_transitive(out[i], y, x);
            }
        }
    }
}

/// Pushing the elements of `xs` onto an empty heap and then popping until it
/// is empty returns the same elements, each as often as it was pushed, in
/// non-increasing order.
pub proof fn lemma_push_all_pop_all_sorts<T: Ord>(xs: Seq<T>, out: Seq<T>)
    requires
        total_order::<T>(),
        consistent(Multiset::<T>::empty(), pushing(xs) + popping(out)),
        state_after(Multiset::<T>::empty(), pushing(xs) + popping(out)).len() == 0,
    ensures
        non_increasing(out),
        out.to_multiset() == xs.to_multiset(),
        out.len() == xs.len(),
{
    broadcast use vstd::multiset::group_multiset_axioms;

    let empty = Multiset::<T>::empty();
    lemma_history_splits(empty, pushing(xs), popping(out));
    lemma_pushing_adds_all(empty, xs);
    let full = state_after(empty, pushing(xs));
    assert(full =~= xs.to_multiset());
    lemma_popping_comes_sorted(full, out);
    lemma_popping_takes_out(full, out);
    let left = state_after(full, popping(out));
    vstd::multiset::lemma_multiset_empty_len(left);
    assert(left.add(out.to_multiset()) =~= out.to_multiset());
    vstd::seq_lib::to_multiset_len(xs);
    vstd::seq_lib::to_multiset_len(out);
}

/// As many pops as a heap has elements all return an element and leave the
/// heap empty.
pub proof fn lemma_pops_empty_the_heap<T: Ord>(m: Multiset<T>, pops: Seq<Call<T>>)
    requires
        consistent(m, pops),
        forall|i: int| 0 <= i < pops.len() ==> #[trigger] pops[i] is Pop,
        pops.len() <= m.len(),
    ensures
        forall|i: int| 0 <= i < pops.len() ==> #[trigger] pops[i] matches Call::Pop(Some(_)),
        state_after(m, pops).len() == m.len() - pops.len(),
    decreases pops.len(),
{
    broadcast use vstd::multiset::group_multiset_axioms;

    if pops.len() > 0 {
        let front = pops.drop_last();
        assert forall|i: int| 0 <= i < front.len() implies #[trigger] front[i] is Pop by {
            assert(front[i] == pops[i]);
        }
        lemma_pops_empty_the_heap(m, front);
        assert forall|i: int| 0 <= i < pops.len() implies #[trigger] pops[i] matches Call::Pop(
            Some(_),
        ) by {
            if i < front.len() {
                assert(front[i] == pops[i]);
            } else {
                assert(pops[i] == pops.last());
            }
        }
    }
}

/// Pushing the elements of `xs` onto an empty heap and then popping as many
/// times as there are elements gives an element at every pop and ends with the
/// heap empty.
pub proof fn lemma_round_trip<T: Ord>(xs: Seq<T>, pops: Seq<Call<T>>)
    requires
        consistent(Multiset::<T>::empty(), pushing(xs) + pops),
        forall|i: int| 0 <= i < pops.len() ==> #[trigger] pops[i] is Pop,
        pops.len() == xs.len(),
    ensures
        forall|i: int| 0 <= i < pops.len() ==> #[trigger] pops[i] matches Call::Pop(Some(_)),
        pops_with_value(pops) == xs.len(),
        state_after(Multiset::<T>::empty(), pushing(xs) + pops).len() == 0,
{
    broadcast use vstd::multiset::group_multiset_axioms;

    let empty = Multiset::<T>::empty();
    lemma_history_splits(empty, pushing(xs), pops);
    lemma_pushing_adds_all(empty, xs);
    let full = state_after(empty, pushing(xs));
    assert(full =~= xs.to_multiset());
    vstd::seq_lib::to_multiset_len(xs);
    lemma_pops_empty_the_heap(full, pops);
    lemma_len_counts_calls(full, pops);
    lemma_only_pops(pops);
}

/// A history of pops holds no push.
pub proof fn lemma_only_pops<T>(pops: Seq<Call<T>>)
    requires
        forall|i: int| 0 <= i < pops.len() ==> #[trigger] pops[i] is Pop,
    ensures
        pushes(pops) == 0,
    decreases pops.len(),
{
    if pops.len() > 0 {
        let front = pops.drop_last();
        assert forall|i: int| 0 <= i < front.len() implies #[trigger] front[i] is Pop by {
            assert(front[i] == pops[i]);
        }
        lemma_only_pops(front);
        assert(pops.last() == pops[pops.len() - 1]);
    }
}

} // verus!
