//! Fixed-capacity history buffer with FIFO eviction.
//!
//! A `RingBuffer` retains at most `capacity` items. `push` appends and, once
//! the buffer is full, evicts the oldest entry first; `peek` and `pop` act on
//! the most recently pushed entry. It serves both as a "latest value" cache
//! (via `peek`) and as bounded retention (via indexed reads).

use std::collections::VecDeque;
use vstd::prelude::*;

verus! {

broadcast use vstd::std_specs::vecdeque::group_vec_dequeue_axioms;

pub struct RingBuffer<T> {
    items: VecDeque<T>,
    capacity: usize,
}

/// What one `push` does to the retained sequence: append the new item,
/// evicting the oldest entry first when the buffer already holds
/// `capacity` items.
pub open spec fn push_model<T>(s: Seq<T>, capacity: nat, v: T) -> Seq<T> {
    if s.len() == capacity && s.len() > 0 {
        s.drop_first().push(v)
    } else {
        s.push(v)
    }
}

/// The retained sequence after pushing each item of `vs` in order,
/// starting from `s`.
pub open spec fn push_all<T>(s: Seq<T>, capacity: nat, vs: Seq<T>) -> Seq<T>
    decreases vs.len(),
{
    if vs.len() == 0 {
        s
    } else {
        push_all(push_model(s, capacity, vs.first()), capacity, vs.drop_first())
    }
}

impl<T> View for RingBuffer<T> {
    type V = Seq<T>;

    closed spec fn view(&self) -> Seq<T> {
        self.items@
    }
}

impl<T> RingBuffer<T> {
    /// The fixed capacity this buffer was constructed with.
    pub closed spec fn spec_capacity(&self) -> nat {
        self.capacity as nat
    }

    pub fn new(capacity: usize) -> (r: Self)
        ensures
            r@ == Seq::<T>::empty(),
            r.spec_capacity() == capacity,
    {
        RingBuffer { items: VecDeque::with_capacity(capacity), capacity }
    }

    pub fn len(&self) -> (r: usize)
        ensures
            r == self@.len(),
    {
        self.items.len()
    }

    pub fn capacity(&self) -> (r: usize)
        ensures
            r == self.spec_capacity(),
    {
        self.capacity
    }

    /// Append `item`; if the buffer already holds `capacity` items, the
    /// oldest entry is evicted first.
    pub fn push(&mut self, item: T)
        ensures
            final(self)@ == push_model(old(self)@, old(self).spec_capacity(), item),
            final(self).spec_capacity() == old(self).spec_capacity(),
    {
        if self.items.len() == self.capacity {
            self.items.pop_front();
        }
        self.items.push_back(item);
        proof {
            assert(self@ =~= push_model(old(self)@, old(self).spec_capacity(), item));
        }
    }

    /// Remove and return the most recently pushed item, or `None` when empty.
    pub fn pop(&mut self) -> (r: Option<T>)
        ensures
            old(self)@.len() == 0 ==> r is None && final(self)@ == old(self)@,
            old(self)@.len() > 0 ==> r == Some(old(self)@.last()) && final(self)@ == old(
                self,
            )@.drop_last(),
            final(self).spec_capacity() == old(self).spec_capacity(),
    {
        self.items.pop_back()
    }

    /// Empty the buffer; the capacity is unchanged.
    pub fn clear(&mut self)
        ensures
            final(self)@ == Seq::<T>::empty(),
            final(self).spec_capacity() == old(self).spec_capacity(),
    {
        self.items.clear();
    }

    /// The most recently pushed item, without removing it.
    pub fn peek(&self) -> (r: Option<&T>)
        ensures
            self@.len() == 0 ==> r is None,
            self@.len() > 0 ==> (r matches Some(x) && *x == self@.last()),
    {
        if self.items.len() == 0 {
            None
        } else {
            Some(&self.items[self.items.len() - 1])
        }
    }

    /// The item at position `i`, oldest first.
    pub fn get(&self, i: usize) -> (r: &T)
        requires
            i < self@.len(),
        ensures
            *r == self@[i as int],
    {
        &self.items[i]
    }
}

/// Law: for any capacity `C >= 1` and any sequence of pushes `vs` into an
/// initially empty buffer, the buffer retains exactly the last
/// `min(|vs|, C)` pushed values, in push order; in particular its length
/// is `min(|vs|, C)` and never exceeds `C`.
pub proof fn lemma_push_sequence<T>(capacity: nat, vs: Seq<T>)
    requires
        capacity >= 1,
    ensures
        push_all(Seq::<T>::empty(), capacity, vs).len() == vstd::math::min(
            vs.len() as int,
            capacity as int,
        ),
        push_all(Seq::<T>::empty(), capacity, vs) == vs.subrange(
            vs.len() - vstd::math::min(vs.len() as int, capacity as int),
            vs.len() as int,
        ),
{
    lemma_push_all_general(Seq::<T>::empty(), capacity, vs);
    assert(push_all(Seq::<T>::empty(), capacity, vs) =~= vs.subrange(
        vs.len() - vstd::math::min(vs.len() as int, capacity as int),
        vs.len() as int,
    ));
}

/// Helper for `lemma_push_sequence`: from any start `s` within capacity,
/// the result of pushing all of `vs` is the last `min(|s| + |vs|, C)`
/// items of `s + vs`.
proof fn lemma_push_all_general<T>(s: Seq<T>, capacity: nat, vs: Seq<T>)
    requires
        capacity >= 1,
        s.len() <= capacity,
    ensures
        push_all(s, capacity, vs) =~= (s + vs).subrange(
            s.len() + vs.len() - vstd::math::min((s.len() + vs.len()) as int, capacity as int),
            (s.len() + vs.len()) as int,
        ),
    decreases vs.len(),
{
    if vs.len() == 0 {
        assert(s + vs =~= s);
    } else {
        let s1 = push_model(s, capacity, vs.first());
        assert(s1.len() <= capacity);
        lemma_push_all_general(s1, capacity, vs.drop_first());
        assert(s1 + vs.drop_first() =~= if s.len() == capacity {
            (s + vs).subrange(1, (s.len() + vs.len()) as int)
        } else {
            s + vs
        });
    }
}

/// Law: after a non-empty sequence of pushes into an initially empty
/// buffer of capacity `C >= 1`, the retained sequence ends with the most
/// recently pushed value, which is what `peek` returns without changing
/// the length.
pub proof fn lemma_peek_after_pushes<T>(capacity: nat, vs: Seq<T>)
    requires
        capacity >= 1,
        vs.len() > 0,
    ensures
        push_all(Seq::<T>::empty(), capacity, vs).len() > 0,
        push_all(Seq::<T>::empty(), capacity, vs).last() == vs.last(),
{
    lemma_push_sequence(capacity, vs);
}

/// Law: pushing `v1..vn` with `n <= C` into an initially empty buffer
/// retains exactly `v1..vn`; by `pop`'s contract, repeated popping then
/// yields `vn, v(n-1), ..., v1` and finally `None`.
pub proof fn lemma_pushes_within_capacity<T>(capacity: nat, vs: Seq<T>)
    requires
        capacity >= 1,
        vs.len() <= capacity,
    ensures
        push_all(Seq::<T>::empty(), capacity, vs) == vs,
{
    lemma_push_sequence(capacity, vs);
    assert(vs.subrange(0, vs.len() as int) =~= vs);
}

} // verus!
