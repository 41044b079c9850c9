//! An elimination layer in front of a LIFO stack: a push and a pop that meet
//! in an exchange slot cancel out without touching the stack.
//!
//! A pusher offers its value in a slot and waits a bounded time for a popper
//! to claim it. If nobody came, it withdraws the offer and pushes onto the
//! stack. A popper claims an offer if its slot holds one, and pops the stack
//! otherwise. Which slot a participant tries, and how long it waits, is the
//! caller's choice.

use crate::treiber_stack::{popped, pushed, top, TreiberStack};
use vstd::prelude::*;

verus! {

/// Elimination-backoff stack: a stack and an array of exchange slots. A
/// slot is empty (`None`) or holds the value of a pending push.
pub struct ElimStack<T> {
    inner: TreiberStack<T>,
    slots: Vec<Option<T>>,
}

impl<T> ElimStack<T> {
    /// The elements on the shared stack, topmost first.
    pub closed spec fn stack(&self) -> Seq<T> {
        self.inner@
    }

    /// The exchange slots.
    pub closed spec fn slots(&self) -> Seq<Option<T>> {
        self.slots@
    }

    /// Creates an empty stack with `slot_count` empty exchange slots.
    pub fn new(slot_count: usize) -> (s: Self)
        ensures
            s.stack() == Seq::<T>::empty(),
            s.slots().len() == slot_count,
            forall|i: int| 0 <= i < slot_count ==> s.slots()[i].is_none(),
    {
        let mut slots: Vec<Option<T>> = Vec::new();
        let mut i: usize = 0;
        while i < slot_count
            invariant
                i <= slot_count,
                slots@.len() == i,
                forall|j: int| 0 <= j < i ==> slots@[j].is_none(),
            decreases slot_count - i,
        {
            slots.push(None);
            i = i + 1;
        }
        ElimStack { inner: TreiberStack::new(), slots }
    }

    /// The number of exchange slots.
    pub fn slot_count(&self) -> (n: usize)
        ensures
            n == self.slots().len(),
    {
        self.slots.len()
    }

    /// Pushes straight onto the shared stack.
    pub fn push(&mut self, value: T)
        ensures
            final(self).stack() == pushed(old(self).stack(), value),
            final(self).slots() == old(self).slots(),
    {
        self.inner.push(value);
    }

    /// Pops straight from the shared stack.
    pub fn pop(&mut self) -> (value: Option<T>)
        ensures
            value == top(old(self).stack()),
            final(self).stack() == popped(old(self).stack()),
            final(self).slots() == old(self).slots(),
    {
        self.inner.pop()
    }

    /// A pusher publishes `value` in a slot. If the slot is taken by
    /// another offer, the value comes back and nothing changes.
    pub fn offer(&mut self, slot: usize, value: T) -> (r: Result<(), T>)
        requires
            slot < old(self).slots().len(),
        ensures
            final(self).stack() == old(self).stack(),
            match r {
                Ok(_) => old(self).slots()[slot as int].is_none() && final(self).slots() == old(self).slots().update(slot as int, Some(value)),
                Err(back) => back == value && old(self).slots()[slot as int].is_some() && final(self).slots() == old(self).slots(),
            },
    {
        if self.slots[slot].is_none() {
            self.slots[slot] = Some(value);
            Ok(())
        } else {
            Err(value)
        }
    }

    /// A popper claims the offer in a slot, if there is one: the value goes
    /// to the popper and the slot is empty afterwards. The shared stack is
    /// not touched.
    pub fn claim(&mut self, slot: usize) -> (value: Option<T>)
        requires
            slot < old(self).slots().len(),
        ensures
            value == old(self).slots()[slot as int],
            final(self).slots() == old(self).slots().update(slot as int, None),
            final(self).stack() == old(self).stack(),
    {
        self.slots[slot].take()
    }

    /// A pusher whose waiting time is over withdraws its offer. If the offer
    /// is still in the slot, its value is pushed onto the shared stack and
    /// `true` comes back. If a popper has claimed it, nothing changes and
    /// `false` comes back.
    pub fn withdraw(&mut self, slot: usize) -> (fell_back: bool)
        requires
            slot < old(self).slots().len(),
        ensures
            fell_back == old(self).slots()[slot as int].is_some(),
            fell_back ==> final(self).stack() == pushed(
                old(self).stack(),
                old(self).slots()[slot as int].unwrap(),
            ) && final(self).slots() == old(self).slots().update(slot as int, None),
            !fell_back ==> final(self).stack() == old(self).stack() && final(self).slots() == old(self).slots(),
    {
        match self.slots[slot].take() {
            Some(value) => {
                self.inner.push(value);
                true
            },
            None => {
                assert(self.slots@ =~= old(self).slots@);
                false
            },
        }
    }

    /// A pop that first tries to eliminate: it claims the offer in `slot` if
    /// there is one, and pops the shared stack otherwise.
    pub fn pop_at(&mut self, slot: usize) -> (value: Option<T>)
        requires
            slot < old(self).slots().len(),
        ensures
            match old(self).slots()[slot as int] {
                Some(offered) => value == Some(offered) && final(self).stack() == old(self).stack() && final(self).slots() == old(self).slots().update(slot as int, None),
                None => value == top(old(self).stack()) && final(self).stack() == popped(
                    old(self).stack(),
                ) && final(self).slots() == old(self).slots(),
            },
    {
        match self.slots[slot].take() {
            Some(value) => Some(value),
            None => {
                assert(self.slots@ =~= old(self).slots@);
                self.inner.pop()
            },
        }
    }
}

impl<T> Default for ElimStack<T> {
    /// An empty stack with no exchange slot: every operation goes to the
    /// shared stack.
    fn default() -> (s: Self)
        ensures
            s.stack() == Seq::<T>::empty(),
            s.slots().len() == 0,
    {
        Self::new(0)
    }
}

/// Elimination changes nothing that can be observed: an offer that a popper
/// claims gives the popper what a push followed at once by a pop would have
/// given it, and leaves the stack as that pair would have left it.
pub proof fn lemma_eliminated_pair<T>(stack: Seq<T>, value: T)
    ensures
        top(pushed(stack, value)) == Some(value),
        popped(pushed(stack, value)) == stack,
{
    assert(pushed(stack, value).drop_first() =~= stack);
}

} // verus!
