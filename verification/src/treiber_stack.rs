//! A last-in, first-out stack of linked cells. The top of the stack is the
//! first element of its view.

use vstd::multiset::Multiset;
use vstd::prelude::*;

verus! {

/// One stack cell: a payload and the link to the cell below it.
struct Node<T> {
    data: T,
    next: Option<Box<Node<T>>>,
}

/// The payloads reachable from a link, topmost first.
spec fn chain<T>(link: Option<Box<Node<T>>>) -> Seq<T>
    decreases link,
{
    match link {
        None => Seq::empty(),
        Some(node) => seq![node.data] + chain(node.next),
    }
}

/// What a push of `value` makes of a stack.
pub open spec fn pushed<T>(stack: Seq<T>, value: T) -> Seq<T> {
    seq![value] + stack
}

/// What a pop leaves of a stack: an empty stack stays empty.
pub open spec fn popped<T>(stack: Seq<T>) -> Seq<T> {
    if stack.len() == 0 {
        stack
    } else {
        stack.drop_first()
    }
}

/// What a pop hands out: the top, or nothing from an empty stack.
pub open spec fn top<T>(stack: Seq<T>) -> Option<T> {
    if stack.len() == 0 {
        None
    } else {
        Some(stack[0])
    }
}

/// The stamp that follows `stamp`: every change of the top moves the stamp
/// on, so that a top that was read before the change is known to be stale.
pub open spec fn next_stamp(stamp: u64) -> u64 {
    if stamp == u64::MAX {
        0
    } else {
        (stamp + 1) as u64
    }
}

/// A LIFO stack. Its top carries a stamp that changes with every push and
/// every successful pop; the conditional operations act only if the top is
/// still the one that their caller has seen.
pub struct TreiberStack<T> {
    head: Option<Box<Node<T>>>,
    stamp: u64,
}

impl<T> TreiberStack<T> {
    /// The stack's elements, topmost first.
    pub closed spec fn view(&self) -> Seq<T> {
        chain(self.head)
    }

    /// The stamp of the current top.
    pub closed spec fn stamp(&self) -> u64 {
        self.stamp
    }

    /// Creates an empty stack.
    pub fn new() -> (stack: Self)
        ensures
            stack@ == Seq::<T>::empty(),
            stack.stamp() == 0,
    {
        TreiberStack { head: None, stamp: 0 }
    }

    /// Reads the top: the stamp to hand to a conditional push or pop.
    pub fn head(&self) -> (seen: u64)
        ensures
            seen == self.stamp(),
    {
        self.stamp
    }

    /// Moves the stamp on.
    fn advance(&mut self)
        ensures
            final(self)@ == old(self)@,
            final(self).stamp() == next_stamp(old(self).stamp()),
    {
        self.stamp = if self.stamp == u64::MAX {
            0
        } else {
            self.stamp + 1
        };
    }

    /// Puts `value` on top of the stack.
    pub fn push(&mut self, value: T)
        ensures
            final(self)@ == pushed(old(self)@, value),
            final(self).stamp() == next_stamp(old(self).stamp()),
    {
        let next = self.head.take();
        self.head = Some(Box::new(Node { data: value, next }));
        self.advance();
    }

    /// Takes the most recently pushed element that has not been popped yet,
    /// or returns `None` if there is none. An empty stack is left as it is,
    /// stamp included.
    pub fn pop(&mut self) -> (value: Option<T>)
        ensures
            value == top(old(self)@),
            final(self)@ == popped(old(self)@),
            final(self).stamp() == if old(self)@.len() == 0 {
                old(self).stamp()
            } else {
                next_stamp(old(self).stamp())
            },
    {
        match self.head.take() {
            None => None,
            Some(node) => {
                let Node { data, next } = *node;
                assert(chain(next) =~= old(self)@.drop_first());
                self.head = next;
                self.advance();
                Some(data)
            },
        }
    }

    /// Pushes `value` if the top is still the one with stamp `seen`. If the
    /// top has changed since it was read, nothing happens and the value
    /// comes back for another attempt.
    pub fn try_push(&mut self, seen: u64, value: T) -> (r: Result<(), T>)
        ensures
            match r {
                Ok(_) => seen == old(self).stamp() && final(self)@ == pushed(old(self)@, value)
                    && final(self).stamp() == next_stamp(seen),
                Err(back) => seen != old(self).stamp() && back == value && final(self)@ == old(self)@ && final(self).stamp() == old(self).stamp(),
            },
    {
        if seen == self.stamp {
            self.push(value);
            Ok(())
        } else {
            Err(value)
        }
    }

    /// Pops if the top is still the one with stamp `seen`, as `pop` does.
    /// If the top has changed since it was read, nothing happens and `Err`
    /// asks for another attempt.
    pub fn try_pop(&mut self, seen: u64) -> (r: Result<Option<T>, ()>)
        ensures
            match r {
                Ok(value) => seen == old(self).stamp() && value == top(old(self)@) && final(self)@ == popped(old(self)@) && final(self).stamp() == if old(self)@.len() == 0 {
                    seen
                } else {
                    next_stamp(seen)
                },
                Err(_) => seen != old(self).stamp() && final(self)@ == old(self)@ && final(self).stamp() == old(self).stamp(),
            },
    {
        if seen == self.stamp {
            Ok(self.pop())
        } else {
            Err(())
        }
    }

    /// Returns `true` if the stack holds no element.
    pub fn is_empty(&self) -> (empty: bool)
        ensures
            empty == (self@.len() == 0),
    {
        self.head.is_none()
    }
}

impl<T> Default for TreiberStack<T> {
    fn default() -> (stack: Self)
        ensures
            stack@ == Seq::<T>::empty(),
            stack.stamp() == 0,
    {
        Self::new()
    }
}

/// One operation on a stack.
pub enum StackOp<T> {
    Push(T),
    Pop,
}

/// The stack after one operation.
pub open spec fn step<T>(stack: Seq<T>, op: StackOp<T>) -> Seq<T> {
    match op {
        StackOp::Push(value) => pushed(stack, value),
        StackOp::Pop => popped(stack),
    }
}

/// The stack after a history of operations, applied from left to right.
pub open spec fn run<T>(start: Seq<T>, ops: Seq<StackOp<T>>) -> Seq<T>
    decreases ops.len(),
{
    if ops.len() == 0 {
        start
    } else {
        step(run(start, ops.drop_last()), ops.last())
    }
}

/// The values that the pushes of a history put in.
pub open spec fn values_pushed<T>(ops: Seq<StackOp<T>>) -> Multiset<T>
    decreases ops.len(),
{
    if ops.len() == 0 {
        Multiset::empty()
    } else {
        match ops.last() {
            StackOp::Push(value) => values_pushed(ops.drop_last()).insert(value),
            StackOp::Pop => values_pushed(ops.drop_last()),
        }
    }
}

/// The values that the successful pops of a history handed out.
pub open spec fn values_popped<T>(start: Seq<T>, ops: Seq<StackOp<T>>) -> Multiset<T>
    decreases ops.len(),
{
    if ops.len() == 0 {
        Multiset::empty()
    } else {
        match (ops.last(), top(run(start, ops.drop_last()))) {
            (StackOp::Pop, Some(value)) => values_popped(start, ops.drop_last()).insert(value),
            _ => values_popped(start, ops.drop_last()),
        }
    }
}

/// A push adds one occurrence of the pushed value and nothing else.
proof fn lemma_pushed_multiset<T>(stack: Seq<T>, value: T)
    ensures
        pushed(stack, value).to_multiset() =~= stack.to_multiset().insert(value),
{
    vstd::seq_lib::to_multiset_insert(stack, 0, value);
    assert(stack.insert(0, value) =~= pushed(stack, value));
}

/// Balance: whatever the order of pushes and pops, the values that were on
/// the stack at the start together with the values pushed are exactly the
/// values popped together with the values that remain. Nothing is lost and
/// nothing comes out twice.
pub proof fn lemma_stack_balance<T>(start: Seq<T>, ops: Seq<StackOp<T>>)
    ensures
        start.to_multiset().add(values_pushed(ops)) =~= values_popped(start, ops).add(
            run(start, ops).to_multiset(),
        ),
    decreases ops.len(),
{
    broadcast use vstd::multiset::group_multiset_axioms;

    if ops.len() > 0 {
        let earlier = ops.drop_last();
        let before = run(start, earlier);
        lemma_stack_balance(start, earlier);
        match ops.last() {
            StackOp::Push(value) => {
                lemma_pushed_multiset(before, value);
                assert(start.to_multiset().add(values_pushed(earlier)).insert(value)
                    =~= start.to_multiset().add(values_pushed(ops)));
                assert(values_popped(start, ops).add(before.to_multiset()).insert(value)
                    =~= values_popped(start, ops).add(run(start, ops).to_multiset()));
            },
            StackOp::Pop => {
                if before.len() > 0 {
                    assert(before =~= pushed(before.drop_first(), before[0]));
                    lemma_pushed_multiset(before.drop_first(), before[0]);
                }
            },
        }
    }
}

/// The stack after pushing `values` from left to right.
pub open spec fn push_all<T>(stack: Seq<T>, values: Seq<T>) -> Seq<T>
    decreases values.len(),
{
    if values.len() == 0 {
        stack
    } else {
        pushed(push_all(stack, values.drop_last()), values.last())
    }
}

/// What `n` pops in a row hand out, first pop first.
pub open spec fn pop_results<T>(stack: Seq<T>, n: nat) -> Seq<Option<T>>
    decreases n,
{
    if n == 0 {
        Seq::empty()
    } else {
        seq![top(stack)] + pop_results(popped(stack), (n - 1) as nat)
    }
}

/// The stack after `n` pops in a row.
pub open spec fn after_pops<T>(stack: Seq<T>, n: nat) -> Seq<T>
    decreases n,
{
    if n == 0 {
        stack
    } else {
        after_pops(popped(stack), (n - 1) as nat)
    }
}

/// Last in, first out: after pushing `values` in order, as many pops hand
/// them back in exact reverse order and leave the stack as it was before.
pub proof fn lemma_lifo<T>(stack: Seq<T>, values: Seq<T>)
    ensures
        pop_results(push_all(stack, values), values.len()).len() == values.len(),
        forall|i: int|
            0 <= i < values.len() ==> #[trigger] pop_results(
                push_all(stack, values),
                values.len(),
            )[i] == Some(values[values.len() - 1 - i]),
        after_pops(push_all(stack, values), values.len()) == stack,
    decreases values.len(),
{
    if values.len() > 0 {
        let shorter = values.drop_last();
        let below = push_all(stack, shorter);
        let full = push_all(stack, values);
        lemma_lifo(stack, shorter);
        assert(popped(full) =~= below);
        assert(top(full) == Some(values.last()));
        let rest = pop_results(below, shorter.len());
        let all = pop_results(full, values.len());
        assert(all == seq![top(full)] + rest);
        assert forall|i: int| 0 <= i < values.len() implies #[trigger] all[i] == Some(
            values[values.len() - 1 - i],
        ) by {
            if i > 0 {
                assert(all[i] == rest[i - 1]);
                assert(shorter[shorter.len() - 1 - (i - 1)] == values[values.len() - 1 - i]);
            }
        }
    }
}

} // verus!
