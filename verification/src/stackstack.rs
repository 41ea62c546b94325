//! Fixed-capacity stacks held inline, so that inner loops need no allocation.
use vstd::prelude::*;

verus! {

/// Longest path, in moves, that a path store can hold.
pub const HARD_MAX_PATH: usize = 512;
/// Number of 128-bit blocks needed for `HARD_MAX_PATH` moves at 2 bits per move.
pub const STACKMAX: usize = 8;

/// A stack of at most `STACKMAX` items, stored inline.
#[derive(Copy, Clone)]
pub struct StackStack<T: Copy> {
    pub next: usize,
    pub stack: [T; STACKMAX],
}

impl<T: Copy + Default> StackStack<T> {
    /// An empty stack.
    pub fn new() -> (s: Self)
        ensures
            s.next == 0,
    {
        let d = T::default();
        Self { next: 0, stack: [d; STACKMAX] }
    }
}

/// The height of a stack after the calls `ops` (a push for `true`, a pop for `false`)
/// from height `next`, each call with its precondition met (a push below `STACKMAX`, a pop
/// above 0); `None` once a call's precondition fails.
pub open spec fn stack_height(next: int, ops: Seq<bool>) -> Option<int>
    decreases ops.len(),
{
    if ops.len() == 0 {
        Some(next)
    } else {
        match stack_height(next, ops.drop_last()) {
            Some(n) => if ops.last() {
                if n < STACKMAX { Some(n + 1) } else { None }
            } else {
                if 0 < n <= STACKMAX { Some(n - 1) } else { None }
            },
            None => None,
        }
    }
}

/// The number of pushes among the calls.
pub open spec fn pushes_in(ops: Seq<bool>) -> int
    decreases ops.len(),
{
    if ops.len() == 0 { 0 } else { pushes_in(ops.drop_last()) + (if ops.last() { 1int } else { 0int }) }
}

/// From an empty stack, calls whose preconditions all hold leave as many items as pushes
/// less pops, never more than `STACKMAX`.
pub proof fn lemma_stack_height(ops: Seq<bool>)
    ensures
        stack_height(0, ops) matches Some(n) ==> n == pushes_in(ops) - (ops.len() - pushes_in(ops)) && 0 <= n <= STACKMAX,
    decreases ops.len(),
{
    if ops.len() > 0 {
        lemma_stack_height(ops.drop_last());
    }
}

impl<T: Copy> StackStack<T> {
    /// The items currently on the stack, bottom first.
    pub open spec fn items(&self) -> Seq<T> {
        self.stack@.subrange(0, self.next as int)
    }

    pub open spec fn wf(&self) -> bool {
        self.next <= STACKMAX
    }

    /// Pushes `d`; the stack must not be full.
    pub fn push(&mut self, d: T)
        requires
            old(self).next < STACKMAX,
        ensures
            final(self).next == old(self).next + 1,
            final(self).stack@ == old(self).stack@.update(old(self).next as int, d),
            final(self).items() == old(self).items().push(d),
    {
        self.stack.set(self.next, d);
        self.next = self.next + 1;
        assert(self.items() =~= old(self).items().push(d));
    }

    /// Removes and returns the top item; the stack must not be empty.
    pub fn pop(&mut self) -> (r: T)
        requires
            0 < old(self).next <= STACKMAX,
        ensures
            final(self).next == old(self).next - 1,
            final(self).stack == old(self).stack,
            r == old(self).stack@[old(self).next - 1],
            final(self).items() == old(self).items().drop_last(),
    {
        self.next = self.next - 1;
        let r = self.stack[self.next];
        assert(self.items() =~= old(self).items().drop_last());
        r
    }

    pub fn len(&self) -> (r: usize)
        ensures
            r == self.next,
    {
        self.next
    }

    /// Empties the stack; the storage is left as it was.
    pub fn clear(&mut self)
        ensures
            final(self).next == 0,
            final(self).stack == old(self).stack,
    {
        self.next = 0;
    }
}

} // verus!

verus! {

/// A stack of at most 64 `u16` items, used for the tail nodes of a search.
#[derive(Copy, Clone)]
pub struct StackStack16x64 {
    pub next: usize,
    pub stack: [u16; 64],
}

impl StackStack16x64 {
    pub open spec fn items(&self) -> Seq<u16> {
        self.stack@.subrange(0, self.next as int)
    }

    pub fn new() -> (s: Self)
        ensures
            s.next == 0,
    {
        Self { next: 0, stack: [0u16; 64] }
    }

    /// Pushes `d`; the stack must not be full.
    pub fn push(&mut self, d: u16)
        requires
            old(self).next < 64,
        ensures
            final(self).next == old(self).next + 1,
            final(self).stack@ == old(self).stack@.update(old(self).next as int, d),
            final(self).items() == old(self).items().push(d),
    {
        self.stack.set(self.next, d);
        self.next = self.next + 1;
        assert(self.items() =~= old(self).items().push(d));
    }

    /// Removes and returns the top item; the stack must not be empty.
    pub fn pop(&mut self) -> (r: u16)
        requires
            0 < old(self).next <= 64,
        ensures
            final(self).next == old(self).next - 1,
            final(self).stack == old(self).stack,
            r == old(self).stack@[old(self).next - 1],
            final(self).items() == old(self).items().drop_last(),
    {
        self.next = self.next - 1;
        let r = self.stack[self.next];
        assert(self.items() =~= old(self).items().drop_last());
        r
    }

    pub fn len(&self) -> (r: usize)
        ensures
            r == self.next,
    {
        self.next
    }

    /// Empties the stack; the storage is left as it was.
    pub fn clear(&mut self)
        ensures
            final(self).next == 0,
            final(self).stack == old(self).stack,
    {
        self.next = 0;
    }
}

/// A stack of at most 64 `u8` items, used when tracing a path back.
#[derive(Copy, Clone)]
pub struct StackStack8x64 {
    pub next: usize,
    pub stack: [u8; 64],
}

impl StackStack8x64 {
    pub open spec fn items(&self) -> Seq<u8> {
        self.stack@.subrange(0, self.next as int)
    }

    pub fn new() -> (s: Self)
        ensures
            s.next == 0,
    {
        Self { next: 0, stack: [0u8; 64] }
    }

    /// Pushes `d`; the stack must not be full.
    pub fn push(&mut self, d: u8)
        requires
            old(self).next < 64,
        ensures
            final(self).next == old(self).next + 1,
            final(self).stack@ == old(self).stack@.update(old(self).next as int, d),
            final(self).items() == old(self).items().push(d),
    {
        self.stack.set(self.next, d);
        self.next = self.next + 1;
        assert(self.items() =~= old(self).items().push(d));
    }

    /// Removes and returns the top item; the stack must not be empty.
    pub fn pop(&mut self) -> (r: u8)
        requires
            0 < old(self).next <= 64,
        ensures
            final(self).next == old(self).next - 1,
            final(self).stack == old(self).stack,
            r == old(self).stack@[old(self).next - 1],
            final(self).items() == old(self).items().drop_last(),
    {
        self.next = self.next - 1;
        let r = self.stack[self.next];
        assert(self.items() =~= old(self).items().drop_last());
        r
    }

    pub fn len(&self) -> (r: usize)
        ensures
            r == self.next,
    {
        self.next
    }

    /// Empties the stack; the storage is left as it was.
    pub fn clear(&mut self)
        ensures
            final(self).next == 0,
            final(self).stack == old(self).stack,
    {
        self.next = 0;
    }

    /// Reverses the items on the stack in place; the stack must not be empty.
    pub fn reverse(&mut self)
        requires
            0 < old(self).next <= 64,
        ensures
            final(self).next == old(self).next,
            final(self).items() == old(self).items().reverse(),
            forall|j: int| old(self).next <= j < 64 ==> #[trigger] final(self).stack@[j] == old(self).stack@[j],
    {
        let n = self.next;
        let mut top = self.next - 1;
        let mut i: usize = 0;
        while i < n / 2
            invariant
                n == self.next == old(self).next,
                0 < n <= 64,
                i <= n / 2,
                top == n - 1 - i,
                forall|j: int| 0 <= j < i ==> #[trigger] self.stack@[j] == old(self).stack@[n - 1 - j],
                forall|j: int| n - i <= j < n ==> #[trigger] self.stack@[j] == old(self).stack@[n - 1 - j],
                forall|j: int| i <= j < n - i ==> #[trigger] self.stack@[j] == old(self).stack@[j],
                forall|j: int| n <= j < 64 ==> #[trigger] self.stack@[j] == old(self).stack@[j],
            decreases n / 2 - i,
        {
            let swapper = self.stack[i];
            let t = self.stack[top];
            self.stack.set(i, t);
            self.stack.set(top, swapper);
            top = top - 1;
            i = i + 1;
        }
        assert(self.items() =~= old(self).items().reverse());
    }
}

} // verus!
