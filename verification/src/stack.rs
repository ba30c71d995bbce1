use vstd::prelude::*;
use crate::diag::{Diag, SpecDiag};
use crate::value::{rat_wf, Rat, Value};
use crate::STACK_CAPACITY;

verus! {

/// One entry of the value stack: a computed value together with the source
/// offset of the token it came from, kept so that a later fault can point
/// back into the line.
#[derive(Clone, Copy, Debug)]
pub struct Slot {
    pub offset: u8,
    pub value: Value,
}

/// A slot as the specifications see it.
pub struct SpecSlot {
    pub offset: int,
    pub val: Rat,
}

impl View for Slot {
    type V = SpecSlot;

    open spec fn view(&self) -> SpecSlot {
        SpecSlot { offset: self.offset as int, val: self.value@ }
    }
}

impl Slot {
    pub fn new(offset: u8, value: Value) -> (r: Slot)
        ensures
            r@.offset == offset as int,
            r@.val == value@,
    {
        Slot { offset, value }
    }
}

/// The bounded value stack of the virtual machine: at most
/// `STACK_CAPACITY` slots.  A push onto a full stack and a pop from an
/// empty stack fail; nothing panics.
pub struct Stack {
    items: Vec<Slot>,
}

impl View for Stack {
    type V = Seq<SpecSlot>;

    closed spec fn view(&self) -> Seq<SpecSlot> {
        self.items@.map_values(|s: Slot| s@)
    }
}

impl Stack {
    pub open spec fn wf(&self) -> bool {
        self@.len() <= STACK_CAPACITY && forall|i: int|
            0 <= i < self@.len() ==> rat_wf(#[trigger] self@[i].val)
    }

    /// A fresh, empty stack.
    pub fn new() -> (r: Stack)
        ensures
            r.wf(),
            r@ =~= Seq::<SpecSlot>::empty(),
    {
        Stack { items: Vec::new() }
    }

    /// How many slots are filled.
    pub fn depth(&self) -> (n: usize)
        ensures
            n == self@.len(),
    {
        self.items.len()
    }

    /// Pushes a slot; fails with `StackOverflow` when the stack is full.
    pub fn push(&mut self, value: Slot) -> (r: Result<(), Diag>)
        requires
            old(self).wf(),
            rat_wf(value@.val),
        ensures
            final(self).wf(),
            if old(self)@.len() < STACK_CAPACITY {
                r is Ok && final(self)@ =~= old(self)@.push(value@)
            } else {
                (r matches Err(e) && e@ == SpecDiag::StackOverflow) && final(self)@ =~= old(
                    self,
                )@
            },
    {
        if self.items.len() >= STACK_CAPACITY {
            return Err(Diag::StackOverflow);
        }
        self.items.push(value);
        assert(self@ =~= old(self)@.push(value@));
        Ok(())
    }

    /// Pops the top slot; fails with `StackUnderflow` when the stack is
    /// empty.
    pub fn pop(&mut self) -> (r: Result<Slot, Diag>)
        requires
            old(self).wf(),
        ensures
            final(self).wf(),
            if old(self)@.len() == 0 {
                (r matches Err(e) && e@ == SpecDiag::StackUnderflow) && final(self)@ =~= old(
                    self,
                )@
            } else {
                (r matches Ok(s) && s@ == old(self)@.last() && rat_wf(s@.val)) && final(self)@
                    =~= old(self)@.drop_last()
            },
    {
        if self.items.len() == 0 {
            return Err(Diag::StackUnderflow);
        }
        let s = match self.items.pop() {
            Some(s) => s,
            None => {
                return Err(Diag::StackUnderflow);
            },
        };
        assert(self@ =~= old(self)@.drop_last());
        Ok(s)
    }
}

} // verus!
