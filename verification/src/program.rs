//! The program: an ordered list of command descriptors and a cursor.

use vstd::pervasive::strictly_cloned;
use vstd::prelude::*;

verus! {

/// The program as its contracts see it.
pub ghost struct ProgramView<C> {
    /// The descriptors, in order.
    pub descriptors: Seq<C>,
    /// How many descriptors have been instantiated.
    pub cursor: nat,
}

/// The commands of a script. The list is fixed when the program is built;
/// only the cursor moves, and only forward.
pub struct SceCommands<C> {
    commands: Vec<C>,
    pc: usize,
}

impl<C> View for SceCommands<C> {
    type V = ProgramView<C>;

    closed spec fn view(&self) -> ProgramView<C> {
        ProgramView { descriptors: self.commands@, cursor: self.pc as nat }
    }
}

/// `dyn_clone::clone_box` on a sized value: the box holds the value that
/// `Clone::clone` returned for `descriptor`.
#[verifier::external_body]
fn clone_box<C: Clone>(descriptor: &C) -> (instance: Box<C>)
    ensures
        strictly_cloned(*descriptor, *instance),
{
    dyn_clone::clone_box(descriptor)
}

impl<C> SceCommands<C> {
    #[verifier::type_invariant]
    pub(crate) closed spec fn cursor_in_range(self) -> bool {
        self.pc <= self.commands.len()
    }

    /// The cursor of a program is never past its end.
    pub(crate) proof fn cursor_stays_in_range(self)
        requires
            self.cursor_in_range(),
        ensures
            self@.cursor <= self@.descriptors.len(),
    {
    }

    /// A program over `commands`, with the cursor at its start.
    pub fn new(commands: Vec<C>) -> (program: Self)
        ensures
            program@.descriptors == commands@,
            program@.cursor == 0,
    {
        SceCommands { commands, pc: 0 }
    }

    /// A fresh instance of the descriptor at the cursor, which then moves on
    /// by one; `None`, and nothing changes, once the cursor is at the end.
    pub fn get_next(&mut self) -> (next: Option<Box<C>>) where C: Clone
        ensures
            final(self)@.descriptors == old(self)@.descriptors,
            old(self)@.cursor <= old(self)@.descriptors.len(),
            match next {
                Some(instance) => {
                    &&& old(self)@.cursor < old(self)@.descriptors.len()
                    &&& strictly_cloned(old(self)@.descriptors[old(self)@.cursor as int], *instance)
                    &&& final(self)@.cursor == old(self)@.cursor + 1
                },
                None => {
                    &&& old(self)@.cursor == old(self)@.descriptors.len()
                    &&& final(self)@.cursor == old(self)@.cursor
                },
            },
    {
        proof {
            use_type_invariant(&*self);
        }
        if self.pc < self.commands.len() {
            let command = clone_box(&self.commands[self.pc]);
            self.pc += 1;
            Some(command)
        } else {
            None
        }
    }

    /// The number of descriptors.
    pub fn len(&self) -> (n: usize)
        ensures
            n == self@.descriptors.len(),
    {
        self.commands.len()
    }

    /// How many descriptors have been instantiated.
    pub fn position(&self) -> (pc: usize)
        ensures
            pc == self@.cursor,
            pc <= self@.descriptors.len(),
    {
        proof {
            use_type_invariant(self);
        }
        self.pc
    }
}

} // verus!
