//! A guard on the operand stack's size.
//!
//! A `StackGuard` records a low watermark for the stack when a piece of
//! work begins.  Closing the guard pops whatever the work left above the
//! watermark.  A stack that ends up *below* the watermark means the
//! stack discipline was broken — a programming error the guard's
//! contract rules out, where the reference behaviour would have been to
//! terminate the machine session rather than continue inconsistently.

use vstd::prelude::*;

use crate::state::{State, with_stack, MAX_STACK};

verus! {

/// A low watermark for the operand stack's size.
#[derive(Debug, Clone, Copy, PartialEq, Eq, Structural)]
pub struct StackGuard {
    mark: i32,
}

impl StackGuard {
    /// The recorded watermark.
    pub closed spec fn mark_spec(&self) -> int {
        self.mark as int
    }

    /// Creates a guard using the current stack size as the watermark.
    pub fn new(state: &State) -> (r: StackGuard)
        requires
            state.wf(),
        ensures
            r.mark_spec() == state@.stack.len(),
    {
        let top = state.top();
        Self::with_mark(top, state)
    }

    /// Creates a guard for a chosen watermark.
    pub fn with_mark(mark: i32, state: &State) -> (r: StackGuard)
        ensures
            r.mark_spec() == mark,
    {
        StackGuard { mark }
    }

    /// The recorded watermark.
    pub fn mark(&self) -> (r: i32)
        ensures
            r as int == self.mark_spec(),
    {
        self.mark
    }

    /// Closes the guard: pops every element above the watermark.  The
    /// stack must not have shrunk below the watermark — that would mean
    /// an operation consumed values it did not own.
    pub fn close(self, state: &mut State)
        requires
            old(state).wf(),
            0 <= self.mark_spec() <= old(state)@.stack.len(),
        ensures
            final(state).wf(),
            final(state)@ == with_stack(
                old(state)@,
                old(state)@.stack.take(self.mark_spec()),
            ),
    {
        state.set_top(self.mark);
    }
}

} // verus!
