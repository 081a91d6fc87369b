//! Registry-backed references to machine values.
//!
//! The operand stack is transient: any push or pop shifts positions, so a
//! raw stack index held across a nested operation is unsafe.  An [`LRef`]
//! instead anchors a value at an integer slot of the machine's registry,
//! independent of the stack's shape, until it is taken back or released.

use vstd::prelude::*;

use crate::error::{Error, ErrorKind};
use crate::state::{
    State, SpecState, with_stack, with_stack_registry, spec_register, spec_register_slot,
    spec_slot_value, first_free, occupied, LUA_NOREF, LUA_REFNIL, MAX_STACK, REGISTRY_MAX,
};
use crate::value::{SpecValue, spec_type_code};

verus! {

/// `first_free` lands on a free slot, or at the end.
pub proof fn lemma_first_free_bounds(reg: Seq<Option<SpecValue>>, from: int)
    requires
        0 <= from <= reg.len(),
    ensures
        from <= first_free(reg, from) <= reg.len(),
        first_free(reg, from) < reg.len() ==> reg[first_free(reg, from)] is None,
    decreases reg.len() - from,
{
    if from < reg.len() && !(reg[from] is None) {
        lemma_first_free_bounds(reg, from + 1);
    }
}

/// Occupying a free slot raises the occupied count by one.
pub proof fn lemma_occupied_update_some(reg: Seq<Option<SpecValue>>, i: int, v: SpecValue)
    requires
        0 <= i < reg.len(),
        reg[i] is None,
    ensures
        occupied(reg.update(i, Some(v))) == occupied(reg) + 1,
    decreases reg.len(),
{
    let reg2 = reg.update(i, Some(v));
    if i == reg.len() - 1 {
        assert(reg2.drop_last() =~= reg.drop_last());
    } else {
        assert(reg2.drop_last() =~= reg.drop_last().update(i, Some(v)));
        lemma_occupied_update_some(reg.drop_last(), i, v);
    }
}

/// Appending an occupied slot raises the occupied count by one.
pub proof fn lemma_occupied_push_some(reg: Seq<Option<SpecValue>>, v: SpecValue)
    ensures
        occupied(reg.push(Some(v))) == occupied(reg) + 1,
{
    assert(reg.push(Some(v)).drop_last() =~= reg);
}

/// Freeing an occupied slot lowers the occupied count by one.
pub proof fn lemma_occupied_update_none(reg: Seq<Option<SpecValue>>, i: int)
    requires
        0 <= i < reg.len(),
        reg[i] is Some,
    ensures
        occupied(reg.update(i, None)) == occupied(reg) - 1,
    decreases reg.len(),
{
    let reg2 = reg.update(i, None);
    if i == reg.len() - 1 {
        assert(reg2.drop_last() =~= reg.drop_last());
    } else {
        assert(reg2.drop_last() =~= reg.drop_last().update(i, None));
        lemma_occupied_update_none(reg.drop_last(), i);
    }
}

/// Reference Arena exhaustivity, one step: registering a non-nil value
/// and then releasing the slot it was handed leaves the occupied-slot
/// count of the registry exactly where it was.  Applied once per
/// registered value, it gives the same for any number of registrations
/// released in any order.
pub proof fn lemma_register_release_neutral(reg: Seq<Option<SpecValue>>, v: SpecValue)
    ensures
        occupied(
            spec_register(reg, v).update(spec_register_slot(reg) - 1, None),
        ) == occupied(reg),
{
    lemma_first_free_bounds(reg, 0);
    let i = first_free(reg, 0);
    if i < reg.len() {
        lemma_occupied_update_some(reg, i, v);
        lemma_occupied_update_none(reg.update(i, Some(v)), i);
    } else {
        lemma_occupied_push_some(reg, v);
        lemma_occupied_update_none(reg.push(Some(v)), i);
        assert(reg.push(Some(v)).update(i, None).drop_last() =~= reg);
    }
}

/// A reference to a machine value, held in the machine's registry.
///
/// Created by registering the value on the top of the stack (which pops
/// it); the value can then be pushed back any number of times with
/// [`get`](LRef::get), retrieved once and for all with
/// [`take`](LRef::take), or swapped with [`replace`](LRef::replace).
/// Release the slot with [`release`](LRef::release) when done: the slot
/// is then free for reuse and this reference reads as nil.
#[derive(Debug)]
pub struct LRef {
    slot: i32,
}

impl View for LRef {
    type V = int;

    closed spec fn view(&self) -> int {
        self.slot as int
    }
}

impl LRef {
    /// Whether this reference is empty: released, taken, or never given
    /// a value.  Reading through an empty reference is a programming
    /// error that verification rules out.  (A reference to a registered
    /// nil, [`LUA_REFNIL`], is not empty: it legitimately reads back as
    /// nil.)
    pub open spec fn is_empty(&self) -> bool {
        self@ == LUA_NOREF
    }

    /// The value this reference denotes in a machine state.
    pub open spec fn value_in(&self, s: SpecState) -> SpecValue {
        spec_slot_value(s.registry, self@)
    }

    /// The slot code of this reference.
    pub fn slot(&self) -> (r: i32)
        ensures
            r as int == self@,
    {
        self.slot
    }

    /// Creates a reference in the empty state, holding no value.
    pub fn empty() -> (r: LRef)
        ensures
            r@ == LUA_NOREF,
            r.is_empty(),
    {
        LRef { slot: LUA_NOREF }
    }

    /// Creates a reference for the value on the top of the stack, popping
    /// it.  A nil value is popped and given the nil slot code
    /// [`LUA_REFNIL`] without taking a registry slot.  Errors (leaving
    /// the state unchanged) only when the registry is at capacity.
    pub fn register(state: &mut State) -> (r: Result<LRef, Error>)
        requires
            old(state).wf(),
            old(state)@.stack.len() >= 1,
        ensures
            final(state).wf(),
            (r matches Err(e) ==> e.kind == ErrorKind::Custom && final(state)@ == old(state)@),
            (r is Err ==> old(state)@.stack.last() != SpecValue::Nil && old(
                state,
            )@.registry.len() == REGISTRY_MAX && first_free(old(state)@.registry, 0) == old(
                state,
            )@.registry.len()),
            (r matches Ok(lr) ==> {
                let pre = old(state)@;
                &&& lr.value_in(final(state)@) == pre.stack.last()
                &&& (pre.stack.last() == SpecValue::Nil ==> lr@ == LUA_REFNIL && final(state)@
                    == with_stack(pre, pre.stack.drop_last()))
                &&& (pre.stack.last() != SpecValue::Nil ==> lr@ == spec_register_slot(pre.registry)
                    && 1 <= lr@ <= final(state)@.registry.len() && final(state)@
                    == with_stack_registry(
                    pre,
                    pre.stack.drop_last(),
                    spec_register(pre.registry, pre.stack.last()),
                ) && occupied(final(state)@.registry) == occupied(pre.registry) + 1)
            }),
    {
        let ghost pre = state@;
        let slot = match state.ref_register() {
            Ok(slot) => slot,
            Err(e) => {
                return Err(e);
            },
        };
        proof {
            if pre.stack.last() != SpecValue::Nil {
                lemma_first_free_bounds(pre.registry, 0);
                let i = first_free(pre.registry, 0);
                if i < pre.registry.len() {
                    lemma_occupied_update_some(pre.registry, i, pre.stack.last());
                } else {
                    lemma_occupied_push_some(pre.registry, pre.stack.last());
                }
            }
        }
        Ok(LRef { slot })
    }

    /// Pushes a copy of the referenced value onto the stack and returns
    /// the machine's type code for it.  Reading through an empty
    /// reference is a programming error, ruled out up front rather than
    /// silently answered with nil.
    pub fn get(&self, state: &mut State) -> (r: i32)
        requires
            old(state).wf(),
            old(state)@.stack.len() < MAX_STACK,
            !self.is_empty(),
        ensures
            final(state).wf(),
            final(state)@ == with_stack(
                old(state)@,
                old(state)@.stack.push(self.value_in(old(state)@)),
            ),
            r as int == spec_type_code(self.value_in(old(state)@)),
    {
        state.ref_get(self.slot)
    }

    /// Takes the value out of the reference: pushes it onto the stack,
    /// releases the slot and leaves the reference empty.  Returns the
    /// old slot code.  A later `get` or `take` on the then-empty
    /// reference is a programming error, ruled out up front rather than
    /// silently answered with nil.
    pub fn take(&mut self, state: &mut State) -> (r: i32)
        requires
            old(state).wf(),
            old(state)@.stack.len() < MAX_STACK,
            !old(self).is_empty(),
        ensures
            final(state).wf(),
            r as int == old(self)@,
            final(self)@ == LUA_NOREF,
            final(self).is_empty(),
            ({
                let pre = old(state)@;
                let pushed = with_stack(pre, pre.stack.push(old(self).value_in(pre)));
                if 1 <= old(self)@ <= pre.registry.len() {
                    final(state)@ == with_stack_registry(
                        pushed,
                        pushed.stack,
                        pre.registry.update(old(self)@ - 1, None),
                    )
                } else {
                    final(state)@ == pushed
                }
            }),
    {
        let slot = self.slot;
        state.ref_get(slot);
        state.ref_unref(slot);
        self.slot = LUA_NOREF;
        slot
    }

    /// Re-registers the reference to the value on the top of the stack
    /// (popping it), releasing the previously referenced slot.  Returns
    /// the old slot code.  Errors only when the registry is at capacity;
    /// the old slot is then already released, the reference left empty
    /// and the value still on the stack.
    pub fn replace(&mut self, state: &mut State) -> (r: Result<i32, Error>)
        requires
            old(state).wf(),
            old(state)@.stack.len() >= 1,
        ensures
            final(state).wf(),
            ({
                let pre = old(state)@;
                let freed = if 1 <= old(self)@ <= pre.registry.len() {
                    pre.registry.update(old(self)@ - 1, None)
                } else {
                    pre.registry
                };
                &&& (r matches Err(e) ==> e.kind == ErrorKind::Custom && final(self).is_empty()
                    && final(state)@ == with_stack_registry(pre, pre.stack, freed) && freed.len()
                    == REGISTRY_MAX && first_free(freed, 0) == freed.len())
                &&& (r matches Ok(prev) ==> {
                    &&& prev as int == old(self)@
                    &&& final(state)@.stack == pre.stack.drop_last()
                    &&& final(state)@.heap == pre.heap
                    &&& final(state)@.globals == pre.globals
                    &&& final(state)@.mem == pre.mem
                    &&& final(self).value_in(final(state)@) == pre.stack.last()
                    &&& (pre.stack.last() != SpecValue::Nil ==> final(state)@.registry
                        == spec_register(freed, pre.stack.last()) && final(self)@
                        == spec_register_slot(freed))
                    &&& (pre.stack.last() == SpecValue::Nil ==> final(state)@.registry == freed
                        && final(self)@ == LUA_REFNIL)
                })
            }),
    {
        let prev = self.slot;
        self.release(state);
        let fresh = match LRef::register(state) {
            Ok(fresh) => fresh,
            Err(e) => {
                return Err(e);
            },
        };
        self.slot = fresh.slot;
        Ok(prev)
    }

    /// Releases the referenced slot (a no-op for an empty reference) and
    /// leaves the reference empty.
    pub fn release(&mut self, state: &mut State)
        requires
            old(state).wf(),
        ensures
            final(state).wf(),
            final(self)@ == LUA_NOREF,
            final(self).is_empty(),
            ({
                let pre = old(state)@;
                if 1 <= old(self)@ <= pre.registry.len() {
                    final(state)@ == with_stack_registry(
                        pre,
                        pre.stack,
                        pre.registry.update(old(self)@ - 1, None),
                    )
                } else {
                    final(state)@ == pre
                }
            }),
    {
        state.ref_unref(self.slot);
        self.slot = LUA_NOREF;
    }
}

} // verus!
