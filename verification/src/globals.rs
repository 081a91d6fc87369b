//! Access to the machine's global variables, through the serializer and
//! deserializer.

use vstd::prelude::*;

use crate::codec::decode_val;
use crate::data::{Data, SpecData, rt_ok, height};
use crate::error::{Error, ErrorKind};
use crate::state::{State, state_wf, has_nul, MAX_STACK};
use crate::table_data::{lookup, store};
use crate::value::SpecValue;

verus! {

/// An access to the machine's global variables.
///
/// Owns the machine state; take it back with
/// [`into_state`](Globals::into_state).
#[derive(Debug)]
pub struct Globals {
    state: State,
}

impl View for Globals {
    type V = crate::state::SpecState;

    closed spec fn view(&self) -> crate::state::SpecState {
        self.state@
    }
}

impl Globals {
    /// Well-formedness of the underlying machine state.
    pub open spec fn wf(&self) -> bool {
        state_wf(self@)
    }

    /// Creates a globals accessor wrapping the given machine state.
    pub fn new(state: State) -> (r: Globals)
        ensures
            r@ == state@,
    {
        Globals { state }
    }

    /// Consumes the accessor back into the machine state.
    pub fn into_state(self) -> (r: State)
        ensures
            r@ == self@,
    {
        self.state
    }

    /// A mutable reference to the underlying machine state.
    pub fn as_mut_state(&mut self) -> (r: &mut State)
        ensures
            r@ == old(self)@,
            final(self)@ == final(r)@,
    {
        &mut self.state
    }

    /// Serializes `value` and sets it as the new value of the global
    /// `name`.  Returns the number of stack slots the value used
    /// (always 1).  On success the global reads back as the value: for
    /// every round-trip-supported shape, looking the name up decodes to
    /// exactly `value`.
    pub fn set(&mut self, name: &[u8], value: &Data) -> (r: Result<i32, Error>)
        requires
            old(self).wf(),
        ensures
            final(self).wf(),
            final(self)@.stack == old(self)@.stack,
            final(self)@.mem == old(self)@.mem,
            crate::ser::heap_extends(final(self)@.heap, old(self)@.heap),
            crate::ser::reg_restored(old(self)@.registry, final(self)@.registry),
            crate::state::occupied(final(self)@.registry) == crate::state::occupied(
                old(self)@.registry,
            ),
            (r matches Err(e) ==> e.kind == ErrorKind::StackOverflow || e.kind
                == ErrorKind::Custom || e.kind == ErrorKind::InvalidInput),
            (r matches Err(e) ==> (e.kind == ErrorKind::InvalidInput <==> has_nul(name@))),
            (r matches Ok(n) ==> n == 1 && !has_nul(name@) && {
                let gv = lookup(final(self)@.globals, SpecValue::Str(name@));
                &&& final(self)@.globals == store(old(self)@.globals, SpecValue::Str(name@), gv)
                &&& (rt_ok(value@) ==> decode_val(final(self)@.heap, gv, height(value@)) == Some(
                    value@,
                ))
            }),
            (!has_nul(name@) && rt_ok(value@) && crate::data::fits(value@) && old(
                self,
            )@.stack.len() + crate::data::ser_need(value@) <= MAX_STACK && crate::state::occupied(
                old(self)@.registry,
            ) + 2 * height(value@) <= crate::state::REGISTRY_MAX ==> r is Ok),
    {
        let ghost pre = self@;
        if State::has_embedded_nul(name) {
            return Err(Error::new(ErrorKind::InvalidInput, "name holds an embedded NUL byte"));
        }
        match self.state.push_data(value) {
            Ok(_) => {},
            Err(e) => {
                proof {
                    crate::de::lemma_occ_restored(pre.registry, self@.registry);
                }
                return Err(e);
            },
        }
        let ghost mid = self@;
        proof {
            crate::de::lemma_occ_restored(pre.registry, mid.registry);
        }
        let ghost v = mid.stack.last();
        match self.state.set_global(name) {
            Ok(_) => {},
            Err(e) => {
                proof {
                    assert(false);
                }
                return Err(e);
            },
        }
        proof {
            assert(self@.stack =~= pre.stack);
            crate::table_data::lemma_store_unique(pre.globals, SpecValue::Str(name@), v);
            if v == SpecValue::Nil {
                crate::table_data::lemma_lookup_store_nil(pre.globals, SpecValue::Str(name@));
            } else {
                crate::table_data::lemma_lookup_store_same(
                    pre.globals,
                    SpecValue::Str(name@),
                    v,
                );
            }
        }
        Ok(1)
    }

    /// Reads the value of the global `name` back as structured data,
    /// with at most `depth` levels of table nesting.  What comes back is
    /// exactly the decoding of the value the global holds (nil if it is
    /// not set).
    pub fn get(&mut self, name: &[u8], depth: u64) -> (r: Result<Data, Error>)
        requires
            old(self).wf(),
        ensures
            final(self).wf(),
            final(self)@.stack == old(self)@.stack,
            final(self)@.heap == old(self)@.heap,
            final(self)@.globals == old(self)@.globals,
            final(self)@.mem == old(self)@.mem,
            (r matches Err(e) ==> e.kind == ErrorKind::StackOverflow || e.kind
                == ErrorKind::Custom || e.kind == ErrorKind::InvalidInput),
            (r matches Err(e) ==> (e.kind == ErrorKind::InvalidInput <==> has_nul(name@))),
            (r is Ok ==> !has_nul(name@)),
            (r matches Ok(d) ==> decode_val(
                old(self)@.heap,
                lookup(old(self)@.globals, SpecValue::Str(name@)),
                depth as nat,
            ) == Some(d@)),
            (!has_nul(name@) && decode_val(
                old(self)@.heap,
                lookup(old(self)@.globals, SpecValue::Str(name@)),
                depth as nat,
            ) is Some && old(self)@.stack.len() + 1 + 2 * depth <= MAX_STACK
                && crate::state::occupied(old(self)@.registry) + 3 * depth + 3
                <= crate::state::REGISTRY_MAX ==> r is Ok),
    {
        let ghost pre = self@;
        if State::has_embedded_nul(name) {
            return Err(Error::new(ErrorKind::InvalidInput, "name holds an embedded NUL byte"));
        }
        if !self.state.reserve(1) {
            return Err(Error::new(ErrorKind::StackOverflow, "no stack space for a value"));
        }
        match self.state.get_global(name) {
            Ok(_) => {},
            Err(e) => {
                proof {
                    assert(false);
                }
                return Err(e);
            },
        }
        let d = match self.state.pull_data(depth) {
            Ok(d) => d,
            Err(e) => {
                self.state.pop(1);
                proof {
                    assert(self@.stack =~= pre.stack);
                }
                return Err(e);
            },
        };
        self.state.pop(1);
        proof {
            assert(self@.stack =~= pre.stack);
        }
        Ok(d)
    }
}

} // verus!
