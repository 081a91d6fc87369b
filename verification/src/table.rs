//! Keyed access to a table on the operand stack.
//!
//! [`Key`] names the kinds of key the machine's table operations accept;
//! [`Table`] dispatches a read or write on a stack-resident table to the
//! matching raw operation.  (Without metatables in the model, the raw
//! and the metamethod-triggering operations coincide.)

use vstd::prelude::*;

use crate::error::Error;
use crate::state::{
    State, abs_index, valid_index, stack_val, is_table, table_id_of, with_stack,
    with_stack_heap, has_nul, MAX_STACK,
};
use crate::table_data::{lookup, store};
use crate::value::{SpecValue, spec_type_code};

verus! {

/// A key for reading or writing a table on the stack.
pub enum Key<'a> {
    /// A byte-string key, reaching the machine through its C-string
    /// interface (so it must hold no embedded NUL byte).
    Field(&'a [u8]),
    /// An integer key.
    Index(i64),
    /// An integer key, accessed raw (without metamethods).
    RawIndex(i64),
    /// The key is the value on top of the stack, accessed raw.
    RawTable,
    /// The key is the value on top of the stack.
    Table,
}

/// The machine value a key denotes (for the stack-top kinds, the top of
/// the given stack).
pub open spec fn spec_key_val(k: Key<'_>, stack: Seq<SpecValue>) -> SpecValue {
    match k {
        Key::Field(b) => SpecValue::Str(b@),
        Key::Index(i) => SpecValue::Integer(i),
        Key::RawIndex(i) => SpecValue::Integer(i),
        Key::RawTable => stack.last(),
        Key::Table => stack.last(),
    }
}

/// Whether a key is taken from the top of the stack (and consumed).
pub open spec fn spec_key_from_stack(k: Key<'_>) -> bool {
    k is RawTable || k is Table
}

/// An access to a table held on the operand stack.
pub struct Table;

impl Table {
    /// Pushes onto the stack the value `t[key]`, where `t` is the table
    /// at the given `index`.  A stack-top key ([`Key::Table`],
    /// [`Key::RawTable`]) is popped first and the result pushed in its
    /// place.  Returns the type code of the pushed value.
    pub fn get(state: &mut State, index: i32, key: Key<'_>) -> (r: Result<i32, Error>)
        requires
            old(state).wf(),
            old(state)@.stack.len() < MAX_STACK,
            spec_key_from_stack(key) ==> old(state)@.stack.len() >= 1,
        ensures
            final(state).wf(),
            (r is Err) == ((key matches Key::Field(b) && has_nul(b@)) || !(valid_index(
                old(state)@.stack.len() as int,
                index as int,
            ) && is_table(stack_val(old(state)@, index as int)))),
            (r matches Err(e) ==> final(state)@ == old(state)@),
            (r matches Ok(tc) ==> {
                let pre = old(state)@;
                let t = table_id_of(stack_val(pre, index as int));
                let res = lookup(pre.heap[t], spec_key_val(key, pre.stack));
                &&& tc as int == spec_type_code(res)
                &&& (spec_key_from_stack(key) ==> final(state)@ == with_stack(
                    pre,
                    pre.stack.drop_last().push(res),
                ))
                &&& (!spec_key_from_stack(key) ==> final(state)@ == with_stack(
                    pre,
                    pre.stack.push(res),
                ))
            }),
    {
        match key {
            Key::Field(b) => state.get_field(index, b),
            Key::Index(i) => state.geti(index, i),
            Key::RawIndex(i) => state.geti(index, i),
            Key::RawTable => state.get_table(index),
            Key::Table => state.get_table(index),
        }
    }

    /// Does the equivalent of `t[key] = v`, where `t` is the table at
    /// the given `index` and `v` the value on top of the stack; pops the
    /// value (and, for a stack-top key, the key below it).
    pub fn set(state: &mut State, index: i32, key: Key<'_>) -> (r: Result<(), Error>)
        requires
            old(state).wf(),
            old(state)@.stack.len() >= 1,
            spec_key_from_stack(key) ==> old(state)@.stack.len() >= 2,
        ensures
            final(state).wf(),
            (r is Err) == ((key matches Key::Field(b) && has_nul(b@)) || !(valid_index(
                old(state)@.stack.len() as int,
                index as int,
            ) && is_table(stack_val(old(state)@, index as int))) || (spec_key_from_stack(key)
                && old(state)@.stack[old(state)@.stack.len() - 2] == SpecValue::Nil)),
            (r matches Err(e) ==> final(state)@ == old(state)@),
            (r is Ok ==> {
                let pre = old(state)@;
                let t = table_id_of(stack_val(pre, index as int));
                let popped = if spec_key_from_stack(key) {
                    pre.stack.take(pre.stack.len() - 2)
                } else {
                    pre.stack.drop_last()
                };
                let kv = if spec_key_from_stack(key) {
                    pre.stack[pre.stack.len() - 2]
                } else {
                    spec_key_val(key, pre.stack)
                };
                &&& final(state)@ == with_stack_heap(
                    pre,
                    popped,
                    pre.heap.update(t, store(pre.heap[t], kv, pre.stack.last())),
                )
            }),
    {
        match key {
            Key::Field(b) => state.set_field(index, b),
            Key::Index(i) => state.seti(index, i),
            Key::RawIndex(i) => state.seti(index, i),
            Key::RawTable => state.set_table(index),
            Key::Table => state.set_table(index),
        }
    }
}

} // verus!
