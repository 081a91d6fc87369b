//! The typed convenience layer over the machine state.
//!
//! A [`Stack`] owns a [`State`] and offers the operand stack as a
//! container: push typed values ([`Push`]), read them back ([`Pull`]),
//! move structured data in and out through the serializer and
//! deserializer.

use vstd::prelude::*;

use crate::data::Data;
use crate::error::{Error, ErrorKind};
use crate::state::{
    State, SpecState, with_stack, abs_index, valid_index, state_wf, MAX_STACK,
};
use crate::value::{SpecValue, Value};

verus! {

/// A machine stack: the [`State`] seen as a container of values.
#[derive(Debug)]
pub struct Stack {
    state: State,
}

impl View for Stack {
    type V = SpecState;

    closed spec fn view(&self) -> SpecState {
        self.state@
    }
}

/// A type that can be pushed onto a machine stack, as one value.
pub trait Push {
    /// The machine value this pushes.
    spec fn as_value(&self) -> SpecValue;

    /// Pushes this value onto the given stack and returns the number of
    /// slots used (always 1).
    fn push(&self, stack: &mut Stack) -> (r: Result<i32, Error>)
        requires
            old(stack).wf(),
        ensures
            final(stack).wf(),
            (r is Err) == (old(stack)@.stack.len() == MAX_STACK),
            (r matches Err(e) ==> e.kind == ErrorKind::StackOverflow && final(stack)@ == old(
                stack,
            )@),
            (r matches Ok(n) ==> n == 1 && final(stack)@ == with_stack(
                old(stack)@,
                old(stack)@.stack.push(self.as_value()),
            )),
    ;
}

/// A type that can be read back from a machine stack.
pub trait Pull: Sized {
    /// Whether this host value faithfully represents the machine value.
    spec fn corresponds(&self, v: SpecValue) -> bool;

    /// Whether a machine value can be read back as this type at all.
    spec fn pullable(v: SpecValue) -> bool;

    /// Reads the value at the given stack `index`: `Ok` exactly when the
    /// index is on the stack and the value there is readable as `Self`.
    fn pull(stack: &Stack, index: i32) -> (r: Result<Self, Error>)
        requires
            stack.wf(),
        ensures
            (r is Ok) == (valid_index(stack@.stack.len() as int, index as int) && Self::pullable(
                stack@.stack[abs_index(stack@.stack.len() as int, index as int)],
            )),
            (r matches Ok(x) ==> x.corresponds(
                stack@.stack[abs_index(stack@.stack.len() as int, index as int)],
            )),
            (r matches Err(e) ==> e.kind == ErrorKind::InvalidData),
    ;
}

impl Push for bool {
    open spec fn as_value(&self) -> SpecValue {
        SpecValue::Boolean(*self)
    }

    fn push(&self, stack: &mut Stack) -> (r: Result<i32, Error>) {
        stack.state.serialize_bool(*self)
    }
}

impl Push for i64 {
    open spec fn as_value(&self) -> SpecValue {
        SpecValue::Integer(*self)
    }

    fn push(&self, stack: &mut Stack) -> (r: Result<i32, Error>) {
        stack.state.serialize_i64(*self)
    }
}

impl Push for i32 {
    open spec fn as_value(&self) -> SpecValue {
        SpecValue::Integer(*self as i64)
    }

    fn push(&self, stack: &mut Stack) -> (r: Result<i32, Error>) {
        stack.state.serialize_i32(*self)
    }
}

impl Push for i16 {
    open spec fn as_value(&self) -> SpecValue {
        SpecValue::Integer(*self as i64)
    }

    fn push(&self, stack: &mut Stack) -> (r: Result<i32, Error>) {
        stack.state.serialize_i16(*self)
    }
}

impl Push for i8 {
    open spec fn as_value(&self) -> SpecValue {
        SpecValue::Integer(*self as i64)
    }

    fn push(&self, stack: &mut Stack) -> (r: Result<i32, Error>) {
        stack.state.serialize_i8(*self)
    }
}

impl Push for u8 {
    open spec fn as_value(&self) -> SpecValue {
        SpecValue::Integer(*self as i64)
    }

    fn push(&self, stack: &mut Stack) -> (r: Result<i32, Error>) {
        stack.state.serialize_u8(*self)
    }
}

impl Push for u16 {
    open spec fn as_value(&self) -> SpecValue {
        SpecValue::Integer(*self as i64)
    }

    fn push(&self, stack: &mut Stack) -> (r: Result<i32, Error>) {
        stack.state.serialize_u16(*self)
    }
}

impl Push for u32 {
    open spec fn as_value(&self) -> SpecValue {
        SpecValue::Integer(*self as i64)
    }

    fn push(&self, stack: &mut Stack) -> (r: Result<i32, Error>) {
        stack.state.serialize_u32(*self)
    }
}

impl Push for Vec<u8> {
    open spec fn as_value(&self) -> SpecValue {
        SpecValue::Str(self@)
    }

    fn push(&self, stack: &mut Stack) -> (r: Result<i32, Error>) {
        stack.state.serialize_bytes(self.as_slice())
    }
}

impl Pull for bool {
    open spec fn corresponds(&self, v: SpecValue) -> bool {
        *self == (v != SpecValue::Nil && v != SpecValue::Boolean(false))
    }

    open spec fn pullable(v: SpecValue) -> bool {
        true
    }

    fn pull(stack: &Stack, index: i32) -> (r: Result<Self, Error>) {
        if stack.state.index_valid(index) {
            Ok(stack.state.to_boolean(index))
        } else {
            Err(Error::new(ErrorKind::InvalidData, "no value at the given index"))
        }
    }
}

impl Pull for i64 {
    open spec fn corresponds(&self, v: SpecValue) -> bool {
        v == SpecValue::Integer(*self)
    }

    open spec fn pullable(v: SpecValue) -> bool {
        v matches SpecValue::Integer(_)
    }

    fn pull(stack: &Stack, index: i32) -> (r: Result<Self, Error>) {
        match stack.state.to_integer(index) {
            Some(n) => Ok(n),
            None => Err(Error::new(ErrorKind::InvalidData, "invalid number")),
        }
    }
}

impl Pull for i32 {
    open spec fn corresponds(&self, v: SpecValue) -> bool {
        v == SpecValue::Integer(*self as i64)
    }

    open spec fn pullable(v: SpecValue) -> bool {
        v matches SpecValue::Integer(m) && i32::MIN <= m <= i32::MAX
    }

    fn pull(stack: &Stack, index: i32) -> (r: Result<Self, Error>) {
        match stack.state.to_integer(index) {
            Some(n) => {
                if n >= (i32::MIN as i64) && n <= (i32::MAX as i64) {
                    Ok(n as i32)
                } else {
                    Err(Error::new(ErrorKind::InvalidData, "invalid number"))
                }
            },
            None => Err(Error::new(ErrorKind::InvalidData, "invalid number")),
        }
    }
}

impl Pull for u16 {
    open spec fn corresponds(&self, v: SpecValue) -> bool {
        v == SpecValue::Integer(*self as i64)
    }

    open spec fn pullable(v: SpecValue) -> bool {
        v matches SpecValue::Integer(m) && 0 <= m <= u16::MAX
    }

    fn pull(stack: &Stack, index: i32) -> (r: Result<Self, Error>) {
        match stack.state.to_integer(index) {
            Some(n) => {
                if n >= 0 && n <= (u16::MAX as i64) {
                    Ok(n as u16)
                } else {
                    Err(Error::new(ErrorKind::InvalidData, "invalid number"))
                }
            },
            None => Err(Error::new(ErrorKind::InvalidData, "invalid number")),
        }
    }
}

impl Pull for Vec<u8> {
    open spec fn corresponds(&self, v: SpecValue) -> bool {
        v == SpecValue::Str(self@)
    }

    open spec fn pullable(v: SpecValue) -> bool {
        v matches SpecValue::Str(_)
    }

    fn pull(stack: &Stack, index: i32) -> (r: Result<Self, Error>) {
        match stack.state.as_bytes(index) {
            Some(b) => Ok(b),
            None => Err(Error::new(ErrorKind::InvalidData, "not a string")),
        }
    }
}

impl State {
    /// Whether `index` denotes a position on the stack.
    pub fn index_valid(&self, index: i32) -> (r: bool)
        requires
            self.wf(),
        ensures
            r == valid_index(self@.stack.len() as int, index as int),
    {
        self.value_type(index) != crate::value::LUA_TNONE
    }
}

impl Stack {
    /// Well-formedness of the underlying machine state.
    pub open spec fn wf(&self) -> bool {
        state_wf(self@)
    }

    /// Constructs a new, empty stack (a fresh machine).
    pub fn new() -> (r: Stack)
        ensures
            r.wf(),
            r@.stack =~= Seq::<SpecValue>::empty(),
    {
        Stack { state: State::new() }
    }

    /// Constructs a new, empty stack with the given memory limit.
    pub fn with_limit(limit: u64) -> (r: Stack)
        ensures
            r.wf(),
            r@.stack =~= Seq::<SpecValue>::empty(),
            r@.mem.limit == limit,
    {
        Stack { state: State::with_limit(limit) }
    }

    /// A reference to the underlying machine state.
    pub fn as_state(&self) -> (r: &State)
        ensures
            r@ == self@,
    {
        &self.state
    }

    /// A mutable reference to the underlying machine state.
    pub fn as_mut_state(&mut self) -> (r: &mut State)
        ensures
            r@ == old(self)@,
            final(self)@ == final(r)@,
    {
        &mut self.state
    }

    /// Consumes the stack into the underlying machine state.
    pub fn into_state(self) -> (r: State)
        ensures
            r@ == self@,
    {
        self.state
    }

    /// The index of the top element: the number of elements held.
    pub fn top(&self) -> (r: i32)
        requires
            self.wf(),
        ensures
            r as int == self@.stack.len(),
    {
        self.state.top()
    }

    /// The number of elements held, as a size.
    pub fn len(&self) -> (r: usize)
        requires
            self.wf(),
        ensures
            r == self@.stack.len(),
    {
        self.state.top() as usize
    }

    /// Whether the stack holds no elements.
    pub fn is_empty(&self) -> (r: bool)
        requires
            self.wf(),
        ensures
            r == (self@.stack.len() == 0),
    {
        self.state.top() == 0
    }

    /// Ensures there is room to push `n` more values.
    pub fn reserve(&self, n: i32) -> (r: bool)
        requires
            self.wf(),
        ensures
            r == (0 <= n && self@.stack.len() + n <= MAX_STACK),
    {
        self.state.reserve(n)
    }

    /// Resizes the stack to `new_len` elements: shorter is truncated,
    /// longer is extended with new slots filled with nil.
    pub fn resize(&mut self, new_len: usize)
        requires
            old(self).wf(),
            new_len <= MAX_STACK,
        ensures
            final(self).wf(),
            final(self)@.stack.len() == new_len,
            final(self)@.heap == old(self)@.heap,
            final(self)@.globals == old(self)@.globals,
            final(self)@.registry == old(self)@.registry,
            final(self)@.mem == old(self)@.mem,
            new_len <= old(self)@.stack.len() ==> final(self)@.stack == old(self)@.stack.take(
                new_len as int,
            ),
            new_len > old(self)@.stack.len() ==> final(self)@.stack.subrange(
                0,
                old(self)@.stack.len() as int,
            ) == old(self)@.stack && (forall|i: int|
                old(self)@.stack.len() <= i < new_len ==> final(self)@.stack[i]
                    == SpecValue::Nil),
    {
        self.state.set_top(new_len as i32)
    }

    /// Shortens the stack to at most `len` elements; longer stays as is.
    pub fn truncate(&mut self, len: usize)
        requires
            old(self).wf(),
        ensures
            final(self).wf(),
            len < old(self)@.stack.len() ==> final(self)@ == with_stack(
                old(self)@,
                old(self)@.stack.take(len as int),
            ),
            len >= old(self)@.stack.len() ==> final(self)@ == old(self)@,
    {
        let top = self.state.top();
        if len < (top as usize) {
            self.state.set_top(len as i32);
        }
    }

    /// Pops `n` elements.
    pub fn pop_unchecked(&mut self, n: i32)
        requires
            old(self).wf(),
            0 <= n <= old(self)@.stack.len(),
        ensures
            final(self).wf(),
            final(self)@ == with_stack(
                old(self)@,
                old(self)@.stack.take(old(self)@.stack.len() - n),
            ),
    {
        self.state.pop(n)
    }

    /// The type code of the value at the given `index`, or
    /// [`LUA_TNONE`](crate::value::LUA_TNONE) for a non-valid but
    /// acceptable index.
    pub fn value_type(&self, index: i32) -> (r: i32)
        requires
            self.wf(),
        ensures
            valid_index(self@.stack.len() as int, index as int) ==> r as int
                == crate::value::spec_type_code(
                self@.stack[abs_index(self@.stack.len() as int, index as int)],
            ),
            !valid_index(self@.stack.len() as int, index as int) ==> r
                == crate::value::LUA_TNONE,
    {
        self.state.value_type(index)
    }

    /// Pushes a typed value.
    pub fn push<T: Push>(&mut self, value: &T) -> (r: Result<i32, Error>)
        requires
            old(self).wf(),
        ensures
            final(self).wf(),
            (r matches Ok(n) ==> n == 1 && final(self)@ == with_stack(
                old(self)@,
                old(self)@.stack.push(value.as_value()),
            )),
            (r is Err) == (old(self)@.stack.len() == MAX_STACK),
            (r matches Err(e) ==> e.kind == ErrorKind::StackOverflow && final(self)@ == old(
                self,
            )@),
    {
        value.push(self)
    }

    /// Pushes every element of a slice, in order.
    pub fn push_slice<T: Push>(&mut self, data: &[T]) -> (r: Result<i32, Error>)
        requires
            old(self).wf(),
        ensures
            final(self).wf(),
            final(self)@.heap == old(self)@.heap,
            final(self)@.globals == old(self)@.globals,
            final(self)@.registry == old(self)@.registry,
            final(self)@.mem == old(self)@.mem,
            (old(self)@.stack.len() + data@.len() <= MAX_STACK ==> r is Ok),
            (r matches Ok(n) ==> n == data@.len() && final(self)@.stack.len() == old(
                self,
            )@.stack.len() + data@.len() && final(self)@.stack.subrange(
                0,
                old(self)@.stack.len() as int,
            ) == old(self)@.stack && (forall|i: int|
                0 <= i < data@.len() ==> final(self)@.stack[old(self)@.stack.len() + i] == (
                #[trigger] data@[i]).as_value())),
            (r matches Err(e) ==> e.kind == ErrorKind::StackOverflow),
    {
        let ghost pre = self@;
        let mut i: usize = 0;
        while i < data.len()
            invariant
                pre == old(self)@,
                self.wf(),
                i <= data@.len(),
                self@.stack.len() == pre.stack.len() + i,
                self@.stack.subrange(0, pre.stack.len() as int) == pre.stack,
                forall|q: int|
                    0 <= q < i ==> self@.stack[pre.stack.len() + q] == (
                    #[trigger] data@[q]).as_value(),
                self@.heap == pre.heap,
                self@.globals == pre.globals,
                self@.registry == pre.registry,
                self@.mem == pre.mem,
            decreases data@.len() - i,
        {
            match data[i].push(self) {
                Ok(_) => {},
                Err(e) => {
                    proof {
                        if pre.stack.len() + data@.len() <= MAX_STACK {
                            assert(false);
                        }
                    }
                    return Err(e);
                },
            }
            proof {
                assert(self@.stack.subrange(0, pre.stack.len() as int) =~= pre.stack);
            }
            i = i + 1;
        }
        if i > (i32::MAX as usize) {
            proof {
                assert(self@.stack.len() <= MAX_STACK);
                assert(false);
            }
            return Err(Error::new(ErrorKind::StackOverflow, "too many values"));
        }
        Ok(i as i32)
    }

    /// Reads the value at the given `index` as a typed value: `Ok`
    /// exactly when the index is on the stack and the value there is
    /// readable as `T`.
    pub fn pull<T: Pull>(&self, index: i32) -> (r: Result<T, Error>)
        requires
            self.wf(),
        ensures
            (r is Ok) == (valid_index(self@.stack.len() as int, index as int) && T::pullable(
                self@.stack[abs_index(self@.stack.len() as int, index as int)],
            )),
            (r matches Ok(x) ==> x.corresponds(
                self@.stack[abs_index(self@.stack.len() as int, index as int)],
            )),
            (r matches Err(e) ==> e.kind == ErrorKind::InvalidData),
    {
        T::pull(self, index)
    }

    /// Reads the element on the top of the stack as a typed value:
    /// `Ok` exactly when the stack is non-empty and the top is readable
    /// as `T`.
    pub fn get<T: Pull>(&self) -> (r: Result<T, Error>)
        requires
            self.wf(),
        ensures
            (r is Ok) == (self@.stack.len() >= 1 && T::pullable(self@.stack.last())),
            (r matches Ok(x) ==> x.corresponds(self@.stack.last())),
            (r matches Err(e) ==> e.kind == ErrorKind::InvalidData),
    {
        self.pull(-1)
    }

    /// Serializes structured data into one value on top of the stack
    /// (see [`State::push_data`]).
    pub fn push_data(&mut self, d: &Data) -> (r: Result<i32, Error>)
        requires
            old(self).wf(),
        ensures
            final(self).wf(),
            crate::ser::heap_extends(final(self)@.heap, old(self)@.heap),
            crate::ser::reg_restored(old(self)@.registry, final(self)@.registry),
            final(self)@.globals == old(self)@.globals,
            final(self)@.mem == old(self)@.mem,
            (crate::data::rt_ok(d@) && crate::data::fits(d@) && old(self)@.stack.len()
                + crate::data::ser_need(d@) <= MAX_STACK && crate::state::occupied(
                old(self)@.registry,
            ) + 2 * crate::data::height(d@) <= crate::state::REGISTRY_MAX ==> r is Ok),
            (r matches Ok(n) ==> n == 1 && {
                let v = final(self)@.stack.last();
                &&& final(self)@.stack == old(self)@.stack.push(v)
                &&& (crate::data::rt_ok(d@) ==> crate::codec::decode_val(
                    final(self)@.heap,
                    v,
                    crate::data::height(d@),
                ) == Some(d@))
            }),
            (r matches Err(e) ==> final(self)@.stack == old(self)@.stack && (e.kind
                == ErrorKind::StackOverflow || e.kind == ErrorKind::Custom)),
    {
        self.state.push_data(d)
    }

    /// Deserializes the value on top of the stack back into structured
    /// data (see [`State::pull_data`]).
    pub fn pull_data(&mut self, depth: u64) -> (r: Result<Data, Error>)
        requires
            old(self).wf(),
            old(self)@.stack.len() >= 1,
        ensures
            final(self).wf(),
            final(self)@.stack == old(self)@.stack,
            final(self)@.heap == old(self)@.heap,
            final(self)@.globals == old(self)@.globals,
            (r matches Ok(d) ==> crate::codec::decode_val(
                old(self)@.heap,
                old(self)@.stack.last(),
                depth as nat,
            ) == Some(d@)),
            (crate::codec::decode_val(old(self)@.heap, old(self)@.stack.last(), depth as nat)
                is Some && crate::de::pull_resources(old(self)@, depth as nat) ==> r is Ok),
    {
        self.state.pull_data(depth)
    }
}

impl vstd::std_specs::convert::FromSpecImpl<State> for Stack {
    open spec fn obeys_from_spec() -> bool {
        true
    }

    closed spec fn from_spec(v: State) -> Stack {
        Stack { state: v }
    }
}

impl From<State> for Stack {
    /// Converts a machine state into a stack, without copying.
    fn from(state: State) -> (r: Stack)
        ensures
            r@ == state@,
    {
        Stack { state }
    }
}

impl vstd::std_specs::convert::FromSpecImpl<Stack> for State {
    open spec fn obeys_from_spec() -> bool {
        true
    }

    closed spec fn from_spec(v: Stack) -> State {
        v.state
    }
}

impl From<Stack> for State {
    /// Converts a stack back into its machine state, without copying.
    fn from(stack: Stack) -> (r: State)
        ensures
            r@ == stack@,
    {
        stack.state
    }
}

/// A list specifying machine chunk modes: whether a loaded chunk may be
/// source text, a precompiled binary, or either.  Loading itself is the
/// embedding's business; the mode names the contract it passes along.
#[derive(Debug, Clone, Copy, PartialEq, Eq, Structural)]
pub enum Mode {
    /// Text-only chunk.
    Text,
    /// Binary-only chunk.
    Binary,
    /// Either: the chunk may be binary or text.
    Undefined,
}

impl Mode {
    /// The mode string the machine's loader expects.
    pub fn as_str(&self) -> (r: &'static str)
        ensures
            self is Text ==> r@ =~= "t"@,
            self is Binary ==> r@ =~= "b"@,
            self is Undefined ==> r@ =~= "bt"@,
    {
        match self {
            Mode::Text => "t",
            Mode::Binary => "b",
            Mode::Undefined => "bt",
        }
    }
}

impl Default for Mode {
    /// The default mode accepts both text and binary chunks.
    fn default() -> (r: Mode)
        ensures
            r is Undefined,
    {
        Mode::Undefined
    }
}

impl Stack {
    /// Pops and returns the element on the top of the stack as a typed
    /// value: `Ok` exactly when the top is readable as `T`.  The element
    /// is popped either way.
    pub fn pop<T: Pull>(&mut self) -> (r: Result<T, Error>)
        requires
            old(self).wf(),
            old(self)@.stack.len() >= 1,
        ensures
            final(self).wf(),
            final(self)@ == with_stack(old(self)@, old(self)@.stack.drop_last()),
            (r is Ok) == T::pullable(old(self)@.stack.last()),
            (r matches Ok(x) ==> x.corresponds(old(self)@.stack.last())),
            (r matches Err(e) ==> e.kind == ErrorKind::InvalidData),
    {
        let r = self.get();
        self.state.pop(1);
        proof {
            assert(old(self)@.stack.take(old(self)@.stack.len() - 1) =~= old(
                self,
            )@.stack.drop_last());
        }
        r
    }
}

} // verus!
