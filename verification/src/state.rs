//! The machine state: operand stack, table heap, registry and globals.
//!
//! This is the gateway to the machine's raw operation set.  Every
//! operation's effect on the state is stated exactly, over the
//! mathematical model [`SpecState`].

use vstd::prelude::*;

use crate::memory::MemoryInfo;
use crate::error::{Error, ErrorKind};
use crate::table_data::{
    SpecTable, TableData, lookup, store, tlen, spec_next_index, pairs_wf, unique_keys,
    entries_ok,
};
use crate::value::{
    SpecValue, Value, val_wf, spec_type_code, LUA_TNONE, LUA_TNIL,
};

verus! {

/// The capacity of the operand stack: an operation that would push beyond
/// it must be refused (checked beforehand with [`State::reserve`]).
pub const MAX_STACK: usize = 1_000_000;

/// The capacity of the registry: distinct live registry slots beyond this
/// count are refused as an allocation failure.
pub const REGISTRY_MAX: usize = 1_000_000;

/// The slot code guaranteed to be different from any slot handed out by
/// the registry; reading through it gives nil.
pub const LUA_NOREF: i32 = -2;

/// The slot code returned when a nil value is registered: nil needs no
/// slot, and reading through this code gives nil back.
pub const LUA_REFNIL: i32 = -1;

/// The mathematical model of a whole machine state.
pub struct SpecState {
    /// The operand stack, bottom first.
    pub stack: Seq<SpecValue>,
    /// The table heap: storage of every table ever created, by identity.
    pub heap: Seq<SpecTable>,
    /// The registry: integer-keyed slots anchoring values beyond the
    /// operand stack's transient lifetime.
    pub registry: Seq<Option<SpecValue>>,
    /// The global variables table (string keys).
    pub globals: SpecTable,
    /// Bytes accounted as allocated, and the cap (`0` for none).
    pub mem: MemoryInfo,
}

/// Well-formedness of a machine state: the stack and registry respect
/// their capacities, and no value anywhere mentions a table outside the
/// heap.
pub open spec fn state_wf(s: SpecState) -> bool {
    &&& s.stack.len() <= MAX_STACK
    &&& s.registry.len() <= REGISTRY_MAX
    &&& forall|i: int| 0 <= i < s.stack.len() ==> val_wf(#[trigger] s.stack[i], s.heap.len() as int)
    &&& forall|t: int|
        0 <= t < s.heap.len() ==> pairs_wf(#[trigger] s.heap[t], s.heap.len() as int)
    &&& forall|t: int| 0 <= t < s.heap.len() ==> unique_keys(#[trigger] s.heap[t])
    &&& forall|t: int| 0 <= t < s.heap.len() ==> entries_ok(#[trigger] s.heap[t])
    &&& forall|i: int|
        0 <= i < s.registry.len() ==> (#[trigger] s.registry[i] matches Some(v) ==> val_wf(
            v,
            s.heap.len() as int,
        ))
    &&& pairs_wf(s.globals, s.heap.len() as int)
    &&& unique_keys(s.globals)
}

/// The position in the model stack that a (1-based or top-relative)
/// operand stack index denotes.
pub open spec fn abs_index(len: int, idx: int) -> int {
    if idx > 0 {
        idx - 1
    } else {
        len + idx
    }
}

/// Whether an operand stack index denotes a position on the stack.
pub open spec fn valid_index(len: int, idx: int) -> bool {
    0 <= abs_index(len, idx) < len
}

/// The same machine state with another operand stack.
pub open spec fn with_stack(s: SpecState, stack: Seq<SpecValue>) -> SpecState {
    SpecState { stack, ..s }
}

/// The same machine state with another operand stack and table heap.
pub open spec fn with_stack_heap(s: SpecState, stack: Seq<SpecValue>, heap: Seq<SpecTable>) -> SpecState {
    SpecState { stack, heap, ..s }
}

/// The same machine state with another operand stack and registry.
pub open spec fn with_stack_registry(
    s: SpecState,
    stack: Seq<SpecValue>,
    registry: Seq<Option<SpecValue>>,
) -> SpecState {
    SpecState { stack, registry, ..s }
}

/// The same machine state with another operand stack and globals table.
pub open spec fn with_stack_globals(
    s: SpecState,
    stack: Seq<SpecValue>,
    globals: SpecTable,
) -> SpecState {
    SpecState { stack, globals, ..s }
}

/// The value that a stack index denotes in a state.
pub open spec fn stack_val(s: SpecState, idx: int) -> SpecValue {
    s.stack[abs_index(s.stack.len() as int, idx)]
}

/// Whether a value is a table.
pub open spec fn is_table(v: SpecValue) -> bool {
    v matches SpecValue::Table(_)
}

/// The heap index of a table value (meaningless for other kinds).
pub open spec fn table_id_of(v: SpecValue) -> int {
    match v {
        SpecValue::Table(t) => t,
        _ => -1,
    }
}

/// The first free registry slot position at or after `from`, or
/// `reg.len()` if every slot is occupied.
pub open spec fn first_free(reg: Seq<Option<SpecValue>>, from: int) -> int
    decreases reg.len() - from,
{
    if from < 0 || from >= reg.len() {
        reg.len() as int
    } else if reg[from] is None {
        from
    } else {
        first_free(reg, from + 1)
    }
}

/// Whether a byte string holds an embedded NUL byte (such a string cannot
/// name a global or a field).
pub open spec fn has_nul(b: Seq<u8>) -> bool {
    exists|j: int| 0 <= j < b.len() && b[j] == 0u8
}

/// A machine state.
///
/// Owns one machine execution context: an operand stack, the tables the
/// machine has created, the registry and the global variables.  It is the
/// only gateway to the raw stack primitives.  The state is single-threaded
/// by design: it can move between threads but must never be used from two
/// at once, which Rust's ownership rules already enforce for this type.
#[derive(Debug)]
pub struct State {
    stack: Vec<Value>,
    heap: Vec<TableData>,
    registry: Vec<Option<Value>>,
    globals: TableData,
    mem: MemoryInfo,
}

impl View for State {
    type V = SpecState;

    closed spec fn view(&self) -> SpecState {
        SpecState {
            stack: Seq::new(self.stack.len() as nat, |i: int| self.stack[i]@),
            heap: Seq::new(self.heap.len() as nat, |i: int| self.heap[i]@),
            registry: Seq::new(
                self.registry.len() as nat,
                |i: int|
                    match self.registry[i] {
                        Some(v) => Some(v@),
                        None => None,
                    },
            ),
            globals: self.globals@,
            mem: self.mem,
        }
    }
}

impl State {
    /// Well-formedness of this state (see [`state_wf`]).
    pub open spec fn wf(&self) -> bool {
        state_wf(self@)
    }

    /// Creates a new machine state without a memory limit.
    pub fn new() -> (r: State)
        ensures
            r.wf(),
            r@.stack =~= Seq::<SpecValue>::empty(),
            r@.heap =~= Seq::<SpecTable>::empty(),
            r@.registry =~= Seq::<Option<SpecValue>>::empty(),
            r@.globals =~= Seq::<(SpecValue, SpecValue)>::empty(),
            r@.mem.used == 0,
            r@.mem.limit == 0,
    {
        Self::with_limit(0)
    }

    /// Creates a new machine state with the given memory limit in bytes
    /// (`0` for no limit).
    pub fn with_limit(limit: u64) -> (r: State)
        ensures
            r.wf(),
            r@.stack =~= Seq::<SpecValue>::empty(),
            r@.heap =~= Seq::<SpecTable>::empty(),
            r@.registry =~= Seq::<Option<SpecValue>>::empty(),
            r@.globals =~= Seq::<(SpecValue, SpecValue)>::empty(),
            r@.mem.used == 0,
            r@.mem.limit == limit,
    {
        State {
            stack: Vec::new(),
            heap: Vec::new(),
            registry: Vec::new(),
            globals: TableData::new(),
            mem: MemoryInfo::new(limit),
        }
    }

    /// The memory accounting of this state.
    pub fn memory(&self) -> (r: MemoryInfo)
        ensures
            r == self@.mem,
    {
        self.mem
    }

    /// Returns the index of the top element in the stack.  Because indices
    /// start at 1, this is equal to the number of elements in the stack;
    /// 0 means an empty stack.
    pub fn top(&self) -> (r: i32)
        requires
            self.wf(),
        ensures
            r as int == self@.stack.len(),
    {
        self.stack.len() as i32
    }

    /// Ensures that the stack has space for at least `n` extra elements,
    /// that is, that you can safely push up to `n` values into it.
    /// Returns `false` if it cannot fulfill the request.
    pub fn reserve(&self, n: i32) -> (r: bool)
        requires
            self.wf(),
        ensures
            r == (0 <= n && self@.stack.len() + n <= MAX_STACK),
    {
        0 <= n && self.stack.len() + (n as usize) <= MAX_STACK
    }

    /// Pushes a **nil** value onto the stack.
    pub fn push_nil(&mut self)
        requires
            old(self).wf(),
            old(self)@.stack.len() < MAX_STACK,
        ensures
            final(self).wf(),
            final(self)@ == with_stack(old(self)@, old(self)@.stack.push(SpecValue::Nil)),
    {
        self.push_raw(Value::Nil);
    }

    /// Pushes a boolean value onto the stack.
    pub fn push_boolean(&mut self, b: bool)
        requires
            old(self).wf(),
            old(self)@.stack.len() < MAX_STACK,
        ensures
            final(self).wf(),
            final(self)@ == with_stack(old(self)@, old(self)@.stack.push(SpecValue::Boolean(b))),
    {
        self.push_raw(Value::Boolean(b));
    }

    /// Pushes an integer onto the stack.
    pub fn push_integer(&mut self, n: i64)
        requires
            old(self).wf(),
            old(self)@.stack.len() < MAX_STACK,
        ensures
            final(self).wf(),
            final(self)@ == with_stack(old(self)@, old(self)@.stack.push(SpecValue::Integer(n))),
    {
        self.push_raw(Value::Integer(n));
    }

    /// Pushes a float onto the stack, given by its raw bit pattern.
    pub fn push_number_bits(&mut self, bits: u64)
        requires
            old(self).wf(),
            old(self)@.stack.len() < MAX_STACK,
        ensures
            final(self).wf(),
            final(self)@ == with_stack(old(self)@, old(self)@.stack.push(SpecValue::Float(bits))),
    {
        self.push_raw(Value::Float(bits));
    }

    /// Pushes the byte string `s` onto the stack.  The machine keeps its
    /// own copy, and the string can contain any binary data, embedded
    /// zeros included.
    pub fn push_string(&mut self, s: &[u8])
        requires
            old(self).wf(),
            old(self)@.stack.len() < MAX_STACK,
        ensures
            final(self).wf(),
            final(self)@ == with_stack(old(self)@, old(self)@.stack.push(SpecValue::Str(s@))),
    {
        let mut copy: Vec<u8> = Vec::new();
        let mut i: usize = 0;
        while i < s.len()
            invariant
                i <= s.len(),
                copy@ == s@.subrange(0, i as int),
            decreases s.len() - i,
        {
            copy.push(s[i]);
            i = i + 1;
            proof {
                assert(copy@ =~= s@.subrange(0, i as int));
            }
        }
        proof {
            assert(copy@ =~= s@);
        }
        self.push_raw(Value::Str(copy));
    }

    /// Pushes an already-built value onto the stack.
    fn push_raw(&mut self, v: Value)
        requires
            old(self).wf(),
            old(self)@.stack.len() < MAX_STACK,
            val_wf(v@, old(self)@.heap.len() as int),
        ensures
            final(self).wf(),
            final(self)@ == with_stack(old(self)@, old(self)@.stack.push(v@)),
    {
        let ghost pre = self@;
        self.stack.push(v);
        proof {
            assert(self@.stack =~= pre.stack.push(v@));
            assert(self@.heap =~= pre.heap);
            assert(self@.registry =~= pre.registry);
            assert(self@ == with_stack(pre, pre.stack.push(v@)));
        }
    }

    /// Pops `n` elements from the stack.
    pub fn pop(&mut self, n: i32)
        requires
            old(self).wf(),
            0 <= n <= old(self)@.stack.len(),
        ensures
            final(self).wf(),
            final(self)@ == with_stack(old(self)@, old(self)@.stack.take(old(self)@.stack.len() - n)),
    {
        let ghost pre = self@;
        let target = self.stack.len() - (n as usize);
        let mut j: usize = self.stack.len();
        while j > target
            invariant
                target <= j <= pre.stack.len(),
                self@.stack =~= pre.stack.take(j as int),
                self@.heap == pre.heap,
                self@.registry == pre.registry,
                self@.globals == pre.globals,
                self@.mem == pre.mem,
            decreases j,
        {
            let ghost mid = self@;
            proof {
                assert(mid.stack.len() == j);
            }
            self.stack.pop();
            j = j - 1;
            proof {
                assert(self@.stack =~= mid.stack.drop_last());
                assert(self@.stack =~= pre.stack.take(j as int));
                assert(self@.heap =~= mid.heap);
                assert(self@.registry =~= mid.registry);
            }
        }
        proof {
            assert(self@ == with_stack(pre, pre.stack.take(target as int)));
        }
    }

    /// Accepts any index, or 0, and sets the stack top to it.  If the new
    /// top is greater than the old one, the new slots are filled with
    /// **nil**; if `index` is 0, all stack elements are removed.
    pub fn set_top(&mut self, index: i32)
        requires
            old(self).wf(),
            0 <= index,
            index <= MAX_STACK,
        ensures
            final(self).wf(),
            index <= old(self)@.stack.len() ==> final(self)@ == with_stack(old(self)@, old(self)@.stack.take(index as int)),
            index > old(self)@.stack.len() ==> final(self)@.stack.len() == index
                && final(self)@.stack.subrange(0, old(self)@.stack.len() as int) == old(
                self,
            )@.stack && (forall|i: int|
                old(self)@.stack.len() <= i < index ==> final(self)@.stack[i] == SpecValue::Nil)
                && final(self)@ == with_stack(old(self)@, final(self)@.stack),
    {
        let ghost pre = self@;
        let target = index as usize;
        if target <= self.stack.len() {
            let n = (self.stack.len() - target) as i32;
            self.pop(n);
        } else {
            while self.stack.len() < target
                invariant
                    pre.stack.len() <= self@.stack.len() <= target,
                    target <= MAX_STACK,
                    self@.stack.subrange(0, pre.stack.len() as int) == pre.stack,
                    forall|i: int|
                        pre.stack.len() <= i < self@.stack.len() ==> self@.stack[i]
                            == SpecValue::Nil,
                    self@.heap == pre.heap,
                    self@.registry == pre.registry,
                    self@.globals == pre.globals,
                    self@.mem == pre.mem,
                    state_wf(pre),
                decreases target - self@.stack.len(),
            {
                let ghost mid = self@;
                self.stack.push(Value::Nil);
                proof {
                    assert(self@.stack =~= mid.stack.push(SpecValue::Nil));
                    assert(self@.stack.subrange(0, pre.stack.len() as int) =~= mid.stack.subrange(
                        0,
                        pre.stack.len() as int,
                    ));
                    assert(self@.heap =~= mid.heap);
                    assert(self@.registry =~= mid.registry);
                }
            }
            proof {
                assert(self@ == with_stack(pre, self@.stack));
                assert forall|i: int| 0 <= i < self@.stack.len() implies val_wf(
                    #[trigger] self@.stack[i],
                    self@.heap.len() as int,
                ) by {
                    if i < pre.stack.len() {
                        assert(self@.stack[i] == pre.stack.subrange(0, pre.stack.len() as int)[i]);
                        assert(self@.stack[i] == pre.stack[i]);
                    }
                }
            }
        }
    }

    /// Pushes a copy of the element at the given `index` onto the stack.
    pub fn push_value(&mut self, index: i32)
        requires
            old(self).wf(),
            old(self)@.stack.len() < MAX_STACK,
            valid_index(old(self)@.stack.len() as int, index as int),
        ensures
            final(self).wf(),
            final(self)@ == with_stack(old(self)@, old(self)@.stack.push(
                old(self)@.stack[abs_index(old(self)@.stack.len() as int, index as int)],
            )),
    {
        let pos = self.resolve(index);
        let v = self.stack[pos].duplicate();
        proof {
            assert(v@ == self@.stack[pos as int]);
        }
        self.push_raw(v);
    }

    /// Removes the element at the given `index`, shifting down the
    /// elements above it to fill the gap.
    pub fn remove(&mut self, index: i32)
        requires
            old(self).wf(),
            valid_index(old(self)@.stack.len() as int, index as int),
        ensures
            final(self).wf(),
            final(self)@ == with_stack(old(self)@, old(self)@.stack.remove(
                abs_index(old(self)@.stack.len() as int, index as int),
            )),
    {
        let ghost pre = self@;
        let pos = self.resolve(index);
        self.stack.remove(pos);
        proof {
            assert(self@.stack =~= pre.stack.remove(pos as int));
            assert(self@.heap =~= pre.heap);
            assert(self@.registry =~= pre.registry);
            assert(self@ == with_stack(pre, pre.stack.remove(pos as int)));
        }
    }

    /// Moves the top element into the given `index` without shifting any
    /// element (replacing the value there), and then pops the top.
    pub fn replace(&mut self, index: i32)
        requires
            old(self).wf(),
            old(self)@.stack.len() >= 1,
            valid_index(old(self)@.stack.len() as int, index as int),
        ensures
            final(self).wf(),
            final(self)@ == with_stack(old(self)@, old(self)@.stack.update(
                abs_index(old(self)@.stack.len() as int, index as int),
                old(self)@.stack.last(),
            ).drop_last()),
    {
        let ghost pre = self@;
        let pos = self.resolve(index);
        let top = self.stack.len() - 1;
        let v = self.stack[top].duplicate();
        self.stack.set(pos, v);
        self.stack.pop();
        proof {
            assert(self@.stack =~= pre.stack.update(pos as int, pre.stack.last()).drop_last());
            assert(self@.heap =~= pre.heap);
            assert(self@.registry =~= pre.registry);
            assert(self@ == with_stack(pre, pre.stack.update(pos as int, pre.stack.last()).drop_last()));
        }
    }

    /// Copies the element at index `fromidx` into index `toidx`,
    /// replacing the value at that position.
    pub fn copy(&mut self, fromidx: i32, toidx: i32)
        requires
            old(self).wf(),
            valid_index(old(self)@.stack.len() as int, fromidx as int),
            valid_index(old(self)@.stack.len() as int, toidx as int),
        ensures
            final(self).wf(),
            final(self)@ == with_stack(old(self)@, old(self)@.stack.update(
                abs_index(old(self)@.stack.len() as int, toidx as int),
                old(self)@.stack[abs_index(old(self)@.stack.len() as int, fromidx as int)],
            )),
    {
        let ghost pre = self@;
        let from = self.resolve(fromidx);
        let to = self.resolve(toidx);
        let v = self.stack[from].duplicate();
        self.stack.set(to, v);
        proof {
            assert(self@.stack =~= pre.stack.update(
                to as int,
                pre.stack[from as int],
            ));
            assert(self@.heap =~= pre.heap);
            assert(self@.registry =~= pre.registry);
            assert(self@ == with_stack(pre, pre.stack.update(to as int, pre.stack[from as int])));
        }
    }

    /// Resolves a 1-based or top-relative index into a model position.
    fn resolve(&self, index: i32) -> (r: usize)
        requires
            self.wf(),
            valid_index(self@.stack.len() as int, index as int),
        ensures
            r as int == abs_index(self@.stack.len() as int, index as int),
            r < self@.stack.len(),
    {
        if index > 0 {
            (index - 1) as usize
        } else {
            ((self.stack.len() as i32) + index) as usize
        }
    }

    /// The type code of the value at the given `index`, or
    /// [`LUA_TNONE`](crate::value::LUA_TNONE) for a non-valid but
    /// acceptable index.
    pub fn value_type(&self, index: i32) -> (r: i32)
        requires
            self.wf(),
        ensures
            valid_index(self@.stack.len() as int, index as int) ==> r as int == spec_type_code(
                self@.stack[abs_index(self@.stack.len() as int, index as int)],
            ),
            !valid_index(self@.stack.len() as int, index as int) ==> r == LUA_TNONE,
    {
        if self.index_ok(index) {
            let pos = self.resolve(index);
            self.stack[pos].type_code()
        } else {
            LUA_TNONE
        }
    }

    /// Whether `index` denotes a position on the stack.
    fn index_ok(&self, index: i32) -> (r: bool)
        requires
            self.wf(),
        ensures
            r == valid_index(self@.stack.len() as int, index as int),
    {
        if index > 0 {
            (index as usize) <= self.stack.len()
        } else {
            let len = self.stack.len() as i32;
            0 <= len + index && len + index < len
        }
    }

    /// A copy of the value at the given `index` (nil for an invalid
    /// index, as for a query of an unoccupied slot).
    pub fn value_at(&self, index: i32) -> (r: Value)
        requires
            self.wf(),
        ensures
            valid_index(self@.stack.len() as int, index as int) ==> r@ == self@.stack[abs_index(
                self@.stack.len() as int,
                index as int,
            )],
            !valid_index(self@.stack.len() as int, index as int) ==> r@ == SpecValue::Nil,
    {
        if self.index_ok(index) {
            let pos = self.resolve(index);
            self.stack[pos].duplicate()
        } else {
            Value::Nil
        }
    }

    /// Converts the value at the given `index` to a boolean: `false` for
    /// **nil** and `false` (and for an invalid index), `true` for any
    /// other value.
    pub fn to_boolean(&self, index: i32) -> (r: bool)
        requires
            self.wf(),
        ensures
            valid_index(self@.stack.len() as int, index as int) ==> r == (self@.stack[abs_index(
                self@.stack.len() as int,
                index as int,
            )] != SpecValue::Nil && self@.stack[abs_index(self@.stack.len() as int, index as int)]
                != SpecValue::Boolean(false)),
            !valid_index(self@.stack.len() as int, index as int) ==> r == false,
    {
        if self.index_ok(index) {
            let pos = self.resolve(index);
            match &self.stack[pos] {
                Value::Nil => false,
                Value::Boolean(b) => *b,
                _ => true,
            }
        } else {
            false
        }
    }

    /// Converts the value at the given `index` to a signed integer, if it
    /// is a number with the integer subtype.
    pub fn to_integer(&self, index: i32) -> (r: Option<i64>)
        requires
            self.wf(),
        ensures
            r matches Some(n) ==> valid_index(self@.stack.len() as int, index as int)
                && self@.stack[abs_index(self@.stack.len() as int, index as int)]
                == SpecValue::Integer(n),
            r is None ==> !(valid_index(self@.stack.len() as int, index as int)
                && self@.stack[abs_index(self@.stack.len() as int, index as int)] matches
                SpecValue::Integer(_)),
    {
        if self.index_ok(index) {
            let pos = self.resolve(index);
            match &self.stack[pos] {
                Value::Integer(n) => Some(*n),
                _ => None,
            }
        } else {
            None
        }
    }

    /// Converts the value at the given `index` to a float (as its raw bit
    /// pattern), if it is a number with the float subtype.
    pub fn to_number_bits(&self, index: i32) -> (r: Option<u64>)
        requires
            self.wf(),
        ensures
            r matches Some(bits) ==> valid_index(self@.stack.len() as int, index as int)
                && self@.stack[abs_index(self@.stack.len() as int, index as int)]
                == SpecValue::Float(bits),
            r is None ==> !(valid_index(self@.stack.len() as int, index as int)
                && self@.stack[abs_index(self@.stack.len() as int, index as int)] matches
                SpecValue::Float(_)),
    {
        if self.index_ok(index) {
            let pos = self.resolve(index);
            match &self.stack[pos] {
                Value::Float(bits) => Some(*bits),
                _ => None,
            }
        } else {
            None
        }
    }

    /// A copy of the bytes of the string at the given `index`, if the
    /// value there is a string.
    pub fn as_bytes(&self, index: i32) -> (r: Option<Vec<u8>>)
        requires
            self.wf(),
        ensures
            r matches Some(b) ==> valid_index(self@.stack.len() as int, index as int)
                && self@.stack[abs_index(self@.stack.len() as int, index as int)] == SpecValue::Str(
                b@,
            ),
            r is None ==> !(valid_index(self@.stack.len() as int, index as int)
                && self@.stack[abs_index(self@.stack.len() as int, index as int)] matches
                SpecValue::Str(_)),
    {
        if self.index_ok(index) {
            let pos = self.resolve(index);
            match &self.stack[pos] {
                Value::Str(s) => Some(crate::value::copy_bytes(s)),
                _ => None,
            }
        } else {
            None
        }
    }
}

impl State {
    /// Pops and returns the top value.
    fn pop_value(&mut self) -> (r: Value)
        requires
            old(self).wf(),
            old(self)@.stack.len() >= 1,
        ensures
            final(self).wf(),
            r@ == old(self)@.stack.last(),
            final(self)@ == with_stack(old(self)@, old(self)@.stack.drop_last()),
            val_wf(r@, final(self)@.heap.len() as int),
    {
        let ghost pre = self@;
        proof {
            assert(pre.stack.len() == self.stack.len());
            assert(val_wf(pre.stack[pre.stack.len() - 1], pre.heap.len() as int));
        }
        let r = match self.stack.pop() {
            Some(v) => v,
            None => {
                proof {
                    assert(false);
                }
                Value::Nil
            },
        };
        proof {
            assert(self@.stack =~= pre.stack.drop_last());
            assert(self@.heap =~= pre.heap);
            assert(self@.registry =~= pre.registry);
            assert(self@ == with_stack(pre, pre.stack.drop_last()));
        }
        r
    }

    /// Whether the byte string holds an embedded NUL byte (such a name
    /// cannot reach the machine's C-string interfaces).
    pub fn has_embedded_nul(name: &[u8]) -> (r: bool)
        ensures
            r == has_nul(name@),
    {
        let mut i: usize = 0;
        while i < name.len()
            invariant
                i <= name.len(),
                forall|j: int| 0 <= j < i ==> name@[j] != 0u8,
            decreases name.len() - i,
        {
            if name[i] == 0u8 {
                proof {
                    assert((i as int) < name@.len() && name@[i as int] == 0u8);
                }
                return true;
            }
            i = i + 1;
        }
        false
    }

    /// Moves the top element into the given `index`, shifting up the
    /// elements above it to open space.
    pub fn insert(&mut self, index: i32)
        requires
            old(self).wf(),
            old(self)@.stack.len() >= 1,
            valid_index(old(self)@.stack.len() as int, index as int),
        ensures
            final(self).wf(),
            final(self)@ == with_stack(
                old(self)@,
                old(self)@.stack.drop_last().insert(
                    abs_index(old(self)@.stack.len() as int, index as int),
                    old(self)@.stack.last(),
                ),
            ),
    {
        let ghost pre = self@;
        let pos = self.resolve(index);
        let v = self.pop_value();
        self.stack.insert(pos, v);
        proof {
            assert(self@.stack =~= pre.stack.drop_last().insert(pos as int, pre.stack.last()));
            assert(self@.heap =~= pre.heap);
            assert(self@.registry =~= pre.registry);
            assert(self@ == with_stack(
                pre,
                pre.stack.drop_last().insert(pos as int, pre.stack.last()),
            ));
            assert forall|i: int| 0 <= i < self@.stack.len() implies val_wf(
                #[trigger] self@.stack[i],
                self@.heap.len() as int,
            ) by {
                let moved = pre.stack.drop_last().insert(pos as int, pre.stack.last());
                if i < pos {
                    assert(moved[i] == pre.stack[i]);
                } else if i == pos {
                    assert(moved[i] == pre.stack.last());
                } else {
                    assert(moved[i] == pre.stack[i - 1]);
                }
            }
        }
    }

    /// Creates a new empty table and pushes it onto the stack.
    pub fn new_table(&mut self)
        requires
            old(self).wf(),
            old(self)@.stack.len() < MAX_STACK,
        ensures
            final(self).wf(),
            final(self)@ == with_stack_heap(
                old(self)@,
                old(self)@.stack.push(SpecValue::Table(old(self)@.heap.len() as int)),
                old(self)@.heap.push(Seq::empty()),
            ),
    {
        self.create_table(0, 0)
    }

    /// Creates a new empty table and pushes it onto the stack.  `narr` and
    /// `nrec` are preallocation hints for the machine's own storage; the
    /// model keeps them without effect.
    pub fn create_table(&mut self, narr: i32, nrec: i32)
        requires
            old(self).wf(),
            old(self)@.stack.len() < MAX_STACK,
        ensures
            final(self).wf(),
            final(self)@ == with_stack_heap(
                old(self)@,
                old(self)@.stack.push(SpecValue::Table(old(self)@.heap.len() as int)),
                old(self)@.heap.push(Seq::empty()),
            ),
    {
        let ghost pre = self@;
        let id = self.heap.len();
        self.heap.push(TableData::new());
        self.stack.push(Value::Table(id));
        proof {
            assert(self@.stack =~= pre.stack.push(SpecValue::Table(id as int)));
            assert(self@.heap =~= pre.heap.push(Seq::empty()));
            assert(self@.registry =~= pre.registry);
            assert(self@ == with_stack_heap(
                pre,
                pre.stack.push(SpecValue::Table(id as int)),
                pre.heap.push(Seq::empty()),
            ));
            lemma_wf_new_table(pre);
        }
    }
}

/// Appending a fresh empty table to the heap, and its reference to the
/// stack, keeps a state well-formed.
pub proof fn lemma_wf_new_table(s: SpecState)
    requires
        state_wf(s),
        s.stack.len() < MAX_STACK,
    ensures
        state_wf(
            with_stack_heap(
                s,
                s.stack.push(SpecValue::Table(s.heap.len() as int)),
                s.heap.push(Seq::empty()),
            ),
        ),
{
    let s2 = with_stack_heap(
        s,
        s.stack.push(SpecValue::Table(s.heap.len() as int)),
        s.heap.push(Seq::empty()),
    );
    let n1 = s.heap.len() as int;
    let n2 = s2.heap.len() as int;
    assert forall|i: int| 0 <= i < s2.stack.len() implies val_wf(#[trigger] s2.stack[i], n2) by {
        if i < s.stack.len() {
            assert(s2.stack[i] == s.stack[i]);
            assert(val_wf(s.stack[i], n1));
        }
    }
    assert forall|t: int| 0 <= t < n2 implies pairs_wf(#[trigger] s2.heap[t], n2) by {
        if t < n1 {
            assert(s2.heap[t] == s.heap[t]);
            assert(pairs_wf(s.heap[t], n1));
            assert forall|i: int| 0 <= i < s2.heap[t].len() implies val_wf(
                #[trigger] s2.heap[t][i].0,
                n2,
            ) && val_wf(s2.heap[t][i].1, n2) by {
                assert(val_wf(s.heap[t][i].0, n1));
                assert(val_wf(s.heap[t][i].1, n1));
            }
        } else {
            assert(s2.heap[t] =~= Seq::<(SpecValue, SpecValue)>::empty());
        }
    }
    assert forall|i: int|
        0 <= i < s2.registry.len() implies (#[trigger] s2.registry[i] matches Some(v) ==> val_wf(
        v,
        n2,
    )) by {
        assert(s.registry[i] matches Some(v) ==> val_wf(v, n1));
    }
    assert forall|i: int| 0 <= i < s2.globals.len() implies val_wf(
        #[trigger] s2.globals[i].0,
        n2,
    ) && val_wf(s2.globals[i].1, n2) by {
        assert(val_wf(s.globals[i].0, n1));
        assert(val_wf(s.globals[i].1, n1));
    }
}

/// A changed stack of well-formed values keeps a state well-formed.
pub proof fn lemma_wf_stack(s: SpecState, stack2: Seq<SpecValue>)
    requires
        state_wf(s),
        stack2.len() <= MAX_STACK,
        forall|i: int| 0 <= i < stack2.len() ==> val_wf(#[trigger] stack2[i], s.heap.len() as int),
    ensures
        state_wf(with_stack(s, stack2)),
{
}

/// Replacing one table of the heap with well-formed contents (and the
/// stack with well-formed values) keeps a state well-formed.
pub proof fn lemma_wf_heap_update(s: SpecState, stack2: Seq<SpecValue>, t: int, tbl: SpecTable)
    requires
        state_wf(s),
        stack2.len() <= MAX_STACK,
        forall|i: int| 0 <= i < stack2.len() ==> val_wf(#[trigger] stack2[i], s.heap.len() as int),
        0 <= t < s.heap.len(),
        pairs_wf(tbl, s.heap.len() as int),
        unique_keys(tbl),
        entries_ok(tbl),
    ensures
        state_wf(with_stack_heap(s, stack2, s.heap.update(t, tbl))),
{
    let s2 = with_stack_heap(s, stack2, s.heap.update(t, tbl));
    assert forall|t2: int| 0 <= t2 < s2.heap.len() implies pairs_wf(
        #[trigger] s2.heap[t2],
        s2.heap.len() as int,
    ) by {
        if t2 != t {
            assert(s2.heap[t2] == s.heap[t2]);
        }
    }
    assert forall|t2: int| 0 <= t2 < s2.heap.len() implies unique_keys(#[trigger] s2.heap[t2]) by {
        if t2 != t {
            assert(s2.heap[t2] == s.heap[t2]);
        }
    }
    assert forall|t2: int| 0 <= t2 < s2.heap.len() implies entries_ok(#[trigger] s2.heap[t2]) by {
        if t2 != t {
            assert(s2.heap[t2] == s.heap[t2]);
        }
    }
}

/// A changed registry of well-formed values (and stack likewise) keeps a
/// state well-formed.
pub proof fn lemma_wf_registry(
    s: SpecState,
    stack2: Seq<SpecValue>,
    reg2: Seq<Option<SpecValue>>,
)
    requires
        state_wf(s),
        stack2.len() <= MAX_STACK,
        forall|i: int| 0 <= i < stack2.len() ==> val_wf(#[trigger] stack2[i], s.heap.len() as int),
        reg2.len() <= REGISTRY_MAX,
        forall|i: int|
            0 <= i < reg2.len() ==> (#[trigger] reg2[i] matches Some(v) ==> val_wf(
                v,
                s.heap.len() as int,
            )),
    ensures
        state_wf(with_stack_registry(s, stack2, reg2)),
{
}

/// A changed globals table of well-formed contents (and stack likewise)
/// keeps a state well-formed.
pub proof fn lemma_wf_globals(s: SpecState, stack2: Seq<SpecValue>, globals2: SpecTable)
    requires
        state_wf(s),
        stack2.len() <= MAX_STACK,
        forall|i: int| 0 <= i < stack2.len() ==> val_wf(#[trigger] stack2[i], s.heap.len() as int),
        pairs_wf(globals2, s.heap.len() as int),
        unique_keys(globals2),
    ensures
        state_wf(with_stack_globals(s, stack2, globals2)),
{
}

impl State {
    /// The heap index of the table at stack index `index`, or an
    /// `InvalidData` error if the value there is not a table.
    fn table_at(&self, index: i32) -> (r: Result<usize, Error>)
        requires
            self.wf(),
        ensures
            (r is Err) == !(valid_index(self@.stack.len() as int, index as int) && is_table(
                stack_val(self@, index as int),
            )),
            (r matches Err(e) ==> e.kind == ErrorKind::InvalidData),
            (r matches Ok(t) ==> t as int == table_id_of(stack_val(self@, index as int)) && (t as int)
                < self@.heap.len()),
    {
        if !self.index_ok(index) {
            return Err(Error::new(ErrorKind::InvalidData, "attempt to index a non-table value"));
        }
        let pos = self.resolve(index);
        match &self.stack[pos] {
            Value::Table(t) => {
                proof {
                    assert(val_wf(self@.stack[pos as int], self@.heap.len() as int));
                }
                Ok(*t)
            },
            _ => Err(Error::new(ErrorKind::InvalidData, "attempt to index a non-table value")),
        }
    }

    /// Reads an entry of the table at heap index `t` (a copy of the
    /// value).
    fn heap_get(&self, t: usize, k: &Value) -> (r: Value)
        requires
            self.wf(),
            (t as int) < self@.heap.len(),
        ensures
            r@ == lookup(self@.heap[t as int], k@),
            val_wf(r@, self@.heap.len() as int),
    {
        let r = self.heap[t].get(k);
        proof {
            assert(self@.heap[t as int] == self.heap[t as int]@);
            let tbl = self@.heap[t as int];
            crate::table_data::lemma_find_idx_bounds(tbl, k@, 0);
            assert(pairs_wf(tbl, self@.heap.len() as int));
            let i = crate::table_data::find_idx(tbl, k@, 0);
            if i < tbl.len() {
                assert(val_wf(tbl[i].1, self@.heap.len() as int));
            }
        }
        r
    }

    /// Writes an entry of the table at heap index `t`.
    fn heap_set(&mut self, t: usize, k: &Value, v: &Value)
        requires
            old(self).wf(),
            (t as int) < old(self)@.heap.len(),
            k@ != SpecValue::Nil,
            val_wf(k@, old(self)@.heap.len() as int),
            val_wf(v@, old(self)@.heap.len() as int),
        ensures
            final(self).wf(),
            final(self)@ == with_stack_heap(
                old(self)@,
                old(self)@.stack,
                old(self)@.heap.update(t as int, store(old(self)@.heap[t as int], k@, v@)),
            ),
    {
        let ghost pre = self@;
        let mut tbl = TableData::new();
        self.heap.set_and_swap(t, &mut tbl);
        tbl.set(k, v);
        self.heap.set_and_swap(t, &mut tbl);
        proof {
            let target = store(pre.heap[t as int], k@, v@);
            assert(self@.heap =~= pre.heap.update(t as int, target));
            assert(self@.stack =~= pre.stack);
            assert(self@.registry =~= pre.registry);
            assert(self@ == with_stack_heap(pre, pre.stack, pre.heap.update(t as int, target)));
            crate::table_data::lemma_store_pairs_wf(
                pre.heap[t as int],
                k@,
                v@,
                pre.heap.len() as int,
            );
            crate::table_data::lemma_store_unique(pre.heap[t as int], k@, v@);
            crate::table_data::lemma_store_entries_ok(pre.heap[t as int], k@, v@);
            lemma_wf_heap_update(pre, pre.stack, t as int, target);
        }
    }

    /// Pushes onto the stack the value `t[k]`, where `t` is the table at
    /// the given `index` and `k` is the value on the top of the stack.
    /// Pops the key and pushes the resulting value in its place.  Returns
    /// the type code of the pushed value, or an error (leaving the state
    /// unchanged) if the value at `index` is not a table.
    pub fn get_table(&mut self, index: i32) -> (r: Result<i32, Error>)
        requires
            old(self).wf(),
            old(self)@.stack.len() >= 1,
        ensures
            final(self).wf(),
            (r is Err) == !(valid_index(old(self)@.stack.len() as int, index as int) && is_table(
                stack_val(old(self)@, index as int),
            )),
            (r matches Err(e) ==> e.kind == ErrorKind::InvalidData && final(self)@ == old(self)@),
            (r matches Ok(tc) ==> {
                let pre = old(self)@;
                let t = table_id_of(stack_val(pre, index as int));
                let res = lookup(pre.heap[t], pre.stack.last());
                final(self)@ == with_stack(pre, pre.stack.drop_last().push(res)) && tc as int
                    == spec_type_code(res)
            }),
    {
        let ghost pre = self@;
        let t = match self.table_at(index) {
            Ok(t) => t,
            Err(e) => {
                return Err(e);
            },
        };
        let k = self.pop_value();
        let res = self.heap_get(t, &k);
        let tc = res.type_code();
        self.push_raw(res);
        proof {
            assert(final(self)@ == with_stack(pre, pre.stack.drop_last().push(
                lookup(pre.heap[t as int], pre.stack.last()),
            )));
        }
        Ok(tc)
    }

    /// Does the equivalent of `t[k] = v`, where `t` is the table at the
    /// given `index`, `v` is the value on the top of the stack and `k` the
    /// value just below it.  Pops both the key and the value.  Errors
    /// (leaving the state unchanged) if the value at `index` is not a
    /// table or the key is nil.
    pub fn set_table(&mut self, index: i32) -> (r: Result<(), Error>)
        requires
            old(self).wf(),
            old(self)@.stack.len() >= 2,
        ensures
            final(self).wf(),
            (r is Err) == !(valid_index(old(self)@.stack.len() as int, index as int) && is_table(
                stack_val(old(self)@, index as int),
            ) && old(self)@.stack[old(self)@.stack.len() - 2] != SpecValue::Nil),
            (r matches Err(e) ==> e.kind == ErrorKind::InvalidData && final(self)@ == old(self)@),
            (r is Ok ==> {
                let pre = old(self)@;
                let t = table_id_of(stack_val(pre, index as int));
                let k = pre.stack[pre.stack.len() - 2];
                let v = pre.stack.last();
                final(self)@ == with_stack_heap(
                    pre,
                    pre.stack.take(pre.stack.len() - 2),
                    pre.heap.update(t, store(pre.heap[t], k, v)),
                )
            }),
    {
        let ghost pre = self@;
        let t = match self.table_at(index) {
            Ok(t) => t,
            Err(e) => {
                return Err(e);
            },
        };
        let klen = self.stack.len() - 2;
        if self.stack[klen].is_nil() {
            return Err(Error::new(ErrorKind::InvalidData, "table index is nil"));
        }
        let v = self.pop_value();
        let k = self.pop_value();
        proof {
            assert(k@ == pre.stack[pre.stack.len() - 2]);
            assert(self@.stack =~= pre.stack.take(pre.stack.len() - 2));
        }
        self.heap_set(t, &k, &v);
        proof {
            assert(final(self)@ == with_stack_heap(
                pre,
                pre.stack.take(pre.stack.len() - 2),
                pre.heap.update(t as int, store(pre.heap[t as int], k@, v@)),
            ));
        }
        Ok(())
    }
}

impl State {
    /// Pushes onto the stack the value `t[key]`, where `t` is the table at
    /// the given `index` and `key` a byte string.  Returns the type code
    /// of the pushed value.  Errors (leaving the state unchanged) if the
    /// key holds an embedded NUL byte (`InvalidInput`) or the value at
    /// `index` is not a table (`InvalidData`).
    pub fn get_field(&mut self, index: i32, key: &[u8]) -> (r: Result<i32, Error>)
        requires
            old(self).wf(),
            old(self)@.stack.len() < MAX_STACK,
        ensures
            final(self).wf(),
            (r is Err) == (has_nul(key@) || !(valid_index(old(self)@.stack.len() as int, index as int)
                && is_table(stack_val(old(self)@, index as int)))),
            (r matches Err(e) ==> final(self)@ == old(self)@ && (e.kind == if has_nul(key@) {
                ErrorKind::InvalidInput
            } else {
                ErrorKind::InvalidData
            })),
            (r matches Ok(tc) ==> {
                let pre = old(self)@;
                let t = table_id_of(stack_val(pre, index as int));
                let res = lookup(pre.heap[t], SpecValue::Str(key@));
                final(self)@ == with_stack(pre, pre.stack.push(res)) && tc as int == spec_type_code(
                    res,
                )
            }),
    {
        let ghost pre = self@;
        if Self::has_embedded_nul(key) {
            return Err(Error::new(ErrorKind::InvalidInput, "key holds an embedded NUL byte"));
        }
        let t = match self.table_at(index) {
            Ok(t) => t,
            Err(e) => {
                return Err(e);
            },
        };
        let k = Value::Str(crate::value::copy_slice(key));
        let res = self.heap_get(t, &k);
        let tc = res.type_code();
        self.push_raw(res);
        Ok(tc)
    }

    /// Does the equivalent of `t[key] = v`, where `t` is the table at the
    /// given `index`, `key` a byte string and `v` the value on the top of
    /// the stack; pops the value.  Errors (leaving the state unchanged) as
    /// [`State::get_field`] does.
    pub fn set_field(&mut self, index: i32, key: &[u8]) -> (r: Result<(), Error>)
        requires
            old(self).wf(),
            old(self)@.stack.len() >= 1,
        ensures
            final(self).wf(),
            (r is Err) == (has_nul(key@) || !(valid_index(old(self)@.stack.len() as int, index as int)
                && is_table(stack_val(old(self)@, index as int)))),
            (r matches Err(e) ==> final(self)@ == old(self)@ && (e.kind == if has_nul(key@) {
                ErrorKind::InvalidInput
            } else {
                ErrorKind::InvalidData
            })),
            (r is Ok ==> {
                let pre = old(self)@;
                let t = table_id_of(stack_val(pre, index as int));
                final(self)@ == with_stack_heap(
                    pre,
                    pre.stack.drop_last(),
                    pre.heap.update(
                        t,
                        store(pre.heap[t], SpecValue::Str(key@), pre.stack.last()),
                    ),
                )
            }),
    {
        let ghost pre = self@;
        if Self::has_embedded_nul(key) {
            return Err(Error::new(ErrorKind::InvalidInput, "key holds an embedded NUL byte"));
        }
        let t = match self.table_at(index) {
            Ok(t) => t,
            Err(e) => {
                return Err(e);
            },
        };
        let v = self.pop_value();
        let k = Value::Str(crate::value::copy_slice(key));
        self.heap_set(t, &k, &v);
        Ok(())
    }

    /// Pushes onto the stack the value `t[i]`, where `t` is the table at
    /// the given `index`.  Returns the type code of the pushed value, or
    /// an error (leaving the state unchanged) if the value at `index` is
    /// not a table.
    pub fn geti(&mut self, index: i32, i: i64) -> (r: Result<i32, Error>)
        requires
            old(self).wf(),
            old(self)@.stack.len() < MAX_STACK,
        ensures
            final(self).wf(),
            (r is Err) == !(valid_index(old(self)@.stack.len() as int, index as int) && is_table(
                stack_val(old(self)@, index as int),
            )),
            (r matches Err(e) ==> e.kind == ErrorKind::InvalidData && final(self)@ == old(self)@),
            (r matches Ok(tc) ==> {
                let pre = old(self)@;
                let t = table_id_of(stack_val(pre, index as int));
                let res = lookup(pre.heap[t], SpecValue::Integer(i));
                final(self)@ == with_stack(pre, pre.stack.push(res)) && tc as int == spec_type_code(
                    res,
                )
            }),
    {
        let t = match self.table_at(index) {
            Ok(t) => t,
            Err(e) => {
                return Err(e);
            },
        };
        let k = Value::Integer(i);
        let res = self.heap_get(t, &k);
        let tc = res.type_code();
        self.push_raw(res);
        Ok(tc)
    }

    /// Does the equivalent of `t[i] = v`, where `t` is the table at the
    /// given `index` and `v` the value on the top of the stack; pops the
    /// value.  Errors (leaving the state unchanged) if the value at
    /// `index` is not a table.
    pub fn seti(&mut self, index: i32, i: i64) -> (r: Result<(), Error>)
        requires
            old(self).wf(),
            old(self)@.stack.len() >= 1,
        ensures
            final(self).wf(),
            (r is Err) == !(valid_index(old(self)@.stack.len() as int, index as int) && is_table(
                stack_val(old(self)@, index as int),
            )),
            (r matches Err(e) ==> e.kind == ErrorKind::InvalidData && final(self)@ == old(self)@),
            (r is Ok ==> {
                let pre = old(self)@;
                let t = table_id_of(stack_val(pre, index as int));
                final(self)@ == with_stack_heap(
                    pre,
                    pre.stack.drop_last(),
                    pre.heap.update(
                        t,
                        store(pre.heap[t], SpecValue::Integer(i), pre.stack.last()),
                    ),
                )
            }),
    {
        let t = match self.table_at(index) {
            Ok(t) => t,
            Err(e) => {
                return Err(e);
            },
        };
        let v = self.pop_value();
        let k = Value::Integer(i);
        self.heap_set(t, &k, &v);
        Ok(())
    }

    /// The raw length of the value at the given `index`: the byte length
    /// for a string, the border scan for a table, 0 for anything else.
    pub fn raw_len(&self, index: i32) -> (r: usize)
        requires
            self.wf(),
        ensures
            valid_index(self@.stack.len() as int, index as int) ==> {
                let v = stack_val(self@, index as int);
                r as int == (match v {
                    SpecValue::Str(b) => b.len() as int,
                    SpecValue::Table(t) => tlen(self@.heap[t]) as int,
                    _ => 0,
                })
            },
            !valid_index(self@.stack.len() as int, index as int) ==> r == 0,
    {
        if !self.index_ok(index) {
            return 0;
        }
        let pos = self.resolve(index);
        match &self.stack[pos] {
            Value::Str(b) => b.len(),
            Value::Table(t) => {
                proof {
                    assert(val_wf(self@.stack[pos as int], self@.heap.len() as int));
                    assert(self@.heap[*t as int] == self.heap[*t as int]@);
                }
                self.heap[*t].seq_len()
            },
            _ => 0,
        }
    }

    /// The number of entries held by the table at the given `index` (a
    /// model convenience: a traversal with [`State::next`] visits exactly
    /// this many entries).
    pub fn entry_count(&self, index: i32) -> (r: Result<usize, Error>)
        requires
            self.wf(),
        ensures
            (r is Err) == !(valid_index(self@.stack.len() as int, index as int) && is_table(
                stack_val(self@, index as int),
            )),
            (r matches Err(e) ==> e.kind == ErrorKind::InvalidData),
            (r matches Ok(n) ==> n == self@.heap[table_id_of(stack_val(self@, index as int))].len()),
    {
        let t = match self.table_at(index) {
            Ok(t) => t,
            Err(e) => {
                return Err(e);
            },
        };
        proof {
            assert(self@.heap[t as int] == self.heap[t as int]@);
        }
        Ok(self.heap[t].entry_count())
    }

    /// The machine's table traversal step.  Pops a key from the stack and,
    /// if the table at the given `index` has an entry after that key in
    /// its storage order, pushes that entry's key and value and returns
    /// `true`; otherwise pushes nothing and returns `false` (the
    /// traversal is over).  Start a traversal by pushing nil.  Errors
    /// (leaving the state unchanged) if the value at `index` is not a
    /// table.
    pub fn next(&mut self, index: i32) -> (r: Result<bool, Error>)
        requires
            old(self).wf(),
            old(self)@.stack.len() >= 1,
            old(self)@.stack.len() < MAX_STACK,
        ensures
            final(self).wf(),
            (r is Err) == !(valid_index(old(self)@.stack.len() as int, index as int) && is_table(
                stack_val(old(self)@, index as int),
            )),
            (r matches Err(e) ==> e.kind == ErrorKind::InvalidData && final(self)@ == old(self)@),
            (r matches Ok(more) ==> {
                let pre = old(self)@;
                let t = table_id_of(stack_val(pre, index as int));
                let tbl = pre.heap[t];
                let i = spec_next_index(tbl, pre.stack.last());
                if 0 <= i < tbl.len() {
                    more && final(self)@ == with_stack(
                        pre,
                        pre.stack.drop_last().push(tbl[i].0).push(tbl[i].1),
                    )
                } else {
                    !more && final(self)@ == with_stack(pre, pre.stack.drop_last())
                }
            }),
    {
        let ghost pre = self@;
        let t = match self.table_at(index) {
            Ok(t) => t,
            Err(e) => {
                return Err(e);
            },
        };
        let k = self.pop_value();
        proof {
            assert(self@.heap[t as int] == self.heap[t as int]@);
        }
        let stepped = self.heap[t].next_entry(&k);
        match stepped {
            Some((k2, v2)) => {
                proof {
                    let tbl = pre.heap[t as int];
                    let i = spec_next_index(tbl, pre.stack.last());
                    assert(pairs_wf(tbl, pre.heap.len() as int));
                    assert(val_wf(tbl[i].0, pre.heap.len() as int));
                    assert(val_wf(tbl[i].1, pre.heap.len() as int));
                }
                self.push_raw(k2);
                self.push_raw(v2);
                proof {
                    let tbl = pre.heap[t as int];
                    let i = spec_next_index(tbl, pre.stack.last());
                    assert(final(self)@ == with_stack(
                        pre,
                        pre.stack.drop_last().push(tbl[i].0).push(tbl[i].1),
                    ));
                }
                Ok(true)
            },
            None => Ok(false),
        }
    }
}

/// The registry contents that result from registering value `v`: the
/// first free slot is reused, or a fresh one appended.
pub open spec fn spec_register(
    reg: Seq<Option<SpecValue>>,
    v: SpecValue,
) -> Seq<Option<SpecValue>> {
    let i = first_free(reg, 0);
    if i < reg.len() {
        reg.update(i, Some(v))
    } else {
        reg.push(Some(v))
    }
}

/// The slot code (1-based) that registering a non-nil value hands out.
pub open spec fn spec_register_slot(reg: Seq<Option<SpecValue>>) -> int {
    first_free(reg, 0) + 1
}

/// The number of occupied registry slots.
pub open spec fn occupied(reg: Seq<Option<SpecValue>>) -> nat
    decreases reg.len(),
{
    if reg.len() == 0 {
        0
    } else {
        occupied(reg.drop_last()) + (if reg.last() is Some {
            1nat
        } else {
            0nat
        })
    }
}

impl State {
    /// Pops the value on the top of the stack and stores it at a fresh
    /// slot of the registry, whose slot code is returned.  Registering nil
    /// pops it and returns [`LUA_REFNIL`] without taking a slot.  Errors
    /// (leaving the state unchanged) only when the registry is at
    /// capacity, which the machine reports as an allocation failure.
    pub fn ref_register(&mut self) -> (r: Result<i32, Error>)
        requires
            old(self).wf(),
            old(self)@.stack.len() >= 1,
        ensures
            final(self).wf(),
            (r is Err) == (old(self)@.stack.last() != SpecValue::Nil && first_free(
                old(self)@.registry,
                0,
            ) == old(self)@.registry.len() && old(self)@.registry.len() == REGISTRY_MAX),
            (r matches Err(e) ==> e.kind == ErrorKind::Custom && final(self)@ == old(self)@),
            (r matches Ok(slot) ==> {
                let pre = old(self)@;
                if pre.stack.last() == SpecValue::Nil {
                    slot == LUA_REFNIL && final(self)@ == with_stack(pre, pre.stack.drop_last())
                } else {
                    slot as int == spec_register_slot(pre.registry) && 1 <= slot && (slot as int)
                        <= final(self)@.registry.len() && final(self)@ == with_stack_registry(
                        pre,
                        pre.stack.drop_last(),
                        spec_register(pre.registry, pre.stack.last()),
                    )
                }
            }),
    {
        let ghost pre = self@;
        let top = self.stack.len() - 1;
        if self.stack[top].is_nil() {
            let _ = self.pop_value();
            return Ok(LUA_REFNIL);
        }
        // find the first free slot
        let mut i: usize = 0;
        while i < self.registry.len()
            invariant
                self.wf(),
                self@ == pre,
                pre == old(self)@,
                pre.stack.len() >= 1,
                pre.stack.last() != SpecValue::Nil,
                i <= self@.registry.len(),
                forall|j: int| 0 <= j < i ==> self@.registry[j] is Some,
                first_free(self@.registry, 0) == first_free(self@.registry, i as int),
            decreases self.registry.len() - i,
        {
            let free = matches!(self.registry[i], None);
            if free {
                proof {
                    assert(self@.registry[i as int] is None);
                    assert(first_free(self@.registry, i as int) == i);
                }
                let v = self.pop_value();
                let ghost mid = self@;
                self.registry.set(i, Some(v));
                proof {
                    assert(self@.registry =~= mid.registry.update(i as int, Some(v@)));
                    assert(self@.stack =~= mid.stack);
                    assert(self@.heap =~= mid.heap);
                    assert(self@ == with_stack_registry(
                        pre,
                        pre.stack.drop_last(),
                        spec_register(pre.registry, pre.stack.last()),
                    ));
                    assert forall|j: int| 0 <= j < pre.stack.drop_last().len() implies val_wf(
                        #[trigger] pre.stack.drop_last()[j],
                        pre.heap.len() as int,
                    ) by {
                        assert(pre.stack.drop_last()[j] == pre.stack[j]);
                    }
                    assert forall|j: int|
                        0 <= j < self@.registry.len() implies (#[trigger] self@.registry[j] matches
                        Some(v2) ==> val_wf(v2, pre.heap.len() as int)) by {
                        if j != i {
                            assert(self@.registry[j] == pre.registry[j]);
                        }
                    }
                    lemma_wf_registry(pre, pre.stack.drop_last(), self@.registry);
                }
                return Ok((i + 1) as i32);
            }
            i = i + 1;
            proof {
                assert(self@.registry[i - 1] is Some);
                assert(first_free(self@.registry, i - 1) == first_free(self@.registry, i as int));
            }
        }
        proof {
            assert(first_free(self@.registry, i as int) == self@.registry.len());
        }
        if self.registry.len() >= REGISTRY_MAX {
            return Err(Error::new(ErrorKind::Custom, "not enough memory: registry is full"));
        }
        let v = self.pop_value();
        let slot = self.registry.len();
        let ghost mid = self@;
        self.registry.push(Some(v));
        proof {
            assert(self@.registry =~= mid.registry.push(Some(v@)));
            assert(self@.stack =~= mid.stack);
            assert(self@.heap =~= mid.heap);
            assert(self@ == with_stack_registry(
                pre,
                pre.stack.drop_last(),
                spec_register(pre.registry, pre.stack.last()),
            ));
            assert forall|j: int|
                0 <= j < self@.registry.len() implies (#[trigger] self@.registry[j] matches Some(v2)
                ==> val_wf(v2, pre.heap.len() as int)) by {
                if j < mid.registry.len() {
                    assert(self@.registry[j] == pre.registry[j]);
                }
            }
        }
        Ok((slot + 1) as i32)
    }

    /// Pushes onto the stack the value held at the given registry slot
    /// code, or nil for [`LUA_NOREF`], [`LUA_REFNIL`] or a freed slot.
    /// Returns the type code of the pushed value.
    pub fn ref_get(&mut self, slot: i32) -> (r: i32)
        requires
            old(self).wf(),
            old(self)@.stack.len() < MAX_STACK,
        ensures
            final(self).wf(),
            ({
                let pre = old(self)@;
                let v = spec_slot_value(pre.registry, slot as int);
                final(self)@ == with_stack(pre, pre.stack.push(v)) && r as int == spec_type_code(v)
            }),
    {
        let ghost pre = self@;
        let v: Value = if slot >= 1 && ((slot - 1) as usize) < self.registry.len() {
            match &self.registry[(slot - 1) as usize] {
                Some(v) => v.duplicate(),
                None => Value::Nil,
            }
        } else {
            Value::Nil
        };
        proof {
            assert(v@ == spec_slot_value(pre.registry, slot as int));
            if slot >= 1 && slot - 1 < pre.registry.len() {
                assert(pre.registry[slot - 1] matches Some(w) ==> val_wf(
                    w,
                    pre.heap.len() as int,
                ));
            }
        }
        let tc = v.type_code();
        self.push_raw(v);
        tc
    }

    /// Releases the given registry slot code, so that its slot can be
    /// handed out again.  [`LUA_NOREF`], [`LUA_REFNIL`] and already-freed
    /// slots are left alone.
    pub fn ref_unref(&mut self, slot: i32)
        requires
            old(self).wf(),
        ensures
            final(self).wf(),
            (1 <= slot && (slot as int) <= old(self)@.registry.len()) ==> final(self)@
                == with_stack_registry(
                old(self)@,
                old(self)@.stack,
                old(self)@.registry.update(slot - 1, None),
            ),
            !(1 <= slot && (slot as int) <= old(self)@.registry.len()) ==> final(self)@ == old(
                self,
            )@,
    {
        let ghost pre = self@;
        if slot >= 1 && ((slot - 1) as usize) < self.registry.len() {
            self.registry.set((slot - 1) as usize, None);
            proof {
                assert(self@.registry =~= pre.registry.update(slot - 1, None));
                assert(self@.stack =~= pre.stack);
                assert(self@.heap =~= pre.heap);
                assert(self@ == with_stack_registry(
                    pre,
                    pre.stack,
                    pre.registry.update(slot - 1, None),
                ));
                assert forall|j: int|
                    0 <= j < self@.registry.len() implies (#[trigger] self@.registry[j] matches
                    Some(v2) ==> val_wf(v2, pre.heap.len() as int)) by {
                    if j != slot - 1 {
                        assert(self@.registry[j] == pre.registry[j]);
                    }
                }
            }
        }
    }

    /// Pushes onto the stack the value of the global `name` (nil if it is
    /// not set) and returns its type code.  Errors (leaving the state
    /// unchanged) if `name` holds an embedded NUL byte.
    pub fn get_global(&mut self, name: &[u8]) -> (r: Result<i32, Error>)
        requires
            old(self).wf(),
            old(self)@.stack.len() < MAX_STACK,
        ensures
            final(self).wf(),
            (r is Err) == has_nul(name@),
            (r matches Err(e) ==> e.kind == ErrorKind::InvalidInput && final(self)@ == old(self)@),
            (r matches Ok(tc) ==> {
                let pre = old(self)@;
                let res = lookup(pre.globals, SpecValue::Str(name@));
                final(self)@ == with_stack(pre, pre.stack.push(res)) && tc as int == spec_type_code(
                    res,
                )
            }),
    {
        let ghost pre = self@;
        if Self::has_embedded_nul(name) {
            return Err(Error::new(ErrorKind::InvalidInput, "name holds an embedded NUL byte"));
        }
        let k = Value::Str(crate::value::copy_slice(name));
        let res = self.globals.get(&k);
        proof {
            assert(self@.globals == self.globals@);
            crate::table_data::lemma_find_idx_bounds(pre.globals, k@, 0);
            let i = crate::table_data::find_idx(pre.globals, k@, 0);
            if i < pre.globals.len() {
                assert(val_wf(pre.globals[i].1, pre.heap.len() as int));
            }
        }
        let tc = res.type_code();
        self.push_raw(res);
        Ok(tc)
    }

    /// Pops the value on the top of the stack and sets it as the new
    /// value of the global `name`.  Errors (leaving the state unchanged)
    /// if `name` holds an embedded NUL byte.
    pub fn set_global(&mut self, name: &[u8]) -> (r: Result<(), Error>)
        requires
            old(self).wf(),
            old(self)@.stack.len() >= 1,
        ensures
            final(self).wf(),
            (r is Err) == has_nul(name@),
            (r matches Err(e) ==> e.kind == ErrorKind::InvalidInput && final(self)@ == old(self)@),
            (r is Ok ==> final(self)@ == with_stack_globals(
                old(self)@,
                old(self)@.stack.drop_last(),
                store(old(self)@.globals, SpecValue::Str(name@), old(self)@.stack.last()),
            )),
    {
        let ghost pre = self@;
        if Self::has_embedded_nul(name) {
            return Err(Error::new(ErrorKind::InvalidInput, "name holds an embedded NUL byte"));
        }
        let v = self.pop_value();
        let k = Value::Str(crate::value::copy_slice(name));
        self.globals.set(&k, &v);
        proof {
            let target = store(pre.globals, SpecValue::Str(name@), pre.stack.last());
            assert(self@.stack =~= pre.stack.drop_last());
            assert(self@.heap =~= pre.heap);
            assert(self@.registry =~= pre.registry);
            assert(self@ == with_stack_globals(pre, pre.stack.drop_last(), target));
            crate::table_data::lemma_store_pairs_wf(
                pre.globals,
                k@,
                v@,
                pre.heap.len() as int,
            );
            crate::table_data::lemma_store_unique(pre.globals, k@, v@);
            lemma_wf_globals(pre, pre.stack.drop_last(), target);
        }
        Ok(())
    }
}

/// The value that a registry slot code denotes: nil for the sentinel
/// codes and freed slots.
pub open spec fn spec_slot_value(reg: Seq<Option<SpecValue>>, slot: int) -> SpecValue {
    if 1 <= slot && slot <= reg.len() {
        match reg[slot - 1] {
            Some(v) => v,
            None => SpecValue::Nil,
        }
    } else {
        SpecValue::Nil
    }
}

impl State {
    /// Pushes a function value by its identity.  Compiling chunks is the
    /// embedding's business (out of the bridge's scope); this introduces
    /// the resulting callable as an opaque value, as a loader would
    /// leave it on the stack.
    pub fn push_function(&mut self, id: u64)
        requires
            old(self).wf(),
            old(self)@.stack.len() < MAX_STACK,
        ensures
            final(self).wf(),
            final(self)@ == with_stack(
                old(self)@,
                old(self)@.stack.push(SpecValue::Function(id)),
            ),
    {
        self.push_raw(Value::Function(id));
    }

    /// Pushes a full user data value by its identity, as the embedding's
    /// native extensions would leave one on the stack.
    pub fn push_userdata(&mut self, id: u64)
        requires
            old(self).wf(),
            old(self)@.stack.len() < MAX_STACK,
        ensures
            final(self).wf(),
            final(self)@ == with_stack(
                old(self)@,
                old(self)@.stack.push(SpecValue::Userdata(id)),
            ),
    {
        self.push_raw(Value::Userdata(id));
    }
}

/// Information about one element on the operand stack.
#[derive(Debug, Clone, Copy, PartialEq, Eq, Structural)]
pub struct Info {
    idx: i32,
    tp: i32,
}

impl Info {
    /// The element's 1-based index on the stack.
    pub closed spec fn idx_spec(&self) -> int {
        self.idx as int
    }

    /// The element's type code.
    pub closed spec fn tp_spec(&self) -> int {
        self.tp as int
    }

    /// Returns the index of the element on the stack.
    pub fn index(&self) -> (r: i32)
        ensures
            r as int == self.idx_spec(),
    {
        self.idx
    }

    /// Returns the code of the value type.
    pub fn type_code(&self) -> (r: i32)
        ensures
            r as int == self.tp_spec(),
    {
        self.tp
    }

    /// Returns the name of the value type.
    pub fn kind_name(&self) -> &'static str {
        kind_name_of(self.tp)
    }
}

/// The machine's name for a type code.
pub fn kind_name_of(tp: i32) -> (r: &'static str) {
    if tp == crate::value::LUA_TNIL {
        "nil"
    } else if tp == crate::value::LUA_TBOOLEAN {
        "boolean"
    } else if tp == crate::value::LUA_TLIGHTUSERDATA {
        "userdata"
    } else if tp == crate::value::LUA_TNUMBER {
        "number"
    } else if tp == crate::value::LUA_TSTRING {
        "string"
    } else if tp == crate::value::LUA_TTABLE {
        "table"
    } else if tp == crate::value::LUA_TFUNCTION {
        "function"
    } else if tp == crate::value::LUA_TUSERDATA {
        "userdata"
    } else if tp == crate::value::LUA_TTHREAD {
        "thread"
    } else {
        "no value"
    }
}

impl State {
    /// Returns the [`Info`] of the stack element at the given `index`.
    pub fn info(&self, idx: i32) -> (r: Info)
        requires
            self.wf(),
        ensures
            r.idx_spec() == idx,
            valid_index(self@.stack.len() as int, idx as int) ==> r.tp_spec() == spec_type_code(
                self@.stack[abs_index(self@.stack.len() as int, idx as int)],
            ),
    {
        Info { idx, tp: self.value_type(idx) }
    }

    /// Dumps the stack, bottom to top: one [`Info`] per element.
    pub fn dump(&self) -> (r: Vec<Info>)
        requires
            self.wf(),
        ensures
            r@.len() == self@.stack.len(),
            forall|i: int|
                0 <= i < r@.len() ==> (#[trigger] r@[i]).idx_spec() == i + 1 && r@[i].tp_spec()
                    == spec_type_code(self@.stack[i]),
    {
        let mut out: Vec<Info> = Vec::new();
        let top = self.top();
        let mut i: i32 = 1;
        while i <= top
            invariant
                self.wf(),
                1 <= i <= top + 1,
                top as int == self@.stack.len(),
                out@.len() == i - 1,
                forall|j: int|
                    0 <= j < out@.len() ==> (#[trigger] out@[j]).idx_spec() == j + 1
                        && out@[j].tp_spec() == spec_type_code(self@.stack[j]),
            decreases top - i + 1,
        {
            let info = self.info(i);
            proof {
                assert(abs_index(self@.stack.len() as int, i as int) == i - 1);
            }
            out.push(info);
            i = i + 1;
        }
        out
    }
}

} // verus!
