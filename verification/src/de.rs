//! The deserializer: machine values back to structured host data.
//!
//! The converters walk the value on top of the operand stack, dispatching
//! on the machine's type tag.  Tables are traversed through the Reference
//! Arena ([`LRef`]): the table (and, for a map, the traversal cursor) is
//! re-fetched from the registry before every step, because deserializing
//! a nested element pushes and pops freely and would shift a raw stack
//! index.  Entries whose key or value has no host representation
//! (functions, user data, threads) are deliberately skipped, not
//! reported as errors: foreign tables often carry such entries
//! incidentally.
//!
//! What is returned is exactly the [`decode_val`](crate::codec::decode_val)
//! of the value that was on top, and the stack is left exactly as it
//! was.

use vstd::prelude::*;

use crate::codec::{decode_val, decode_list, decode_pairs};
use crate::data::{Data, SpecData, rt_ok, height};
use crate::error::{Error, ErrorKind};
use crate::lref::LRef;
use crate::state::{
    State, SpecState, with_stack, spec_register, first_free, occupied, spec_slot_value,
    MAX_STACK, REGISTRY_MAX, LUA_NOREF, LUA_REFNIL,
};
use crate::table_data::{SpecTable, lookup, tlen, spec_next_index, unique_keys};
use crate::value::{SpecValue, Value, spec_serializable};

verus! {

broadcast use vstd::std_specs::vec::group_vec_axioms;

impl State {
    /// Reads the value on top of the stack as a signed 64-bit integer,
    /// if it is a number with the integer subtype.
    pub fn parse_i64(&self) -> (r: Option<i64>)
        requires
            self.wf(),
        ensures
            r matches Some(n) ==> self@.stack.len() >= 1 && self@.stack.last()
                == SpecValue::Integer(n),
            r is None ==> !(self@.stack.len() >= 1 && self@.stack.last() matches
                SpecValue::Integer(_)),
    {
        self.to_integer(-1)
    }

    /// Reads the value on top of the stack as a float (by bit pattern),
    /// if it is a number with the float subtype.
    pub fn parse_f64_bits(&self) -> (r: Option<u64>)
        requires
            self.wf(),
        ensures
            r matches Some(bits) ==> self@.stack.len() >= 1 && self@.stack.last()
                == SpecValue::Float(bits),
            r is None ==> !(self@.stack.len() >= 1 && self@.stack.last() matches SpecValue::Float(
                _,
            )),
    {
        self.to_number_bits(-1)
    }

    /// Reads the value on top of the stack as a byte string, if it is a
    /// string.
    pub fn parse_bytes(&self) -> (r: Option<Vec<u8>>)
        requires
            self.wf(),
        ensures
            r matches Some(b) ==> self@.stack.len() >= 1 && self@.stack.last() == SpecValue::Str(
                b@,
            ),
            r is None ==> !(self@.stack.len() >= 1 && self@.stack.last() matches SpecValue::Str(
                _,
            )),
    {
        self.as_bytes(-1)
    }

    /// Reads the value on top of the stack as a boolean: `false` for nil
    /// and `false`, `true` for everything else (the machine's truth
    /// rule).
    pub fn parse_bool(&self) -> (r: bool)
        requires
            self.wf(),
            self@.stack.len() >= 1,
        ensures
            r == (self@.stack.last() != SpecValue::Nil && self@.stack.last()
                != SpecValue::Boolean(false)),
    {
        self.to_boolean(-1)
    }

    /// Narrows the integer on top of the stack to `i32`.  A machine
    /// value outside the target range fails with a numeric error rather
    /// than wrapping.
    pub fn parse_i32(&self) -> (r: Result<i32, Error>)
        requires
            self.wf(),
        ensures
            (r matches Ok(n) ==> self@.stack.len() >= 1 && self@.stack.last()
                == SpecValue::Integer(n as i64)),
            (r is Ok) == (self@.stack.len() >= 1 && (self@.stack.last() matches SpecValue::Integer(
                m,
            ) && i32::MIN <= m <= i32::MAX)),
            (r matches Err(e) ==> e.kind == ErrorKind::InvalidData),
    {
        match self.parse_i64() {
            Some(n) => {
                if n >= (i32::MIN as i64) && n <= (i32::MAX as i64) {
                    Ok(n as i32)
                } else {
                    Err(Error::new(ErrorKind::InvalidData, "integer out of range of the target"))
                }
            },
            None => Err(Error::new(ErrorKind::InvalidData, "unable to deserialize as integer")),
        }
    }

    /// Narrows the integer on top of the stack to `i16` (see
    /// [`parse_i32`](State::parse_i32)).
    pub fn parse_i16(&self) -> (r: Result<i16, Error>)
        requires
            self.wf(),
        ensures
            (r matches Ok(n) ==> self@.stack.len() >= 1 && self@.stack.last()
                == SpecValue::Integer(n as i64)),
            (r is Ok) == (self@.stack.len() >= 1 && (self@.stack.last() matches SpecValue::Integer(
                m,
            ) && i16::MIN <= m <= i16::MAX)),
            (r matches Err(e) ==> e.kind == ErrorKind::InvalidData),
    {
        match self.parse_i64() {
            Some(n) => {
                if n >= (i16::MIN as i64) && n <= (i16::MAX as i64) {
                    Ok(n as i16)
                } else {
                    Err(Error::new(ErrorKind::InvalidData, "integer out of range of the target"))
                }
            },
            None => Err(Error::new(ErrorKind::InvalidData, "unable to deserialize as integer")),
        }
    }

    /// Narrows the integer on top of the stack to `i8` (see
    /// [`parse_i32`](State::parse_i32)).
    pub fn parse_i8(&self) -> (r: Result<i8, Error>)
        requires
            self.wf(),
        ensures
            (r matches Ok(n) ==> self@.stack.len() >= 1 && self@.stack.last()
                == SpecValue::Integer(n as i64)),
            (r is Ok) == (self@.stack.len() >= 1 && (self@.stack.last() matches SpecValue::Integer(
                m,
            ) && i8::MIN <= m <= i8::MAX)),
            (r matches Err(e) ==> e.kind == ErrorKind::InvalidData),
    {
        match self.parse_i64() {
            Some(n) => {
                if n >= (i8::MIN as i64) && n <= (i8::MAX as i64) {
                    Ok(n as i8)
                } else {
                    Err(Error::new(ErrorKind::InvalidData, "integer out of range of the target"))
                }
            },
            None => Err(Error::new(ErrorKind::InvalidData, "unable to deserialize as integer")),
        }
    }

    /// Narrows the integer on top of the stack to `u64` (see
    /// [`parse_i32`](State::parse_i32); negative values are out of
    /// range).
    pub fn parse_u64(&self) -> (r: Result<u64, Error>)
        requires
            self.wf(),
        ensures
            (r matches Ok(n) ==> self@.stack.len() >= 1 && self@.stack.last()
                == SpecValue::Integer(n as i64)),
            (r is Ok) == (self@.stack.len() >= 1 && (self@.stack.last() matches SpecValue::Integer(
                m,
            ) && m >= 0)),
            (r matches Err(e) ==> e.kind == ErrorKind::InvalidData),
    {
        match self.parse_i64() {
            Some(n) => {
                if n >= 0 {
                    Ok(n as u64)
                } else {
                    Err(Error::new(ErrorKind::InvalidData, "integer out of range of the target"))
                }
            },
            None => Err(Error::new(ErrorKind::InvalidData, "unable to deserialize as integer")),
        }
    }

    /// Narrows the integer on top of the stack to `u32` (see
    /// [`parse_i32`](State::parse_i32)).
    pub fn parse_u32(&self) -> (r: Result<u32, Error>)
        requires
            self.wf(),
        ensures
            (r matches Ok(n) ==> self@.stack.len() >= 1 && self@.stack.last()
                == SpecValue::Integer(n as i64)),
            (r is Ok) == (self@.stack.len() >= 1 && (self@.stack.last() matches SpecValue::Integer(
                m,
            ) && 0 <= m <= u32::MAX)),
            (r matches Err(e) ==> e.kind == ErrorKind::InvalidData),
    {
        match self.parse_i64() {
            Some(n) => {
                if n >= 0 && n <= (u32::MAX as i64) {
                    Ok(n as u32)
                } else {
                    Err(Error::new(ErrorKind::InvalidData, "integer out of range of the target"))
                }
            },
            None => Err(Error::new(ErrorKind::InvalidData, "unable to deserialize as integer")),
        }
    }

    /// Narrows the integer on top of the stack to `u16` (see
    /// [`parse_i32`](State::parse_i32)).
    pub fn parse_u16(&self) -> (r: Result<u16, Error>)
        requires
            self.wf(),
        ensures
            (r matches Ok(n) ==> self@.stack.len() >= 1 && self@.stack.last()
                == SpecValue::Integer(n as i64)),
            (r is Ok) == (self@.stack.len() >= 1 && (self@.stack.last() matches SpecValue::Integer(
                m,
            ) && 0 <= m <= u16::MAX)),
            (r matches Err(e) ==> e.kind == ErrorKind::InvalidData),
    {
        match self.parse_i64() {
            Some(n) => {
                if n >= 0 && n <= (u16::MAX as i64) {
                    Ok(n as u16)
                } else {
                    Err(Error::new(ErrorKind::InvalidData, "integer out of range of the target"))
                }
            },
            None => Err(Error::new(ErrorKind::InvalidData, "unable to deserialize as integer")),
        }
    }

    /// Narrows the integer on top of the stack to `u8` (see
    /// [`parse_i32`](State::parse_i32)): a machine value of, say, 300
    /// fails with a numeric error rather than wrapping.
    pub fn parse_u8(&self) -> (r: Result<u8, Error>)
        requires
            self.wf(),
        ensures
            (r matches Ok(n) ==> self@.stack.len() >= 1 && self@.stack.last()
                == SpecValue::Integer(n as i64)),
            (r is Ok) == (self@.stack.len() >= 1 && (self@.stack.last() matches SpecValue::Integer(
                m,
            ) && 0 <= m <= u8::MAX)),
            (r matches Err(e) ==> e.kind == ErrorKind::InvalidData),
    {
        match self.parse_i64() {
            Some(n) => {
                if n >= 0 && n <= (u8::MAX as i64) {
                    Ok(n as u8)
                } else {
                    Err(Error::new(ErrorKind::InvalidData, "integer out of range of the target"))
                }
            },
            None => Err(Error::new(ErrorKind::InvalidData, "unable to deserialize as integer")),
        }
    }
}

/// Balanced registry traffic keeps the occupied count.
pub proof fn lemma_occ_restored(a: Seq<Option<SpecValue>>, b: Seq<Option<SpecValue>>)
    requires
        crate::ser::reg_restored(a, b),
    ensures
        occupied(b) == occupied(a),
    decreases b.len(),
{
    if b.len() == a.len() {
        assert(b =~= a);
    } else {
        assert(crate::ser::reg_restored(a, b.drop_last()));
        lemma_occ_restored(a, b.drop_last());
    }
}

/// A registry with no free slot is fully occupied.
pub proof fn lemma_full_occupied(reg: Seq<Option<SpecValue>>)
    requires
        first_free(reg, 0) == reg.len(),
    ensures
        occupied(reg) == reg.len(),
{
    lemma_all_some(reg, 0);
    lemma_occ_of_full(reg);
}

proof fn lemma_all_some(reg: Seq<Option<SpecValue>>, from: int)
    requires
        0 <= from <= reg.len(),
        first_free(reg, from) == reg.len(),
    ensures
        forall|i: int| from <= i < reg.len() ==> (#[trigger] reg[i]) is Some,
    decreases reg.len() - from,
{
    if from < reg.len() {
        lemma_all_some(reg, from + 1);
    }
}

proof fn lemma_occ_of_full(reg: Seq<Option<SpecValue>>)
    requires
        forall|i: int| 0 <= i < reg.len() ==> (#[trigger] reg[i]) is Some,
    ensures
        occupied(reg) == reg.len(),
    decreases reg.len(),
{
    if reg.len() > 0 {
        lemma_occ_of_full(reg.drop_last());
    }
}

/// Registering grows the occupied count by at most one.
pub proof fn lemma_occ_register(reg: Seq<Option<SpecValue>>, v: SpecValue)
    ensures
        occupied(spec_register(reg, v)) <= occupied(reg) + 1,
{
    crate::lref::lemma_first_free_bounds(reg, 0);
    let i = first_free(reg, 0);
    if i < reg.len() {
        crate::lref::lemma_occupied_update_some(reg, i, v);
    } else {
        crate::lref::lemma_occupied_push_some(reg, v);
    }
}

/// The success resources of one deserialization: enough stack headroom
/// for the traversal's transient pushes, and enough registry slots for
/// its references.
pub open spec fn pull_resources(pre: SpecState, depth: nat) -> bool {
    &&& pre.stack.len() + 2 * depth <= MAX_STACK
    &&& occupied(pre.registry) + 3 * depth + 3 <= REGISTRY_MAX
}


/// Registering a non-nil value into a restored registry occupies one
/// fresh slot — fresh in the base registry too — and leaves everything
/// else restored.
proof fn lemma_register_except(
    b: Seq<Option<SpecValue>>,
    r: Seq<Option<SpecValue>>,
    v: SpecValue,
)
    requires
        crate::ser::reg_restored(b, r),
        v != SpecValue::Nil,
    ensures
        ({
            let slot = crate::state::spec_register_slot(r);
            let r2 = spec_register(r, v);
            &&& crate::ser::reg_restored_except(b, r2, slot)
            &&& 1 <= slot <= r2.len()
            &&& (slot - 1 < b.len() ==> b[slot - 1] is None)
            &&& r2[slot - 1] == Some(v)
            &&& spec_slot_value(r2, slot) == v
            &&& forall|i: int| 0 <= i < r.len() && i != slot - 1 ==> r2[i] == #[trigger] r[i]
        }),
{
    crate::lref::lemma_first_free_bounds(r, 0);
}

impl State {
    /// Deserializes the value on top of the stack into structured data,
    /// reading tables down to at most `depth` levels of nesting.  The
    /// stack, the heap and the globals are left exactly as they were;
    /// the registry slots used for the traversal are all released.
    ///
    /// What comes back is exactly the value's
    /// [`decode_val`](crate::codec::decode_val) meaning; the call is
    /// guaranteed to succeed whenever that meaning exists within `depth`
    /// and the machine has the stack and registry resources for the
    /// traversal ([`pull_resources`]).  Values of a kind that has no
    /// host representation, and tables nested more deeply than `depth`,
    /// fail with a descriptive error.
    pub fn pull_data(&mut self, depth: u64) -> (r: Result<Data, Error>)
        requires
            old(self).wf(),
            old(self)@.stack.len() >= 1,
        ensures
            final(self).wf(),
            final(self)@.stack == old(self)@.stack,
            final(self)@.heap == old(self)@.heap,
            final(self)@.globals == old(self)@.globals,
            final(self)@.mem == old(self)@.mem,
            crate::ser::reg_restored(old(self)@.registry, final(self)@.registry),
            (r matches Ok(d) ==> decode_val(
                old(self)@.heap,
                old(self)@.stack.last(),
                depth as nat,
            ) == Some(d@)),
            (r matches Err(e) ==> e.kind == ErrorKind::Custom || e.kind
                == ErrorKind::StackOverflow),
            (decode_val(old(self)@.heap, old(self)@.stack.last(), depth as nat) is Some
                && pull_resources(old(self)@, depth as nat) ==> r is Ok),
        decreases depth, 1int,
    {
        let v = self.value_at(-1);
        match v {
            Value::Nil => Ok(Data::Nil),
            Value::Boolean(b) => Ok(Data::Bool(b)),
            Value::Integer(n) => Ok(Data::Int(n)),
            Value::Float(bits) => Ok(Data::Float(bits)),
            Value::Str(bytes) => Ok(Data::Str(bytes)),
            Value::Table(t) => {
                if depth == 0 {
                    return Err(
                        Error::new(ErrorKind::Custom, "table is nested too deeply to read"),
                    );
                }
                let n = self.raw_len(-1);
                let cnt = match self.entry_count(-1) {
                    Ok(cnt) => cnt,
                    Err(e) => {
                        proof {
                            assert(false);
                        }
                        return Err(e);
                    },
                };
                if n == cnt {
                    self.pull_seq(depth, n, Ghost(t as int))
                } else {
                    self.pull_map(depth, Ghost(t as int))
                }
            },
            _ => Err(Error::new(ErrorKind::Custom, "unsupported value type")),
        }
    }

    /// Reads a sequence-shaped table (see [`pull_data`](State::pull_data)).
    fn pull_seq(&mut self, depth: u64, n: usize, t: Ghost<int>) -> (r: Result<Data, Error>)
        requires
            old(self).wf(),
            old(self)@.stack.len() >= 1,
            depth >= 1,
            old(self)@.stack.last() == SpecValue::Table(t@),
            0 <= t@ < old(self)@.heap.len(),
            n as nat == tlen(old(self)@.heap[t@]),
        ensures
            final(self).wf(),
            final(self)@.stack == old(self)@.stack,
            final(self)@.heap == old(self)@.heap,
            final(self)@.globals == old(self)@.globals,
            final(self)@.mem == old(self)@.mem,
            crate::ser::reg_restored(old(self)@.registry, final(self)@.registry),
            (r matches Ok(d) ==> (d@ matches SpecData::List(items) && decode_list(
                old(self)@.heap,
                old(self)@.heap[t@],
                1,
                n as int,
                (depth - 1) as nat,
            ) == Some(items))),
            (r matches Err(e) ==> e.kind == ErrorKind::Custom || e.kind
                == ErrorKind::StackOverflow),
            (decode_list(old(self)@.heap, old(self)@.heap[t@], 1, n as int, (depth - 1) as nat)
                is Some && pull_resources(old(self)@, depth as nat) ==> r is Ok),
        decreases depth, 0int,
    {
        let ghost pre = self@;
        let ghost tbl = pre.heap[t@];
        let ghost fuel = (depth - 1) as nat;
        let ghost hyp = decode_list(pre.heap, tbl, 1, n as int, fuel) is Some && pull_resources(
            pre,
            depth as nat,
        );
        proof {
            crate::table_data::lemma_tlen_rec_bound(tbl, 0, tbl.len());
        }
        if !self.reserve(2) {
            proof {
                if hyp {
                    assert(false);
                }
            }
            return Err(Error::new(ErrorKind::StackOverflow, "no stack space for a table"));
        }
        let mut tref = match LRef::register(self) {
            Ok(tref) => tref,
            Err(e) => {
                proof {
                    if hyp {
                        lemma_full_occupied(pre.registry);
                        assert(false);
                    }
                }
                return Err(e);
            },
        };
        let ghost base = spec_register(pre.registry, SpecValue::Table(t@));
        let mut out: Vec<Data> = Vec::new();
        let mut j: u64 = 1;
        while j <= (n as u64)
            invariant
                pre == old(self)@,
                self.wf(),
                depth >= 1,
                fuel == (depth - 1) as nat,
                tbl == pre.heap[t@],
                0 <= t@ < pre.heap.len(),
                pre.stack.len() >= 1,
                pre.stack.len() <= MAX_STACK,
                pre.stack.last() == SpecValue::Table(t@),
                n as nat == tlen(tbl),
                n <= i64::MAX,
                hyp == (decode_list(pre.heap, tbl, 1, n as int, fuel) is Some && pull_resources(
                    pre,
                    depth as nat,
                )),
                1 <= j <= n + 1,
                self@.heap == pre.heap,
                self@.globals == pre.globals,
                self@.mem == pre.mem,
                self@.stack == pre.stack.drop_last(),
                base == spec_register(pre.registry, SpecValue::Table(t@)),
                tref@ == crate::state::spec_register_slot(pre.registry),
                1 <= tref@ <= self@.registry.len(),
                self@.registry[tref@ - 1] == Some(SpecValue::Table(t@)),
                crate::ser::reg_restored(base, self@.registry),
                occupied(self@.registry) <= occupied(pre.registry) + 1,
                (match decode_list(pre.heap, tbl, j as int, n as int, fuel) {
                    Some(rest) => decode_list(pre.heap, tbl, 1, n as int, fuel) == Some(
                        crate::data::list_view(out@, 0) + rest,
                    ),
                    None => decode_list(pre.heap, tbl, 1, n as int, fuel) is None,
                }),
            decreases n as int + 1 - j,
        {
            let ghost lv = crate::data::list_view(out@, 0);
            if !self.reserve(2) {
                tref.get(self);
                let ghost curreg = self@.registry;
                tref.release(self);
                proof {
                    assert(self@.stack =~= pre.stack);
                    crate::ser::lemma_reg_stitch(pre.registry, SpecValue::Table(t@), curreg);
                    if hyp {
                        assert(false);
                    }
                }
                return Err(Error::new(ErrorKind::StackOverflow, "no stack space for a table"));
            }
            tref.get(self);
            match self.geti(-1, j as i64) {
                Ok(_) => {},
                Err(e) => {
                    proof {
                        assert(false);
                    }
                    return Err(e);
                },
            }
            let ghost ev = lookup(tbl, SpecValue::Integer(j as i64));
            proof {
                assert(self@.stack.last() == ev);
            }
            let topv = self.value_at(-1);
            if !topv.is_serializable() {
                self.pop(2);
                proof {
                    assert(self@.stack =~= pre.stack.drop_last());
                }
                j = j + 1;
                continue ;
            }
            let ghost mid = self@;
            match self.pull_data(depth - 1) {
                Ok(child) => {
                    self.pop(2);
                    proof {
                        assert(self@.stack =~= pre.stack.drop_last());
                        lemma_occ_restored(mid.registry, self@.registry);
                        crate::ser::lemma_reg_restored_trans(base, mid.registry, self@.registry);
                        assert(decode_val(pre.heap, ev, fuel) == Some(child@));
                        crate::data::lemma_list_view(out@, 0);
                        crate::data::lemma_list_view(out@.push(child), 0);
                        assert forall|q: int|
                            0 <= q < out@.push(child).len() implies crate::data::list_view(
                            out@.push(child),
                            0,
                        )[q] == (lv + seq![crate::data::data_view(child)])[q] by {
                            assert(crate::data::list_view(out@.push(child), 0)[q]
                                == crate::data::data_view(out@.push(child)[q]));
                            if q < out@.len() {
                                assert(out@.push(child)[q] == out@[q]);
                                assert(lv[q] == crate::data::data_view(out@[q]));
                            }
                        }
                        assert(crate::data::list_view(out@.push(child), 0) =~= lv + seq![
                            crate::data::data_view(child),
                        ]);
                    }
                    out.push(child);
                    j = j + 1;
                },
                Err(e) => {
                    self.pop(1);
                    let ghost curreg = self@.registry;
                    tref.release(self);
                    proof {
                        assert(self@.stack =~= pre.stack);
                        crate::ser::lemma_reg_restored_trans(base, mid.registry, curreg);
                        crate::ser::lemma_reg_stitch(pre.registry, SpecValue::Table(t@), curreg);
                        if hyp {
                            assert(decode_val(pre.heap, ev, fuel) is Some);
                            assert(pull_resources(mid, fuel));
                            assert(false);
                        }
                    }
                    return Err(e);
                },
            }
        }
        tref.get(self);
        let ghost curreg = self@.registry;
        tref.release(self);
        proof {
            assert(self@.stack =~= pre.stack);
            crate::ser::lemma_reg_stitch(pre.registry, SpecValue::Table(t@), curreg);
            assert(decode_list(pre.heap, tbl, j as int, n as int, fuel) == Some(
                Seq::<SpecData>::empty(),
            ));
            assert(decode_list(pre.heap, tbl, 1, n as int, fuel) == Some(
                crate::data::list_view(out@, 0) + Seq::<SpecData>::empty(),
            ));
            assert(crate::data::list_view(out@, 0) + Seq::<SpecData>::empty()
                =~= crate::data::list_view(out@, 0));
        }
        Ok(Data::List(out))
    }
}


impl State {
    /// Reads a map-shaped table (see [`pull_data`](State::pull_data)):
    /// traverses the entries with the machine's `next` primitive,
    /// keeping the table and the traversal's current key in the
    /// registry, and skipping entries whose key or value has no host
    /// representation.
    #[verifier::rlimit(80)]
    fn pull_map(&mut self, depth: u64, t: Ghost<int>) -> (r: Result<Data, Error>)
        requires
            old(self).wf(),
            old(self)@.stack.len() >= 1,
            depth >= 1,
            old(self)@.stack.last() == SpecValue::Table(t@),
            0 <= t@ < old(self)@.heap.len(),
        ensures
            final(self).wf(),
            final(self)@.stack == old(self)@.stack,
            final(self)@.heap == old(self)@.heap,
            final(self)@.globals == old(self)@.globals,
            final(self)@.mem == old(self)@.mem,
            crate::ser::reg_restored(old(self)@.registry, final(self)@.registry),
            (r matches Ok(d) ==> (d@ matches SpecData::Dict(prs) && decode_pairs(
                old(self)@.heap,
                old(self)@.heap[t@],
                0,
                (depth - 1) as nat,
            ) == Some(prs))),
            (r matches Err(e) ==> e.kind == ErrorKind::Custom || e.kind
                == ErrorKind::StackOverflow),
            (decode_pairs(old(self)@.heap, old(self)@.heap[t@], 0, (depth - 1) as nat) is Some
                && pull_resources(old(self)@, depth as nat) ==> r is Ok),
        decreases depth, 0int,
    {
        let ghost pre = self@;
        let ghost tbl = pre.heap[t@];
        let ghost fuel = (depth - 1) as nat;
        let ghost hyp = decode_pairs(pre.heap, tbl, 0, fuel) is Some && pull_resources(
            pre,
            depth as nat,
        );
        proof {
            assert(unique_keys(tbl));
            assert(crate::table_data::entries_ok(tbl));
        }
        if !self.reserve(2) {
            proof {
                if hyp {
                    assert(false);
                }
            }
            return Err(Error::new(ErrorKind::StackOverflow, "no stack space for a table"));
        }
        let mut tref = match LRef::register(self) {
            Ok(tref) => tref,
            Err(e) => {
                proof {
                    if hyp {
                        lemma_full_occupied(pre.registry);
                        assert(false);
                    }
                }
                return Err(e);
            },
        };
        let ghost base = spec_register(pre.registry, SpecValue::Table(t@));
        self.push_nil();
        let mut kref = match LRef::register(self) {
            Ok(kref) => kref,
            Err(e) => {
                proof {
                    assert(false);
                }
                return Err(e);
            },
        };
        let mut out: Vec<(Data, Data)> = Vec::new();
        let mut jj_exec: Ghost<int> = Ghost(0);
        let mut finished = false;
        while !finished
            invariant
                pre == old(self)@,
                self.wf(),
                depth >= 1,
                fuel == (depth - 1) as nat,
                tbl == pre.heap[t@],
                0 <= t@ < pre.heap.len(),
                pre.stack.len() >= 1,
                pre.stack.len() <= MAX_STACK,
                pre.stack.last() == SpecValue::Table(t@),
                unique_keys(tbl),
                crate::table_data::entries_ok(tbl),
                hyp == (decode_pairs(pre.heap, tbl, 0, fuel) is Some && pull_resources(
                    pre,
                    depth as nat,
                )),
                0 <= jj_exec@ <= tbl.len(),
                self@.heap == pre.heap,
                self@.globals == pre.globals,
                self@.mem == pre.mem,
                self@.stack == pre.stack.drop_last(),
                base == spec_register(pre.registry, SpecValue::Table(t@)),
                tref@ == crate::state::spec_register_slot(pre.registry),
                1 <= tref@ <= self@.registry.len(),
                self@.registry[tref@ - 1] == Some(SpecValue::Table(t@)),
                crate::ser::reg_restored_except(base, self@.registry, kref@),
                (kref@ == LUA_REFNIL || kref@ == LUA_NOREF) ==> crate::ser::reg_restored(
                    base,
                    self@.registry,
                ),
                kref@ >= 1 ==> (1 <= kref@ <= self@.registry.len() && kref@ != tref@ && (kref@
                    - 1 < base.len() ==> base[kref@ - 1] is None)),
                (!finished ==> spec_slot_value(self@.registry, kref@) == (if jj_exec@ == 0 {
                    SpecValue::Nil
                } else {
                    tbl[jj_exec@ - 1].0
                })),
                (jj_exec@ == 0 && !finished ==> kref@ == LUA_REFNIL),
                (!finished ==> kref@ != LUA_NOREF),
                (finished ==> (kref@ == LUA_NOREF && jj_exec@ == tbl.len())),
                occupied(self@.registry) <= occupied(pre.registry) + (if kref@ >= 1 {
                    2int
                } else {
                    1int
                }),
                (match decode_pairs(pre.heap, tbl, jj_exec@, fuel) {
                    Some(rest) => decode_pairs(pre.heap, tbl, 0, fuel) == Some(
                        crate::data::dict_view(out@, 0) + rest,
                    ),
                    None => decode_pairs(pre.heap, tbl, 0, fuel) is None,
                }),
            decreases tbl.len() - jj_exec@ + (if finished {
                0int
            } else {
                1int
            }),
        {
            let ghost dv0 = crate::data::dict_view(out@, 0);
            if !self.reserve(3) {
                let ghost curreg0 = self@.registry;
                let ghost kslot0 = kref@;
                kref.release(self);
                proof {
                    if kslot0 >= 1 {
                        crate::ser::lemma_except_freed_restores(base, curreg0, kslot0);
                    }
                }
                tref.get(self);
                let ghost curreg = self@.registry;
                tref.release(self);
                proof {
                    assert(self@.stack =~= pre.stack);
                    crate::ser::lemma_reg_stitch(pre.registry, SpecValue::Table(t@), curreg);
                    if hyp {
                        assert(false);
                    }
                }
                return Err(Error::new(ErrorKind::StackOverflow, "no stack space for a table"));
            }
            tref.get(self);
            let ghost curreg0 = self@.registry;
            let ghost kslot = kref@;
            kref.take(self);
            proof {
                if kslot >= 1 {
                    assert(jj_exec@ > 0);
                    assert(tbl[jj_exec@ - 1].0 != SpecValue::Nil);
                    assert(curreg0[kslot - 1] is Some) by {
                        if !(curreg0[kslot - 1] is Some) {
                            assert(spec_slot_value(curreg0, kslot) == SpecValue::Nil);
                        }
                    }
                    crate::ser::lemma_except_freed_restores(base, curreg0, kslot);
                    crate::lref::lemma_occupied_update_none(curreg0, kslot - 1);
                }
                if jj_exec@ > 0 {
                    crate::table_data::lemma_find_idx_unique(tbl, jj_exec@ - 1);
                }
            }
            // stack: [.., T, K]: one traversal step
            let more = match self.next(-2) {
                Ok(more) => more,
                Err(e) => {
                    proof {
                        assert(false);
                    }
                    return Err(e);
                },
            };
            proof {
                assert(spec_next_index(
                    tbl,
                    if jj_exec@ == 0 {
                        SpecValue::Nil
                    } else {
                        tbl[jj_exec@ - 1].0
                    },
                ) == jj_exec@);
            }
            if !more {
                proof {
                    assert(jj_exec@ == tbl.len());
                }
                self.pop(1);
                proof {
                    assert(self@.stack =~= pre.stack.drop_last());
                }
                finished = true;
                continue ;
            }
            // stack: [.., T, K', V'] where (K', V') is entry jj
            let kok = self.value_at(-2).is_serializable();
            let vok = self.value_at(-1).is_serializable();
            let child: Option<(Data, Data)> = if kok && vok {
                // read the value, then the key
                let ghost midv = self@;
                let child_v = match self.pull_data(depth - 1) {
                    Ok(child_v) => {
                        proof {
                            crate::ser::lemma_reg_restored_trans(
                                base,
                                midv.registry,
                                self@.registry,
                            );
                            lemma_occ_restored(midv.registry, self@.registry);
                        }
                        child_v
                    },
                    Err(e) => {
                        self.pop(2);
                        let ghost curreg = self@.registry;
                        tref.release(self);
                        proof {
                            assert(self@.stack =~= pre.stack);
                            crate::ser::lemma_reg_restored_trans(base, midv.registry, curreg);
                            crate::ser::lemma_reg_stitch(
                                pre.registry,
                                SpecValue::Table(t@),
                                curreg,
                            );
                            if hyp {
                                lemma_occ_restored(base, midv.registry);
                                lemma_occ_register(pre.registry, SpecValue::Table(t@));
                                assert(decode_val(pre.heap, tbl[jj_exec@].1, fuel) is Some);
                                assert(pull_resources(midv, fuel));
                                assert(false);
                            }
                        }
                        return Err(e);
                    },
                };
                self.pop(1);
                // stack: [.., T, K']
                let ghost midk = self@;
                let child_k = match self.pull_data(depth - 1) {
                    Ok(child_k) => {
                        proof {
                            crate::ser::lemma_reg_restored_trans(
                                base,
                                midk.registry,
                                self@.registry,
                            );
                            lemma_occ_restored(midk.registry, self@.registry);
                        }
                        child_k
                    },
                    Err(e) => {
                        self.pop(1);
                        let ghost curreg = self@.registry;
                        tref.release(self);
                        proof {
                            assert(self@.stack =~= pre.stack);
                            crate::ser::lemma_reg_restored_trans(base, midk.registry, curreg);
                            crate::ser::lemma_reg_stitch(
                                pre.registry,
                                SpecValue::Table(t@),
                                curreg,
                            );
                            if hyp {
                                lemma_occ_restored(base, midk.registry);
                                lemma_occ_register(pre.registry, SpecValue::Table(t@));
                                assert(decode_val(pre.heap, tbl[jj_exec@].0, fuel) is Some);
                                assert(pull_resources(midk, fuel));
                                assert(false);
                            }
                        }
                        return Err(e);
                    },
                };
                Some((child_k, child_v))
            } else {
                // entry skipped: drop the value, keep the key as cursor
                self.pop(1);
                None
            };
            // stack: [.., T, K']: rotate the cursor into the registry
            let ghost curreg1 = self@.registry;
            match kref.replace(self) {
                Ok(_) => {},
                Err(e) => {
                    self.pop(1);
                    let ghost curreg = self@.registry;
                    tref.release(self);
                    proof {
                        assert(self@.stack =~= pre.stack);
                        crate::ser::lemma_reg_stitch(pre.registry, SpecValue::Table(t@), curreg);
                        if hyp {
                            lemma_occ_restored(base, curreg1);
                            lemma_occ_register(pre.registry, SpecValue::Table(t@));
                            lemma_full_occupied(curreg1);
                            assert(false);
                        }
                    }
                    return Err(e);
                },
            }
            self.pop(1);
            proof {
                assert(self@.stack =~= pre.stack.drop_last());
                // the fresh cursor slot is fresh in the base registry too
                lemma_register_except(base, curreg1, tbl[jj_exec@].0);
                lemma_occ_restored(base, curreg1);
                lemma_occ_register(curreg1, tbl[jj_exec@].0);
                crate::lref::lemma_first_free_bounds(pre.registry, 0);
                assert(base[tref@ - 1] == Some(SpecValue::Table(t@)));
                assert(curreg1[tref@ - 1] == Some(SpecValue::Table(t@)));
                crate::lref::lemma_first_free_bounds(curreg1, 0);
                assert(kref@ == crate::state::spec_register_slot(curreg1));
                assert(kref@ != tref@);
            }
            match child {
                Some(pair) => {
                    proof {
                        assert(decode_val(pre.heap, tbl[jj_exec@].0, fuel) == Some(
                            crate::data::data_view(pair.0),
                        ));
                        assert(decode_val(pre.heap, tbl[jj_exec@].1, fuel) == Some(
                            crate::data::data_view(pair.1),
                        ));
                        crate::data::lemma_dict_view(out@, 0);
                        crate::data::lemma_dict_view(out@.push(pair), 0);
                        assert forall|q: int|
                            0 <= q < out@.push(pair).len() implies crate::data::dict_view(
                            out@.push(pair),
                            0,
                        )[q] == (dv0 + seq![
                            (crate::data::data_view(pair.0), crate::data::data_view(pair.1)),
                        ])[q] by {
                            assert(crate::data::dict_view(out@.push(pair), 0)[q] == (
                            crate::data::data_view(out@.push(pair)[q].0),
                            crate::data::data_view(out@.push(pair)[q].1),
                            ));
                            if q < out@.len() {
                                assert(out@.push(pair)[q] == out@[q]);
                                assert(dv0[q] == (
                                crate::data::data_view(out@[q].0),
                                crate::data::data_view(out@[q].1),
                                ));
                            }
                        }
                        assert(crate::data::dict_view(out@.push(pair), 0) =~= dv0 + seq![
                            (crate::data::data_view(pair.0), crate::data::data_view(pair.1)),
                        ]);
                    }
                    out.push(pair);
                },
                None => {},
            }
            proof {
                jj_exec@ = jj_exec@ + 1;
            }
        }
        tref.get(self);
        let ghost curreg = self@.registry;
        tref.release(self);
        proof {
            assert(self@.stack =~= pre.stack);
            crate::ser::lemma_reg_stitch(pre.registry, SpecValue::Table(t@), curreg);
            assert(decode_pairs(pre.heap, tbl, jj_exec@, fuel) == Some(
                Seq::<(SpecData, SpecData)>::empty(),
            ));
            assert(crate::data::dict_view(out@, 0) + Seq::<(SpecData, SpecData)>::empty()
                =~= crate::data::dict_view(out@, 0));
        }
        Ok(Data::Dict(out))
    }
}

impl State {
    /// The round-trip law, executed: serializes a structured value and
    /// immediately deserializes the machine value that was produced,
    /// leaving the machine exactly as it was (up to tables awaiting
    /// collection).
    ///
    /// For every round-trip-supported shape ([`rt_ok`]), whatever comes
    /// back equals what went in; and the trip is guaranteed to complete
    /// whenever the machine has the stack and registry resources for it.
    pub fn round_trip(&mut self, d: &Data) -> (r: Result<Data, Error>)
        requires
            old(self).wf(),
        ensures
            final(self).wf(),
            final(self)@.stack == old(self)@.stack,
            final(self)@.globals == old(self)@.globals,
            final(self)@.mem == old(self)@.mem,
            crate::ser::reg_restored(old(self)@.registry, final(self)@.registry),
            (r matches Err(e) ==> e.kind == ErrorKind::StackOverflow || e.kind
                == ErrorKind::Custom),
            (rt_ok(d@) ==> (r matches Ok(back) ==> back@ == d@)),
            (rt_ok(d@) && crate::data::fits(d@) && old(self)@.stack.len() + crate::data::ser_need(
                d@,
            ) + 2 * height(d@) <= MAX_STACK && occupied(old(self)@.registry) + 3 * height(d@) + 3
                <= REGISTRY_MAX ==> r is Ok),
    {
        let ghost pre = self@;
        let ghost hyp = rt_ok(d@) && crate::data::fits(d@) && pre.stack.len()
            + crate::data::ser_need(d@) + 2 * height(d@) <= MAX_STACK && occupied(pre.registry) + 3
            * height(d@) + 3 <= REGISTRY_MAX;
        proof {
            crate::ser::lemma_ser_need_pos(d@);
        }
        match self.push_data(d) {
            Ok(_) => {},
            Err(e) => {
                proof {
                    if hyp {
                        assert(false);
                    }
                }
                return Err(e);
            },
        }
        let ghost mid = self@;
        let ghost v = mid.stack.last();
        let h = d.height_bound();
        if h == u64::MAX {
            self.pop(1);
            proof {
                assert(self@.stack =~= pre.stack);
                if hyp {
                    assert(height(d@) < u64::MAX);
                    assert(false);
                }
            }
            return Err(Error::new(ErrorKind::Custom, "value is nested too deeply"));
        }
        let back = match self.pull_data(h) {
            Ok(back) => back,
            Err(e) => {
                self.pop(1);
                proof {
                    assert(self@.stack =~= pre.stack);
                    crate::ser::lemma_reg_restored_trans(pre.registry, mid.registry, self@.registry);
                    if hyp {
                        assert(decode_val(mid.heap, v, height(d@)) == Some(d@));
                        crate::codec::lemma_decode_mono(mid.heap, v, height(d@), h as nat);
                        lemma_occ_restored(pre.registry, mid.registry);
                        assert(pull_resources(mid, h as nat));
                        assert(false);
                    }
                }
                return Err(e);
            },
        };
        self.pop(1);
        proof {
            assert(self@.stack =~= pre.stack);
            crate::ser::lemma_reg_restored_trans(pre.registry, mid.registry, self@.registry);
            if rt_ok(d@) {
                assert(decode_val(mid.heap, v, height(d@)) == Some(d@));
                crate::codec::lemma_decode_mono(mid.heap, v, height(d@), h as nat);
                assert(decode_val(mid.heap, v, h as nat) == Some(back@));
            }
        }
        Ok(back)
    }
}

impl State {
    /// Reads the value on top of the stack as an enum variant encoding:
    /// a string is a unit variant (its name), and a single-entry table
    /// maps the variant's name to its payload — an inner value for a
    /// newtype variant, a sequence for a tuple variant, a map for a
    /// struct variant.  Returns the variant's name and the payload (if
    /// any), leaving the stack exactly as it was.  Any other shape of
    /// value fails with a descriptive error.
    pub fn pull_variant(&mut self, depth: u64) -> (r: Result<(Vec<u8>, Option<Data>), Error>)
        requires
            old(self).wf(),
            old(self)@.stack.len() >= 1,
            old(self)@.stack.len() + 2 <= MAX_STACK,
        ensures
            final(self).wf(),
            final(self)@.stack == old(self)@.stack,
            final(self)@.heap == old(self)@.heap,
            final(self)@.globals == old(self)@.globals,
            final(self)@.mem == old(self)@.mem,
            crate::ser::reg_restored(old(self)@.registry, final(self)@.registry),
            (r matches Ok(v) ==> {
                let top = old(self)@.stack.last();
                let heap = old(self)@.heap;
                ||| (top == SpecValue::Str(v.0@) && v.1 is None)
                ||| (top matches SpecValue::Table(t) && 0 <= t < heap.len() && heap[t].len() == 1
                    && heap[t][0].0 == SpecValue::Str(v.0@) && (v.1 matches Some(d)
                    && decode_val(heap, heap[t][0].1, depth as nat) == Some(d@)))
            }),
            (old(self)@.stack.last() matches SpecValue::Str(nm) ==> (r matches Ok(v) && v.0@ == nm
                && v.1 is None)),
            (r matches Err(e) ==> e.kind == ErrorKind::Custom || e.kind == ErrorKind::StackOverflow
                || e.kind == ErrorKind::InvalidData),
            ({
                let pre = old(self)@;
                let top = pre.stack.last();
                (top matches SpecValue::Table(t) && 0 <= t < pre.heap.len() && pre.heap[t].len()
                    == 1 && (pre.heap[t][0].0 matches SpecValue::Str(_)) && decode_val(
                    pre.heap,
                    pre.heap[t][0].1,
                    depth as nat,
                ) is Some && pre.stack.len() + 2 + 2 * depth <= MAX_STACK && occupied(pre.registry)
                    + 3 * depth + 3 <= REGISTRY_MAX) ==> r is Ok
            }),
    {
        let ghost pre = self@;
        let ghost vhyp = pre.stack.last() matches SpecValue::Table(t2) && 0 <= t2
            < pre.heap.len() && pre.heap[t2].len() == 1 && (pre.heap[t2][0].0 matches
        SpecValue::Str(_)) && decode_val(pre.heap, pre.heap[t2][0].1, depth as nat) is Some
            && pre.stack.len() + 2 + 2 * depth <= MAX_STACK && occupied(pre.registry) + 3 * depth
            + 3 <= REGISTRY_MAX;
        let v = self.value_at(-1);
        match v {
            Value::Str(name) => Ok((name, None)),
            Value::Table(t) => {
                let cnt = match self.entry_count(-1) {
                    Ok(cnt) => cnt,
                    Err(e) => {
                        proof {
                            assert(false);
                        }
                        return Err(e);
                    },
                };
                if cnt != 1 {
                    proof {
                        if vhyp {
                            assert(false);
                        }
                    }
                    return Err(
                        Error::new(
                            ErrorKind::InvalidData,
                            "a variant table must hold exactly one entry",
                        ),
                    );
                }
                self.push_nil();
                let more = match self.next(-2) {
                    Ok(more) => more,
                    Err(e) => {
                        proof {
                            assert(false);
                        }
                        return Err(e);
                    },
                };
                if !more {
                    proof {
                        assert(spec_next_index(pre.heap[t as int], SpecValue::Nil) == 0);
                        assert(false);
                    }
                    return Err(Error::new(ErrorKind::InvalidData, "empty variant table"));
                }
                proof {
                    assert(self@.stack.last() == pre.heap[t as int][0].1);
                }
                // stack: [.., T, K, V]
                let name = match self.as_bytes(-2) {
                    Some(name) => name,
                    None => {
                        self.pop(2);
                        proof {
                            assert(self@.stack =~= pre.stack);
                            if vhyp {
                                assert(false);
                            }
                        }
                        return Err(
                            Error::new(ErrorKind::InvalidData, "non-string variant name"),
                        );
                    },
                };
                let payload = match self.pull_data(depth) {
                    Ok(payload) => payload,
                    Err(e) => {
                        self.pop(2);
                        proof {
                            assert(self@.stack =~= pre.stack);
                            if vhyp {
                                assert(pull_resources(
                                    crate::state::with_stack(
                                        pre,
                                        pre.stack.push(pre.heap[t as int][0].0).push(
                                            pre.heap[t as int][0].1,
                                        ),
                                    ),
                                    depth as nat,
                                ));
                                assert(false);
                            }
                        }
                        return Err(e);
                    },
                };
                self.pop(2);
                proof {
                    assert(self@.stack =~= pre.stack);
                    assert(pre.heap[t as int][0].0 == SpecValue::Str(name@));
                    assert(decode_val(pre.heap, pre.heap[t as int][0].1, depth as nat) == Some(
                        payload@,
                    ));
                }
                Ok((name, Some(payload)))
            },
            _ => Err(
                Error::new(ErrorKind::InvalidData, "unsupported enum value on the stack"),
            ),
        }
    }
}

impl State {
    /// Reads the table on top of the stack as a **sequence**, by the
    /// caller's declared expectation: positions `1 ..` up to the table's
    /// border are read in order, whatever other entries the table holds.
    /// This resolves the shape ambiguity of [`pull_data`](State::pull_data)
    /// the way a caller that knows it wants a sequence would.  The stack
    /// is left exactly as it was.
    pub fn pull_seq_data(&mut self, depth: u64) -> (r: Result<Data, Error>)
        requires
            old(self).wf(),
            old(self)@.stack.len() >= 1,
        ensures
            final(self).wf(),
            final(self)@.stack == old(self)@.stack,
            final(self)@.heap == old(self)@.heap,
            final(self)@.globals == old(self)@.globals,
            final(self)@.mem == old(self)@.mem,
            crate::ser::reg_restored(old(self)@.registry, final(self)@.registry),
            (r matches Ok(d) ==> {
                let pre = old(self)@;
                let t = crate::state::table_id_of(pre.stack.last());
                &&& pre.stack.last() matches SpecValue::Table(_)
                &&& depth >= 1
                &&& (d@ matches SpecData::List(items) && decode_list(
                    pre.heap,
                    pre.heap[t],
                    1,
                    tlen(pre.heap[t]) as int,
                    (depth - 1) as nat,
                ) == Some(items))
            }),
            (r matches Err(e) ==> e.kind == ErrorKind::Custom || e.kind == ErrorKind::StackOverflow
                || e.kind == ErrorKind::InvalidData),
            ({
                let pre = old(self)@;
                let t = crate::state::table_id_of(pre.stack.last());
                (pre.stack.last() matches SpecValue::Table(_) && depth >= 1 && decode_list(
                    pre.heap,
                    pre.heap[t],
                    1,
                    tlen(pre.heap[t]) as int,
                    (depth - 1) as nat,
                ) is Some && pull_resources(pre, depth as nat)) ==> r is Ok
            }),
    {
        let v = self.value_at(-1);
        match v {
            Value::Table(t) => {
                if depth == 0 {
                    return Err(
                        Error::new(ErrorKind::Custom, "table is nested too deeply to read"),
                    );
                }
                let n = self.raw_len(-1);
                self.pull_seq(depth, n, Ghost(t as int))
            },
            _ => Err(Error::new(ErrorKind::InvalidData, "expected a table")),
        }
    }

    /// Reads the table on top of the stack as a **map**, by the caller's
    /// declared expectation: every entry in storage order, whatever the
    /// keys look like — a table whose keys happen to be `1 ..= n`, or an
    /// empty table, reads back as a map here.  This resolves the shape
    /// ambiguity of [`pull_data`](State::pull_data) the way a caller
    /// that knows it wants a map would.  The stack is left exactly as it
    /// was.
    pub fn pull_map_data(&mut self, depth: u64) -> (r: Result<Data, Error>)
        requires
            old(self).wf(),
            old(self)@.stack.len() >= 1,
        ensures
            final(self).wf(),
            final(self)@.stack == old(self)@.stack,
            final(self)@.heap == old(self)@.heap,
            final(self)@.globals == old(self)@.globals,
            final(self)@.mem == old(self)@.mem,
            crate::ser::reg_restored(old(self)@.registry, final(self)@.registry),
            (r matches Ok(d) ==> {
                let pre = old(self)@;
                let t = crate::state::table_id_of(pre.stack.last());
                &&& pre.stack.last() matches SpecValue::Table(_)
                &&& depth >= 1
                &&& (d@ matches SpecData::Dict(prs) && decode_pairs(
                    pre.heap,
                    pre.heap[t],
                    0,
                    (depth - 1) as nat,
                ) == Some(prs))
            }),
            (r matches Err(e) ==> e.kind == ErrorKind::Custom || e.kind == ErrorKind::StackOverflow
                || e.kind == ErrorKind::InvalidData),
            ({
                let pre = old(self)@;
                let t = crate::state::table_id_of(pre.stack.last());
                (pre.stack.last() matches SpecValue::Table(_) && depth >= 1 && decode_pairs(
                    pre.heap,
                    pre.heap[t],
                    0,
                    (depth - 1) as nat,
                ) is Some && pull_resources(pre, depth as nat)) ==> r is Ok
            }),
    {
        let v = self.value_at(-1);
        match v {
            Value::Table(t) => {
                if depth == 0 {
                    return Err(
                        Error::new(ErrorKind::Custom, "table is nested too deeply to read"),
                    );
                }
                self.pull_map(depth, Ghost(t as int))
            },
            _ => Err(Error::new(ErrorKind::InvalidData, "expected a table")),
        }
    }
}

} // verus!
