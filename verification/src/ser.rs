//! The serializer: structured host data to machine stack pushes.
//!
//! Each top-level serialization leaves exactly one value on top of the
//! operand stack.  Aggregates are built through a cursor
//! ([`TableSerializer`]) that holds the table being built — and, for a
//! map, the pending key — in the registry rather than at a stack
//! position, because nested serialization pushes and pops freely and
//! would shift any raw index (see [`lref`](crate::lref)).
//!
//! The contracts speak through [`decode_val`](crate::codec::decode_val):
//! what is pushed decodes to the data that was given, so deserializing it
//! gives the data back (the round-trip law, for the shapes
//! [`rt_ok`](crate::data::rt_ok) admits).

use vstd::prelude::*;

use crate::codec::{
    decode_val, decode_pairs, lemma_decode_frame, lemma_decode_mono, lemma_decode_list_all,
    lemma_decode_pairs_all, pairs_in, region_closed, val_in,
};
use crate::data::{
    Data, SpecData, data_view, height, rt_ok, fits, ser_need, list_view, dict_view, list_rt_ok,
    dict_rt_ok, keys_distinct, keys_positional, has_int_key, list_height, dict_height,
    list_need, dict_need, list_fits, dict_fits, lemma_list_view, lemma_dict_view,
    lemma_list_rt_ok, lemma_dict_rt_ok, lemma_list_height, lemma_dict_height, lemma_list_need,
    lemma_dict_need, lemma_list_fits, lemma_dict_fits,
};
use crate::error::{Error, ErrorKind};
use crate::lref::LRef;
use crate::state::{
    State, SpecState, with_stack, abs_index, valid_index, stack_val, is_table, table_id_of,
    first_free, occupied, spec_register, spec_register_slot, spec_slot_value, MAX_STACK,
    LUA_NOREF, LUA_REFNIL, REGISTRY_MAX,
};
use crate::table_data::{
    SpecTable, lookup, store, tlen, lemma_find_idx_bounds, lemma_lookup_absent,
    lemma_tlen_all_present, lemma_tlen_present,
};
use crate::value::{SpecValue, spec_serializable};

verus! {

broadcast use vstd::std_specs::vec::group_vec_axioms;

/// The second heap keeps every table of the first, unchanged, possibly
/// followed by new ones.
pub open spec fn heap_extends(post: Seq<SpecTable>, pre: Seq<SpecTable>) -> bool {
    post.len() >= pre.len() && forall|i: int| 0 <= i < pre.len() ==> post[i] == #[trigger] pre[i]
}

/// The second registry keeps every slot of the first, unchanged; any new
/// slots are free.  This is how a registry looks after balanced
/// register/release traffic.
pub open spec fn reg_restored(pre: Seq<Option<SpecValue>>, post: Seq<Option<SpecValue>>) -> bool {
    &&& post.len() >= pre.len()
    &&& forall|i: int| 0 <= i < pre.len() ==> post[i] == #[trigger] pre[i]
    &&& forall|i: int| pre.len() <= i < post.len() ==> #[trigger] post[i] is None
}

/// `reg_restored` composes.
pub proof fn lemma_reg_restored_trans(
    a: Seq<Option<SpecValue>>,
    b: Seq<Option<SpecValue>>,
    c: Seq<Option<SpecValue>>,
)
    requires
        reg_restored(a, b),
        reg_restored(b, c),
    ensures
        reg_restored(a, c),
{
    assert forall|i: int| a.len() <= i < c.len() implies #[trigger] c[i] is None by {
        if i < b.len() {
            assert(c[i] == b[i]);
        }
    }
}

/// Registering a value and then freeing the slot it was given restores
/// the registry.
pub proof fn lemma_register_free_restores(reg: Seq<Option<SpecValue>>, v: SpecValue)
    ensures
        reg_restored(reg, spec_register(reg, v).update(spec_register_slot(reg) - 1, None)),
{
    crate::lref::lemma_first_free_bounds(reg, 0);
}

/// Every value needs at least one stack slot.
pub proof fn lemma_ser_need_pos(d: SpecData)
    ensures
        ser_need(d) >= 1,
{
}

/// A registry below the occupied cap always has room to register.
pub proof fn lemma_registry_has_room(reg: Seq<Option<SpecValue>>)
    requires
        occupied(reg) < REGISTRY_MAX,
    ensures
        !(first_free(reg, 0) == reg.len() && reg.len() == REGISTRY_MAX),
{
    if first_free(reg, 0) == reg.len() && reg.len() == REGISTRY_MAX {
        crate::de::lemma_full_occupied(reg);
    }
}

/// Region closure composes across a heap extension whose new tables are
/// themselves region-closed.
pub proof fn lemma_region_compose(h1: Seq<SpecTable>, h2: Seq<SpecTable>, lo: int)
    requires
        0 <= lo <= h1.len(),
        heap_extends(h2, h1),
        region_closed(h1, lo),
        region_closed(h2, h1.len() as int),
    ensures
        region_closed(h2, lo),
{
    assert forall|t: int| lo <= t < h2.len() implies pairs_in(
        #[trigger] h2[t],
        lo,
        h2.len() as int,
    ) by {
        if t < h1.len() {
            assert(h2[t] == h1[t]);
            assert(pairs_in(h1[t], lo, h1.len() as int));
            assert forall|j: int| 0 <= j < h2[t].len() implies val_in(
                #[trigger] h2[t][j].0,
                lo,
                h2.len() as int,
            ) && val_in(h2[t][j].1, lo, h2.len() as int) by {
                assert(val_in(h1[t][j].0, lo, h1.len() as int));
                assert(val_in(h1[t][j].1, lo, h1.len() as int));
            }
        } else {
            assert(pairs_in(h2[t], h1.len() as int, h2.len() as int));
            assert forall|j: int| 0 <= j < h2[t].len() implies val_in(
                #[trigger] h2[t][j].0,
                lo,
                h2.len() as int,
            ) && val_in(h2[t][j].1, lo, h2.len() as int) by {
                assert(val_in(h2[t][j].0, h1.len() as int, h2.len() as int));
                assert(val_in(h2[t][j].1, h1.len() as int, h2.len() as int));
            }
        }
    }
}

impl State {
    /// Pushes a boolean, using one stack slot.
    pub fn serialize_bool(&mut self, v: bool) -> (r: Result<i32, Error>)
        requires
            old(self).wf(),
        ensures
            final(self).wf(),
            (r is Err) == (old(self)@.stack.len() == MAX_STACK),
            (r matches Err(e) ==> e.kind == ErrorKind::StackOverflow && final(self)@ == old(
                self,
            )@),
            (r matches Ok(n) ==> n == 1 && final(self)@ == with_stack(
                old(self)@,
                old(self)@.stack.push(SpecValue::Boolean(v)),
            )),
    {
        if !self.reserve(1) {
            return Err(Error::new(ErrorKind::StackOverflow, "no stack space for a value"));
        }
        self.push_boolean(v);
        Ok(1)
    }

    /// Pushes a signed integer, using one stack slot.
    pub fn serialize_i64(&mut self, v: i64) -> (r: Result<i32, Error>)
        requires
            old(self).wf(),
        ensures
            final(self).wf(),
            (r is Err) == (old(self)@.stack.len() == MAX_STACK),
            (r matches Err(e) ==> e.kind == ErrorKind::StackOverflow && final(self)@ == old(
                self,
            )@),
            (r matches Ok(n) ==> n == 1 && final(self)@ == with_stack(
                old(self)@,
                old(self)@.stack.push(SpecValue::Integer(v)),
            )),
    {
        if !self.reserve(1) {
            return Err(Error::new(ErrorKind::StackOverflow, "no stack space for a value"));
        }
        self.push_integer(v);
        Ok(1)
    }

    /// Pushes a 32-bit signed integer, using one stack slot.
    pub fn serialize_i32(&mut self, v: i32) -> (r: Result<i32, Error>)
        requires
            old(self).wf(),
        ensures
            final(self).wf(),
            (r is Err) == (old(self)@.stack.len() == MAX_STACK),
            (r matches Err(e) ==> e.kind == ErrorKind::StackOverflow && final(self)@ == old(
                self,
            )@),
            (r matches Ok(n) ==> n == 1 && final(self)@ == with_stack(
                old(self)@,
                old(self)@.stack.push(SpecValue::Integer(v as i64)),
            )),
    {
        self.serialize_i64(v as i64)
    }

    /// Pushes a 16-bit signed integer, using one stack slot.
    pub fn serialize_i16(&mut self, v: i16) -> (r: Result<i32, Error>)
        requires
            old(self).wf(),
        ensures
            final(self).wf(),
            (r is Err) == (old(self)@.stack.len() == MAX_STACK),
            (r matches Err(e) ==> e.kind == ErrorKind::StackOverflow && final(self)@ == old(
                self,
            )@),
            (r matches Ok(n) ==> n == 1 && final(self)@ == with_stack(
                old(self)@,
                old(self)@.stack.push(SpecValue::Integer(v as i64)),
            )),
    {
        self.serialize_i64(v as i64)
    }

    /// Pushes an 8-bit signed integer, using one stack slot.
    pub fn serialize_i8(&mut self, v: i8) -> (r: Result<i32, Error>)
        requires
            old(self).wf(),
        ensures
            final(self).wf(),
            (r is Err) == (old(self)@.stack.len() == MAX_STACK),
            (r matches Err(e) ==> e.kind == ErrorKind::StackOverflow && final(self)@ == old(
                self,
            )@),
            (r matches Ok(n) ==> n == 1 && final(self)@ == with_stack(
                old(self)@,
                old(self)@.stack.push(SpecValue::Integer(v as i64)),
            )),
    {
        self.serialize_i64(v as i64)
    }

    /// Pushes an 8-bit unsigned integer, using one stack slot.
    pub fn serialize_u8(&mut self, v: u8) -> (r: Result<i32, Error>)
        requires
            old(self).wf(),
        ensures
            final(self).wf(),
            (r is Err) == (old(self)@.stack.len() == MAX_STACK),
            (r matches Err(e) ==> e.kind == ErrorKind::StackOverflow && final(self)@ == old(
                self,
            )@),
            (r matches Ok(n) ==> n == 1 && final(self)@ == with_stack(
                old(self)@,
                old(self)@.stack.push(SpecValue::Integer(v as i64)),
            )),
    {
        self.serialize_i64(v as i64)
    }

    /// Pushes a 16-bit unsigned integer, using one stack slot.
    pub fn serialize_u16(&mut self, v: u16) -> (r: Result<i32, Error>)
        requires
            old(self).wf(),
        ensures
            final(self).wf(),
            (r is Err) == (old(self)@.stack.len() == MAX_STACK),
            (r matches Err(e) ==> e.kind == ErrorKind::StackOverflow && final(self)@ == old(
                self,
            )@),
            (r matches Ok(n) ==> n == 1 && final(self)@ == with_stack(
                old(self)@,
                old(self)@.stack.push(SpecValue::Integer(v as i64)),
            )),
    {
        self.serialize_i64(v as i64)
    }

    /// Pushes a 32-bit unsigned integer, using one stack slot.
    pub fn serialize_u32(&mut self, v: u32) -> (r: Result<i32, Error>)
        requires
            old(self).wf(),
        ensures
            final(self).wf(),
            (r is Err) == (old(self)@.stack.len() == MAX_STACK),
            (r matches Err(e) ==> e.kind == ErrorKind::StackOverflow && final(self)@ == old(
                self,
            )@),
            (r matches Ok(n) ==> n == 1 && final(self)@ == with_stack(
                old(self)@,
                old(self)@.stack.push(SpecValue::Integer(v as i64)),
            )),
    {
        self.serialize_i64(v as i64)
    }

    /// Pushes a 64-bit unsigned integer, using one stack slot.  A value
    /// beyond the signed 64-bit range cannot be represented and fails
    /// with a numeric-range error rather than wrapping.
    pub fn serialize_u64(&mut self, v: u64) -> (r: Result<i32, Error>)
        requires
            old(self).wf(),
        ensures
            final(self).wf(),
            (r is Err) == (v > i64::MAX || old(self)@.stack.len() == MAX_STACK),
            (r matches Err(e) ==> final(self)@ == old(self)@ && (e.kind == if v > i64::MAX {
                ErrorKind::Custom
            } else {
                ErrorKind::StackOverflow
            })),
            (r matches Ok(n) ==> n == 1 && final(self)@ == with_stack(
                old(self)@,
                old(self)@.stack.push(SpecValue::Integer(v as i64)),
            )),
    {
        if v > (i64::MAX as u64) {
            return Err(
                Error::new(ErrorKind::Custom, "u64 value out of range of the machine integer"),
            );
        }
        self.serialize_i64(v as i64)
    }

    /// Pushes a float given by its raw bit pattern, using one stack slot.
    pub fn serialize_number_bits(&mut self, bits: u64) -> (r: Result<i32, Error>)
        requires
            old(self).wf(),
        ensures
            final(self).wf(),
            (r is Err) == (old(self)@.stack.len() == MAX_STACK),
            (r matches Err(e) ==> e.kind == ErrorKind::StackOverflow && final(self)@ == old(
                self,
            )@),
            (r matches Ok(n) ==> n == 1 && final(self)@ == with_stack(
                old(self)@,
                old(self)@.stack.push(SpecValue::Float(bits)),
            )),
    {
        if !self.reserve(1) {
            return Err(Error::new(ErrorKind::StackOverflow, "no stack space for a value"));
        }
        self.push_number_bits(bits);
        Ok(1)
    }

    /// Pushes a byte string, using one stack slot.  Embedded zero bytes
    /// are preserved: the machine's strings are length-delimited.
    pub fn serialize_bytes(&mut self, v: &[u8]) -> (r: Result<i32, Error>)
        requires
            old(self).wf(),
        ensures
            final(self).wf(),
            (r is Err) == (old(self)@.stack.len() == MAX_STACK),
            (r matches Err(e) ==> e.kind == ErrorKind::StackOverflow && final(self)@ == old(
                self,
            )@),
            (r matches Ok(n) ==> n == 1 && final(self)@ == with_stack(
                old(self)@,
                old(self)@.stack.push(SpecValue::Str(v@)),
            )),
    {
        if !self.reserve(1) {
            return Err(Error::new(ErrorKind::StackOverflow, "no stack space for a value"));
        }
        self.push_string(v);
        Ok(1)
    }

    /// Pushes nil for an absent optional value, using one stack slot.
    pub fn serialize_none(&mut self) -> (r: Result<i32, Error>)
        requires
            old(self).wf(),
        ensures
            final(self).wf(),
            (r is Err) == (old(self)@.stack.len() == MAX_STACK),
            (r matches Err(e) ==> e.kind == ErrorKind::StackOverflow && final(self)@ == old(
                self,
            )@),
            (r matches Ok(n) ==> n == 1 && final(self)@ == with_stack(
                old(self)@,
                old(self)@.stack.push(SpecValue::Nil),
            )),
    {
        self.serialize_unit()
    }

    /// Pushes nil for the unit value, using one stack slot.
    pub fn serialize_unit(&mut self) -> (r: Result<i32, Error>)
        requires
            old(self).wf(),
        ensures
            final(self).wf(),
            (r is Err) == (old(self)@.stack.len() == MAX_STACK),
            (r matches Err(e) ==> e.kind == ErrorKind::StackOverflow && final(self)@ == old(
                self,
            )@),
            (r matches Ok(n) ==> n == 1 && final(self)@ == with_stack(
                old(self)@,
                old(self)@.stack.push(SpecValue::Nil),
            )),
    {
        if !self.reserve(1) {
            return Err(Error::new(ErrorKind::StackOverflow, "no stack space for a value"));
        }
        self.push_nil();
        Ok(1)
    }

    /// A unit enum variant is encoded as a string holding the variant's
    /// name; pushes it, using one stack slot.
    pub fn serialize_unit_variant(&mut self, variant: &[u8]) -> (r: Result<i32, Error>)
        requires
            old(self).wf(),
        ensures
            final(self).wf(),
            (r is Err) == (old(self)@.stack.len() == MAX_STACK),
            (r matches Err(e) ==> e.kind == ErrorKind::StackOverflow && final(self)@ == old(
                self,
            )@),
            (r matches Ok(n) ==> n == 1 && final(self)@ == with_stack(
                old(self)@,
                old(self)@.stack.push(SpecValue::Str(variant@)),
            )),
    {
        self.serialize_bytes(variant)
    }
}

/// The entries of a sequence-shaped table under construction: position
/// `j+1` holds `vals[j]`.
pub open spec fn seq_entries(vals: Seq<SpecValue>) -> SpecTable {
    Seq::new(vals.len(), |j: int| (SpecValue::Integer((j + 1) as i64), vals[j]))
}

/// The entries of a map-shaped table under construction, pair by pair.
pub open spec fn map_entries(kvals: Seq<SpecValue>, vvals: Seq<SpecValue>) -> SpecTable {
    Seq::new(kvals.len(), |j: int| (kvals[j], vvals[j]))
}

/// The bookkeeping of one table under construction.
pub struct TsGhost {
    /// Whether this cursor builds a map (else a sequence).
    pub is_map: bool,
    /// The heap index of the table being built.
    pub table_id: int,
    /// The heap length right after the table was created: everything the
    /// construction adds lives at `base` and beyond.
    pub base: int,
    /// A nesting-depth bound for everything recorded so far: fuel that
    /// suffices to decode every recorded value.
    pub fuel: nat,
    /// Whether everything added so far is of a round-trip-supported
    /// shape (and, for a map, with fresh non-nil keys and non-nil
    /// values); only then does the cursor promise what the finished
    /// table decodes to.
    pub clean: bool,
    /// Sequence mode: the machine values of the elements, in order.
    pub vals: Seq<SpecValue>,
    /// Sequence mode: the elements as given, in order.
    pub elems: Seq<SpecData>,
    /// Map mode: the machine values of the keys, in order.
    pub kvals: Seq<SpecValue>,
    /// Map mode: the keys as given, in order.
    pub kelems: Seq<SpecData>,
    /// Map mode: the machine values of the values, in order.
    pub vvals: Seq<SpecValue>,
    /// Map mode: the values as given, in order.
    pub velems: Seq<SpecData>,
    /// Map mode: whether a key has been serialized and awaits its value.
    pub has_pending: bool,
    /// Map mode: whether the pending key is of a round-trip-supported
    /// shape, so that its decoding is pinned down.
    pub pkclean: bool,
    /// Map mode: the machine value of the pending key.
    pub pkval: SpecValue,
    /// Map mode: the pending key as given.
    pub pkelem: SpecData,
}

/// Per-element facts of a sequence cursor: each recorded machine value
/// is transcodable, non-nil, lives in the construction region and
/// decodes to the element it encodes.
pub open spec fn elems_ok(g: TsGhost, s: SpecState) -> bool {
    forall|j: int|
        0 <= j < g.vals.len() ==> {
            &&& spec_serializable(#[trigger] g.vals[j])
            &&& g.vals[j] != SpecValue::Nil
            &&& g.elems[j] != SpecData::Nil
            &&& val_in(g.vals[j], g.base, s.heap.len() as int)
            &&& decode_val(s.heap, g.vals[j], g.fuel) == Some(g.elems[j])
        }
}

/// Per-pair facts of a map cursor, as [`elems_ok`] for keys and values.
pub open spec fn pairs_ok(g: TsGhost, s: SpecState) -> bool {
    forall|j: int|
        0 <= j < g.kvals.len() ==> {
            &&& spec_serializable(#[trigger] g.kvals[j])
            &&& spec_serializable(g.vvals[j])
            &&& g.kvals[j] != SpecValue::Nil
            &&& g.vvals[j] != SpecValue::Nil
            &&& val_in(g.kvals[j], g.base, s.heap.len() as int)
            &&& val_in(g.vvals[j], g.base, s.heap.len() as int)
            &&& decode_val(s.heap, g.kvals[j], g.fuel) == Some(g.kelems[j])
            &&& decode_val(s.heap, g.vvals[j], g.fuel) == Some(g.velems[j])
        }
}

/// A cursor building one table on the machine: the transient state of
/// one `serialize_seq`/`serialize_map` call.  The table lives in the
/// registry while elements are added one by one; `end` pushes the
/// finished table back onto the stack and releases the slot.
pub struct TableSerializer {
    tref: LRef,
    i: i64,
    pending: LRef,
    snap: Ghost<TsGhost>,
}

impl TableSerializer {
    /// The bookkeeping of this cursor.
    pub closed spec fn gh(&self) -> TsGhost {
        self.snap@
    }

    /// The registry slot holding the table being built.
    pub closed spec fn tref_slot(&self) -> int {
        self.tref@
    }

    /// The registry slot holding the pending map key, if any.
    pub closed spec fn pending_slot(&self) -> int {
        self.pending@
    }

    /// The next 1-based sequence position to be filled.
    pub closed spec fn idx(&self) -> int {
        self.i as int
    }

    /// The cursor's invariant against a machine state: the registry slot
    /// holds the table, everything recorded decodes as promised, and the
    /// construction region of the heap is closed.
    pub open spec fn inv(&self, s: SpecState) -> bool {
        let g = self.gh();
        &&& 1 <= self.tref_slot() <= s.registry.len()
        &&& s.registry[self.tref_slot() - 1] == Some(SpecValue::Table(g.table_id))
        &&& 0 <= g.table_id < s.heap.len()
        &&& g.base == g.table_id + 1
        &&& g.base <= s.heap.len()
        &&& region_closed(s.heap, g.base)
        &&& pairs_in(s.heap[g.table_id], g.base, s.heap.len() as int)
        &&& if !g.is_map {
            &&& self.pending_slot() == LUA_NOREF
            &&& !g.has_pending
            &&& g.vals.len() == g.elems.len()
            &&& self.idx() == g.vals.len() + 1
            &&& g.vals.len() + 1 <= i64::MAX
            &&& (g.clean ==> s.heap[g.table_id] == seq_entries(g.vals) && elems_ok(g, s))
        } else {
            &&& g.kvals.len() == g.kelems.len()
            &&& g.kvals.len() == g.vvals.len()
            &&& g.kvals.len() == g.velems.len()
            &&& (g.clean ==> s.heap[g.table_id] == map_entries(g.kvals, g.vvals) && pairs_ok(
                g,
                s,
            ))
            &&& (g.has_pending ==> {
                &&& (g.pkval == SpecValue::Nil && self.pending_slot() == LUA_REFNIL) || (1
                    <= self.pending_slot() <= s.registry.len() && s.registry[self.pending_slot()
                    - 1] == Some(g.pkval) && self.pending_slot() != self.tref_slot() && g.pkval
                    != SpecValue::Nil)
                &&& spec_serializable(g.pkval)
                &&& val_in(g.pkval, g.base, s.heap.len() as int)
                &&& (g.pkclean ==> decode_val(s.heap, g.pkval, g.fuel) == Some(g.pkelem))
            })
            &&& (!g.has_pending ==> self.pending_slot() == LUA_NOREF)
        }
    }
}

impl State {
    /// Begins serializing a sequence: creates a table (sized by the
    /// optional length hint), stores it in the registry and returns the
    /// cursor.  The stack is left as it was; `end` will push the
    /// finished table.
    pub fn serialize_seq(&mut self, len: Option<usize>) -> (r: Result<TableSerializer, Error>)
        requires
            old(self).wf(),
        ensures
            final(self).wf(),
            heap_extends(final(self)@.heap, old(self)@.heap),
            final(self)@.globals == old(self)@.globals,
            final(self)@.mem == old(self)@.mem,
            final(self)@.stack == old(self)@.stack,
            region_closed(final(self)@.heap, old(self)@.heap.len() as int),
            (r matches Err(e) ==> reg_restored(old(self)@.registry, final(self)@.registry) && (
            e.kind == ErrorKind::StackOverflow || e.kind == ErrorKind::Custom)),
            (old(self)@.stack.len() < MAX_STACK && occupied(old(self)@.registry) < REGISTRY_MAX
                && (len matches Some(n) ==> n <= i32::MAX) ==> r is Ok),
            (r matches Ok(ts) ==> {
                let g = ts.gh();
                &&& ts.inv(final(self)@)
                &&& !g.is_map
                &&& g.clean
                &&& g.elems =~= Seq::<SpecData>::empty()
                &&& g.vals.len() == 0
                &&& g.fuel == 0
                &&& g.table_id == old(self)@.heap.len()
                &&& g.base == old(self)@.heap.len() + 1
                &&& final(self)@.heap == old(self)@.heap.push(Seq::empty())
                &&& final(self)@.registry == spec_register(
                    old(self)@.registry,
                    SpecValue::Table(g.table_id),
                )
                &&& ts.tref_slot() == spec_register_slot(old(self)@.registry)
            }),
    {
        let narr: i32 = match len {
            Some(n) => {
                if n > (i32::MAX as usize) {
                    return Err(
                        Error::new(ErrorKind::Custom, "length hint out of range"),
                    );
                }
                n as i32
            },
            None => 0,
        };
        if !self.reserve(1) {
            return Err(Error::new(ErrorKind::StackOverflow, "no stack space for a table"));
        }
        let ghost pre = self@;
        self.create_table(narr, 0);
        proof {
            assert forall|t: int| pre.heap.len() <= t < self@.heap.len() implies pairs_in(
                #[trigger] self@.heap[t],
                pre.heap.len() as int,
                self@.heap.len() as int,
            ) by {
                assert(self@.heap[t] =~= Seq::<(SpecValue, SpecValue)>::empty());
            }
        }
        let tref = match LRef::register(self) {
            Ok(tref) => tref,
            Err(e) => {
                self.pop(1);
                proof {
                    assert(self@.stack =~= pre.stack);
                    if occupied(pre.registry) < REGISTRY_MAX {
                        lemma_registry_has_room(pre.registry);
                    }
                }
                return Err(e);
            },
        };
        proof {
            crate::lref::lemma_first_free_bounds(pre.registry, 0);
        }
        let ghost g = TsGhost {
            is_map: false,
            table_id: pre.heap.len() as int,
            base: pre.heap.len() as int + 1,
            fuel: 0,
            clean: true,
            vals: Seq::empty(),
            elems: Seq::empty(),
            kvals: Seq::empty(),
            kelems: Seq::empty(),
            vvals: Seq::empty(),
            velems: Seq::empty(),
            has_pending: false,
            pkclean: true,
            pkval: SpecValue::Nil,
            pkelem: SpecData::Nil,
        };
        let ts = TableSerializer { tref, i: 1, pending: LRef::empty(), snap: Ghost(g) };
        proof {
            assert(self@.heap[g.table_id] =~= seq_entries(g.vals));
            assert(ts.inv(self@));
        }
        Ok(ts)
    }
}

/// The second heap keeps every table of the first except possibly the
/// one at `t`, unchanged.
pub open spec fn heap_extends_except(post: Seq<SpecTable>, pre: Seq<SpecTable>, t: int) -> bool {
    post.len() >= pre.len() && forall|i: int|
        0 <= i < pre.len() && i != t ==> post[i] == #[trigger] pre[i]
}

/// A cursor invariant survives any machine activity that only grows the
/// heap (keeping the grown part closed) and keeps the registry restored.
proof fn lemma_inv_growth(ts: TableSerializer, pre: SpecState, post: SpecState)
    requires
        ts.inv(pre),
        heap_extends(post.heap, pre.heap),
        region_closed(post.heap, pre.heap.len() as int),
        post.registry.len() >= pre.registry.len(),
        post.registry[ts.tref_slot() - 1] == pre.registry[ts.tref_slot() - 1],
        ts.gh().has_pending && ts.pending_slot() >= 1 ==> post.registry[ts.pending_slot() - 1]
            == pre.registry[ts.pending_slot() - 1],
    ensures
        ts.inv(post),
{
    let g = ts.gh();
    let p = g.table_id;
    lemma_region_compose(pre.heap, post.heap, g.base);
    assert(post.heap[p] == pre.heap[p]);
    crate::codec::lemma_pairs_in_widen(
        post.heap[p],
        g.base,
        pre.heap.len() as int,
        g.base,
        post.heap.len() as int,
    );
    if !g.is_map {
        if g.clean {
            assert forall|j: int| 0 <= j < g.vals.len() implies {
                &&& spec_serializable(#[trigger] g.vals[j])
                &&& g.vals[j] != SpecValue::Nil
                &&& g.elems[j] != SpecData::Nil
                &&& val_in(g.vals[j], g.base, post.heap.len() as int)
                &&& decode_val(post.heap, g.vals[j], g.fuel) == Some(g.elems[j])
            } by {
                assert(elems_ok(g, pre));
                assert(decode_val(pre.heap, g.vals[j], g.fuel) == Some(g.elems[j]));
                lemma_decode_frame(pre.heap, post.heap, g.vals[j], g.base, g.fuel);
            }
            assert(elems_ok(g, post));
        }
    } else {
        if g.clean {
            assert forall|j: int| 0 <= j < g.kvals.len() implies {
                &&& spec_serializable(#[trigger] g.kvals[j])
                &&& spec_serializable(g.vvals[j])
                &&& g.kvals[j] != SpecValue::Nil
                &&& g.vvals[j] != SpecValue::Nil
                &&& val_in(g.kvals[j], g.base, post.heap.len() as int)
                &&& val_in(g.vvals[j], g.base, post.heap.len() as int)
                &&& decode_val(post.heap, g.kvals[j], g.fuel) == Some(g.kelems[j])
                &&& decode_val(post.heap, g.vvals[j], g.fuel) == Some(g.velems[j])
            } by {
                assert(pairs_ok(g, pre));
                assert(decode_val(pre.heap, g.kvals[j], g.fuel) == Some(g.kelems[j]));
                assert(decode_val(pre.heap, g.vvals[j], g.fuel) == Some(g.velems[j]));
                lemma_decode_frame(pre.heap, post.heap, g.kvals[j], g.base, g.fuel);
                lemma_decode_frame(pre.heap, post.heap, g.vvals[j], g.base, g.fuel);
            }
            assert(pairs_ok(g, post));
        }
        if g.has_pending && g.pkclean {
            lemma_decode_frame(pre.heap, post.heap, g.pkval, g.base, g.fuel);
        }
    }
}

/// Freeing the slot that a register was just given restores the
/// registry, even across later balanced traffic.
pub proof fn lemma_reg_stitch(
    reg0: Seq<Option<SpecValue>>,
    v: SpecValue,
    cur: Seq<Option<SpecValue>>,
)
    requires
        reg_restored(spec_register(reg0, v), cur),
    ensures
        reg_restored(reg0, cur.update(spec_register_slot(reg0) - 1, None)),
{
    crate::lref::lemma_first_free_bounds(reg0, 0);
    let slot = spec_register_slot(reg0) - 1;
    let reg1 = spec_register(reg0, v);
    let fin = cur.update(slot, None);
    assert forall|i: int| 0 <= i < reg0.len() implies fin[i] == #[trigger] reg0[i] by {
        if i != slot {
            assert(cur[i] == reg1[i]);
        }
    }
    assert forall|i: int| reg0.len() <= i < fin.len() implies #[trigger] fin[i] is None by {
        if i != slot {
            if i < reg1.len() {
                assert(cur[i] == reg1[i]);
            }
        }
    }
}

impl TableSerializer {
    /// Adds one element to the sequence being built: re-fetches the
    /// table from the registry, serializes the element (which uses
    /// exactly one stack slot), stores it at the next 1-based position
    /// and pops the table copy again.  The stack is exactly as before,
    /// whether the call succeeds or fails.
    pub fn serialize_element(&mut self, state: &mut State, value: &Data) -> (r: Result<
        (),
        Error,
    >)
        requires
            old(state).wf(),
            old(self).inv(old(state)@),
            !old(self).gh().is_map,
        ensures
            final(state).wf(),
            final(self).inv(final(state)@),
            !final(self).gh().is_map,
            final(self).gh().table_id == old(self).gh().table_id,
            final(self).gh().base == old(self).gh().base,
            final(self).tref_slot() == old(self).tref_slot(),
            heap_extends_except(final(state)@.heap, old(state)@.heap, old(self).gh().table_id),
            region_closed(final(state)@.heap, old(self).gh().table_id),
            reg_restored(old(state)@.registry, final(state)@.registry),
            final(state)@.globals == old(state)@.globals,
            final(state)@.mem == old(state)@.mem,
            final(state)@.stack == old(state)@.stack,
            (r is Ok ==> {
                let g2 = final(self).gh();
                let g1 = old(self).gh();
                &&& g2.elems == g1.elems.push(value@)
                &&& g2.fuel == (if g1.fuel >= height(value@) {
                    g1.fuel
                } else {
                    height(value@)
                })
                &&& g2.clean == (g1.clean && rt_ok(value@) && value@ != SpecData::Nil)
            }),
            (r matches Err(e) ==> final(self).gh() == old(self).gh() && (e.kind
                == ErrorKind::StackOverflow || e.kind == ErrorKind::Custom)),
            (old(self).gh().vals.len() + 2 <= i64::MAX && rt_ok(value@) && fits(value@) && old(
                state,
            )@.stack.len() + 1 + ser_need(value@) <= MAX_STACK && occupied(old(state)@.registry)
                + 2 * height(value@) <= REGISTRY_MAX ==> r is Ok),
        decreases *value, 2int,
    {
        let ghost pre = state@;
        let ghost g1 = self.snap@;
        let ghost p = g1.table_id;
        proof {
            lemma_ser_need_pos(value@);
        }
        if self.i == i64::MAX {
            proof {
                lemma_region_closed_self(*self, pre);
            }
            return Err(Error::new(ErrorKind::Custom, "sequence has too many elements"));
        }
        if !state.reserve(1) {
            proof {
                lemma_region_closed_self(*self, pre);
            }
            return Err(Error::new(ErrorKind::StackOverflow, "no stack space for a table"));
        }
        self.tref.get(state);
        let ghost mid1 = state@;
        match state.push_data(value) {
            Ok(_) => {},
            Err(e) => {
                state.pop(1);
                proof {
                    assert(state@.stack =~= pre.stack);
                    lemma_inv_growth(*self, pre, state@);
                    lemma_region_closed_self(*self, state@);
                }
                return Err(e);
            },
        }
        let ghost mid2 = state@;
        let ghost ve = mid2.stack.last();
        let ghost len1 = mid1.heap.len() as int;
        let ghost len2 = mid2.heap.len() as int;
        proof {
            assert(mid1.stack == pre.stack.push(SpecValue::Table(p)));
            assert(mid2.stack == mid1.stack.push(ve));
            assert(abs_index(mid2.stack.len() as int, -2) == mid2.stack.len() - 2);
            assert(stack_val(mid2, -2) == SpecValue::Table(p));
        }
        match state.seti(-2, self.i) {
            Ok(_) => {},
            Err(e) => {
                proof {
                    assert(false);
                }
                return Err(e);
            },
        }
        state.pop(1);
        let ghost i_old = self.i as int;
        self.i = self.i + 1;
        proof {
            let g2 = TsGhost {
                vals: g1.vals.push(ve),
                elems: g1.elems.push(value@),
                fuel: if g1.fuel >= height(value@) {
                    g1.fuel
                } else {
                    height(value@)
                },
                clean: g1.clean && rt_ok(value@) && value@ != SpecData::Nil,
                ..g1
            };
            self.snap = Ghost(g2);
            let hfin = state@.heap;
            let written = store(mid2.heap[p], SpecValue::Integer(i_old as i64), ve);
            // the machine state after the three steps
            assert(state@.stack =~= pre.stack);
            assert(state@.heap == mid2.heap.update(p, written));
            assert(state@.registry == mid2.registry);
            assert(reg_restored(pre.registry, state@.registry));
            assert(state@.globals == pre.globals);
            assert(state@.mem == pre.mem);
            // heap framing facts
            assert(mid2.heap[p] == pre.heap[p]);
            assert(heap_extends_except(hfin, pre.heap, p));
            assert forall|t: int| g1.base <= t < len2 implies hfin[t] == mid2.heap[t] by {}
            // region closure of the construction region
            lemma_region_compose(pre.heap, mid2.heap, g1.base);
            assert forall|t: int| g1.base <= t < hfin.len() implies pairs_in(
                #[trigger] hfin[t],
                g1.base,
                hfin.len() as int,
            ) by {
                assert(hfin[t] == mid2.heap[t]);
                assert(pairs_in(mid2.heap[t], g1.base, len2));
            }
            assert(region_closed(hfin, g1.base));
            // the built table's entries stay region-contained
            crate::codec::lemma_pairs_in_widen(
                mid2.heap[p],
                g1.base,
                pre.heap.len() as int,
                g1.base,
                len2,
            );
            crate::codec::lemma_store_pairs_in(
                mid2.heap[p],
                SpecValue::Integer(i_old as i64),
                ve,
                g1.base,
                len2,
            );
            assert(pairs_in(hfin[p], g1.base, hfin.len() as int));
            lemma_region_closed_self_post(g2, hfin);
            // the shape and decode facts, when everything stays clean
            if g2.clean {
                assert(pre.heap[p] == seq_entries(g1.vals));
                let key = SpecValue::Integer(i_old as i64);
                assert forall|q: int| 0 <= q < seq_entries(g1.vals).len() implies (
                #[trigger] seq_entries(g1.vals)[q].0) != key by {
                    assert(seq_entries(g1.vals)[q].0 == SpecValue::Integer((q + 1) as i64));
                }
                lemma_find_idx_bounds(seq_entries(g1.vals), key, 0);
                assert(crate::table_data::find_idx(seq_entries(g1.vals), key, 0)
                    == seq_entries(g1.vals).len());
                assert(ve != SpecValue::Nil);
                assert(written =~= seq_entries(g2.vals));
                assert(hfin[p] == seq_entries(g2.vals));
                assert forall|j: int| 0 <= j < g2.vals.len() implies {
                    &&& spec_serializable(#[trigger] g2.vals[j])
                    &&& g2.vals[j] != SpecValue::Nil
                    &&& g2.elems[j] != SpecData::Nil
                    &&& val_in(g2.vals[j], g2.base, hfin.len() as int)
                    &&& decode_val(hfin, g2.vals[j], g2.fuel) == Some(g2.elems[j])
                } by {
                    if j < g1.vals.len() {
                        assert(elems_ok(g1, pre));
                        assert(decode_val(pre.heap, g1.vals[j], g1.fuel) == Some(g1.elems[j]));
                        lemma_decode_frame(pre.heap, hfin, g1.vals[j], g1.base, g1.fuel);
                        lemma_decode_mono(hfin, g1.vals[j], g1.fuel, g2.fuel);
                    } else {
                        assert(g2.vals[j] == ve);
                        assert(decode_val(mid2.heap, ve, height(value@)) == Some(value@));
                        lemma_decode_frame(mid2.heap, hfin, ve, len1, height(value@));
                        lemma_decode_mono(hfin, ve, height(value@), g2.fuel);
                    }
                }
                assert(elems_ok(g2, state@));
            }
            assert(self.inv(state@));
        }
        Ok(())
    }
}

/// The construction region including the built table itself is closed.
proof fn lemma_region_closed_self(ts: TableSerializer, s: SpecState)
    requires
        ts.inv(s),
    ensures
        region_closed(s.heap, ts.gh().table_id),
{
    lemma_region_closed_self_post(ts.gh(), s.heap);
}

/// As [`lemma_region_closed_self`], from the raw facts.
proof fn lemma_region_closed_self_post(g: TsGhost, heap: Seq<SpecTable>)
    requires
        0 <= g.table_id < heap.len(),
        g.base == g.table_id + 1,
        region_closed(heap, g.base),
        pairs_in(heap[g.table_id], g.base, heap.len() as int),
    ensures
        region_closed(heap, g.table_id),
{
    assert forall|t: int| g.table_id <= t < heap.len() implies pairs_in(
        #[trigger] heap[t],
        g.table_id,
        heap.len() as int,
    ) by {
        crate::codec::lemma_pairs_in_widen(
            heap[t],
            g.base,
            heap.len() as int,
            g.table_id,
            heap.len() as int,
        );
    }
}

/// The second registry keeps every slot of the first except `slot`,
/// unchanged; any new slots besides `slot` are free.
pub open spec fn reg_restored_except(
    pre: Seq<Option<SpecValue>>,
    post: Seq<Option<SpecValue>>,
    slot: int,
) -> bool {
    &&& post.len() >= pre.len()
    &&& forall|i: int| 0 <= i < pre.len() && i != slot - 1 ==> post[i] == #[trigger] pre[i]
    &&& forall|i: int| pre.len() <= i < post.len() && i != slot - 1 ==> #[trigger] post[i] is None
}

/// Freeing the one excepted slot — which was free to begin with —
/// restores the registry.
pub proof fn lemma_except_freed_restores(
    pre: Seq<Option<SpecValue>>,
    post: Seq<Option<SpecValue>>,
    slot: int,
)
    requires
        reg_restored_except(pre, post, slot),
        1 <= slot <= post.len(),
        slot - 1 < pre.len() ==> pre[slot - 1] is None,
    ensures
        reg_restored(pre, post.update(slot - 1, None)),
{
}

impl TableSerializer {
    /// Begins one map entry: serializes the key (one stack slot) and
    /// holds it in the registry until [`serialize_value`] consumes it.
    /// Any previously pending key is released first.  The stack is
    /// exactly as before, whether the call succeeds or fails.
    ///
    /// [`serialize_value`]: TableSerializer::serialize_value
    pub fn serialize_key(&mut self, state: &mut State, key: &Data) -> (r: Result<(), Error>)
        requires
            old(state).wf(),
            old(self).inv(old(state)@),
            old(self).gh().is_map,
            !old(self).gh().has_pending,
        ensures
            final(state).wf(),
            final(self).inv(final(state)@),
            final(self).gh().is_map,
            final(self).gh().table_id == old(self).gh().table_id,
            final(self).gh().base == old(self).gh().base,
            final(self).tref_slot() == old(self).tref_slot(),
            heap_extends_except(final(state)@.heap, old(state)@.heap, old(self).gh().table_id),
            region_closed(final(state)@.heap, old(self).gh().table_id),
            final(state)@.globals == old(state)@.globals,
            final(state)@.mem == old(state)@.mem,
            final(state)@.stack == old(state)@.stack,
            final(self).gh().kvals == old(self).gh().kvals,
            final(self).gh().kelems == old(self).gh().kelems,
            final(self).gh().vvals == old(self).gh().vvals,
            final(self).gh().velems == old(self).gh().velems,
            final(self).gh().clean == old(self).gh().clean,
            (r is Ok ==> {
                let g2 = final(self).gh();
                let g1 = old(self).gh();
                &&& g2.has_pending
                &&& g2.pkelem == key@
                &&& g2.pkclean == rt_ok(key@)
                &&& g2.fuel == (if g1.fuel >= height(key@) {
                    g1.fuel
                } else {
                    height(key@)
                })
                &&& (g2.pkval == SpecValue::Nil <==> key@ == SpecData::Nil)
                &&& (final(self).pending_slot() == LUA_REFNIL ==> reg_restored(
                    old(state)@.registry,
                    final(state)@.registry,
                ))
                &&& (final(self).pending_slot() != LUA_REFNIL ==> {
                    let q = final(self).pending_slot();
                    &&& reg_restored_except(old(state)@.registry, final(state)@.registry, q)
                    &&& 1 <= q <= final(state)@.registry.len()
                    &&& (q - 1 < old(state)@.registry.len() ==> old(state)@.registry[q
                        - 1] is None)
                })
            }),
            (r matches Err(e) ==> (e.kind == ErrorKind::StackOverflow || e.kind
                == ErrorKind::Custom) && !final(self).gh().has_pending && reg_restored(
                old(state)@.registry,
                final(state)@.registry,
            )),
            (rt_ok(key@) && fits(key@) && old(state)@.stack.len() + ser_need(key@) <= MAX_STACK
                && occupied(old(state)@.registry) + 2 * height(key@) + 1 <= REGISTRY_MAX ==> r
                is Ok),
        decreases *key, 2int,
    {
        let ghost pre = state@;
        let ghost g1 = self.snap@;
        let ghost p = g1.table_id;
        proof {
            lemma_ser_need_pos(key@);
        }
        match state.push_data(key) {
            Ok(_) => {},
            Err(e) => {
                proof {
                    lemma_inv_growth(*self, pre, state@);
                    lemma_region_closed_self(*self, state@);
                }
                return Err(e);
            },
        }
        let ghost mid = state@;
        let ghost kv = mid.stack.last();
        let tslot = self.tref.slot();
        proof {
            lemma_inv_growth(*self, pre, mid);
            if kv != SpecValue::Nil {
                crate::lref::lemma_first_free_bounds(mid.registry, 0);
                assert(mid.registry[tslot - 1] is Some);
            }
        }
        let fresh = match LRef::register(state) {
            Ok(fresh) => fresh,
            Err(e) => {
                state.pop(1);
                proof {
                    assert(state@.stack =~= pre.stack);
                    lemma_inv_growth(*self, pre, state@);
                    lemma_region_closed_self(*self, state@);
                    if occupied(pre.registry) + 2 * height(key@) + 1 <= REGISTRY_MAX {
                        crate::de::lemma_occ_restored(pre.registry, mid.registry);
                        lemma_registry_has_room(mid.registry);
                    }
                }
                return Err(e);
            },
        };
        self.pending = fresh;
        proof {
            let g2 = TsGhost {
                has_pending: true,
                pkval: kv,
                pkelem: key@,
                pkclean: rt_ok(key@),
                fuel: if g1.fuel >= height(key@) {
                    g1.fuel
                } else {
                    height(key@)
                },
                ..g1
            };
            self.snap = Ghost(g2);
            assert(state@.stack =~= pre.stack);
            assert(state@.heap == mid.heap);
            // registry: the table slot is untouched by the registration
            if kv != SpecValue::Nil {
                assert(state@.registry == spec_register(mid.registry, kv));
                crate::lref::lemma_first_free_bounds(mid.registry, 0);
            }
            assert(state@.registry[tslot - 1] == Some(SpecValue::Table(p)));
            // decode fact for the pending key
            if g2.pkclean {
                assert(decode_val(mid.heap, kv, height(key@)) == Some(key@));
                lemma_decode_mono(state@.heap, kv, height(key@), g2.fuel);
            }
            // recorded pairs keep their facts at the larger fuel
            if g2.clean {
                assert forall|j: int| 0 <= j < g2.kvals.len() implies {
                    &&& spec_serializable(#[trigger] g2.kvals[j])
                    &&& spec_serializable(g2.vvals[j])
                    &&& g2.kvals[j] != SpecValue::Nil
                    &&& g2.vvals[j] != SpecValue::Nil
                    &&& val_in(g2.kvals[j], g2.base, state@.heap.len() as int)
                    &&& val_in(g2.vvals[j], g2.base, state@.heap.len() as int)
                    &&& decode_val(state@.heap, g2.kvals[j], g2.fuel) == Some(g2.kelems[j])
                    &&& decode_val(state@.heap, g2.vvals[j], g2.fuel) == Some(g2.velems[j])
                } by {
                    assert(pairs_ok(g1, mid));
                    assert(decode_val(mid.heap, g1.kvals[j], g1.fuel) == Some(g1.kelems[j]));
                    assert(decode_val(mid.heap, g1.vvals[j], g1.fuel) == Some(g1.velems[j]));
                    lemma_decode_mono(state@.heap, g2.kvals[j], g1.fuel, g2.fuel);
                    lemma_decode_mono(state@.heap, g2.vvals[j], g1.fuel, g2.fuel);
                }
                assert(pairs_ok(g2, state@));
            }
            assert(self.inv(state@));
            lemma_region_closed_self(*self, state@);
        }
        Ok(())
    }

    /// Completes one map entry: re-fetches the table and the pending key
    /// from the registry, serializes the value (one stack slot), writes
    /// the pair into the table (releasing the key's slot) and pops the
    /// table copy again.  The stack is exactly as before, whether the
    /// call succeeds or fails.
    pub fn serialize_value(&mut self, state: &mut State, value: &Data) -> (r: Result<
        (),
        Error,
    >)
        requires
            old(state).wf(),
            old(self).inv(old(state)@),
            old(self).gh().is_map,
        ensures
            final(state).wf(),
            final(self).inv(final(state)@),
            final(self).gh().is_map,
            final(self).gh().table_id == old(self).gh().table_id,
            final(self).gh().base == old(self).gh().base,
            final(self).tref_slot() == old(self).tref_slot(),
            heap_extends_except(final(state)@.heap, old(state)@.heap, old(self).gh().table_id),
            region_closed(final(state)@.heap, old(self).gh().table_id),
            final(state)@.globals == old(state)@.globals,
            final(state)@.mem == old(state)@.mem,
            final(state)@.stack == old(state)@.stack,
            !final(self).gh().has_pending,
            (1 <= old(self).pending_slot() <= old(state)@.registry.len() ==> reg_restored(
                old(state)@.registry.update(old(self).pending_slot() - 1, None),
                final(state)@.registry,
            )),
            (!(1 <= old(self).pending_slot() <= old(state)@.registry.len()) ==> reg_restored(
                old(state)@.registry,
                final(state)@.registry,
            )),
            (r is Ok ==> {
                let g2 = final(self).gh();
                let g1 = old(self).gh();
                &&& g1.has_pending
                &&& g2.kelems == g1.kelems.push(g1.pkelem)
                &&& g2.velems == g1.velems.push(value@)
                &&& g2.kvals == g1.kvals.push(g1.pkval)
                &&& g2.vvals.len() == g1.vvals.len() + 1
                &&& g2.vvals.drop_last() == g1.vvals
                &&& g2.fuel == (if g1.fuel >= height(value@) {
                    g1.fuel
                } else {
                    height(value@)
                })
                &&& g2.clean == (g1.clean && g1.pkclean && rt_ok(value@) && value@
                    != SpecData::Nil && g1.pkval != SpecValue::Nil && lookup(
                    map_entries(g1.kvals, g1.vvals),
                    g1.pkval,
                ) == SpecValue::Nil)
            }),
            (r matches Err(e) ==> (e.kind == ErrorKind::StackOverflow || e.kind
                == ErrorKind::Custom) && {
                let g2 = final(self).gh();
                let g1 = old(self).gh();
                g2.kelems == g1.kelems && g2.velems == g1.velems && g2.clean == g1.clean
            }),
            (old(self).gh().has_pending && old(self).pending_slot() >= 1 && rt_ok(value@) && fits(
                value@,
            ) && old(state)@.stack.len() + 2 + ser_need(value@) <= MAX_STACK && occupied(
                old(state)@.registry,
            ) + 2 * height(value@) <= REGISTRY_MAX ==> r is Ok),
        decreases *value, 2int,
    {
        let ghost pre = state@;
        let ghost g1 = self.snap@;
        let ghost p = g1.table_id;
        proof {
            lemma_ser_need_pos(value@);
        }
        if self.pending.slot() == LUA_NOREF {
            proof {
                lemma_region_closed_self(*self, pre);
                let g2 = TsGhost { has_pending: false, ..g1 };
                self.snap = Ghost(g2);
                assert(self.inv(state@));
            }
            return Err(Error::new(ErrorKind::Custom, "map value without a key"));
        }
        if self.pending.slot() == LUA_REFNIL {
            self.pending.release(state);
            proof {
                let g2 = TsGhost { has_pending: false, ..g1 };
                self.snap = Ghost(g2);
                assert(self.inv(state@));
                lemma_region_closed_self(*self, state@);
            }
            return Err(Error::new(ErrorKind::Custom, "map key is nil"));
        }
        let ghost q = self.pending@;
        proof {
            assert(g1.has_pending);
            assert(1 <= q <= pre.registry.len());
            assert(g1.pkval != SpecValue::Nil);
        }
        if !state.reserve(2) {
            self.pending.release(state);
            proof {
                let g2 = TsGhost { has_pending: false, ..g1 };
                self.snap = Ghost(g2);
                assert(self.inv(state@));
                lemma_region_closed_self(*self, state@);
            }
            return Err(Error::new(ErrorKind::StackOverflow, "no stack space for a table"));
        }
        self.tref.get(state);
        self.pending.take(state);
        proof {
            let g1b = TsGhost { has_pending: false, ..g1 };
            self.snap = Ghost(g1b);
            assert(state@.registry == pre.registry.update(q - 1, None));
            assert(pre.registry[q - 1] is Some);
            crate::lref::lemma_occupied_update_none(pre.registry, q - 1);
            assert(state@.registry[self.tref@ - 1] == Some(SpecValue::Table(p)));
            assert(self.inv(state@)) by {
                if g1.clean {
                    assert(pairs_ok(g1, pre));
                    assert(pairs_ok(g1b, state@));
                }
            }
        }
        let ghost g1b = self.snap@;
        let ghost mid1 = state@;
        match state.push_data(value) {
            Ok(_) => {},
            Err(e) => {
                state.pop(2);
                proof {
                    assert(state@.stack =~= pre.stack);
                    lemma_inv_growth(*self, mid1, state@);
                    lemma_region_closed_self(*self, state@);
                    lemma_reg_restored_trans(
                        pre.registry.update(q - 1, None),
                        mid1.registry,
                        state@.registry,
                    );
                }
                return Err(e);
            },
        }
        let ghost mid2 = state@;
        let ghost vv = mid2.stack.last();
        let ghost len1 = mid1.heap.len() as int;
        let ghost len2 = mid2.heap.len() as int;
        proof {
            assert(mid1.stack == pre.stack.push(SpecValue::Table(p)).push(g1.pkval));
            assert(mid2.stack == mid1.stack.push(vv));
            assert(abs_index(mid2.stack.len() as int, -3) == mid2.stack.len() - 3);
            assert(stack_val(mid2, -3) == SpecValue::Table(p));
            assert(mid2.stack[mid2.stack.len() - 2] == g1.pkval);
        }
        match state.set_table(-3) {
            Ok(_) => {},
            Err(e) => {
                proof {
                    assert(false);
                }
                return Err(e);
            },
        }
        state.pop(1);
        proof {
            let g2 = TsGhost {
                kvals: g1.kvals.push(g1.pkval),
                kelems: g1.kelems.push(g1.pkelem),
                vvals: g1.vvals.push(vv),
                velems: g1.velems.push(value@),
                fuel: if g1.fuel >= height(value@) {
                    g1.fuel
                } else {
                    height(value@)
                },
                clean: g1.clean && g1.pkclean && rt_ok(value@) && value@ != SpecData::Nil
                    && g1.pkval != SpecValue::Nil && lookup(map_entries(g1.kvals, g1.vvals), g1.pkval)
                    == SpecValue::Nil,
                has_pending: false,
                ..g1
            };
            self.snap = Ghost(g2);
            let hfin = state@.heap;
            let written = store(mid2.heap[p], g1.pkval, vv);
            assert(state@.stack =~= pre.stack);
            assert(state@.heap == mid2.heap.update(p, written));
            assert(state@.registry == mid2.registry);
            lemma_reg_restored_trans(
                pre.registry.update(q - 1, None),
                mid1.registry,
                state@.registry,
            );
            assert(mid2.heap[p] == mid1.heap[p]);
            assert(mid1.heap[p] == pre.heap[p]);
            assert(heap_extends_except(hfin, pre.heap, p));
            // region closure of the construction region
            lemma_region_compose(mid1.heap, mid2.heap, g1b.base);
            assert forall|t: int| g1.base <= t < hfin.len() implies pairs_in(
                #[trigger] hfin[t],
                g1.base,
                hfin.len() as int,
            ) by {
                assert(hfin[t] == mid2.heap[t]);
                assert(pairs_in(mid2.heap[t], g1.base, len2));
            }
            assert(region_closed(hfin, g1.base));
            // the built table's entries stay region-contained
            crate::codec::lemma_pairs_in_widen(
                mid2.heap[p],
                g1.base,
                mid1.heap.len() as int,
                g1.base,
                len2,
            );
            crate::codec::lemma_store_pairs_in(mid2.heap[p], g1.pkval, vv, g1.base, len2);
            assert(pairs_in(hfin[p], g1.base, hfin.len() as int));
            lemma_region_closed_self_post(g2, hfin);
            // shape and decode facts, when everything stays clean
            if g2.clean {
                assert(pre.heap[p] == map_entries(g1.kvals, g1.vvals));
                let entries = map_entries(g1.kvals, g1.vvals);
                lemma_find_idx_bounds(entries, g1.pkval, 0);
                assert(crate::table_data::find_idx(entries, g1.pkval, 0) == entries.len());
                assert(vv != SpecValue::Nil);
                assert(written =~= map_entries(g2.kvals, g2.vvals));
                assert(hfin[p] == map_entries(g2.kvals, g2.vvals));
                assert forall|j: int| 0 <= j < g2.kvals.len() implies {
                    &&& spec_serializable(#[trigger] g2.kvals[j])
                    &&& spec_serializable(g2.vvals[j])
                    &&& g2.kvals[j] != SpecValue::Nil
                    &&& g2.vvals[j] != SpecValue::Nil
                    &&& val_in(g2.kvals[j], g2.base, hfin.len() as int)
                    &&& val_in(g2.vvals[j], g2.base, hfin.len() as int)
                    &&& decode_val(hfin, g2.kvals[j], g2.fuel) == Some(g2.kelems[j])
                    &&& decode_val(hfin, g2.vvals[j], g2.fuel) == Some(g2.velems[j])
                } by {
                    if j < g1.kvals.len() {
                        assert(pairs_ok(g1, pre));
                        assert(decode_val(pre.heap, g1.kvals[j], g1.fuel) == Some(g1.kelems[j]));
                        assert(decode_val(pre.heap, g1.vvals[j], g1.fuel) == Some(g1.velems[j]));
                        lemma_decode_frame(pre.heap, hfin, g1.kvals[j], g1.base, g1.fuel);
                        lemma_decode_frame(pre.heap, hfin, g1.vvals[j], g1.base, g1.fuel);
                        lemma_decode_mono(hfin, g1.kvals[j], g1.fuel, g2.fuel);
                        lemma_decode_mono(hfin, g1.vvals[j], g1.fuel, g2.fuel);
                    } else if j == g1.kvals.len() {
                        // the key
                        assert(g2.kvals[j] == g1.pkval);
                        assert(decode_val(pre.heap, g1.pkval, g1.fuel) == Some(g1.pkelem));
                        lemma_decode_frame(pre.heap, hfin, g1.pkval, g1.base, g1.fuel);
                        lemma_decode_mono(hfin, g1.pkval, g1.fuel, g2.fuel);
                        // the value
                        assert(g2.vvals[j] == vv);
                        assert(decode_val(mid2.heap, vv, height(value@)) == Some(value@));
                        lemma_decode_frame(mid2.heap, hfin, vv, len1, height(value@));
                        lemma_decode_mono(hfin, vv, height(value@), g2.fuel);
                    }
                }
                assert(pairs_ok(g2, state@));
            }
            assert(self.inv(state@));
        }
        Ok(())
    }
}

/// Position `j` of a sequence under construction reads back the `j`-th
/// recorded value.
proof fn lemma_seq_entries_lookup(vals: Seq<SpecValue>, j: int)
    requires
        1 <= j <= vals.len(),
        vals.len() + 1 <= i64::MAX,
    ensures
        lookup(seq_entries(vals), SpecValue::Integer(j as i64)) == vals[j - 1],
{
    let entries = seq_entries(vals);
    let key = SpecValue::Integer(j as i64);
    lemma_find_idx_bounds(entries, key, 0);
    let f = crate::table_data::find_idx(entries, key, 0);
    assert(entries[j - 1].0 == SpecValue::Integer(j as i64));
    if f < entries.len() {
        assert(entries[f].0 == SpecValue::Integer((f + 1) as i64));
        assert(f + 1 == j);
    } else {
        assert(entries[j - 1].0 == key);
        assert(false);
    }
}

impl TableSerializer {
    /// Finishes the aggregate: re-fetches the finished table from the
    /// registry, pushes it onto the stack (one slot used) and releases
    /// the registry slot.  The slot is released even when the push has
    /// no stack space and the call fails.
    pub fn end(self, state: &mut State) -> (r: Result<i32, Error>)
        requires
            old(state).wf(),
            self.inv(old(state)@),
        ensures
            final(state).wf(),
            final(state)@.heap == old(state)@.heap,
            final(state)@.globals == old(state)@.globals,
            final(state)@.mem == old(state)@.mem,
            final(state)@.registry == old(state)@.registry.update(self.tref_slot() - 1, None),
            (r matches Err(e) ==> e.kind == ErrorKind::StackOverflow && final(state)@.stack == old(
                state,
            )@.stack),
            (old(state)@.stack.len() < MAX_STACK ==> r is Ok),
            (r matches Ok(n) ==> n == 1 && final(state)@.stack == old(state)@.stack.push(
                SpecValue::Table(self.gh().table_id),
            ) && {
                let g = self.gh();
                &&& (!g.is_map && g.clean ==> forall|f: nat|
                    f >= g.fuel + 1 ==> decode_val(
                        old(state)@.heap,
                        SpecValue::Table(g.table_id),
                        f,
                    ) == Some(SpecData::List(g.elems)))
                &&& (g.is_map && g.clean ==> old(state)@.heap[g.table_id] == map_entries(
                    g.kvals,
                    g.vvals,
                ) && pairs_ok(g, old(state)@))
            }),
    {
        let ghost pre = state@;
        let TableSerializer { tref, i: _, pending: _unused, snap } = self;
        let ghost g = snap@;
        let mut tref = tref;
        if !state.reserve(1) {
            tref.release(state);
            return Err(Error::new(ErrorKind::StackOverflow, "no stack space for a table"));
        }
        tref.get(state);
        tref.release(state);
        proof {
            assert(state@.stack =~= pre.stack.push(SpecValue::Table(g.table_id)));
            if !g.is_map && g.clean {
                let entries = seq_entries(g.vals);
                let k = g.vals.len() as int;
                assert(pre.heap[g.table_id] == entries);
                assert(elems_ok(g, pre));
                assert forall|j: int| 1 <= j <= k implies #[trigger] lookup(
                    entries,
                    SpecValue::Integer(j as i64),
                ) == g.vals[j - 1] by {
                    lemma_seq_entries_lookup(g.vals, j);
                }
                assert forall|j: int| 1 <= j <= entries.len() implies #[trigger] lookup(
                    entries,
                    SpecValue::Integer(j as i64),
                ) != SpecValue::Nil by {
                    assert(lookup(entries, SpecValue::Integer(j as i64)) == g.vals[j - 1]);
                    assert(g.vals[j - 1] != SpecValue::Nil);
                }
                lemma_tlen_all_present(entries);
                assert(tlen(entries) == entries.len());
                assert forall|f: nat| f >= g.fuel + 1 implies decode_val(
                    pre.heap,
                    SpecValue::Table(g.table_id),
                    f,
                ) == Some(SpecData::List(g.elems)) by {
                    assert forall|j: int|
                        1 <= j <= k implies spec_serializable(
                        #[trigger] lookup(entries, SpecValue::Integer(j as i64)),
                    ) && decode_val(
                        pre.heap,
                        lookup(entries, SpecValue::Integer(j as i64)),
                        (f - 1) as nat,
                    ) == Some(g.elems[j - 1]) by {
                        assert(lookup(entries, SpecValue::Integer(j as i64)) == g.vals[j - 1]);
                        assert(decode_val(pre.heap, g.vals[j - 1], g.fuel) == Some(
                            g.elems[j - 1],
                        ));
                        lemma_decode_mono(pre.heap, g.vals[j - 1], g.fuel, (f - 1) as nat);
                    }
                    lemma_decode_list_all(pre.heap, entries, g.elems, 1, k, (f - 1) as nat);
                    assert(g.elems.subrange(0, k) =~= g.elems);
                    assert(tlen(entries) as int == k);
                }
            }
        }
        Ok(1)
    }

    /// Abandons the aggregate, releasing the registry slots it holds;
    /// the table itself remains garbage for the machine to reclaim.
    pub fn abandon(self, state: &mut State)
        requires
            old(state).wf(),
        ensures
            final(state).wf(),
            final(state)@.stack == old(state)@.stack,
            final(state)@.heap == old(state)@.heap,
            final(state)@.globals == old(state)@.globals,
            final(state)@.mem == old(state)@.mem,
            ({
                let r1 = if 1 <= self.tref_slot() <= old(state)@.registry.len() {
                    old(state)@.registry.update(self.tref_slot() - 1, None)
                } else {
                    old(state)@.registry
                };
                let r2 = if 1 <= self.pending_slot() <= r1.len() {
                    r1.update(self.pending_slot() - 1, None)
                } else {
                    r1
                };
                final(state)@.registry == r2
            }),
    {
        let TableSerializer { tref, i: _, pending, snap: _unused } = self;
        let mut tref = tref;
        let mut pending = pending;
        tref.release(state);
        pending.release(state);
    }
}

impl State {
    /// Begins serializing a map: creates a table (sized by the optional
    /// entry-count hint), stores it in the registry and returns the
    /// cursor.  The stack is left as it was; `end` will push the
    /// finished table.
    pub fn serialize_map(&mut self, len: Option<usize>) -> (r: Result<TableSerializer, Error>)
        requires
            old(self).wf(),
        ensures
            final(self).wf(),
            heap_extends(final(self)@.heap, old(self)@.heap),
            final(self)@.globals == old(self)@.globals,
            final(self)@.mem == old(self)@.mem,
            final(self)@.stack == old(self)@.stack,
            region_closed(final(self)@.heap, old(self)@.heap.len() as int),
            (r matches Err(e) ==> reg_restored(old(self)@.registry, final(self)@.registry) && (
            e.kind == ErrorKind::StackOverflow || e.kind == ErrorKind::Custom)),
            (old(self)@.stack.len() < MAX_STACK && occupied(old(self)@.registry) < REGISTRY_MAX
                && (len matches Some(n) ==> n <= i32::MAX) ==> r is Ok),
            (r matches Ok(ts) ==> {
                let g = ts.gh();
                &&& ts.inv(final(self)@)
                &&& g.is_map
                &&& g.clean
                &&& !g.has_pending
                &&& g.kelems =~= Seq::<SpecData>::empty()
                &&& g.velems =~= Seq::<SpecData>::empty()
                &&& g.kvals.len() == 0
                &&& g.fuel == 0
                &&& g.table_id == old(self)@.heap.len()
                &&& g.base == old(self)@.heap.len() + 1
                &&& final(self)@.heap == old(self)@.heap.push(Seq::empty())
                &&& final(self)@.registry == spec_register(
                    old(self)@.registry,
                    SpecValue::Table(g.table_id),
                )
                &&& ts.tref_slot() == spec_register_slot(old(self)@.registry)
            }),
    {
        let nrec: i32 = match len {
            Some(n) => {
                if n > (i32::MAX as usize) {
                    return Err(Error::new(ErrorKind::Custom, "length hint out of range"));
                }
                n as i32
            },
            None => 0,
        };
        if !self.reserve(1) {
            return Err(Error::new(ErrorKind::StackOverflow, "no stack space for a table"));
        }
        let ghost pre = self@;
        self.create_table(0, nrec);
        proof {
            assert forall|t: int| pre.heap.len() <= t < self@.heap.len() implies pairs_in(
                #[trigger] self@.heap[t],
                pre.heap.len() as int,
                self@.heap.len() as int,
            ) by {
                assert(self@.heap[t] =~= Seq::<(SpecValue, SpecValue)>::empty());
            }
        }
        let tref = match LRef::register(self) {
            Ok(tref) => tref,
            Err(e) => {
                self.pop(1);
                proof {
                    assert(self@.stack =~= pre.stack);
                    if occupied(pre.registry) < REGISTRY_MAX {
                        lemma_registry_has_room(pre.registry);
                    }
                }
                return Err(e);
            },
        };
        proof {
            crate::lref::lemma_first_free_bounds(pre.registry, 0);
        }
        let ghost g = TsGhost {
            is_map: true,
            table_id: pre.heap.len() as int,
            base: pre.heap.len() as int + 1,
            fuel: 0,
            clean: true,
            vals: Seq::empty(),
            elems: Seq::empty(),
            kvals: Seq::empty(),
            kelems: Seq::empty(),
            vvals: Seq::empty(),
            velems: Seq::empty(),
            has_pending: false,
            pkclean: true,
            pkval: SpecValue::Nil,
            pkelem: SpecData::Nil,
        };
        let ts = TableSerializer { tref, i: 1, pending: LRef::empty(), snap: Ghost(g) };
        proof {
            assert(self@.heap[g.table_id] =~= map_entries(g.kvals, g.vvals));
            assert(ts.inv(self@));
        }
        Ok(ts)
    }
}

impl State {
    /// Serializes a structured value into exactly one value on top of
    /// the stack.
    ///
    /// On success the pushed value decodes — over the final table heap —
    /// to the very data that was given, for every round-trip-supported
    /// shape; the rest of the stack, the globals and every pre-existing
    /// table are untouched, and the registry is back to where it was.
    /// On failure (stack space, registry space, a `u64` beyond the
    /// integer range) the stack is exactly as before; tables created for
    /// a partial aggregate remain as garbage for the machine to
    /// reclaim.
    pub fn push_data(&mut self, d: &Data) -> (r: Result<i32, Error>)
        requires
            old(self).wf(),
        ensures
            final(self).wf(),
            heap_extends(final(self)@.heap, old(self)@.heap),
            region_closed(final(self)@.heap, old(self)@.heap.len() as int),
            reg_restored(old(self)@.registry, final(self)@.registry),
            final(self)@.globals == old(self)@.globals,
            final(self)@.mem == old(self)@.mem,
            (r matches Err(e) ==> final(self)@.stack == old(self)@.stack && (e.kind
                == ErrorKind::StackOverflow || e.kind == ErrorKind::Custom)),
            (rt_ok(d@) && fits(d@) && old(self)@.stack.len() + ser_need(d@) <= MAX_STACK
                && occupied(old(self)@.registry) + 2 * height(d@) <= REGISTRY_MAX ==> r is Ok),
            (r matches Ok(n) ==> n == 1 && {
                let v = final(self)@.stack.last();
                &&& final(self)@.stack == old(self)@.stack.push(v)
                &&& spec_serializable(v)
                &&& (v == SpecValue::Nil <==> d@ == SpecData::Nil)
                &&& val_in(v, old(self)@.heap.len() as int, final(self)@.heap.len() as int)
                &&& (rt_ok(d@) ==> decode_val(final(self)@.heap, v, height(d@)) == Some(d@))
            }),
        decreases *d, 1int,
    {
        match d {
            Data::Nil => self.serialize_unit(),
            Data::Bool(b) => self.serialize_bool(*b),
            Data::Int(n) => self.serialize_i64(*n),
            Data::Float(bits) => self.serialize_number_bits(*bits),
            Data::Str(bytes) => self.serialize_bytes(bytes.as_slice()),
            Data::List(items) => self.push_list(d, items),
            Data::Dict(prs) => self.push_dict(d, prs),
        }
    }

    /// Serializes a sequence (see [`push_data`](State::push_data)).
    fn push_list(&mut self, d: &Data, items: &Vec<Data>) -> (r: Result<i32, Error>)
        requires
            old(self).wf(),
            *d == Data::List(*items),
        ensures
            final(self).wf(),
            heap_extends(final(self)@.heap, old(self)@.heap),
            region_closed(final(self)@.heap, old(self)@.heap.len() as int),
            reg_restored(old(self)@.registry, final(self)@.registry),
            final(self)@.globals == old(self)@.globals,
            final(self)@.mem == old(self)@.mem,
            (r matches Err(e) ==> final(self)@.stack == old(self)@.stack && (e.kind
                == ErrorKind::StackOverflow || e.kind == ErrorKind::Custom)),
            (rt_ok(d@) && fits(d@) && old(self)@.stack.len() + ser_need(d@) <= MAX_STACK
                && occupied(old(self)@.registry) + 2 * height(d@) <= REGISTRY_MAX ==> r is Ok),
            (r matches Ok(n) ==> n == 1 && {
                let v = final(self)@.stack.last();
                &&& final(self)@.stack == old(self)@.stack.push(v)
                &&& spec_serializable(v)
                &&& v != SpecValue::Nil
                &&& val_in(v, old(self)@.heap.len() as int, final(self)@.heap.len() as int)
                &&& (rt_ok(d@) ==> decode_val(final(self)@.heap, v, height(d@)) == Some(d@))
            }),
        decreases *d, 0int,
    {
        let ghost pre = self@;
        let ghost lview = list_view(items@, 0);
        let ghost hyp = rt_ok(d@) && fits(d@) && pre.stack.len() + ser_need(d@) <= MAX_STACK
            && occupied(pre.registry) + 2 * height(d@) <= REGISTRY_MAX;
        proof {
            lemma_list_view(items@, 0);
            assert(d@ == SpecData::List(lview));
            lemma_list_need(lview, 0);
            lemma_list_height(lview, 0);
            if hyp {
                lemma_list_fits(lview, 0);
            }
        }
        let mut ts = match self.serialize_seq(Some(items.len())) {
            Ok(ts) => ts,
            Err(e) => {
                proof {
                    if hyp {
                        assert(false);
                    }
                }
                return Err(e);
            },
        };
        let ghost p = ts.gh().table_id;
        proof {
            crate::de::lemma_occ_register(pre.registry, SpecValue::Table(p as int));
        }
        let mut j: usize = 0;
        while j < items.len()
            invariant
                *d == Data::List(*items),
                lview == list_view(items@, 0),
                lview.len() == items@.len(),
                forall|q: int| 0 <= q < items@.len() ==> lview[q] == data_view(#[trigger] items@[q]),
                d@ == SpecData::List(lview),
                pre == old(self)@,
                j <= items.len(),
                self.wf(),
                ts.inv(self@),
                !ts.gh().is_map,
                ts.gh().table_id == p,
                p == pre.heap.len() as int,
                ts.gh().base == p + 1,
                ts.tref_slot() == spec_register_slot(pre.registry),
                ts.gh().elems.len() == j,
                ts.gh().fuel <= list_height(lview, 0),
                (rt_ok(d@) ==> ts.gh().clean && ts.gh().elems =~= lview.subrange(0, j as int)),
                hyp == (rt_ok(d@) && fits(d@) && pre.stack.len() + ser_need(d@) <= MAX_STACK
                    && occupied(pre.registry) + 2 * height(d@) <= REGISTRY_MAX),
                occupied(self@.registry) <= occupied(pre.registry) + 1,
                (hyp ==> forall|q: int|
                    0 <= q < lview.len() ==> fits(#[trigger] lview[q])),
                forall|q: int|
                    0 <= q < lview.len() ==> ser_need(#[trigger] lview[q]) + 1 <= list_need(
                        lview,
                        0,
                    ),
                forall|q: int|
                    0 <= q < lview.len() ==> height(#[trigger] lview[q]) <= list_height(lview, 0),
                heap_extends(self@.heap, pre.heap),
                region_closed(self@.heap, pre.heap.len() as int),
                reg_restored(spec_register(pre.registry, SpecValue::Table(p)), self@.registry),
                1 <= ts.tref_slot() <= spec_register(pre.registry, SpecValue::Table(p)).len(),
                self@.stack == pre.stack,
                self@.globals == pre.globals,
                self@.mem == pre.mem,
            decreases items.len() - j,
        {
            proof {
                assert(*items == (*d)->List_0);
                assert(decreases_to!(*d => (*d)->List_0));
                assert(decreases_to!(*items => items@));
                assert(decreases_to!(items@ => items@[j as int]));
            }
            let ghost cur = self@;
            let ghost gcur = ts.gh();
            proof {
                if hyp {
                    lemma_list_rt_ok(lview, 0);
                    assert(lview[j as int] == data_view(items@[j as int]));
                    assert(rt_ok(lview[j as int]));
                    assert(ser_need(lview[j as int]) + 1 <= list_need(lview, 0));
                    assert(list_need(lview, 0) + 1 <= ser_need(d@));
                    assert(height(lview[j as int]) < height(d@));
                }
            }
            match ts.serialize_element(self, &items[j]) {
                Ok(_) => {},
                Err(e) => {
                    let ghost mid = self@;
                    ts.abandon(self);
                    proof {
                        lemma_reg_restored_trans(
                            spec_register(pre.registry, SpecValue::Table(p)),
                            cur.registry,
                            mid.registry,
                        );
                        lemma_reg_stitch(pre.registry, SpecValue::Table(p), mid.registry);
                        lemma_push_region_after(pre.heap, cur.heap, mid.heap, p);
                        if hyp {
                            assert(false);
                        }
                    }
                    return Err(e);
                },
            }
            proof {
                crate::de::lemma_occ_restored(cur.registry, self@.registry);
                let gnext = ts.gh();
                // the element's shape facts, when the whole list is supported
                if rt_ok(d@) {
                    lemma_list_rt_ok(lview, 0);
                    assert(lview[j as int] == data_view(items@[j as int]));
                    assert(rt_ok(lview[j as int]) && lview[j as int] != SpecData::Nil);
                    assert(gnext.clean);
                    assert(gnext.elems =~= lview.subrange(0, j + 1));
                }
                // the fuel bound
                lemma_list_height(lview, 0);
                assert(height(lview[j as int]) <= list_height(lview, 0));
                // the heap stays an extension: only tables from p on changed
                lemma_push_region_after(pre.heap, cur.heap, self@.heap, p);
                // registry stays restored
                lemma_reg_restored_trans(
                    spec_register(pre.registry, SpecValue::Table(p)),
                    cur.registry,
                    self@.registry,
                );
            }
            j = j + 1;
        }
        let ghost gfin = ts.gh();
        let ghost cur = self@;
        match ts.end(self) {
            Ok(n) => {
                proof {
                    assert(self@.stack =~= pre.stack.push(SpecValue::Table(p)));
                    lemma_reg_stitch(pre.registry, SpecValue::Table(p), cur.registry);
                    if rt_ok(d@) {
                        assert(lview.subrange(0, lview.len() as int) =~= lview);
                        assert(gfin.elems =~= lview);
                        assert(height(d@) == 1 + list_height(lview, 0));
                        assert(height(d@) >= gfin.fuel + 1);
                        assert(decode_val(self@.heap, SpecValue::Table(p), height(d@)) == Some(
                            SpecData::List(gfin.elems),
                        ));
                        assert(SpecData::List(gfin.elems) == d@);
                    }
                }
                Ok(n)
            },
            Err(e) => {
                proof {
                    lemma_reg_stitch(pre.registry, SpecValue::Table(p), cur.registry);
                    if hyp {
                        assert(false);
                    }
                }
                Err(e)
            },
        }
    }
}

/// After activity that only touched tables from `p` on — and kept the
/// region from `p` closed — the heap is still an extension of what it
/// was before `p` existed.
proof fn lemma_push_region_after(
    pre: Seq<SpecTable>,
    cur: Seq<SpecTable>,
    post: Seq<SpecTable>,
    p: int,
)
    requires
        p == pre.len(),
        heap_extends(cur, pre),
        heap_extends_except(post, cur, p),
        region_closed(post, p),
    ensures
        heap_extends(post, pre),
        region_closed(post, pre.len() as int),
{
    assert forall|i: int| 0 <= i < pre.len() implies post[i] == #[trigger] pre[i] by {
        assert(post[i] == cur[i]);
    }
}

impl State {
    /// Serializes a map (see [`push_data`](State::push_data)).
    fn push_dict(&mut self, d: &Data, prs: &Vec<(Data, Data)>) -> (r: Result<i32, Error>)
        requires
            old(self).wf(),
            *d == Data::Dict(*prs),
        ensures
            final(self).wf(),
            heap_extends(final(self)@.heap, old(self)@.heap),
            region_closed(final(self)@.heap, old(self)@.heap.len() as int),
            reg_restored(old(self)@.registry, final(self)@.registry),
            final(self)@.globals == old(self)@.globals,
            final(self)@.mem == old(self)@.mem,
            (r matches Err(e) ==> final(self)@.stack == old(self)@.stack && (e.kind
                == ErrorKind::StackOverflow || e.kind == ErrorKind::Custom)),
            (rt_ok(d@) && fits(d@) && old(self)@.stack.len() + ser_need(d@) <= MAX_STACK
                && occupied(old(self)@.registry) + 2 * height(d@) <= REGISTRY_MAX ==> r is Ok),
            (r matches Ok(n) ==> n == 1 && {
                let v = final(self)@.stack.last();
                &&& final(self)@.stack == old(self)@.stack.push(v)
                &&& spec_serializable(v)
                &&& v != SpecValue::Nil
                &&& val_in(v, old(self)@.heap.len() as int, final(self)@.heap.len() as int)
                &&& (rt_ok(d@) ==> decode_val(final(self)@.heap, v, height(d@)) == Some(d@))
            }),
        decreases *d, 0int,
    {
        let ghost pre = self@;
        let ghost dview = dict_view(prs@, 0);
        let ghost dkeys = Seq::new(dview.len(), |q: int| dview[q].0);
        let ghost dvals = Seq::new(dview.len(), |q: int| dview[q].1);
        let ghost hyp = rt_ok(d@) && fits(d@) && pre.stack.len() + ser_need(d@) <= MAX_STACK
            && occupied(pre.registry) + 2 * height(d@) <= REGISTRY_MAX;
        proof {
            lemma_dict_view(prs@, 0);
            assert(d@ == SpecData::Dict(dview));
            lemma_dict_need(dview, 0);
            lemma_dict_height(dview, 0);
            if hyp {
                lemma_dict_fits(dview, 0);
            }
        }
        let mut ts = match self.serialize_map(Some(prs.len())) {
            Ok(ts) => ts,
            Err(e) => {
                proof {
                    if hyp {
                        assert(false);
                    }
                }
                return Err(e);
            },
        };
        let ghost p = ts.gh().table_id;
        proof {
            crate::de::lemma_occ_register(pre.registry, SpecValue::Table(p as int));
        }
        let mut j: usize = 0;
        while j < prs.len()
            invariant
                *d == Data::Dict(*prs),
                dview == dict_view(prs@, 0),
                dview.len() == prs@.len(),
                forall|q: int|
                    0 <= q < prs@.len() ==> dview[q] == (
                        data_view(#[trigger] prs@[q].0),
                        data_view(prs@[q].1),
                    ),
                dkeys == Seq::new(dview.len(), |q: int| dview[q].0),
                dvals == Seq::new(dview.len(), |q: int| dview[q].1),
                d@ == SpecData::Dict(dview),
                pre == old(self)@,
                j <= prs.len(),
                self.wf(),
                ts.inv(self@),
                ts.gh().is_map,
                !ts.gh().has_pending,
                ts.gh().table_id == p,
                p == pre.heap.len() as int,
                ts.gh().base == p + 1,
                ts.tref_slot() == spec_register_slot(pre.registry),
                ts.gh().kelems.len() == j,
                ts.gh().velems.len() == j,
                ts.gh().fuel <= dict_height(dview, 0),
                hyp == (rt_ok(d@) && fits(d@) && pre.stack.len() + ser_need(d@) <= MAX_STACK
                    && occupied(pre.registry) + 2 * height(d@) <= REGISTRY_MAX),
                occupied(self@.registry) <= occupied(pre.registry) + 1,
                (hyp ==> forall|q: int|
                    0 <= q < dview.len() ==> fits((#[trigger] dview[q]).0) && fits(dview[q].1)),
                forall|q: int|
                    0 <= q < dview.len() ==> ser_need((#[trigger] dview[q]).0) <= dict_need(
                        dview,
                        0,
                    ) && ser_need(dview[q].1) + 2 <= dict_need(dview, 0),
                forall|q: int|
                    0 <= q < dview.len() ==> height((#[trigger] dview[q]).0) <= dict_height(
                        dview,
                        0,
                    ) && height(dview[q].1) <= dict_height(dview, 0),
                (rt_ok(d@) ==> ts.gh().clean && ts.gh().kelems =~= dkeys.subrange(0, j as int)
                    && ts.gh().velems =~= dvals.subrange(0, j as int)),
                heap_extends(self@.heap, pre.heap),
                region_closed(self@.heap, pre.heap.len() as int),
                reg_restored(spec_register(pre.registry, SpecValue::Table(p)), self@.registry),
                1 <= ts.tref_slot() <= spec_register(pre.registry, SpecValue::Table(p)).len(),
                self@.stack == pre.stack,
                self@.globals == pre.globals,
                self@.mem == pre.mem,
            decreases prs.len() - j,
        {
            proof {
                assert(*prs == (*d)->Dict_0);
                assert(decreases_to!(*d => (*d)->Dict_0));
                assert(decreases_to!(*prs => prs@));
                assert(decreases_to!(prs@ => prs@[j as int]));
                assert(decreases_to!(prs@[j as int] => prs@[j as int].0));
                assert(decreases_to!(prs@[j as int] => prs@[j as int].1));
            }
            let ghost cur = self@;
            let ghost gcur = ts.gh();
            let pair = &prs[j];
            proof {
                if hyp {
                    lemma_dict_rt_ok(dview, 0);
                    assert(dview[j as int] == (
                        data_view(prs@[j as int].0),
                        data_view(prs@[j as int].1),
                    ));
                    assert(rt_ok(dview[j as int].0));
                    assert(rt_ok(dview[j as int].1));
                    assert(dview[j as int].0 != SpecData::Nil);
                    assert(ser_need(dview[j as int].0) <= dict_need(dview, 0));
                    assert(dict_need(dview, 0) <= ser_need(d@));
                    assert(height(dview[j as int].0) < height(d@));
                    assert(height(dview[j as int].1) < height(d@));
                }
            }
            match ts.serialize_key(self, &pair.0) {
                Ok(_) => {},
                Err(e) => {
                    let ghost mid = self@;
                    ts.abandon(self);
                    proof {
                        lemma_reg_restored_trans(
                            spec_register(pre.registry, SpecValue::Table(p)),
                            cur.registry,
                            mid.registry,
                        );
                        lemma_reg_stitch(pre.registry, SpecValue::Table(p), mid.registry);
                        lemma_push_region_after(pre.heap, cur.heap, mid.heap, p);
                        if hyp {
                            assert(false);
                        }
                    }
                    return Err(e);
                },
            }
            let ghost s1 = self@;
            let ghost gk = ts.gh();
            let ghost q = ts.pending_slot();
            proof {
                // when everything is supported, the new key is fresh in
                // the table: recorded keys decode to other data
                if rt_ok(d@) {
                    lemma_dict_rt_ok(dview, 0);
                    assert(gk.pkelem == dview[j as int].0);
                    assert(gk.pkclean);
                    assert(gk.clean);
                    let entries = map_entries(gk.kvals, gk.vvals);
                    assert forall|q2: int| 0 <= q2 < entries.len() implies (
                    #[trigger] entries[q2].0) != gk.pkval by {
                        if entries[q2].0 == gk.pkval {
                            assert(pairs_ok(gk, s1));
                            assert(decode_val(s1.heap, gk.kvals[q2], gk.fuel) == Some(
                                gk.kelems[q2],
                            ));
                            assert(decode_val(s1.heap, gk.pkval, gk.fuel) == Some(gk.pkelem));
                            assert(gk.kelems[q2] == gk.pkelem);
                            assert(gk.kelems[q2] == dkeys[q2]);
                            assert(dview[q2].0 == dview[j as int].0);
                            assert(keys_distinct(dview));
                            assert(false);
                        }
                    }
                    lemma_lookup_absent(entries, gk.pkval);
                    assert(lookup(map_entries(gk.kvals, gk.vvals), gk.pkval) == SpecValue::Nil);
                }
            }
            proof {
                if q == LUA_REFNIL {
                    crate::de::lemma_occ_restored(cur.registry, s1.registry);
                } else {
                    lemma_except_freed_restores(cur.registry, s1.registry, q);
                    crate::de::lemma_occ_restored(
                        cur.registry,
                        s1.registry.update(q - 1, None),
                    );
                    assert(s1.registry[q - 1] is Some);
                    crate::lref::lemma_occupied_update_none(s1.registry, q - 1);
                }
            }
            match ts.serialize_value(self, &pair.1) {
                Ok(_) => {},
                Err(e) => {
                    let ghost mid = self@;
                    ts.abandon(self);
                    proof {
                        // the registry walked: register table, maybe
                        // register key, free key, free table
                        if q == LUA_REFNIL {
                            lemma_reg_restored_trans(cur.registry, s1.registry, mid.registry);
                        } else {
                            lemma_except_freed_restores(cur.registry, s1.registry, q);
                            lemma_reg_restored_trans(
                                cur.registry,
                                s1.registry.update(q - 1, None),
                                mid.registry,
                            );
                        }
                        lemma_reg_restored_trans(
                            spec_register(pre.registry, SpecValue::Table(p)),
                            cur.registry,
                            mid.registry,
                        );
                        lemma_reg_stitch(pre.registry, SpecValue::Table(p), mid.registry);
                        lemma_push_region_after(pre.heap, cur.heap, s1.heap, p);
                        lemma_push_region_after(pre.heap, s1.heap, mid.heap, p);
                        if hyp {
                            assert(false);
                        }
                    }
                    return Err(e);
                },
            }
            proof {
                if q == LUA_REFNIL {
                    lemma_reg_restored_trans(cur.registry, s1.registry, self@.registry);
                } else {
                    lemma_reg_restored_trans(
                        cur.registry,
                        s1.registry.update(q - 1, None),
                        self@.registry,
                    );
                }
                crate::de::lemma_occ_restored(cur.registry, self@.registry);
                let gnext = ts.gh();
                if rt_ok(d@) {
                    lemma_dict_rt_ok(dview, 0);
                    assert(gnext.clean);
                    assert(gnext.kelems =~= dkeys.subrange(0, j + 1));
                    assert(gnext.velems =~= dvals.subrange(0, j + 1));
                }
                lemma_dict_height(dview, 0);
                assert(height(dview[j as int].0) <= dict_height(dview, 0));
                assert(height(dview[j as int].1) <= dict_height(dview, 0));
                lemma_push_region_after(pre.heap, cur.heap, s1.heap, p);
                lemma_push_region_after(pre.heap, s1.heap, self@.heap, p);
                if q == LUA_REFNIL {
                    lemma_reg_restored_trans(cur.registry, s1.registry, self@.registry);
                } else {
                    lemma_except_freed_restores(cur.registry, s1.registry, q);
                    lemma_reg_restored_trans(
                        cur.registry,
                        s1.registry.update(q - 1, None),
                        self@.registry,
                    );
                }
                lemma_reg_restored_trans(
                    spec_register(pre.registry, SpecValue::Table(p)),
                    cur.registry,
                    self@.registry,
                );
            }
            j = j + 1;
        }
        let ghost gfin = ts.gh();
        let ghost cur = self@;
        match ts.end(self) {
            Ok(n) => {
                proof {
                    assert(self@.stack =~= pre.stack.push(SpecValue::Table(p)));
                    lemma_reg_stitch(pre.registry, SpecValue::Table(p), cur.registry);
                    if rt_ok(d@) {
                        let entries = map_entries(gfin.kvals, gfin.vvals);
                        let k = gfin.kvals.len() as int;
                        assert(dkeys.subrange(0, dkeys.len() as int) =~= dkeys);
                        assert(dvals.subrange(0, dvals.len() as int) =~= dvals);
                        assert(gfin.kelems =~= dkeys);
                        assert(gfin.velems =~= dvals);
                        assert(cur.heap[p] == entries);
                        assert(pairs_ok(gfin, cur));
                        // a missing integer key keeps the table from
                        // reading back as a sequence
                        assert(!keys_positional(dview));
                        assert(exists|k0: i64|
                            1 <= k0 <= dview.len() && !has_int_key(dview, k0)) by {
                            if forall|k2: i64|
                                1 <= k2 <= dview.len() ==> #[trigger] has_int_key(dview, k2) {
                                assert(keys_positional(dview));
                            }
                        }
                        let k0 = choose|k0: i64| 1 <= k0 <= dview.len() && !has_int_key(
                            dview,
                            k0,
                        );
                        assert forall|q2: int| 0 <= q2 < entries.len() implies (
                        #[trigger] entries[q2].0) != SpecValue::Integer(k0) by {
                            if entries[q2].0 == SpecValue::Integer(k0) {
                                assert(decode_val(cur.heap, gfin.kvals[q2], gfin.fuel) == Some(
                                    gfin.kelems[q2],
                                ));
                                assert(gfin.kelems[q2] == SpecData::Int(k0));
                                assert(dview[q2].0 == SpecData::Int(k0));
                                assert(has_int_key(dview, k0));
                                assert(false);
                            }
                        }
                        lemma_lookup_absent(entries, SpecValue::Integer(k0));
                        assert(tlen(entries) != entries.len()) by {
                            if tlen(entries) == entries.len() {
                                lemma_tlen_present(entries, k0 as int);
                                assert(false);
                            }
                        }
                        // the finished table decodes to the map
                        let zip = Seq::new(k as nat, |q2: int| (gfin.kelems[q2], gfin.velems[q2]));
                        assert(height(d@) == 1 + dict_height(dview, 0));
                        assert(height(d@) >= gfin.fuel + 1);
                        let f = height(d@);
                        assert forall|q2: int| 0 <= q2 < entries.len() implies spec_serializable(
                            (#[trigger] entries[q2]).0,
                        ) && spec_serializable(entries[q2].1) && decode_val(
                            cur.heap,
                            entries[q2].0,
                            (f - 1) as nat,
                        ) == Some(zip[q2].0) && decode_val(cur.heap, entries[q2].1, (f - 1) as nat)
                            == Some(zip[q2].1) by {
                            assert(decode_val(cur.heap, gfin.kvals[q2], gfin.fuel) == Some(
                                gfin.kelems[q2],
                            ));
                            assert(decode_val(cur.heap, gfin.vvals[q2], gfin.fuel) == Some(
                                gfin.velems[q2],
                            ));
                            lemma_decode_mono(cur.heap, gfin.kvals[q2], gfin.fuel, (f - 1) as nat);
                            lemma_decode_mono(cur.heap, gfin.vvals[q2], gfin.fuel, (f - 1) as nat);
                        }
                        lemma_decode_pairs_all(cur.heap, entries, zip, 0, (f - 1) as nat);
                        assert(zip.subrange(0, k) =~= zip);
                        assert(zip =~= dview);
                        assert(decode_val(self@.heap, SpecValue::Table(p), f) == Some(
                            SpecData::Dict(zip),
                        ));
                    }
                }
                Ok(n)
            },
            Err(e) => {
                proof {
                    lemma_reg_stitch(pre.registry, SpecValue::Table(p), cur.registry);
                    if hyp {
                        assert(false);
                    }
                }
                Err(e)
            },
        }
    }
}

/// The machine encoding of a variant with a payload: a one-entry table
/// keyed by the variant's name.
pub open spec fn variant_dict(name: Seq<u8>, payload: SpecData) -> SpecData {
    SpecData::Dict(seq![(SpecData::Str(name), payload)])
}

impl State {
    /// A newtype enum variant is encoded as a table with a single
    /// entry: the variant's name as the key, the serialized inner value
    /// as the value.  Pushes that table, using one stack slot.
    pub fn serialize_newtype_variant(&mut self, variant: &[u8], value: &Data) -> (r: Result<
        i32,
        Error,
    >)
        requires
            old(self).wf(),
        ensures
            final(self).wf(),
            heap_extends(final(self)@.heap, old(self)@.heap),
            region_closed(final(self)@.heap, old(self)@.heap.len() as int),
            reg_restored(old(self)@.registry, final(self)@.registry),
            final(self)@.globals == old(self)@.globals,
            final(self)@.mem == old(self)@.mem,
            (r matches Err(e) ==> final(self)@.stack == old(self)@.stack && (e.kind
                == ErrorKind::StackOverflow || e.kind == ErrorKind::Custom)),
            (r matches Ok(n) ==> n == 1 && {
                let v = final(self)@.stack.last();
                &&& final(self)@.stack == old(self)@.stack.push(v)
                &&& is_table(v)
                &&& val_in(v, old(self)@.heap.len() as int, final(self)@.heap.len() as int)
                &&& (rt_ok(value@) && value@ != SpecData::Nil ==> forall|f: nat|
                    f >= height(value@) + 1 ==> decode_val(final(self)@.heap, v, f) == Some(
                        variant_dict(variant@, value@),
                    ))
            }),
            (rt_ok(value@) && fits(value@) && old(self)@.stack.len() + 2 + ser_need(value@)
                <= MAX_STACK && occupied(old(self)@.registry) + 2 * height(value@) <= REGISTRY_MAX
                ==> r is Ok),
    {
        let ghost pre = self@;
        proof {
            lemma_ser_need_pos(value@);
        }
        if !self.reserve(2) {
            return Err(Error::new(ErrorKind::StackOverflow, "no stack space for a table"));
        }
        let ghost p = self@.heap.len();
        self.create_table(0, 1);
        self.push_string(variant);
        let ghost mid1 = self@;
        match self.push_data(value) {
            Ok(_) => {},
            Err(e) => {
                self.pop(2);
                proof {
                    assert(self@.stack =~= pre.stack);
                    assert forall|i: int| 0 <= i < pre.heap.len() implies self@.heap[i]
                        == #[trigger] pre.heap[i] by {
                        assert(self@.heap[i] == mid1.heap[i]);
                    }
                    assert forall|t: int|
                        pre.heap.len() <= t < self@.heap.len() implies pairs_in(
                        #[trigger] self@.heap[t],
                        pre.heap.len() as int,
                        self@.heap.len() as int,
                    ) by {
                        if t == p {
                            assert(mid1.heap[p as int] =~= Seq::<(SpecValue, SpecValue)>::empty());
                            assert(self@.heap[t] == mid1.heap[t]);
                        } else {
                            assert(pairs_in(self@.heap[t], mid1.heap.len() as int,
                            self@.heap.len() as int));
                            crate::codec::lemma_pairs_in_widen(
                                self@.heap[t],
                                mid1.heap.len() as int,
                                self@.heap.len() as int,
                                pre.heap.len() as int,
                                self@.heap.len() as int,
                            );
                        }
                    }
                }
                return Err(e);
            },
        }
        let ghost mid2 = self@;
        let ghost ve = mid2.stack.last();
        proof {
            assert(mid2.stack == pre.stack.push(SpecValue::Table(p as int)).push(
                SpecValue::Str(variant@),
            ).push(ve));
            assert(abs_index(mid2.stack.len() as int, -3) == mid2.stack.len() - 3);
            assert(stack_val(mid2, -3) == SpecValue::Table(p as int));
        }
        match self.set_table(-3) {
            Ok(_) => {},
            Err(e) => {
                proof {
                    assert(false);
                }
                return Err(e);
            },
        }
        proof {
            let hfin = self@.heap;
            let entries = store(
                Seq::<(SpecValue, SpecValue)>::empty(),
                SpecValue::Str(variant@),
                ve,
            );
            assert(mid1.heap[p as int] =~= Seq::<(SpecValue, SpecValue)>::empty());
            assert(mid2.heap[p as int] == mid1.heap[p as int]);
            assert(self@.heap == mid2.heap.update(p as int, entries));
            assert(self@.stack =~= pre.stack.push(SpecValue::Table(p as int)));
            assert forall|i: int| 0 <= i < pre.heap.len() implies hfin[i] == #[trigger] pre.heap[i]
                by {
                assert(hfin[i] == mid2.heap[i]);
                assert(mid2.heap[i] == mid1.heap[i]);
            }
            // the new region is closed
            assert forall|t: int|
                pre.heap.len() <= t < hfin.len() implies pairs_in(
                #[trigger] hfin[t],
                pre.heap.len() as int,
                hfin.len() as int,
            ) by {
                if t == p {
                    if ve != SpecValue::Nil {
                        assert(entries =~= seq![(SpecValue::Str(variant@), ve)]);
                    } else {
                        assert(entries =~= Seq::<(SpecValue, SpecValue)>::empty());
                    }
                } else {
                    assert(hfin[t] == mid2.heap[t]);
                    assert(pairs_in(mid2.heap[t], mid1.heap.len() as int, mid2.heap.len() as int));
                    crate::codec::lemma_pairs_in_widen(
                        hfin[t],
                        mid1.heap.len() as int,
                        mid2.heap.len() as int,
                        pre.heap.len() as int,
                        hfin.len() as int,
                    );
                }
            }
            if rt_ok(value@) && value@ != SpecData::Nil {
                assert(ve != SpecValue::Nil);
                assert(entries =~= seq![(SpecValue::Str(variant@), ve)]);
                assert(hfin[p as int] == seq![(SpecValue::Str(variant@), ve)]);
                let etbl = seq![(SpecValue::Str(variant@), ve)];
                // not sequence-shaped: position 1 is absent
                assert forall|q: int| 0 <= q < etbl.len() implies (#[trigger] etbl[q].0)
                    != SpecValue::Integer(1i64) by {}
                lemma_lookup_absent(etbl, SpecValue::Integer(1i64));
                assert(tlen(etbl) == 0) by {
                    assert(crate::table_data::tlen_rec(etbl, 0, 1) == 0);
                }
                assert forall|f: nat|
                    f >= height(value@) + 1 implies decode_val(
                    hfin,
                    SpecValue::Table(p as int),
                    f,
                ) == Some(variant_dict(variant@, value@)) by {
                    // the payload keeps its decoding across the table write
                    assert(decode_val(mid2.heap, ve, height(value@)) == Some(value@));
                    lemma_decode_frame(mid2.heap, hfin, ve, mid1.heap.len() as int, height(
                        value@,
                    ));
                    lemma_decode_mono(hfin, ve, height(value@), (f - 1) as nat);
                    assert(spec_serializable(ve));
                    assert(decode_val(hfin, SpecValue::Str(variant@), (f - 1) as nat) == Some(
                        SpecData::Str(variant@),
                    ));
                    assert(decode_val(hfin, ve, (f - 1) as nat) == Some(value@));
                    assert(etbl[0].0 == SpecValue::Str(variant@));
                    assert(etbl[0].1 == ve);
                    assert(decode_pairs(hfin, etbl, 1, (f - 1) as nat) == Some(
                        Seq::<(SpecData, SpecData)>::empty(),
                    ));
                    assert(decode_pairs(hfin, etbl, 0, (f - 1) as nat) == Some(seq![
                        (SpecData::Str(variant@), value@),
                    ] + Seq::<(SpecData, SpecData)>::empty()));
                    assert(seq![(SpecData::Str(variant@), value@)] + Seq::<(
                        SpecData,
                        SpecData,
                    )>::empty() =~= seq![(SpecData::Str(variant@), value@)]);
                }
            }
        }
        Ok(1)
    }
}

/// A cursor building the encoding of a tuple or struct enum variant: an
/// inner table collects the fields exactly as a sequence or map would,
/// and `end` wraps it in a one-entry outer table keyed by the variant's
/// name, which is held in the registry meanwhile.
pub struct TableVariantSerializer {
    inner: TableSerializer,
    kref: LRef,
    vname: Ghost<Seq<u8>>,
}

impl TableVariantSerializer {
    /// The bookkeeping of the inner table's cursor.
    pub closed spec fn gh(&self) -> TsGhost {
        self.inner.gh()
    }

    /// The variant name this cursor will wrap its fields in.
    pub closed spec fn name(&self) -> Seq<u8> {
        self.vname@
    }

    /// The registry slot holding the variant name.
    pub closed spec fn kref_slot(&self) -> int {
        self.kref@
    }

    /// The cursor's invariant against a machine state.
    pub open spec fn inv(&self, s: SpecState) -> bool {
        &&& self.inner_ts().inv(s)
        &&& !self.gh().has_pending
        &&& 1 <= self.kref_slot() <= s.registry.len()
        &&& s.registry[self.kref_slot() - 1] == Some(SpecValue::Str(self.name()))
        &&& self.kref_slot() != self.inner_ts().tref_slot()
    }

    /// The inner cursor.
    pub closed spec fn inner_ts(&self) -> TableSerializer {
        self.inner
    }
}

impl State {
    /// Begins serializing a tuple enum variant: creates the inner table
    /// for the fields (a sequence) and parks the variant's name in the
    /// registry.  The stack is left as it was; `end` will push the
    /// finished one-entry outer table.
    pub fn serialize_tuple_variant(&mut self, variant: &[u8], len: usize) -> (r: Result<
        TableVariantSerializer,
        Error,
    >)
        requires
            old(self).wf(),
        ensures
            final(self).wf(),
            heap_extends(final(self)@.heap, old(self)@.heap),
            region_closed(final(self)@.heap, old(self)@.heap.len() as int),
            final(self)@.globals == old(self)@.globals,
            final(self)@.mem == old(self)@.mem,
            final(self)@.stack == old(self)@.stack,
            (r matches Err(e) ==> reg_restored(old(self)@.registry, final(self)@.registry) && (
            e.kind == ErrorKind::StackOverflow || e.kind == ErrorKind::Custom)),
            (len <= i32::MAX && old(self)@.stack.len() < MAX_STACK && occupied(
                old(self)@.registry,
            ) + 2 <= REGISTRY_MAX ==> r is Ok),
            (r matches Ok(tvs) ==> {
                let g = tvs.gh();
                &&& tvs.inv(final(self)@)
                &&& !g.is_map
                &&& g.clean
                &&& g.elems =~= Seq::<SpecData>::empty()
                &&& g.fuel == 0
                &&& tvs.name() == variant@
            }),
    {
        let ghost pre = self@;
        let inner = match self.serialize_seq(Some(len)) {
            Ok(inner) => inner,
            Err(e) => {
                return Err(e);
            },
        };
        let ghost mid = self@;
        if !self.reserve(1) {
            let ghost curreg = self@.registry;
            inner.abandon(self);
            proof {
                lemma_reg_stitch(pre.registry, SpecValue::Table(pre.heap.len() as int), curreg);
            }
            return Err(Error::new(ErrorKind::StackOverflow, "no stack space for a value"));
        }
        self.push_string(variant);
        let ghost tslot = inner.tref_slot();
        let kref = match LRef::register(self) {
            Ok(kref) => kref,
            Err(e) => {
                self.pop(1);
                let ghost curreg = self@.registry;
                inner.abandon(self);
                proof {
                    assert(self@.stack =~= pre.stack);
                    lemma_reg_stitch(
                        pre.registry,
                        SpecValue::Table(pre.heap.len() as int),
                        curreg,
                    );
                    if occupied(pre.registry) + 2 <= REGISTRY_MAX {
                        crate::de::lemma_occ_register(
                            pre.registry,
                            SpecValue::Table(pre.heap.len() as int),
                        );
                        lemma_registry_has_room(mid.registry);
                    }
                }
                return Err(e);
            },
        };
        proof {
            crate::lref::lemma_first_free_bounds(mid.registry, 0);
            assert(mid.registry[tslot - 1] is Some);
        }
        Ok(TableVariantSerializer { inner, kref, vname: Ghost(variant@) })
    }

    /// Begins serializing a struct enum variant: as
    /// [`serialize_tuple_variant`](State::serialize_tuple_variant), with
    /// the inner table collecting named fields (a map).
    pub fn serialize_struct_variant(&mut self, variant: &[u8], len: usize) -> (r: Result<
        TableVariantSerializer,
        Error,
    >)
        requires
            old(self).wf(),
        ensures
            final(self).wf(),
            heap_extends(final(self)@.heap, old(self)@.heap),
            region_closed(final(self)@.heap, old(self)@.heap.len() as int),
            final(self)@.globals == old(self)@.globals,
            final(self)@.mem == old(self)@.mem,
            final(self)@.stack == old(self)@.stack,
            (r matches Err(e) ==> reg_restored(old(self)@.registry, final(self)@.registry) && (
            e.kind == ErrorKind::StackOverflow || e.kind == ErrorKind::Custom)),
            (len <= i32::MAX && old(self)@.stack.len() < MAX_STACK && occupied(
                old(self)@.registry,
            ) + 2 <= REGISTRY_MAX ==> r is Ok),
            (r matches Ok(tvs) ==> {
                let g = tvs.gh();
                &&& tvs.inv(final(self)@)
                &&& g.is_map
                &&& g.clean
                &&& !g.has_pending
                &&& g.kelems =~= Seq::<SpecData>::empty()
                &&& g.velems =~= Seq::<SpecData>::empty()
                &&& g.fuel == 0
                &&& tvs.name() == variant@
            }),
    {
        let ghost pre = self@;
        let inner = match self.serialize_map(Some(len)) {
            Ok(inner) => inner,
            Err(e) => {
                return Err(e);
            },
        };
        let ghost mid = self@;
        if !self.reserve(1) {
            let ghost curreg = self@.registry;
            inner.abandon(self);
            proof {
                lemma_reg_stitch(pre.registry, SpecValue::Table(pre.heap.len() as int), curreg);
            }
            return Err(Error::new(ErrorKind::StackOverflow, "no stack space for a value"));
        }
        self.push_string(variant);
        let ghost tslot = inner.tref_slot();
        let kref = match LRef::register(self) {
            Ok(kref) => kref,
            Err(e) => {
                self.pop(1);
                let ghost curreg = self@.registry;
                inner.abandon(self);
                proof {
                    assert(self@.stack =~= pre.stack);
                    lemma_reg_stitch(
                        pre.registry,
                        SpecValue::Table(pre.heap.len() as int),
                        curreg,
                    );
                    if occupied(pre.registry) + 2 <= REGISTRY_MAX {
                        crate::de::lemma_occ_register(
                            pre.registry,
                            SpecValue::Table(pre.heap.len() as int),
                        );
                        lemma_registry_has_room(mid.registry);
                    }
                }
                return Err(e);
            },
        };
        proof {
            crate::lref::lemma_first_free_bounds(mid.registry, 0);
            assert(mid.registry[tslot - 1] is Some);
        }
        Ok(TableVariantSerializer { inner, kref, vname: Ghost(variant@) })
    }
}

impl TableVariantSerializer {
    /// Adds one field of a tuple variant (see
    /// [`TableSerializer::serialize_element`]).
    pub fn serialize_field(&mut self, state: &mut State, value: &Data) -> (r: Result<(), Error>)
        requires
            old(state).wf(),
            old(self).inv(old(state)@),
            !old(self).gh().is_map,
        ensures
            final(state).wf(),
            final(self).inv(final(state)@),
            !final(self).gh().is_map,
            final(self).name() == old(self).name(),
            final(self).gh().table_id == old(self).gh().table_id,
            final(state)@.globals == old(state)@.globals,
            final(state)@.mem == old(state)@.mem,
            final(state)@.stack == old(state)@.stack,
            (r is Ok ==> {
                let g2 = final(self).gh();
                let g1 = old(self).gh();
                &&& g2.elems == g1.elems.push(value@)
                &&& g2.fuel == (if g1.fuel >= height(value@) {
                    g1.fuel
                } else {
                    height(value@)
                })
                &&& g2.clean == (g1.clean && rt_ok(value@) && value@ != SpecData::Nil)
            }),
            (r matches Err(e) ==> final(self).gh() == old(self).gh() && (e.kind
                == ErrorKind::StackOverflow || e.kind == ErrorKind::Custom)),
            (old(self).gh().vals.len() + 2 <= i64::MAX && rt_ok(value@) && fits(value@) && old(
                state,
            )@.stack.len() + 1 + ser_need(value@) <= MAX_STACK && occupied(old(state)@.registry)
                + 2 * height(value@) <= REGISTRY_MAX ==> r is Ok),
        decreases *value, 3int,
    {
        let ghost kslot = self.kref@;
        let ghost pre = state@;
        let r = self.inner.serialize_element(state, value);
        proof {
            assert(state@.registry[kslot - 1] == pre.registry[kslot - 1]);
        }
        r
    }

    /// Adds one named field of a struct variant: the field's name as the
    /// key, then its value (see [`TableSerializer::serialize_key`] and
    /// [`TableSerializer::serialize_value`]).
    pub fn serialize_member(&mut self, state: &mut State, key: &[u8], value: &Data) -> (r:
        Result<(), Error>)
        requires
            old(state).wf(),
            old(self).inv(old(state)@),
            old(self).gh().is_map,
            !old(self).gh().has_pending,
        ensures
            final(state).wf(),
            final(self).inv(final(state)@),
            final(self).gh().is_map,
            !final(self).gh().has_pending,
            final(self).name() == old(self).name(),
            final(self).gh().table_id == old(self).gh().table_id,
            final(state)@.globals == old(state)@.globals,
            final(state)@.mem == old(state)@.mem,
            final(state)@.stack == old(state)@.stack,
            (r is Ok ==> {
                let g2 = final(self).gh();
                let g1 = old(self).gh();
                &&& g2.kelems == g1.kelems.push(SpecData::Str(key@))
                &&& g2.velems == g1.velems.push(value@)
                &&& g2.kvals == g1.kvals.push(SpecValue::Str(key@))
                &&& g2.vvals.len() == g1.vvals.len() + 1
                &&& g2.vvals.drop_last() == g1.vvals
                &&& g2.fuel == (if g1.fuel >= height(value@) {
                    g1.fuel
                } else {
                    height(value@)
                })
                &&& g2.clean == (g1.clean && rt_ok(value@) && value@ != SpecData::Nil && lookup(
                    map_entries(g1.kvals, g1.vvals),
                    SpecValue::Str(key@),
                ) == SpecValue::Nil)
            }),
            (r matches Err(e) ==> (e.kind == ErrorKind::StackOverflow || e.kind
                == ErrorKind::Custom) && final(self).gh().kelems == old(self).gh().kelems
                && final(self).gh().velems == old(self).gh().velems),
            (rt_ok(value@) && fits(value@) && old(state)@.stack.len() + 2 + ser_need(value@)
                <= MAX_STACK && occupied(old(state)@.registry) + 2 * height(value@) + 1
                <= REGISTRY_MAX ==> r is Ok),
        decreases *value, 3int,
    {
        let ghost kslot = self.kref@;
        let ghost pre = state@;
        let kd = Data::Str(crate::value::copy_slice(key));
        proof {
            assert(kd@ == SpecData::Str(key@));
            lemma_ser_need_pos(value@);
        }
        match self.inner.serialize_key(state, &kd) {
            Ok(_) => {},
            Err(e) => {
                proof {
                    assert(state@.registry[kslot - 1] == pre.registry[kslot - 1]);
                }
                return Err(e);
            },
        }
        let ghost mid = state@;
        let ghost gk = self.inner.gh();
        let ghost pslot = self.inner.pending_slot();
        proof {
            // the pending key is the field-name string itself
            assert(gk.pkclean);
            assert(decode_val(mid.heap, gk.pkval, gk.fuel) == Some(SpecData::Str(key@)));
            assert(gk.pkval == SpecValue::Str(key@));
            assert(pslot >= 1);
            // one slot is pending; everything else is as before
            if occupied(pre.registry) + 2 * height(value@) + 1 <= REGISTRY_MAX {
                crate::ser::lemma_except_freed_restores(pre.registry, mid.registry, pslot);
                crate::de::lemma_occ_restored(
                    pre.registry,
                    mid.registry.update(pslot - 1, None),
                );
                assert(mid.registry[pslot - 1] is Some);
                crate::lref::lemma_occupied_update_none(mid.registry, pslot - 1);
            }
        }
        let r = self.inner.serialize_value(state, value);
        proof {
            if 1 <= pslot <= mid.registry.len() {
                assert(kslot != pslot);
                assert(state@.registry[kslot - 1] == mid.registry.update(pslot - 1, None)[kslot
                    - 1]);
            }
            assert(state@.registry[kslot - 1] == pre.registry[kslot - 1]);
        }
        r
    }

    /// Finishes the variant: builds the one-entry outer table mapping
    /// the variant's name to the inner table of fields, releases the
    /// registry slots and pushes the outer table (one stack slot used).
    pub fn end(self, state: &mut State) -> (r: Result<i32, Error>)
        requires
            old(state).wf(),
            self.inv(old(state)@),
        ensures
            final(state).wf(),
            heap_extends(final(state)@.heap, old(state)@.heap),
            final(state)@.globals == old(state)@.globals,
            final(state)@.mem == old(state)@.mem,
            (r matches Err(e) ==> e.kind == ErrorKind::StackOverflow && final(state)@.stack
                == old(state)@.stack),
            (old(state)@.stack.len() + 3 <= MAX_STACK ==> r is Ok),
            (r matches Ok(n) ==> n == 1 && {
                let g = self.gh();
                let q = old(state)@.heap.len() as int;
                let hfin = final(state)@.heap;
                &&& final(state)@.stack == old(state)@.stack.push(SpecValue::Table(q))
                &&& (forall|f: nat|
                    f >= 1 ==> decode_val(hfin, SpecValue::Table(q), f) == (
                    match decode_val(hfin, SpecValue::Table(g.table_id), (f - 1) as nat) {
                        Some(x) => Some(variant_dict(self.name(), x)),
                        None => None,
                    }))
                &&& (!g.is_map && g.clean ==> forall|f: nat|
                    f >= g.fuel + 2 ==> decode_val(hfin, SpecValue::Table(q), f) == Some(
                        variant_dict(self.name(), SpecData::List(g.elems)),
                    ))
            }),
    {
        let ghost pre = state@;
        let TableVariantSerializer { inner, kref, vname } = self;
        let mut kref = kref;
        let ghost g = inner.gh();
        let ghost p = g.table_id;
        if !state.reserve(3) {
            kref.release(state);
            inner.abandon(state);
            return Err(Error::new(ErrorKind::StackOverflow, "no stack space for a table"));
        }
        let ghost q = state@.heap.len();
        state.create_table(0, 1);
        kref.take(state);
        let ghost mid1 = state@;
        proof {
            assert(mid1.stack == pre.stack.push(SpecValue::Table(q as int)).push(
                SpecValue::Str(vname@),
            ));
            assert(mid1.registry == pre.registry.update(self.kref_slot() - 1, None));
            assert(inner.inv(mid1)) by {
                lemma_inv_growth(inner, pre, mid1);
            }
        }
        match inner.end(state) {
            Ok(_) => {},
            Err(e) => {
                state.pop(2);
                proof {
                    assert(state@.stack =~= pre.stack);
                }
                return Err(e);
            },
        }
        let ghost mid2 = state@;
        proof {
            assert(mid2.stack == mid1.stack.push(SpecValue::Table(p)));
            assert(abs_index(mid2.stack.len() as int, -3) == mid2.stack.len() - 3);
            assert(stack_val(mid2, -3) == SpecValue::Table(q as int));
        }
        match state.set_table(-3) {
            Ok(_) => {},
            Err(e) => {
                proof {
                    assert(false);
                }
                return Err(e);
            },
        }
        proof {
            let hfin = state@.heap;
            let entries = store(
                Seq::<(SpecValue, SpecValue)>::empty(),
                SpecValue::Str(vname@),
                SpecValue::Table(p),
            );
            assert(mid1.heap[q as int] =~= Seq::<(SpecValue, SpecValue)>::empty());
            assert(mid2.heap[q as int] == mid1.heap[q as int]);
            assert(hfin == mid2.heap.update(q as int, entries));
            assert(state@.stack =~= pre.stack.push(SpecValue::Table(q as int)));
            assert(entries =~= seq![(SpecValue::Str(vname@), SpecValue::Table(p))]);
            let etbl = seq![(SpecValue::Str(vname@), SpecValue::Table(p))];
            assert(hfin[q as int] == etbl);
            assert forall|i: int| 0 <= i < pre.heap.len() implies hfin[i] == #[trigger] pre.heap[i]
                by {
                assert(hfin[i] == mid2.heap[i]);
                assert(mid2.heap[i] == mid1.heap[i]);
            }
            // the outer table is not sequence-shaped
            assert forall|i2: int| 0 <= i2 < etbl.len() implies (#[trigger] etbl[i2].0)
                != SpecValue::Integer(1i64) by {}
            lemma_lookup_absent(etbl, SpecValue::Integer(1i64));
            assert(tlen(etbl) == 0) by {
                assert(crate::table_data::tlen_rec(etbl, 0, 1) == 0);
            }
            // generic composition: the outer reads as a one-entry map of
            // whatever the inner table reads as
            assert forall|f: nat|
                f >= 1 implies decode_val(hfin, SpecValue::Table(q as int), f) == (
            match decode_val(hfin, SpecValue::Table(p), (f - 1) as nat) {
                Some(x) => Some(variant_dict(vname@, x)),
                None => None,
            }) by {
                let f1 = (f - 1) as nat;
                assert(decode_val(hfin, SpecValue::Str(vname@), f1) == Some(
                    SpecData::Str(vname@),
                ));
                assert(decode_pairs(hfin, etbl, 1, f1) == Some(
                    Seq::<(SpecData, SpecData)>::empty(),
                ));
                match decode_val(hfin, SpecValue::Table(p), f1) {
                    Some(x) => {
                        assert(decode_pairs(hfin, etbl, 0, f1) == Some(seq![
                            (SpecData::Str(vname@), x),
                        ] + Seq::<(SpecData, SpecData)>::empty()));
                        assert(seq![(SpecData::Str(vname@), x)] + Seq::<(
                            SpecData,
                            SpecData,
                        )>::empty() =~= seq![(SpecData::Str(vname@), x)]);
                    },
                    None => {
                        assert(decode_pairs(hfin, etbl, 0, f1) is None);
                    },
                }
            }
            // for a supported tuple variant, the payload is the field list
            if !g.is_map && g.clean {
                assert forall|f: nat|
                    f >= g.fuel + 2 implies decode_val(hfin, SpecValue::Table(q as int), f)
                    == Some(variant_dict(vname@, SpecData::List(g.elems))) by {
                    let f1 = (f - 1) as nat;
                    assert(decode_val(mid1.heap, SpecValue::Table(p), f1) == Some(
                        SpecData::List(g.elems),
                    ));
                    lemma_region_closed_self(inner, pre);
                    lemma_decode_frame(pre.heap, mid1.heap, SpecValue::Table(p), p, f1);
                    lemma_decode_frame(pre.heap, hfin, SpecValue::Table(p), p, f1);
                    assert(decode_val(hfin, SpecValue::Table(p), f1) == Some(
                        SpecData::List(g.elems),
                    ));
                }
            }
        }
        Ok(1)
    }
}

} // verus!
