//! Machine values as seen by the bridge.

use vstd::prelude::*;

verus! {

/// The type code returned when a non-valid but acceptable index is queried.
pub const LUA_TNONE: i32 = -1;

/// The **nil** value type.
pub const LUA_TNIL: i32 = 0;

/// The *boolean* value type.
pub const LUA_TBOOLEAN: i32 = 1;

/// The *light user data* value type.
pub const LUA_TLIGHTUSERDATA: i32 = 2;

/// The *number* value type (covers both integer and float subtypes).
pub const LUA_TNUMBER: i32 = 3;

/// The *string* value type.
pub const LUA_TSTRING: i32 = 4;

/// The *table* value type.
pub const LUA_TTABLE: i32 = 5;

/// The *function* value type.
pub const LUA_TFUNCTION: i32 = 6;

/// The *user data* value type.
pub const LUA_TUSERDATA: i32 = 7;

/// The *thread* value type.
pub const LUA_TTHREAD: i32 = 8;

/// The mathematical model of a machine value.
///
/// Strings are byte sequences; tables are identified by the index of their
/// storage in the machine's table heap; the remaining reference kinds
/// (functions, user data, threads) are opaque identities.
pub enum SpecValue {
    Nil,
    Boolean(bool),
    Integer(i64),
    /// A float, identified by its raw bit pattern.
    Float(u64),
    Str(Seq<u8>),
    Table(int),
    Function(u64),
    Userdata(u64),
    LightUserdata(u64),
    Thread(u64),
}

/// A value of the machine's dynamic type system, as held on the operand
/// stack, in tables, in the registry and in global slots.
///
/// Floats are carried as their raw 64-bit encoding: the bridge never does
/// arithmetic on them, it only moves them around, so the bit pattern is the
/// faithful identity of the value.
#[derive(Debug)]
pub enum Value {
    /// The **nil** value.
    Nil,
    /// A boolean.
    Boolean(bool),
    /// A number with the integer subtype.
    Integer(i64),
    /// A number with the float subtype, as its raw bit pattern.
    Float(u64),
    /// A string: an arbitrary byte sequence, embedded zeros included.
    Str(Vec<u8>),
    /// A table, by the index of its storage in the machine's table heap.
    Table(usize),
    /// A function (opaque to the bridge).
    Function(u64),
    /// A full user data value (opaque to the bridge).
    Userdata(u64),
    /// A light user data value (opaque to the bridge).
    LightUserdata(u64),
    /// A coroutine thread (opaque to the bridge).
    Thread(u64),
}

impl View for Value {
    type V = SpecValue;

    open spec fn view(&self) -> SpecValue {
        match self {
            Value::Nil => SpecValue::Nil,
            Value::Boolean(b) => SpecValue::Boolean(*b),
            Value::Integer(n) => SpecValue::Integer(*n),
            Value::Float(bits) => SpecValue::Float(*bits),
            Value::Str(s) => SpecValue::Str(s@),
            Value::Table(t) => SpecValue::Table(*t as int),
            Value::Function(id) => SpecValue::Function(*id),
            Value::Userdata(id) => SpecValue::Userdata(*id),
            Value::LightUserdata(id) => SpecValue::LightUserdata(*id),
            Value::Thread(id) => SpecValue::Thread(*id),
        }
    }
}

/// The type code of a value, mirroring the machine's type query.
pub open spec fn spec_type_code(v: SpecValue) -> int {
    match v {
        SpecValue::Nil => LUA_TNIL as int,
        SpecValue::Boolean(_) => LUA_TBOOLEAN as int,
        SpecValue::Integer(_) => LUA_TNUMBER as int,
        SpecValue::Float(_) => LUA_TNUMBER as int,
        SpecValue::Str(_) => LUA_TSTRING as int,
        SpecValue::Table(_) => LUA_TTABLE as int,
        SpecValue::Function(_) => LUA_TFUNCTION as int,
        SpecValue::Userdata(_) => LUA_TUSERDATA as int,
        SpecValue::LightUserdata(_) => LUA_TLIGHTUSERDATA as int,
        SpecValue::Thread(_) => LUA_TTHREAD as int,
    }
}

/// Whether a value is of one of the kinds the bridge can transcode:
/// nil, boolean, number, string or table.  Functions, user data and
/// threads have no safe host representation.
pub open spec fn spec_serializable(v: SpecValue) -> bool {
    match v {
        SpecValue::Function(_) => false,
        SpecValue::Userdata(_) => false,
        SpecValue::LightUserdata(_) => false,
        SpecValue::Thread(_) => false,
        _ => true,
    }
}

/// Table-id well-formedness: a value mentions no table outside the heap.
pub open spec fn val_wf(v: SpecValue, heap_len: int) -> bool {
    match v {
        SpecValue::Table(t) => 0 <= t < heap_len,
        _ => true,
    }
}

impl Value {
    /// Returns the machine type code of this value.
    pub fn type_code(&self) -> (r: i32)
        ensures
            r as int == spec_type_code(self@),
    {
        match self {
            Value::Nil => LUA_TNIL,
            Value::Boolean(_) => LUA_TBOOLEAN,
            Value::Integer(_) => LUA_TNUMBER,
            Value::Float(_) => LUA_TNUMBER,
            Value::Str(_) => LUA_TSTRING,
            Value::Table(_) => LUA_TTABLE,
            Value::Function(_) => LUA_TFUNCTION,
            Value::Userdata(_) => LUA_TUSERDATA,
            Value::LightUserdata(_) => LUA_TLIGHTUSERDATA,
            Value::Thread(_) => LUA_TTHREAD,
        }
    }

    /// Whether this value is of a kind the bridge can transcode.
    pub fn is_serializable(&self) -> (r: bool)
        ensures
            r == spec_serializable(self@),
    {
        match self {
            Value::Function(_) => false,
            Value::Userdata(_) => false,
            Value::LightUserdata(_) => false,
            Value::Thread(_) => false,
            _ => true,
        }
    }

    /// Whether this value is nil.
    pub fn is_nil(&self) -> (r: bool)
        ensures
            r == (self@ == SpecValue::Nil),
    {
        match self {
            Value::Nil => true,
            _ => false,
        }
    }

    /// Returns a value equal to this one (tables and other reference kinds
    /// keep their identity; strings are copied byte for byte).
    pub fn duplicate(&self) -> (r: Value)
        ensures
            r@ == self@,
    {
        match self {
            Value::Nil => Value::Nil,
            Value::Boolean(b) => Value::Boolean(*b),
            Value::Integer(n) => Value::Integer(*n),
            Value::Float(bits) => Value::Float(*bits),
            Value::Str(s) => {
                let copy = copy_bytes(s);
                Value::Str(copy)
            },
            Value::Table(t) => Value::Table(*t),
            Value::Function(id) => Value::Function(*id),
            Value::Userdata(id) => Value::Userdata(*id),
            Value::LightUserdata(id) => Value::LightUserdata(*id),
            Value::Thread(id) => Value::Thread(*id),
        }
    }

    /// Machine value equality.  Strings compare by contents; tables,
    /// functions, user data and threads compare by identity; the integer
    /// and float number subtypes never compare equal to each other.
    pub fn equals(&self, other: &Value) -> (r: bool)
        ensures
            r == (self@ == other@),
    {
        match (self, other) {
            (Value::Nil, Value::Nil) => true,
            (Value::Boolean(a), Value::Boolean(b)) => *a == *b,
            (Value::Integer(a), Value::Integer(b)) => *a == *b,
            (Value::Float(a), Value::Float(b)) => *a == *b,
            (Value::Str(a), Value::Str(b)) => bytes_equal(a, b),
            (Value::Table(a), Value::Table(b)) => *a == *b,
            (Value::Function(a), Value::Function(b)) => *a == *b,
            (Value::Userdata(a), Value::Userdata(b)) => *a == *b,
            (Value::LightUserdata(a), Value::LightUserdata(b)) => *a == *b,
            (Value::Thread(a), Value::Thread(b)) => *a == *b,
            _ => false,
        }
    }
}

/// Copies a byte vector.
pub fn copy_bytes(s: &Vec<u8>) -> (r: Vec<u8>)
    ensures
        r@ == s@,
{
    let mut out: Vec<u8> = Vec::new();
    let mut i: usize = 0;
    while i < s.len()
        invariant
            i <= s.len(),
            out@ == s@.subrange(0, i as int),
        decreases s.len() - i,
    {
        out.push(s[i]);
        i = i + 1;
        proof {
            assert(out@ =~= s@.subrange(0, i as int));
        }
    }
    proof {
        assert(out@ =~= s@);
    }
    out
}

/// Copies a byte slice into a fresh vector.
pub fn copy_slice(s: &[u8]) -> (r: Vec<u8>)
    ensures
        r@ == s@,
{
    let mut out: Vec<u8> = Vec::new();
    let mut i: usize = 0;
    while i < s.len()
        invariant
            i <= s.len(),
            out@ == s@.subrange(0, i as int),
        decreases s.len() - i,
    {
        out.push(s[i]);
        i = i + 1;
        proof {
            assert(out@ =~= s@.subrange(0, i as int));
        }
    }
    proof {
        assert(out@ =~= s@);
    }
    out
}

/// Compares two byte vectors for equality.
pub fn bytes_equal(a: &Vec<u8>, b: &Vec<u8>) -> (r: bool)
    ensures
        r == (a@ == b@),
{
    if a.len() != b.len() {
        proof {
            assert(a@ != b@) by {
                assert(a@.len() != b@.len());
            }
        }
        return false;
    }
    let mut i: usize = 0;
    while i < a.len()
        invariant
            i <= a.len(),
            a.len() == b.len(),
            forall|j: int| 0 <= j < i ==> a@[j] == b@[j],
        decreases a.len() - i,
    {
        if a[i] != b[i] {
            return false;
        }
        i = i + 1;
    }
    proof {
        assert(a@ =~= b@);
    }
    true
}

} // verus!
