//! Structured host data: the shapes the bridge can transcode.
//!
//! [`Data`] is the host-side model of a structured value: primitives,
//! byte strings, optional values (nil), sequences and maps, nested to any
//! depth.  The serializer turns a `Data` into machine stack pushes; the
//! deserializer reads one back.  Enum-variant shapes are handled by their
//! own entry points (see [`ser`](crate::ser) and [`de`](crate::de)).

use vstd::prelude::*;

verus! {

broadcast use vstd::std_specs::vec::group_vec_axioms;

/// The mathematical model of a structured value.
pub enum SpecData {
    Nil,
    Bool(bool),
    Int(i64),
    /// A float, identified by its raw bit pattern.
    Float(u64),
    Str(Seq<u8>),
    List(Seq<SpecData>),
    Dict(Seq<(SpecData, SpecData)>),
}

/// A structured value: what the bridge serializes into the machine and
/// deserializes back out of it.
///
/// Floats are carried as their raw 64-bit encoding; the bridge moves
/// them without arithmetic.  A map is a list of key/value pairs in
/// order.
#[derive(Debug, PartialEq)]
pub enum Data {
    /// The absent value: an option without a value, or the unit.
    Nil,
    /// A boolean.
    Bool(bool),
    /// A signed integer.
    Int(i64),
    /// A float, as its raw bit pattern.
    Float(u64),
    /// A byte string (embedded zeros allowed).
    Str(Vec<u8>),
    /// A sequence of values.
    List(Vec<Data>),
    /// A map, as key/value pairs in order.
    Dict(Vec<(Data, Data)>),
}

/// The model of a `Data` value.
pub open spec fn data_view(d: Data) -> SpecData
    decreases d, 1int, 0int,
{
    match d {
        Data::Nil => SpecData::Nil,
        Data::Bool(b) => SpecData::Bool(b),
        Data::Int(n) => SpecData::Int(n),
        Data::Float(bits) => SpecData::Float(bits),
        Data::Str(s) => SpecData::Str(s@),
        Data::List(items) => SpecData::List(list_view(items@, 0)),
        Data::Dict(prs) => SpecData::Dict(dict_view(prs@, 0)),
    }
}

/// The models of the values `s[i..]`.
pub open spec fn list_view(s: Seq<Data>, i: int) -> Seq<SpecData>
    decreases s, 0int, s.len() - i,
{
    if i < 0 || i >= s.len() {
        Seq::empty()
    } else {
        seq![data_view(s[i])] + list_view(s, i + 1)
    }
}

/// The models of the pairs `s[i..]`.
pub open spec fn dict_view(s: Seq<(Data, Data)>, i: int) -> Seq<(SpecData, SpecData)>
    decreases s, 0int, s.len() - i,
{
    if i < 0 || i >= s.len() {
        Seq::empty()
    } else {
        seq![(data_view(s[i].0), data_view(s[i].1))] + dict_view(s, i + 1)
    }
}

/// `list_view` gives one model per element, in order.
pub proof fn lemma_list_view(s: Seq<Data>, i: int)
    requires
        0 <= i <= s.len(),
    ensures
        list_view(s, i).len() == s.len() - i,
        forall|j: int| i <= j < s.len() ==> list_view(s, i)[j - i] == data_view(#[trigger] s[j]),
    decreases s.len() - i,
{
    if i < s.len() {
        lemma_list_view(s, i + 1);
    }
}

/// `dict_view` gives one model per pair, in order.
pub proof fn lemma_dict_view(s: Seq<(Data, Data)>, i: int)
    requires
        0 <= i <= s.len(),
    ensures
        dict_view(s, i).len() == s.len() - i,
        forall|j: int|
            i <= j < s.len() ==> dict_view(s, i)[j - i] == (
                data_view(#[trigger] s[j].0),
                data_view(s[j].1),
            ),
    decreases s.len() - i,
{
    if i < s.len() {
        lemma_dict_view(s, i + 1);
    }
}

impl View for Data {
    type V = SpecData;

    open spec fn view(&self) -> SpecData {
        data_view(*self)
    }
}

/// The nesting height of a value: 0 for scalars, one more than the
/// deepest child for sequences and maps.  A decoder given at least this
/// much lookahead depth can always read the value back.
pub open spec fn height(d: SpecData) -> nat
    decreases d, 0int, 0int,
{
    match d {
        SpecData::List(items) => 1 + list_height(items, 0),
        SpecData::Dict(prs) => 1 + dict_height(prs, 0),
        _ => 0,
    }
}

/// The greatest height among `items[i..]`.
pub open spec fn list_height(items: Seq<SpecData>, i: int) -> nat
    decreases items, 1int, items.len() - i,
{
    if i < 0 || i >= items.len() {
        0
    } else {
        let h = height(items[i]);
        let rest = list_height(items, i + 1);
        if h > rest {
            h
        } else {
            rest
        }
    }
}

/// The greatest height among the keys and values of `prs[i..]`.
pub open spec fn dict_height(prs: Seq<(SpecData, SpecData)>, i: int) -> nat
    decreases prs, 1int, prs.len() - i,
{
    if i < 0 || i >= prs.len() {
        0
    } else {
        let hk = height(prs[i].0);
        let hv = height(prs[i].1);
        let h = if hk > hv {
            hk
        } else {
            hv
        };
        let rest = dict_height(prs, i + 1);
        if h > rest {
            h
        } else {
            rest
        }
    }
}

/// No two pairs share a key.
pub open spec fn keys_distinct(prs: Seq<(SpecData, SpecData)>) -> bool {
    forall|i: int, j: int| 0 <= i < j < prs.len() ==> prs[i].0 != prs[j].0
}

/// Whether the keys of a map make it indistinguishable from a sequence
/// once inside the machine: every integer from 1 to the pair count
/// appears as a key (an empty map is such a map).  Such a map reads back
/// as a sequence, so the round-trip law excludes it.
pub open spec fn keys_positional(prs: Seq<(SpecData, SpecData)>) -> bool {
    forall|k: i64| 1 <= k <= prs.len() ==> #[trigger] has_int_key(prs, k)
}

/// Whether some pair of `prs` has the integer `k` as its key.
pub open spec fn has_int_key(prs: Seq<(SpecData, SpecData)>, k: i64) -> bool {
    exists|j: int| 0 <= j < prs.len() && (#[trigger] prs[j]).0 == SpecData::Int(k)
}

/// The shapes for which the round trip is exact: serializing the value
/// and deserializing the result gives the value back.
///
/// Everything the serializer accepts is covered except what the machine
/// representation cannot keep apart: nil entries inside a sequence or
/// map (a nil element ends the sequence early; a nil value or key is no
/// entry at all), maps with a repeated key (the later write overwrites),
/// and maps whose keys are exactly the integers `1 ..= n` (including the
/// empty map), which read back as sequences.
pub open spec fn rt_ok(d: SpecData) -> bool
    decreases d, 1int, 0int,
{
    match d {
        SpecData::List(items) => list_rt_ok(items, 0),
        SpecData::Dict(prs) => dict_rt_ok(prs, 0) && keys_distinct(prs) && !keys_positional(prs),
        _ => true,
    }
}

/// Round-trip support for the elements `items[i..]` of a sequence.
pub open spec fn list_rt_ok(items: Seq<SpecData>, i: int) -> bool
    decreases items, 0int, items.len() - i + 1,
{
    if i < 0 || i >= items.len() {
        true
    } else {
        &&& items[i] != SpecData::Nil
        &&& rt_ok(items[i])
        &&& list_rt_ok(items, i + 1)
    }
}

/// Round-trip support for the pairs `prs[i..]` of a map.
pub open spec fn dict_rt_ok(prs: Seq<(SpecData, SpecData)>, i: int) -> bool
    decreases prs, 0int, prs.len() - i + 1,
{
    if i < 0 || i >= prs.len() {
        true
    } else {
        &&& prs[i].0 != SpecData::Nil
        &&& prs[i].1 != SpecData::Nil
        &&& rt_ok(prs[i].0)
        &&& rt_ok(prs[i].1)
        &&& dict_rt_ok(prs, i + 1)
    }
}

/// Unfolds `list_rt_ok` to each element.
pub proof fn lemma_list_rt_ok(items: Seq<SpecData>, i: int)
    requires
        0 <= i <= items.len(),
        list_rt_ok(items, i),
    ensures
        forall|j: int|
            i <= j < items.len() ==> (#[trigger] items[j]) != SpecData::Nil && rt_ok(items[j]),
    decreases items.len() - i,
{
    if i < items.len() {
        lemma_list_rt_ok(items, i + 1);
    }
}

/// Unfolds `dict_rt_ok` to each pair.
pub proof fn lemma_dict_rt_ok(prs: Seq<(SpecData, SpecData)>, i: int)
    requires
        0 <= i <= prs.len(),
        dict_rt_ok(prs, i),
    ensures
        forall|j: int|
            i <= j < prs.len() ==> (#[trigger] prs[j]).0 != SpecData::Nil && prs[j].1
                != SpecData::Nil && rt_ok(prs[j].0) && rt_ok(prs[j].1),
    decreases prs.len() - i,
{
    if i < prs.len() {
        lemma_dict_rt_ok(prs, i + 1);
    }
}

/// Unfolds `list_height` to each element.
pub proof fn lemma_list_height(items: Seq<SpecData>, i: int)
    requires
        0 <= i <= items.len(),
    ensures
        forall|j: int| i <= j < items.len() ==> height(#[trigger] items[j]) <= list_height(items, i),
    decreases items.len() - i,
{
    if i < items.len() {
        lemma_list_height(items, i + 1);
    }
}

/// Unfolds `dict_height` to each pair.
pub proof fn lemma_dict_height(prs: Seq<(SpecData, SpecData)>, i: int)
    requires
        0 <= i <= prs.len(),
    ensures
        forall|j: int|
            i <= j < prs.len() ==> height((#[trigger] prs[j]).0) <= dict_height(prs, i) && height(
                prs[j].1,
            ) <= dict_height(prs, i),
    decreases prs.len() - i,
{
    if i < prs.len() {
        lemma_dict_height(prs, i + 1);
    }
}

/// A bound on every element's height bounds the run's height.
pub proof fn lemma_list_height_bound(items: Seq<SpecData>, i: int, m: nat)
    requires
        0 <= i <= items.len(),
        forall|q: int| 0 <= q < items.len() ==> height(#[trigger] items[q]) <= m,
    ensures
        list_height(items, i) <= m,
    decreases items.len() - i,
{
    if i < items.len() {
        lemma_list_height_bound(items, i + 1, m);
    }
}

/// A bound on every key's and value's height bounds the run's height.
pub proof fn lemma_dict_height_bound(prs: Seq<(SpecData, SpecData)>, i: int, m: nat)
    requires
        0 <= i <= prs.len(),
        forall|q: int|
            0 <= q < prs.len() ==> height((#[trigger] prs[q]).0) <= m && height(prs[q].1) <= m,
    ensures
        dict_height(prs, i) <= m,
    decreases prs.len() - i,
{
    if i < prs.len() {
        lemma_dict_height_bound(prs, i + 1, m);
    }
}

impl Data {
    /// An upper bound on the nesting height of this value: how much
    /// lookahead depth a reader needs to get it back.
    pub fn height_bound(&self) -> (r: u64)
        ensures
            r < u64::MAX ==> height(self@) == r as nat,
            r == u64::MAX ==> height(self@) >= u64::MAX,
        decreases *self, 0int,
    {
        match self {
            Data::List(items) => {
                proof {
                    lemma_list_view(items@, 0);
                }
                let mut m: u64 = 0;
                let mut j: usize = 0;
                while j < items.len()
                    invariant
                        *self == Data::List(*items),
                        j <= items.len(),
                        m < u64::MAX ==> (forall|q: int|
                            0 <= q < j ==> height(#[trigger] list_view(items@, 0)[q]) <= m as nat),
                        m < u64::MAX ==> (m == 0 || exists|q: int|
                            0 <= q < j && m as nat == height(#[trigger] list_view(items@, 0)[q])),
                        m == u64::MAX ==> (exists|q: int|
                            0 <= q < j && height(#[trigger] list_view(items@, 0)[q])
                                >= u64::MAX),
                        forall|q: int|
                            0 <= q < items@.len() ==> list_view(items@, 0)[q] == data_view(
                                #[trigger] items@[q],
                            ),
                    decreases items.len() - j,
                {
                    proof {
                        assert(*items == (*self)->List_0);
                        assert(decreases_to!(*self => (*self)->List_0));
                        assert(decreases_to!(*items => items@));
                        assert(decreases_to!(items@ => items@[j as int]));
                    }
                    let h = items[j].height_bound();
                    if h > m {
                        m = h;
                    }
                    proof {
                        if m < u64::MAX {
                            assert(height(list_view(items@, 0)[j as int]) <= m as nat);
                            if m != 0 {
                                if h == m {
                                    assert(m as nat == height(list_view(items@, 0)[j as int]));
                                }
                            }
                        } else {
                            if h == u64::MAX {
                                assert(height(list_view(items@, 0)[j as int]) >= u64::MAX);
                            }
                        }
                    }
                    j = j + 1;
                }
                if m == u64::MAX {
                    proof {
                        lemma_list_height(list_view(items@, 0), 0);
                    }
                    m
                } else {
                    proof {
                        lemma_list_height_bound(list_view(items@, 0), 0, m as nat);
                        lemma_list_height(list_view(items@, 0), 0);
                        assert(m as nat == list_height(list_view(items@, 0), 0));
                    }
                    m + 1
                }
            },
            Data::Dict(prs) => {
                proof {
                    lemma_dict_view(prs@, 0);
                }
                let mut m: u64 = 0;
                let mut j: usize = 0;
                while j < prs.len()
                    invariant
                        *self == Data::Dict(*prs),
                        j <= prs.len(),
                        m < u64::MAX ==> (forall|q: int|
                            0 <= q < j ==> height((#[trigger] dict_view(prs@, 0)[q]).0) <= m as nat
                                && height(dict_view(prs@, 0)[q].1) <= m as nat),
                        m < u64::MAX ==> (m == 0 || exists|q: int|
                            0 <= q < j && (m as nat == height((#[trigger] dict_view(prs@, 0)[q]).0)
                                || m as nat == height(dict_view(prs@, 0)[q].1))),
                        m == u64::MAX ==> (exists|q: int|
                            0 <= q < j && (height((#[trigger] dict_view(prs@, 0)[q]).0) >= u64::MAX
                                || height(dict_view(prs@, 0)[q].1) >= u64::MAX)),
                        forall|q: int|
                            0 <= q < prs@.len() ==> dict_view(prs@, 0)[q] == (
                                data_view(#[trigger] prs@[q].0),
                                data_view(prs@[q].1),
                            ),
                    decreases prs.len() - j,
                {
                    proof {
                        assert(*prs == (*self)->Dict_0);
                        assert(decreases_to!(*self => (*self)->Dict_0));
                        assert(decreases_to!(*prs => prs@));
                        assert(decreases_to!(prs@ => prs@[j as int]));
                        assert(decreases_to!(prs@[j as int] => prs@[j as int].0));
                        assert(decreases_to!(prs@[j as int] => prs@[j as int].1));
                    }
                    let pair = &prs[j];
                    let hk = pair.0.height_bound();
                    let hv = pair.1.height_bound();
                    if hk > m {
                        m = hk;
                    }
                    if hv > m {
                        m = hv;
                    }
                    proof {
                        if m < u64::MAX {
                            assert(height(dict_view(prs@, 0)[j as int].0) <= m as nat);
                            assert(height(dict_view(prs@, 0)[j as int].1) <= m as nat);
                            if m != 0 {
                                if hk == m {
                                    assert(m as nat == height(dict_view(prs@, 0)[j as int].0));
                                } else if hv == m {
                                    assert(m as nat == height(dict_view(prs@, 0)[j as int].1));
                                }
                            }
                        } else {
                            if hk == u64::MAX {
                                assert(height(dict_view(prs@, 0)[j as int].0) >= u64::MAX);
                            } else if hv == u64::MAX {
                                assert(height(dict_view(prs@, 0)[j as int].1) >= u64::MAX);
                            }
                        }
                    }
                    j = j + 1;
                }
                if m == u64::MAX {
                    proof {
                        lemma_dict_height(dict_view(prs@, 0), 0);
                    }
                    m
                } else {
                    proof {
                        lemma_dict_height_bound(dict_view(prs@, 0), 0, m as nat);
                        lemma_dict_height(dict_view(prs@, 0), 0);
                        assert(m as nat == dict_height(dict_view(prs@, 0), 0));
                    }
                    m + 1
                }
            },
            _ => 0,
        }
    }
}

/// Whether every sequence and map of the value is small enough for the
/// machine's size hints (a signed 32-bit count at each level).
pub open spec fn fits(d: SpecData) -> bool
    decreases d, 1int, 0int,
{
    match d {
        SpecData::List(items) => items.len() <= i32::MAX && list_fits(items, 0),
        SpecData::Dict(prs) => prs.len() <= i32::MAX && dict_fits(prs, 0),
        _ => true,
    }
}

/// Size-hint fit for the elements `items[i..]`.
pub open spec fn list_fits(items: Seq<SpecData>, i: int) -> bool
    decreases items, 0int, items.len() - i + 1,
{
    if i < 0 || i >= items.len() {
        true
    } else {
        fits(items[i]) && list_fits(items, i + 1)
    }
}

/// Size-hint fit for the pairs `prs[i..]`.
pub open spec fn dict_fits(prs: Seq<(SpecData, SpecData)>, i: int) -> bool
    decreases prs, 0int, prs.len() - i + 1,
{
    if i < 0 || i >= prs.len() {
        true
    } else {
        fits(prs[i].0) && fits(prs[i].1) && dict_fits(prs, i + 1)
    }
}

/// Unfolds `list_fits` to each element.
pub proof fn lemma_list_fits(items: Seq<SpecData>, i: int)
    requires
        0 <= i <= items.len(),
        list_fits(items, i),
    ensures
        forall|j: int| i <= j < items.len() ==> fits(#[trigger] items[j]),
    decreases items.len() - i,
{
    if i < items.len() {
        lemma_list_fits(items, i + 1);
    }
}

/// Unfolds `dict_fits` to each pair.
pub proof fn lemma_dict_fits(prs: Seq<(SpecData, SpecData)>, i: int)
    requires
        0 <= i <= prs.len(),
        dict_fits(prs, i),
    ensures
        forall|j: int| i <= j < prs.len() ==> fits((#[trigger] prs[j]).0) && fits(prs[j].1),
    decreases prs.len() - i,
{
    if i < prs.len() {
        lemma_dict_fits(prs, i + 1);
    }
}

/// The transient stack room one serialization needs above its own slot:
/// 1 for a scalar; for aggregates, room for the table copy and the
/// nested work.
pub open spec fn ser_need(d: SpecData) -> nat
    decreases d, 1int, 0int,
{
    match d {
        SpecData::List(items) => {
            let inner = list_need(items, 0);
            if inner + 1 > 3 {
                inner + 1
            } else {
                3
            }
        },
        SpecData::Dict(prs) => {
            let inner = dict_need(prs, 0);
            if inner > 3 {
                inner
            } else {
                3
            }
        },
        _ => 1,
    }
}

/// The greatest stack room an element of `items[i..]` needs while the
/// sequence's table copy sits on the stack.
pub open spec fn list_need(items: Seq<SpecData>, i: int) -> nat
    decreases items, 0int, items.len() - i + 1,
{
    if i < 0 || i >= items.len() {
        1
    } else {
        let n = ser_need(items[i]) + 1;
        let rest = list_need(items, i + 1);
        if n > rest {
            n
        } else {
            rest
        }
    }
}

/// The greatest stack room a key or value of `prs[i..]` needs while the
/// map's table copy (and, for a value, the key) sit on the stack.
pub open spec fn dict_need(prs: Seq<(SpecData, SpecData)>, i: int) -> nat
    decreases prs, 0int, prs.len() - i + 1,
{
    if i < 0 || i >= prs.len() {
        1
    } else {
        let nk = ser_need(prs[i].0);
        let nv = ser_need(prs[i].1) + 2;
        let n = if nk > nv {
            nk
        } else {
            nv
        };
        let rest = dict_need(prs, i + 1);
        if n > rest {
            n
        } else {
            rest
        }
    }
}

/// Unfolds `list_need` to each element.
pub proof fn lemma_list_need(items: Seq<SpecData>, i: int)
    requires
        0 <= i <= items.len(),
    ensures
        list_need(items, i) >= 1,
        forall|j: int|
            i <= j < items.len() ==> ser_need(#[trigger] items[j]) + 1 <= list_need(items, i),
    decreases items.len() - i,
{
    if i < items.len() {
        lemma_list_need(items, i + 1);
    }
}

/// Unfolds `dict_need` to each pair.
pub proof fn lemma_dict_need(prs: Seq<(SpecData, SpecData)>, i: int)
    requires
        0 <= i <= prs.len(),
    ensures
        dict_need(prs, i) >= 1,
        forall|j: int|
            i <= j < prs.len() ==> ser_need((#[trigger] prs[j]).0) <= dict_need(prs, i)
                && ser_need(prs[j].1) + 2 <= dict_need(prs, i),
    decreases prs.len() - i,
{
    if i < prs.len() {
        lemma_dict_need(prs, i + 1);
    }
}

} // verus!
