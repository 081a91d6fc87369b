//! The meaning of a machine value as structured data.
//!
//! [`decode_val`] says what structured value ([`SpecData`]) a machine
//! value denotes, relative to a table heap: a table whose entries are
//! exactly the positions `1 ..= n` reads as a sequence, any other table
//! as a map in entry order; entries of a non-transcodable kind (functions,
//! user data, threads) are skipped, as the deserializer deliberately
//! skips them.  The serializer's contracts promise that the value it
//! pushes decodes to the data it was given; the deserializer's contracts
//! promise that what it returns *is* the decoding.  `fuel` bounds the
//! table-nesting lookahead, which keeps the meaning well-defined even on
//! heaps with table cycles.

use vstd::prelude::*;

use crate::data::SpecData;
use crate::table_data::{SpecTable, lookup, tlen};
use crate::value::{SpecValue, spec_serializable};

verus! {

/// The structured value that machine value `v` denotes over `heap`, with
/// at most `fuel` levels of table nesting; `None` for values of a
/// non-transcodable kind and for tables nested too deeply.
pub open spec fn decode_val(heap: Seq<SpecTable>, v: SpecValue, fuel: nat) -> Option<SpecData>
    decreases fuel, 0int, 0int,
{
    match v {
        SpecValue::Nil => Some(SpecData::Nil),
        SpecValue::Boolean(b) => Some(SpecData::Bool(b)),
        SpecValue::Integer(n) => Some(SpecData::Int(n)),
        SpecValue::Float(bits) => Some(SpecData::Float(bits)),
        SpecValue::Str(s) => Some(SpecData::Str(s)),
        SpecValue::Table(t) => {
            if fuel == 0 || !(0 <= t < heap.len()) {
                None
            } else {
                let s = heap[t];
                if tlen(s) == s.len() {
                    match decode_list(heap, s, 1, tlen(s) as int, (fuel - 1) as nat) {
                        Some(items) => Some(SpecData::List(items)),
                        None => None,
                    }
                } else {
                    match decode_pairs(heap, s, 0, (fuel - 1) as nat) {
                        Some(prs) => Some(SpecData::Dict(prs)),
                        None => None,
                    }
                }
            }
        },
        _ => None,
    }
}

/// The decodings of positions `i ..= n` of a sequence-shaped table;
/// positions holding a non-transcodable value are skipped.
pub open spec fn decode_list(
    heap: Seq<SpecTable>,
    s: SpecTable,
    i: int,
    n: int,
    fuel: nat,
) -> Option<Seq<SpecData>>
    decreases fuel, 1int, n - i + 1,
{
    if i < 1 || i > n {
        Some(Seq::empty())
    } else {
        let v = lookup(s, SpecValue::Integer(i as i64));
        if !spec_serializable(v) {
            decode_list(heap, s, i + 1, n, fuel)
        } else {
            match decode_val(heap, v, fuel) {
                Some(d) => match decode_list(heap, s, i + 1, n, fuel) {
                    Some(rest) => Some(seq![d] + rest),
                    None => None,
                },
                None => None,
            }
        }
    }
}

/// The decodings of entries `j ..` of a map-shaped table, in storage
/// order; entries whose key or value is of a non-transcodable kind are
/// skipped.
pub open spec fn decode_pairs(
    heap: Seq<SpecTable>,
    s: SpecTable,
    j: int,
    fuel: nat,
) -> Option<Seq<(SpecData, SpecData)>>
    decreases fuel, 1int, s.len() - j,
{
    if j < 0 || j >= s.len() {
        Some(Seq::empty())
    } else {
        let k = s[j].0;
        let v = s[j].1;
        if !spec_serializable(k) || !spec_serializable(v) {
            decode_pairs(heap, s, j + 1, fuel)
        } else {
            match decode_val(heap, k, fuel) {
                Some(dk) => match decode_val(heap, v, fuel) {
                    Some(dv) => match decode_pairs(heap, s, j + 1, fuel) {
                        Some(rest) => Some(seq![(dk, dv)] + rest),
                        None => None,
                    },
                    None => None,
                },
                None => None,
            }
        }
    }
}

/// Decoding is monotone in fuel: once a value decodes, more fuel gives
/// the same decoding.
pub proof fn lemma_decode_mono(heap: Seq<SpecTable>, v: SpecValue, f1: nat, f2: nat)
    requires
        decode_val(heap, v, f1) is Some,
        f1 <= f2,
    ensures
        decode_val(heap, v, f2) == decode_val(heap, v, f1),
    decreases f1, 0int, 0int,
{
    match v {
        SpecValue::Table(t) => {
            if 0 <= t < heap.len() {
                let s = heap[t];
                if tlen(s) == s.len() {
                    lemma_decode_list_mono(
                        heap,
                        s,
                        1,
                        tlen(s) as int,
                        (f1 - 1) as nat,
                        (f2 - 1) as nat,
                    );
                } else {
                    lemma_decode_pairs_mono(heap, s, 0, (f1 - 1) as nat, (f2 - 1) as nat);
                }
            }
        },
        _ => {},
    }
}

/// Monotonicity in fuel for sequence positions.
pub proof fn lemma_decode_list_mono(
    heap: Seq<SpecTable>,
    s: SpecTable,
    i: int,
    n: int,
    f1: nat,
    f2: nat,
)
    requires
        decode_list(heap, s, i, n, f1) is Some,
        f1 <= f2,
    ensures
        decode_list(heap, s, i, n, f2) == decode_list(heap, s, i, n, f1),
    decreases f1, 1int, n - i + 1,
{
    if 1 <= i <= n {
        let v = lookup(s, SpecValue::Integer(i as i64));
        if !spec_serializable(v) {
            lemma_decode_list_mono(heap, s, i + 1, n, f1, f2);
        } else {
            lemma_decode_mono(heap, v, f1, f2);
            lemma_decode_list_mono(heap, s, i + 1, n, f1, f2);
        }
    }
}

/// Monotonicity in fuel for map entries.
pub proof fn lemma_decode_pairs_mono(
    heap: Seq<SpecTable>,
    s: SpecTable,
    j: int,
    f1: nat,
    f2: nat,
)
    requires
        decode_pairs(heap, s, j, f1) is Some,
        f1 <= f2,
    ensures
        decode_pairs(heap, s, j, f2) == decode_pairs(heap, s, j, f1),
    decreases f1, 1int, s.len() - j,
{
    if 0 <= j < s.len() {
        let k = s[j].0;
        let v = s[j].1;
        if !spec_serializable(k) || !spec_serializable(v) {
            lemma_decode_pairs_mono(heap, s, j + 1, f1, f2);
        } else {
            lemma_decode_mono(heap, k, f1, f2);
            lemma_decode_mono(heap, v, f1, f2);
            lemma_decode_pairs_mono(heap, s, j + 1, f1, f2);
        }
    }
}

/// Whether a value's table (if it is one) lies in the heap region
/// `[lo, hi)`.
pub open spec fn val_in(v: SpecValue, lo: int, hi: int) -> bool {
    match v {
        SpecValue::Table(t) => lo <= t < hi,
        _ => true,
    }
}

/// All keys and values of a table lie in the heap region `[lo, hi)`.
pub open spec fn pairs_in(s: SpecTable, lo: int, hi: int) -> bool {
    forall|j: int| 0 <= j < s.len() ==> val_in(#[trigger] s[j].0, lo, hi) && val_in(s[j].1, lo, hi)
}

/// Every table of `heap` from position `lo` on references only tables
/// from position `lo` on (and inside the heap).
pub open spec fn region_closed(heap: Seq<SpecTable>, lo: int) -> bool {
    forall|t: int|
        lo <= t < heap.len() ==> pairs_in(#[trigger] heap[t], lo, heap.len() as int)
}

/// Framing: decoding a value that lies in a closed heap region `[lo, ..)`
/// only reads that region, so a second heap that agrees there decodes it
/// identically — whatever changed below `lo` or beyond the first heap's
/// end.
pub proof fn lemma_decode_frame(
    h1: Seq<SpecTable>,
    h2: Seq<SpecTable>,
    v: SpecValue,
    lo: int,
    fuel: nat,
)
    requires
        0 <= lo,
        h1.len() <= h2.len(),
        forall|i: int| lo <= i < h1.len() ==> h2[i] == #[trigger] h1[i],
        region_closed(h1, lo),
        val_in(v, lo, h1.len() as int),
    ensures
        decode_val(h2, v, fuel) == decode_val(h1, v, fuel),
    decreases fuel, 0int, 0int,
{
    match v {
        SpecValue::Table(t) => {
            if fuel > 0 {
                let s = h1[t];
                assert(h2[t] == s);
                assert(pairs_in(s, lo, h1.len() as int));
                if tlen(s) == s.len() {
                    lemma_decode_list_frame(h1, h2, s, 1, tlen(s) as int, lo, (fuel - 1) as nat);
                } else {
                    lemma_decode_pairs_frame(h1, h2, s, 0, lo, (fuel - 1) as nat);
                }
            }
        },
        _ => {},
    }
}

/// Framing for sequence positions.
pub proof fn lemma_decode_list_frame(
    h1: Seq<SpecTable>,
    h2: Seq<SpecTable>,
    s: SpecTable,
    i: int,
    n: int,
    lo: int,
    fuel: nat,
)
    requires
        0 <= lo,
        h1.len() <= h2.len(),
        forall|i2: int| lo <= i2 < h1.len() ==> h2[i2] == #[trigger] h1[i2],
        region_closed(h1, lo),
        pairs_in(s, lo, h1.len() as int),
    ensures
        decode_list(h2, s, i, n, fuel) == decode_list(h1, s, i, n, fuel),
    decreases fuel, 1int, n - i + 1,
{
    if 1 <= i <= n {
        let v = lookup(s, SpecValue::Integer(i as i64));
        proof_lookup_in(s, SpecValue::Integer(i as i64), lo, h1.len() as int);
        if spec_serializable(v) {
            lemma_decode_frame(h1, h2, v, lo, fuel);
        }
        lemma_decode_list_frame(h1, h2, s, i + 1, n, lo, fuel);
    }
}

/// Framing for map entries.
pub proof fn lemma_decode_pairs_frame(
    h1: Seq<SpecTable>,
    h2: Seq<SpecTable>,
    s: SpecTable,
    j: int,
    lo: int,
    fuel: nat,
)
    requires
        0 <= lo,
        h1.len() <= h2.len(),
        forall|i2: int| lo <= i2 < h1.len() ==> h2[i2] == #[trigger] h1[i2],
        region_closed(h1, lo),
        pairs_in(s, lo, h1.len() as int),
    ensures
        decode_pairs(h2, s, j, fuel) == decode_pairs(h1, s, j, fuel),
    decreases fuel, 1int, s.len() - j,
{
    if 0 <= j < s.len() {
        let k = s[j].0;
        let v = s[j].1;
        if spec_serializable(k) && spec_serializable(v) {
            lemma_decode_frame(h1, h2, k, lo, fuel);
            lemma_decode_frame(h1, h2, v, lo, fuel);
        }
        lemma_decode_pairs_frame(h1, h2, s, j + 1, lo, fuel);
    }
}

/// A value read out of a region-contained table is region-contained.
pub proof fn proof_lookup_in(s: SpecTable, k: SpecValue, lo: int, hi: int)
    requires
        pairs_in(s, lo, hi),
    ensures
        val_in(lookup(s, k), lo, hi),
{
    crate::table_data::lemma_find_idx_bounds(s, k, 0);
}

/// Assembling a sequence decoding: if every position `i ..= n` holds a
/// transcodable value whose decoding is the matching element of `elems`,
/// the whole run decodes to those elements.
pub proof fn lemma_decode_list_all(
    heap: Seq<SpecTable>,
    s: SpecTable,
    elems: Seq<SpecData>,
    i: int,
    n: int,
    fuel: nat,
)
    requires
        1 <= i <= n + 1,
        n == elems.len(),
        n <= i64::MAX,
        forall|j: int|
            i <= j <= n ==> spec_serializable(#[trigger] lookup(s, SpecValue::Integer(j as i64)))
                && decode_val(heap, lookup(s, SpecValue::Integer(j as i64)), fuel) == Some(
                elems[j - 1],
            ),
    ensures
        decode_list(heap, s, i, n, fuel) == Some(elems.subrange(i - 1, n)),
    decreases n - i + 1,
{
    if i <= n {
        lemma_decode_list_all(heap, s, elems, i + 1, n, fuel);
        assert(seq![elems[i - 1]] + elems.subrange(i, n) =~= elems.subrange(i - 1, n));
    } else {
        assert(elems.subrange(i - 1, n) =~= Seq::empty());
    }
}

/// Assembling a map decoding: if every entry from `j` on is a pair of
/// transcodable values whose decodings are the matching pair of `prs`,
/// the whole run decodes to those pairs.
pub proof fn lemma_decode_pairs_all(
    heap: Seq<SpecTable>,
    s: SpecTable,
    prs: Seq<(SpecData, SpecData)>,
    j: int,
    fuel: nat,
)
    requires
        0 <= j <= s.len(),
        s.len() == prs.len(),
        forall|j2: int|
            j <= j2 < s.len() ==> spec_serializable(#[trigger] s[j2].0) && spec_serializable(
                s[j2].1,
            ) && decode_val(heap, s[j2].0, fuel) == Some(prs[j2].0) && decode_val(
                heap,
                s[j2].1,
                fuel,
            ) == Some(prs[j2].1),
    ensures
        decode_pairs(heap, s, j, fuel) == Some(prs.subrange(j, prs.len() as int)),
    decreases s.len() - j,
{
    if j < s.len() {
        lemma_decode_pairs_all(heap, s, prs, j + 1, fuel);
        assert(seq![prs[j]] + prs.subrange(j + 1, prs.len() as int) =~= prs.subrange(
            j,
            prs.len() as int,
        ));
    } else {
        assert(prs.subrange(j, prs.len() as int) =~= Seq::empty());
    }
}

/// A write of region-contained values keeps a table region-contained.
pub proof fn lemma_store_pairs_in(s: SpecTable, k: SpecValue, v: SpecValue, lo: int, hi: int)
    requires
        pairs_in(s, lo, hi),
        val_in(k, lo, hi),
        val_in(v, lo, hi),
    ensures
        pairs_in(crate::table_data::store(s, k, v), lo, hi),
{
    let i = crate::table_data::find_idx(s, k, 0);
    crate::table_data::lemma_find_idx_bounds(s, k, 0);
    let s2 = crate::table_data::store(s, k, v);
    assert forall|a: int| 0 <= a < s2.len() implies val_in(#[trigger] s2[a].0, lo, hi) && val_in(
        s2[a].1,
        lo,
        hi,
    ) by {
        if i < s.len() && v == SpecValue::Nil {
            if a >= i {
                assert(s2[a] == s[a + 1]);
            }
        }
    }
}

/// Widening the region keeps containment.
pub proof fn lemma_pairs_in_widen(s: SpecTable, lo: int, hi: int, lo2: int, hi2: int)
    requires
        pairs_in(s, lo, hi),
        lo2 <= lo,
        hi <= hi2,
    ensures
        pairs_in(s, lo2, hi2),
{
    assert forall|j: int| 0 <= j < s.len() implies val_in(#[trigger] s[j].0, lo2, hi2) && val_in(
        s[j].1,
        lo2,
        hi2,
    ) by {
        assert(val_in(s[j].0, lo, hi));
        assert(val_in(s[j].1, lo, hi));
    }
}

} // verus!
