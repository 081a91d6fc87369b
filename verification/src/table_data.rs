//! Storage for one machine table, and the mathematical model of table reads
//! and writes.
//!
//! A table is a list of key/value entries in insertion order.  A key is any
//! non-nil value; a key associated to nil is not part of the table, so
//! writing nil removes the entry.  Iteration (the machine's `next`
//! primitive) walks the entries in storage order.

use vstd::prelude::*;

use crate::value::{SpecValue, Value, val_wf};

verus! {

/// The model of one table: its entries, in storage order.
pub type SpecTable = Seq<(SpecValue, SpecValue)>;

/// The index of the first entry with key `k`, at or after `from`;
/// `s.len()` if there is none.
pub open spec fn find_idx(s: SpecTable, k: SpecValue, from: int) -> int
    decreases s.len() - from,
{
    if from < 0 || from >= s.len() {
        s.len() as int
    } else if s[from].0 == k {
        from
    } else {
        find_idx(s, k, from + 1)
    }
}

/// The value associated to key `k`, or nil if the key is not present.
pub open spec fn lookup(s: SpecTable, k: SpecValue) -> SpecValue {
    let i = find_idx(s, k, 0);
    if i < s.len() {
        s[i].1
    } else {
        SpecValue::Nil
    }
}

/// The table after the write `t[k] = v`: writing nil removes the entry,
/// writing over an existing key updates it in place, and a fresh key is
/// appended at the end.
pub open spec fn store(s: SpecTable, k: SpecValue, v: SpecValue) -> SpecTable {
    let i = find_idx(s, k, 0);
    if i < s.len() {
        if v == SpecValue::Nil {
            s.remove(i)
        } else {
            s.update(i, (k, v))
        }
    } else {
        if v == SpecValue::Nil {
            s
        } else {
            s.push((k, v))
        }
    }
}

/// No two entries share a key.
pub open spec fn unique_keys(s: SpecTable) -> bool {
    forall|i: int, j: int| 0 <= i < j < s.len() ==> s[i].0 != s[j].0
}

/// Every key is non-nil and every stored value is non-nil.
pub open spec fn entries_ok(s: SpecTable) -> bool {
    forall|i: int| 0 <= i < s.len() ==> #[trigger] s[i].0 != SpecValue::Nil && s[i].1
        != SpecValue::Nil
}

/// All keys and values mention only tables inside a heap of length
/// `heap_len`.
pub open spec fn pairs_wf(s: SpecTable, heap_len: int) -> bool {
    forall|i: int| 0 <= i < s.len() ==> val_wf(#[trigger] s[i].0, heap_len) && val_wf(
        s[i].1,
        heap_len,
    )
}

/// The border scan: starting from index `i`, how far the run of consecutive
/// non-nil positions `i+1, i+2, ...` extends, with at most `fuel` steps.
pub open spec fn tlen_rec(s: SpecTable, i: nat, fuel: nat) -> nat
    decreases fuel,
{
    if fuel == 0 {
        i
    } else if i + 1 <= i64::MAX && lookup(s, SpecValue::Integer((i + 1) as i64))
        != SpecValue::Nil {
        tlen_rec(s, i + 1, (fuel - 1) as nat)
    } else {
        i
    }
}

/// The sequence length of a table: the largest `n` such that the keys
/// `1 ..= n` are all present (as computed by a bounded border scan).
pub open spec fn tlen(s: SpecTable) -> nat {
    tlen_rec(s, 0, s.len())
}

/// If the key is not found from `from`, it is not found from any later
/// start either; and `find_idx` never exceeds the length.
pub proof fn lemma_find_idx_bounds(s: SpecTable, k: SpecValue, from: int)
    requires
        0 <= from <= s.len(),
    ensures
        from <= find_idx(s, k, from) <= s.len(),
        find_idx(s, k, from) < s.len() ==> s[find_idx(s, k, from)].0 == k,
        forall|j: int| from <= j < find_idx(s, k, from) ==> s[j].0 != k,
    decreases s.len() - from,
{
    if from < s.len() && s[from].0 != k {
        lemma_find_idx_bounds(s, k, from + 1);
    }
}

/// A write followed by a read of the same key gives the written value.
pub proof fn lemma_lookup_store_same(s: SpecTable, k: SpecValue, v: SpecValue)
    requires
        v != SpecValue::Nil,
        unique_keys(s),
    ensures
        lookup(store(s, k, v), k) == v,
{
    let i = find_idx(s, k, 0);
    lemma_find_idx_bounds(s, k, 0);
    let s2 = store(s, k, v);
    if i < s.len() {
        lemma_find_idx_bounds(s2, k, 0);
        let j = find_idx(s2, k, 0);
        assert(s2[i].0 == k);
        assert(j <= i);
        assert(s2[j].0 == k);
        if j < i {
            assert(s[j].0 == k);
        }
    } else {
        lemma_find_idx_bounds(s2, k, 0);
        let j = find_idx(s2, k, 0);
        assert(s2[s.len() as int].0 == k);
        assert(j <= s.len());
        if j < s.len() {
            assert(s[j].0 == k);
        }
    }
}

/// A write leaves the values of all other keys unchanged.
pub proof fn lemma_lookup_store_other(s: SpecTable, k: SpecValue, v: SpecValue, k2: SpecValue)
    requires
        k2 != k,
    ensures
        lookup(store(s, k, v), k2) == lookup(s, k2),
{
    let i = find_idx(s, k, 0);
    lemma_find_idx_bounds(s, k, 0);
    let s2 = store(s, k, v);
    lemma_find_idx_bounds(s2, k2, 0);
    lemma_find_idx_bounds(s, k2, 0);
    let j = find_idx(s, k2, 0);
    let j2 = find_idx(s2, k2, 0);
    if i < s.len() {
        if v == SpecValue::Nil {
            // s2 == s.remove(i)
            if j < s.len() {
                if j < i {
                    assert(s2[j] == s[j]);
                    assert(j2 <= j);
                    if j2 < j {
                        assert(s[j2].0 == k2);
                    }
                } else {
                    assert(j > i);
                    assert(s2[j - 1] == s[j]);
                    assert(j2 <= j - 1);
                    if j2 < j - 1 {
                        if j2 < i {
                            assert(s[j2].0 == k2);
                        } else {
                            assert(s[j2 + 1].0 == k2);
                        }
                    }
                }
            } else {
                assert(j2 == s2.len()) by {
                    if j2 < s2.len() {
                        if j2 < i {
                            assert(s[j2].0 == k2);
                        } else {
                            assert(s[j2 + 1].0 == k2);
                        }
                    }
                }
            }
        } else {
            // s2 == s.update(i, (k, v))
            assert(j2 == j) by {
                if j < s.len() {
                    assert(s2[j].0 == k2);
                    if j2 < j {
                        assert(s[j2].0 == k2);
                    }
                } else {
                    if j2 < s2.len() {
                        assert(s[j2].0 == k2);
                    }
                }
            }
        }
    } else {
        if v == SpecValue::Nil {
        } else {
            // s2 == s.push((k, v))
            if j < s.len() {
                assert(s2[j].0 == k2);
                if j2 < j {
                    assert(s[j2].0 == k2);
                }
            } else {
                assert(j2 == s2.len()) by {
                    if j2 < s2.len() {
                        if j2 < s.len() {
                            assert(s[j2].0 == k2);
                        }
                    }
                }
            }
        }
    }
}

/// A write preserves key uniqueness.
pub proof fn lemma_store_unique(s: SpecTable, k: SpecValue, v: SpecValue)
    requires
        unique_keys(s),
    ensures
        unique_keys(store(s, k, v)),
{
    let i = find_idx(s, k, 0);
    lemma_find_idx_bounds(s, k, 0);
    let s2 = store(s, k, v);
    assert forall|a: int, b: int| 0 <= a < b < s2.len() implies s2[a].0 != s2[b].0 by {
        if i < s.len() {
            if v == SpecValue::Nil {
                if a < i && b < i {
                } else if a < i {
                    assert(s2[b] == s[b + 1]);
                } else {
                    assert(s2[a] == s[a + 1]);
                    assert(s2[b] == s[b + 1]);
                }
            }
        }
    }
}

/// A write preserves non-nil keys and values, provided the write itself is
/// of a non-nil key.
pub proof fn lemma_store_entries_ok(s: SpecTable, k: SpecValue, v: SpecValue)
    requires
        entries_ok(s),
        k != SpecValue::Nil,
    ensures
        entries_ok(store(s, k, v)),
{
    let i = find_idx(s, k, 0);
    lemma_find_idx_bounds(s, k, 0);
    let s2 = store(s, k, v);
    assert forall|a: int| 0 <= a < s2.len() implies s2[a].0 != SpecValue::Nil && s2[a].1
        != SpecValue::Nil by {
        if i < s.len() && v == SpecValue::Nil {
            if a >= i {
                assert(s2[a] == s[a + 1]);
            }
        }
    }
}

/// A write of well-formed values preserves heap well-formedness.
pub proof fn lemma_store_pairs_wf(s: SpecTable, k: SpecValue, v: SpecValue, n: int)
    requires
        pairs_wf(s, n),
        val_wf(k, n),
        val_wf(v, n),
    ensures
        pairs_wf(store(s, k, v), n),
{
    let i = find_idx(s, k, 0);
    lemma_find_idx_bounds(s, k, 0);
    let s2 = store(s, k, v);
    assert forall|a: int| 0 <= a < s2.len() implies val_wf(#[trigger] s2[a].0, n) && val_wf(
        s2[a].1,
        n,
    ) by {
        if i < s.len() && v == SpecValue::Nil {
            if a >= i {
                assert(s2[a] == s[a + 1]);
            }
        }
    }
}

/// Storage for one table.
#[derive(Debug)]
pub struct TableData {
    /// The entries, in insertion order.
    pub entries: Vec<(Value, Value)>,
}

impl View for TableData {
    type V = SpecTable;

    open spec fn view(&self) -> SpecTable {
        Seq::new(self.entries.len() as nat, |i: int| (self.entries[i].0@, self.entries[i].1@))
    }
}

impl TableData {
    /// Creates an empty table.
    pub fn new() -> (r: TableData)
        ensures
            r@ =~= Seq::<(SpecValue, SpecValue)>::empty(),
    {
        TableData { entries: Vec::new() }
    }

    /// The number of entries currently stored.
    pub fn entry_count(&self) -> (r: usize)
        ensures
            r == self@.len(),
    {
        self.entries.len()
    }

    /// Reads `t[k]`: a copy of the associated value, or nil if the key is
    /// not present.
    pub fn get(&self, k: &Value) -> (r: Value)
        ensures
            r@ == lookup(self@, k@),
    {
        let ghost s = self@;
        let mut i: usize = 0;
        while i < self.entries.len()
            invariant
                i <= self.entries.len(),
                s == self@,
                forall|j: int| 0 <= j < i ==> s[j].0 != k@,
                find_idx(s, k@, 0) == find_idx(s, k@, i as int),
            decreases self.entries.len() - i,
        {
            if self.entries[i].0.equals(k) {
                assert(find_idx(s, k@, i as int) == i);
                return self.entries[i].1.duplicate();
            }
            i = i + 1;
            proof {
                assert(find_idx(s, k@, i - 1) == find_idx(s, k@, i as int));
            }
        }
        assert(find_idx(s, k@, i as int) == s.len());
        Value::Nil
    }

    /// Writes `t[k] = v`; writing nil removes the entry.
    pub fn set(&mut self, k: &Value, v: &Value)
        requires
            k@ != SpecValue::Nil,
        ensures
            final(self)@ == store(old(self)@, k@, v@),
    {
        let ghost s = self@;
        let mut i: usize = 0;
        while i < self.entries.len()
            invariant
                i <= self.entries.len(),
                s == self@,
                s == old(self)@,
                forall|j: int| 0 <= j < i ==> s[j].0 != k@,
                find_idx(s, k@, 0) == find_idx(s, k@, i as int),
            decreases self.entries.len() - i,
        {
            if self.entries[i].0.equals(k) {
                assert(find_idx(s, k@, i as int) == i);
                let ghost gk = k@;
                let ghost gv = v@;
                if v.is_nil() {
                    self.entries.remove(i);
                    proof {
                        assert(self@ =~= s.remove(i as int));
                        assert(self@ == store(s, gk, gv));
                    }
                } else {
                    self.entries.set(i, (k.duplicate(), v.duplicate()));
                    proof {
                        assert(self@ =~= s.update(i as int, (gk, gv)));
                        assert(self@ == store(s, gk, gv));
                    }
                }
                return ;
            }
            i = i + 1;
            proof {
                assert(find_idx(s, k@, i - 1) == find_idx(s, k@, i as int));
            }
        }
        assert(find_idx(s, k@, 0) == s.len());
        if v.is_nil() {
            proof {
                assert(self@ =~= store(s, k@, v@));
            }
        } else {
            self.entries.push((k.duplicate(), v.duplicate()));
            proof {
                assert(self@ =~= s.push((k@, v@)));
            }
        }
    }

    /// The machine's `next` primitive over this table's storage order:
    /// given nil, the first entry; given a present key, the entry after it;
    /// `None` once the entries are exhausted (or if the key is absent).
    pub fn next_entry(&self, k: &Value) -> (r: Option<(Value, Value)>)
        ensures
            r matches Some(p) ==> {
                let i = spec_next_index(self@, k@);
                0 <= i < self@.len() && p.0@ == self@[i].0 && p.1@ == self@[i].1
            },
            r is None <==> !(0 <= spec_next_index(self@, k@) < self@.len()),
    {
        let ghost s = self@;
        if k.is_nil() {
            if self.entries.len() == 0 {
                return None;
            }
            let p = (self.entries[0].0.duplicate(), self.entries[0].1.duplicate());
            return Some(p);
        }
        let mut i: usize = 0;
        while i < self.entries.len()
            invariant
                i <= self.entries.len(),
                s == self@,
                k@ != SpecValue::Nil,
                forall|j: int| 0 <= j < i ==> s[j].0 != k@,
                find_idx(s, k@, 0) == find_idx(s, k@, i as int),
            decreases self.entries.len() - i,
        {
            if self.entries[i].0.equals(k) {
                assert(find_idx(s, k@, i as int) == i);
                if i + 1 < self.entries.len() {
                    let p = (self.entries[i + 1].0.duplicate(), self.entries[i + 1].1.duplicate());
                    return Some(p);
                } else {
                    return None;
                }
            }
            i = i + 1;
            proof {
                assert(find_idx(s, k@, i - 1) == find_idx(s, k@, i as int));
            }
        }
        assert(find_idx(s, k@, i as int) == s.len());
        None
    }

    /// The sequence length of this table (the border scan).
    pub fn seq_len(&self) -> (r: usize)
        ensures
            r == tlen(self@),
    {
        let ghost s = self@;
        let mut n: usize = 0;
        while n < self.entries.len()
            invariant
                n <= self.entries.len(),
                s == self@,
                tlen(s) == tlen_rec(s, n as nat, (s.len() - n) as nat),
            decreases self.entries.len() - n,
        {
            if (n + 1) as u64 > (i64::MAX as u64) {
                assert(tlen_rec(s, n as nat, (s.len() - n) as nat) == n);
                return n;
            }
            let key = Value::Integer((n + 1) as i64);
            let v = self.get(&key);
            if v.is_nil() {
                assert(tlen_rec(s, n as nat, (s.len() - n) as nat) == n);
                return n;
            }
            proof {
                assert(tlen_rec(s, n as nat, (s.len() - n) as nat) == tlen_rec(
                    s,
                    (n + 1) as nat,
                    (s.len() - n - 1) as nat,
                ));
            }
            n = n + 1;
        }
        proof {
            assert(tlen_rec(s, n as nat, 0) == n);
        }
        n
    }
}

/// The index of the entry that `next` hands out for key `k`: 0 for the nil
/// key, the index after the key's entry otherwise; out of range when the
/// iteration is exhausted.
pub open spec fn spec_next_index(s: SpecTable, k: SpecValue) -> int {
    if k == SpecValue::Nil {
        0
    } else {
        find_idx(s, k, 0) + 1
    }
}

/// Positions `1 ..= tlen` are all present.
pub proof fn lemma_tlen_rec_present(s: SpecTable, i: nat, fuel: nat, j: int)
    requires
        i < j <= tlen_rec(s, i, fuel),
    ensures
        lookup(s, SpecValue::Integer(j as i64)) != SpecValue::Nil,
        j <= i64::MAX,
    decreases fuel,
{
    if fuel > 0 && i + 1 <= i64::MAX && lookup(s, SpecValue::Integer((i + 1) as i64))
        != SpecValue::Nil {
        if j > i + 1 {
            lemma_tlen_rec_present(s, i + 1, (fuel - 1) as nat, j);
        }
    }
}

/// Positions `1 ..= tlen` of a table are all present.
pub proof fn lemma_tlen_present(s: SpecTable, j: int)
    requires
        1 <= j <= tlen(s),
    ensures
        lookup(s, SpecValue::Integer(j as i64)) != SpecValue::Nil,
        j <= i64::MAX,
{
    lemma_tlen_rec_present(s, 0, s.len(), j);
}

/// The border scan runs to the end of its fuel when every scanned
/// position is present.
pub proof fn lemma_tlen_rec_full(s: SpecTable, i: nat, fuel: nat)
    requires
        i + fuel <= i64::MAX,
        forall|j: int|
            i < j <= i + fuel ==> #[trigger] lookup(s, SpecValue::Integer(j as i64))
                != SpecValue::Nil,
    ensures
        tlen_rec(s, i, fuel) == i + fuel,
    decreases fuel,
{
    if fuel > 0 {
        assert(lookup(s, SpecValue::Integer((i + 1) as i64)) != SpecValue::Nil);
        lemma_tlen_rec_full(s, i + 1, (fuel - 1) as nat);
    }
}

/// A table whose keys are exactly the integers `1 ..= n` (each with a
/// non-nil value) has sequence length `n`.
pub proof fn lemma_tlen_all_present(s: SpecTable)
    requires
        s.len() <= i64::MAX,
        forall|j: int|
            1 <= j <= s.len() ==> #[trigger] lookup(s, SpecValue::Integer(j as i64))
                != SpecValue::Nil,
    ensures
        tlen(s) == s.len(),
{
    lemma_tlen_rec_full(s, 0, s.len());
}

/// A key that no entry holds reads as nil.
pub proof fn lemma_lookup_absent(s: SpecTable, k: SpecValue)
    requires
        forall|i: int| 0 <= i < s.len() ==> (#[trigger] s[i].0) != k,
    ensures
        lookup(s, k) == SpecValue::Nil,
{
    lemma_find_idx_bounds(s, k, 0);
    if find_idx(s, k, 0) < s.len() {
        assert(s[find_idx(s, k, 0)].0 == k);
    }
}

/// With unique keys, a key found at position `j` is found there first.
pub proof fn lemma_find_idx_unique(s: SpecTable, j: int)
    requires
        unique_keys(s),
        0 <= j < s.len(),
    ensures
        find_idx(s, s[j].0, 0) == j,
{
    lemma_find_idx_bounds(s, s[j].0, 0);
    let f = find_idx(s, s[j].0, 0);
    if f < s.len() {
        assert(s[f].0 == s[j].0);
        if f < j {
            assert(false);
        } else if f > j {
            assert(false);
        }
    } else {
        assert(s[j].0 != s[j].0);
    }
}

/// The border scan never passes the machine's integer range.
pub proof fn lemma_tlen_rec_bound(s: SpecTable, i: nat, fuel: nat)
    requires
        i <= i64::MAX,
    ensures
        tlen_rec(s, i, fuel) <= i64::MAX,
    decreases fuel,
{
    if fuel > 0 && i + 1 <= i64::MAX && lookup(s, SpecValue::Integer((i + 1) as i64))
        != SpecValue::Nil {
        lemma_tlen_rec_bound(s, i + 1, (fuel - 1) as nat);
    }
}

/// Writing nil removes the key: it then reads as nil.
pub proof fn lemma_lookup_store_nil(s: SpecTable, k: SpecValue)
    requires
        unique_keys(s),
    ensures
        lookup(store(s, k, SpecValue::Nil), k) == SpecValue::Nil,
{
    let i = find_idx(s, k, 0);
    lemma_find_idx_bounds(s, k, 0);
    let s2 = store(s, k, SpecValue::Nil);
    if i < s.len() {
        lemma_find_idx_bounds(s2, k, 0);
        let j = find_idx(s2, k, 0);
        if j < s2.len() {
            assert(s2[j].0 == k);
            if j < i {
                assert(s[j].0 == k);
                assert(false);
            } else {
                assert(s2[j] == s[j + 1]);
                assert(false);
            }
        }
    }
}

} // verus!
