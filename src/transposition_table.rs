//! A fixed-capacity, direct-mapped cache of search results, indexed by
//! position key.
use vstd::prelude::*;
use std::sync::atomic::{AtomicU32, AtomicU8, Ordering};
use std::sync::Arc;
use vstd::arithmetic::power2::{lemma2_to64, lemma_pow2_unfold, pow2};

verus! {

/// The capacity of the transposition table in entries; a prime, to spread
/// keys evenly.
pub const TABLE_MAX_SIZE: usize = 8388617;

/// One slot of the table: the low 32 bits of a key and its value; a value of
/// 0 marks an empty slot.
#[derive(Copy, Clone)]
pub struct Entry {
    pub key: u32,
    pub value: u8,
}

impl Entry {
    /// An empty slot.
    pub fn new() -> (r: Self)
        ensures
            r == (Entry { key: 0, value: 0 }),
    {
        Self { key: 0, value: 0 }
    }
}

/// The slot that `key` maps to.
pub open spec fn slot_of(key: u64) -> int {
    (key % (TABLE_MAX_SIZE as u64)) as int
}

/// What a lookup of `key` in `entries` returns: the value stored in its slot
/// when the slot holds the low 32 bits of `key`, else 0.
pub open spec fn table_get(entries: Seq<Entry>, key: u64) -> u8 {
    let e = entries[slot_of(key)];
    if e.key == key as u32 {
        e.value
    } else {
        0
    }
}

/// The entries after storing `value` under `key`, overwriting the slot.
pub open spec fn table_set(entries: Seq<Entry>, key: u64, value: u8) -> Seq<Entry> {
    entries.update(slot_of(key), Entry { key: key as u32, value })
}

/// The entries of a table, one per slot.
pub struct TranspositionTableStorage {
    pub entries: Vec<Entry>,
}

impl TranspositionTableStorage {
    /// The table has its full number of slots.
    pub open spec fn wf(&self) -> bool {
        self.entries@.len() == TABLE_MAX_SIZE
    }

    /// A table with every slot empty.
    pub fn new() -> (r: Self)
        ensures
            r.wf(),
            forall|i: int| 0 <= i < TABLE_MAX_SIZE ==> #[trigger] r.entries@[i] == Entry::new_spec(),
    {
        let mut entries: Vec<Entry> = Vec::with_capacity(TABLE_MAX_SIZE);
        let mut i: usize = 0;
        while i < TABLE_MAX_SIZE
            invariant
                i <= TABLE_MAX_SIZE,
                entries@.len() == i,
                forall|j: int| 0 <= j < i ==> #[trigger] entries@[j] == Entry::new_spec(),
            decreases TABLE_MAX_SIZE - i,
        {
            entries.push(Entry::new());
            i += 1;
        }
        Self { entries }
    }

    /// Stores `value` under `key`, overwriting whatever held its slot.
    pub fn set(&mut self, key: u64, value: u8)
        requires
            old(self).wf(),
        ensures
            final(self).wf(),
            final(self).entries@ == table_set(old(self).entries@, key, value),
    {
        let mut entry = Entry::new();
        entry.key = key as u32;
        entry.value = value;
        let slot = (key % (TABLE_MAX_SIZE as u64)) as usize;
        self.entries.set(slot, entry);
    }

    /// The value stored under `key`, or 0 if its slot holds another key.
    pub fn get(&self, key: u64) -> (r: u8)
        requires
            self.wf(),
        ensures
            r == table_get(self.entries@, key),
    {
        let entry = self.entries[(key % (TABLE_MAX_SIZE as u64)) as usize];
        if entry.key == key as u32 {
            entry.value
        } else {
            0
        }
    }
}

impl Entry {
    /// An empty slot.
    pub open spec fn new_spec() -> Entry {
        Entry { key: 0, value: 0 }
    }
}

/// A transposition table for one search at a time.
///
/// Its capacity is fixed, about 42 MB; a key that maps to an occupied slot
/// overwrites the entry there.
pub struct TranspositionTable {
    pub storage: TranspositionTableStorage,
}

impl TranspositionTable {
    /// The table has its full number of slots.
    pub open spec fn wf(&self) -> bool {
        self.storage.wf()
    }

    /// The entries of the table, one per slot.
    pub open spec fn view_entries(&self) -> Seq<Entry> {
        self.storage.entries@
    }

    /// Creates an empty table.
    pub fn new() -> (r: Self)
        ensures
            r.wf(),
            forall|k: u64| #[trigger] table_get(r.view_entries(), k) == 0,
    {
        let storage = TranspositionTableStorage::new();
        proof {
            assert forall|k: u64| #[trigger] table_get(storage.entries@, k) == 0 by {
                assert(storage.entries@[slot_of(k)] == Entry::new_spec());
            }
        }
        Self { storage }
    }

    /// Stores `value` under `key`.
    pub fn set(&mut self, key: u64, value: u8)
        requires
            old(self).wf(),
        ensures
            final(self).wf(),
            final(self).view_entries() == table_set(old(self).view_entries(), key, value),
    {
        self.storage.set(key, value);
    }

    /// The value stored under `key`, or 0 if there is none.
    pub fn get(&self, key: u64) -> (r: u8)
        requires
            self.wf(),
        ensures
            r == table_get(self.view_entries(), key),
    {
        self.storage.get(key)
    }
}

impl Default for TranspositionTable {
    fn default() -> (r: Self)
        ensures
            r.wf(),
            forall|k: u64| #[trigger] table_get(r.view_entries(), k) == 0,
    {
        Self::new()
    }
}

/// A lookup right after a store of a non-zero value under the same key
/// returns that value, and a store into another slot does not disturb it.
pub proof fn lemma_table_round_trip(entries: Seq<Entry>, key: u64, value: u8, other: u64, other_value: u8)
    requires
        entries.len() == TABLE_MAX_SIZE,
        value != 0,
    ensures
        table_get(table_set(entries, key, value), key) == value,
        slot_of(other) != slot_of(key) ==> table_get(
            table_set(table_set(entries, key, value), other, other_value),
            key,
        ) == value,
{
}

proof fn lemma_odd_divides_half(n: int, y: int)
    requires
        n > 0,
        n % 2 == 1,
        (2 * y) % n == 0,
    ensures
        y % n == 0,
{
    let q = (2 * y) / n;
    assert(2 * y == q * n) by (nonlinear_arith)
        requires
            (2 * y) % n == 0,
            n > 0,
            q == (2 * y) / n,
    ;
    let h = q / 2;
    if q % 2 == 1 {
        assert(q * n == 2 * (h * n) + n) by (nonlinear_arith)
            requires
                q == 2 * h + 1,
        ;
        assert(false);
    }
    assert(y == h * n) by (nonlinear_arith)
        requires
            2 * y == q * n,
            q == 2 * h,
    ;
    assert((h * n) % n == 0) by (nonlinear_arith)
        requires
            n > 0,
    ;
}

proof fn lemma_odd_divides_shifted(n: int, x: int, k: nat)
    requires
        n > 0,
        n % 2 == 1,
        (x * pow2(k)) % n == 0,
    ensures
        x % n == 0,
    decreases k,
{
    if k > 0 {
        lemma_pow2_unfold(k);
        let p = pow2((k - 1) as nat) as int;
        assert(x * pow2(k) == 2 * (x * p)) by (nonlinear_arith)
            requires
                pow2(k) == 2 * p,
        ;
        lemma_odd_divides_half(n, x * p);
        lemma_odd_divides_shifted(n, x, (k - 1) as nat);
    } else {
        lemma2_to64();
    }
}

/// Keys below 2^55 that share a slot and their low 32 bits are equal: the
/// slot and the stored bits together pin the key down, so a lookup never
/// answers with the value of another such key.
pub proof fn lemma_slot_and_low_bits_identify_key(k1: u64, k2: u64)
    requires
        k1 < 0x80_0000_0000_0000,
        k2 < 0x80_0000_0000_0000,
        slot_of(k1) == slot_of(k2),
        k1 as u32 == k2 as u32,
    ensures
        k1 == k2,
{
    let n = TABLE_MAX_SIZE as int;
    let w = 0x1_0000_0000int;
    let a = k1 as int / w;
    let b = k2 as int / w;
    assert(k1 as u32 == k1 % 0x1_0000_0000 && k2 as u32 == k2 % 0x1_0000_0000) by (bit_vector);
    assert(k1 as int == a * w + k1 as int % w && k2 as int == b * w + k2 as int % w) by (nonlinear_arith)
        requires
            w > 0,
            a == k1 as int / w,
            b == k2 as int / w,
    ;
    let d = a - b;
    assert(k1 as int - k2 as int == d * w);
    let q1 = k1 as int / n;
    let q2 = k2 as int / n;
    assert(k1 as int == q1 * n + (k1 as int) % n && k2 as int == q2 * n + (k2 as int) % n)
        by (nonlinear_arith)
        requires
            n > 0,
            q1 == k1 as int / n,
            q2 == k2 as int / n,
    ;
    assert(k1 as int - k2 as int == (q1 - q2) * n) by (nonlinear_arith)
        requires
            k1 as int == q1 * n + (k1 as int) % n,
            k2 as int == q2 * n + (k2 as int) % n,
            (k1 as int) % n == (k2 as int) % n,
    ;
    assert(((q1 - q2) * n) % n == 0) by (nonlinear_arith)
        requires
            n > 0,
    ;
    lemma2_to64();
    lemma_odd_divides_shifted(n, d, 32);
    assert(-0x80_0000 <= d <= 0x80_0000) by (nonlinear_arith)
        requires
            0 <= k1 < 0x80_0000_0000_0000,
            0 <= k2 < 0x80_0000_0000_0000,
            a == k1 as int / w,
            b == k2 as int / w,
            w == 0x1_0000_0000,
            d == a - b,
    ;
    assert(d == 0) by (nonlinear_arith)
        requires
            d % n == 0,
            n == 8388617,
            -0x80_0000 <= d <= 0x80_0000,
    ;
}

/// For keys below 2^55 (every position key is) the table answers exactly: a
/// lookup after a store returns the stored value for the same key, 0 for
/// another key of the same slot, and what it returned before otherwise.
pub proof fn lemma_table_exact(entries: Seq<Entry>, key: u64, value: u8, other: u64)
    requires
        entries.len() == TABLE_MAX_SIZE,
        key < 0x80_0000_0000_0000,
        other < 0x80_0000_0000_0000,
    ensures
        table_get(table_set(entries, key, value), other) == (if other == key {
            value
        } else if slot_of(other) == slot_of(key) {
            0
        } else {
            table_get(entries, other)
        }),
{
    if other != key && slot_of(other) == slot_of(key) && other as u32 == key as u32 {
        lemma_slot_and_low_bits_identify_key(key, other);
    }
}

/// One slot of a table shared between threads: the key is stored XOR-ed with
/// the value, so that a torn write reads back as a mismatch.
pub struct SharedEntry {
    pub key: AtomicU32,
    pub value: AtomicU8,
}

impl SharedEntry {
    /// An empty slot.
    pub fn new() -> Self {
        Self { key: AtomicU32::new(0), value: AtomicU8::new(0) }
    }

    /// Stores a tagged key and a value.
    pub fn store(&self, key: u32, value: u8) {
        self.key.store(key, Ordering::Relaxed);
        self.value.store(value, Ordering::Relaxed);
    }
}

/// The tag stored beside `value` for `key` in a shared table.
pub open spec fn shared_tag(key: u64, value: u8) -> u32 {
    (key as u32) ^ (value as u32)
}

/// What a lookup of `key` yields from a shared slot read as `stored_key` and
/// `stored_value`: the value when the tag matches, else 0.
pub open spec fn shared_value(key: u64, stored_key: u32, stored_value: u8) -> u8 {
    if stored_key == shared_tag(key, stored_value) {
        stored_value
    } else {
        0
    }
}

/// Reads a shared slot that held `stored_key` and `stored_value` for `key`.
pub fn shared_lookup(key: u64, stored_key: u32, stored_value: u8) -> (r: u8)
    ensures
        r == shared_value(key, stored_key, stored_value),
{
    if stored_key == (key as u32) ^ (stored_value as u32) {
        stored_value
    } else {
        0
    }
}

/// A slot read back whole after a store of `value` under `key` yields
/// `value` for that key, and nothing for a key with other low 32 bits.
pub proof fn lemma_shared_round_trip(key: u64, value: u8, other: u64)
    ensures
        shared_value(key, shared_tag(key, value), value) == value,
        other as u32 != key as u32 ==> shared_value(other, shared_tag(key, value), value) == 0,
{
    let k = key as u32;
    let o = other as u32;
    let v = value as u32;
    assert(o != k ==> k ^ v != o ^ v) by (bit_vector);
}

/// A transposition table that threads can share, with relaxed atomic slots.
#[derive(Clone)]
pub struct SharedTranspositionTable {
    pub entries: Arc<Vec<SharedEntry>>,
}

impl SharedTranspositionTable {
    /// The table has its full number of slots.
    pub open spec fn wf(&self) -> bool {
        (*self.entries)@.len() == TABLE_MAX_SIZE
    }

    /// Creates an empty table.
    pub fn new() -> (r: Self)
        ensures
            r.wf(),
    {
        let mut entries: Vec<SharedEntry> = Vec::with_capacity(TABLE_MAX_SIZE);
        let mut i: usize = 0;
        while i < TABLE_MAX_SIZE
            invariant
                i <= TABLE_MAX_SIZE,
                entries@.len() == i,
            decreases TABLE_MAX_SIZE - i,
        {
            entries.push(SharedEntry::new());
            i += 1;
        }
        Self { entries: Arc::new(entries) }
    }

    /// Stores `value` under `key`.
    pub fn set(&self, key: u64, value: u8)
        requires
            self.wf(),
    {
        let slot = (key % (TABLE_MAX_SIZE as u64)) as usize;
        self.entries[slot].store((key as u32) ^ (value as u32), value);
    }

    /// The value stored under `key`, or 0; other threads may store at any
    /// time, so nothing is promised of what comes back.
    pub fn get(&self, key: u64) -> u8
        requires
            self.wf(),
    {
        let slot = (key % (TABLE_MAX_SIZE as u64)) as usize;
        let entry = &self.entries[slot];
        let data = entry.value.load(Ordering::Relaxed);
        let stored = entry.key.load(Ordering::Relaxed);
        shared_lookup(key, stored, data)
    }
}

impl Default for SharedTranspositionTable {
    fn default() -> (r: Self)
        ensures
            r.wf(),
    {
        Self::new()
    }
}

} // verus!
