//! `Miso`: an open-addressing hash map that probes linearly, one control byte
//! at a time, from the slot that a key's hash picks. Deleting leaves a
//! tombstone; the table is rebuilt, at the same size or twice the size, when
//! tombstones or occupancy pass their thresholds.

use vstd::prelude::*;
use vstd::std_specs::cmp::PartialEqSpec;
use std::hash::Hash;
use crate::control::{
    ctrl_deleted, ctrl_empty, ctrl_h2, ctrl_sentinel, is_deleted, is_empty, is_full,
    is_full_byte, empty_byte, deleted_byte, sentinel_byte, layout_ok, set_slot,
    lemma_set_slot_layout,
};
use crate::hashing::KeyHasher;
use crate::slots::{
    key_model,
    SlotState, count_state, hash_h1, hash_tag, home_slot, is_table_capacity, lemma_count_all_empty,
    lemma_capacity_mult16, lemma_count_bounds, lemma_count_partition, lemma_count_prefix, lemma_count_update,
    lemma_count_witness, lemma_double_pow2, lemma_home_in_range, lemma_mask_in_range,
    lemma_mask_wraps, lemma_pow2_window, lemma_tag_is_full, probe_start, state_of, wrap,
};

verus! {

/// The capacity of a map made by `new`.
pub const DEFAULT_CAPACITY: usize = 1024;

/// The number of steps from slot `h` forward to slot `i`.
pub open spec fn dist(h: int, i: int, cap: int) -> int {
    if i >= h {
        i - h
    } else {
        i - h + cap
    }
}

/// No slot from `h` up to, not including, `i` is empty: a probe that starts
/// at `h` reaches `i` before it stops at an empty slot.
pub open spec fn path_clear(ctrl: Seq<u8>, cap: int, h: int, i: int) -> bool {
    forall|d: int| 0 <= d < dist(h, i, cap) ==> #[trigger] ctrl[wrap(h, d, cap)] != empty_byte()
}

/// A path stays clear when no empty slot is added.
pub proof fn lemma_path_clear_mono(ctrl: Seq<u8>, ctrl2: Seq<u8>, cap: int, h: int, i: int)
    requires
        path_clear(ctrl, cap, h, i),
        0 <= h < cap,
        0 <= i < cap,
        forall|x: int| 0 <= x < cap && ctrl[x] != empty_byte() ==> #[trigger] ctrl2[x] != empty_byte(),
    ensures
        path_clear(ctrl2, cap, h, i),
{
    assert forall|d: int| 0 <= d < dist(h, i, cap) implies #[trigger] ctrl2[wrap(h, d, cap)]
        != empty_byte() by {
        assert(ctrl[wrap(h, d, cap)] != empty_byte());
    }
}

/// No step of a probe from `s` before step `j` meets an empty slot.
pub open spec fn steps_clear(ctrl: Seq<u8>, cap: int, s: int, j: int) -> bool {
    forall|e: int| 0 <= e < j ==> #[trigger] ctrl[wrap(s, e, cap)] != empty_byte()
}

/// No slot from `h` up to, not including, `i` is deleted.
pub open spec fn no_deleted_before(ctrl: Seq<u8>, cap: int, h: int, i: int) -> bool {
    forall|d: int|
        0 <= d < dist(h, i, cap) ==> #[trigger] ctrl[wrap(h, d, cap)] != deleted_byte()
}

/// A probe from `h` that passes slot `i` stops at an empty slot before going
/// once around.
pub open spec fn empty_after(ctrl: Seq<u8>, cap: int, h: int, i: int) -> bool {
    exists|e: int|
        dist(h, i, cap) < e < cap && #[trigger] ctrl[wrap(h, e, cap)] == empty_byte() && forall|
            d: int,
        | 0 <= d < e ==> #[trigger] ctrl[wrap(h, d, cap)] != empty_byte()
}

/// Whether the table should be rebuilt at the same capacity before an
/// insertion: tombstones are at least half the live entries and occupancy
/// has not reached seven eighths.
pub open spec fn miso_should_rehash(size: int, tombstones: int, capacity: int) -> bool {
    tombstones >= size / 2 && !(tombstones + size >= capacity - capacity / 8)
}

/// Whether the table should grow before an insertion: live entries and
/// tombstones fill at least seven eighths of it.
pub open spec fn miso_should_grow(size: int, tombstones: int, capacity: int) -> bool {
    (tombstones + size) * 8 >= capacity * 7
}

/// The result of probing for a key to insert: the slot that holds it, or the
/// slot it should go in.
enum InsertProbe {
    Vacant(usize),
    Found(usize),
}

/// An open-addressing hash map with linear probing.
pub struct Miso<K: View, V> {
    items: Vec<Option<(K, V)>>,
    control_bytes: Vec<u8>,
    hash_builder: KeyHasher<K>,
    capacity: usize,
    size: usize,
    tombstones: usize,
    contents: Ghost<Map<K::V, V>>,
}

impl<K: View + Hash + Eq, V> View for Miso<K, V> {
    type V = Map<K::V, V>;

    closed spec fn view(&self) -> Map<K::V, V> {
        self.contents@
    }
}

impl<K: View + Hash + Eq, V> Miso<K, V> {
    /// The number of slots.
    pub closed spec fn spec_capacity(self) -> nat {
        self.capacity as nat
    }

    /// The number of live entries.
    pub closed spec fn spec_len(self) -> nat {
        self.size as nat
    }

    /// The number of deleted slots.
    pub closed spec fn tombstone_count(self) -> nat {
        self.tombstones as nat
    }

    /// Whether an insertion into this map first rebuilds it at the same
    /// capacity.
    pub open spec fn rehashes_on_insert(self) -> bool {
        miso_should_rehash(
            self.spec_len() as int,
            self.tombstone_count() as int,
            self.spec_capacity() as int,
        )
    }

    /// Whether an insertion into this map first rebuilds it at twice the
    /// capacity.
    pub open spec fn grows_on_insert(self) -> bool {
        !self.rehashes_on_insert() && miso_should_grow(
            self.spec_len() as int,
            self.tombstone_count() as int,
            self.spec_capacity() as int,
        )
    }

    /// The hash of a key view under this map's hash state.
    closed spec fn hash_of(self, k: K::V) -> u64 {
        self.hash_builder.hash_of(k)
    }

    /// The function from key views to hashes that this map's hash state
    /// computes; drawn at random when the map is made, kept for its life.
    pub closed spec fn hash_fn(self) -> spec_fn(K::V) -> u64 {
        self.hash_builder.hash_of_fn()
    }

    /// The number of full slots.
    pub closed spec fn full_slot_count(self) -> nat {
        count_state(self.control_bytes@, self.capacity as nat, SlotState::Full)
    }

    /// The number of deleted slots.
    pub closed spec fn deleted_slot_count(self) -> nat {
        count_state(self.control_bytes@, self.capacity as nat, SlotState::Deleted)
    }

    /// Whether a probe for `k` from its home slot meets a deleted slot before
    /// any empty one: an insertion of a new key `k` then reuses the first
    /// such slot.
    pub closed spec fn probe_meets_tombstone(self, k: K::V) -> bool {
        let cap = self.capacity as int;
        let h = home_slot(self.hash_of(k), self.capacity);
        exists|d: int|
            0 <= d < cap && #[trigger] self.control_bytes@[wrap(h, d, cap)] == deleted_byte()
                && forall|e: int|
                0 <= e < d ==> #[trigger] self.control_bytes@[wrap(h, e, cap)] != empty_byte()
    }

    closed spec fn key_at(self, i: int) -> K::V {
        self.items@[i].unwrap().0@
    }

    closed spec fn value_at(self, i: int) -> V {
        self.items@[i].unwrap().1
    }

    /// What a full slot `i` owes: its byte is its key's tag, its entry is in
    /// the contents, and a probe from its key's home slot reaches it.
    closed spec fn slot_ok(self, i: int) -> bool {
        let k = self.key_at(i);
        &&& self.control_bytes@[i] == hash_tag(self.hash_of(k))
        &&& self.contents@.contains_key(k)
        &&& self.contents@[k] == self.value_at(i)
        &&& path_clear(
            self.control_bytes@,
            self.capacity as int,
            home_slot(self.hash_of(k), self.capacity),
            i,
        )
    }

    /// The invariant of the map.
    pub closed spec fn wf(self) -> bool {
        let cap = self.capacity as int;
        let ctrl = self.control_bytes@;
        &&& is_table_capacity(cap)
        &&& cap <= usize::MAX / 2 + 1
        &&& self.items@.len() == cap
        &&& layout_ok(ctrl, cap)
        &&& forall|i: int|
            0 <= i < cap ==> (#[trigger] self.items@[i] is Some <==> is_full_byte(ctrl[i]))
        &&& forall|i: int| 0 <= i < cap && #[trigger] self.items@[i] is Some ==> self.slot_ok(i)
        &&& forall|i: int, j: int|
            0 <= i < cap && 0 <= j < cap && i != j && #[trigger] self.items@[i] is Some
                && #[trigger] self.items@[j] is Some ==> self.key_at(i) != self.key_at(j)
        &&& forall|k: K::V| #[trigger]
            self.contents@.contains_key(k) ==> exists|i: int|
                0 <= i < cap && #[trigger] self.items@[i] is Some && self.key_at(i) == k
        &&& count_state(ctrl, cap as nat, SlotState::Full) == self.size
        &&& count_state(ctrl, cap as nat, SlotState::Deleted) == self.tombstones
        &&& self.contents@.dom().finite()
        &&& self.contents@.dom().len() == self.size
    }

    /// The number of live entries.
    pub fn len(&self) -> (r: usize)
        requires
            self.wf(),
        ensures
            r == self.spec_len(),
            r == self@.len(),
    {
        return self.size;
    }

    /// The number of slots.
    pub fn capacity(&self) -> (r: usize)
        requires
            self.wf(),
        ensures
            r == self.spec_capacity(),
            r >= 16,
            r & ((r - 1) as usize) == 0,
    {
        return self.capacity;
    }

    /// What the invariant says of the counts and capacity.
    pub proof fn lemma_wf(self)
        requires
            self.wf(),
        ensures
            self.spec_len() + self.tombstone_count() <= self.spec_capacity(),
            self.spec_len() == self@.len(),
            self.spec_len() == self.full_slot_count(),
            self.tombstone_count() == self.deleted_slot_count(),
            self.spec_capacity() >= 16,
            is_table_capacity(self.spec_capacity() as int),
            self@.dom().finite(),
    {
        lemma_count_partition(self.control_bytes@, self.capacity as nat);
    }

    /// Whether slot `i` holds the key whose view is `k`.
    closed spec fn holds_key(self, i: int, k: K::V) -> bool {
        self.items@[i] is Some && self.key_at(i) == k
    }

    /// The slot a key that this map holds lives in.
    proof fn lemma_slot_of_key(self, k: K::V) -> (i: int)
        requires
            self.wf(),
            self@.contains_key(k),
        ensures
            0 <= i < self.capacity,
            self.holds_key(i, k),
            self.slot_ok(i),
    {
        let i = choose|i: int|
            0 <= i < self.capacity && #[trigger] self.items@[i] is Some && self.key_at(i) == k;
        i
    }

    /// Splits the hash of `key` into the part that picks the home slot and
    /// the tag.
    fn get_h1_h2_from_key(&self, key: &K) -> (r: (u64, u8))
        requires
            key_model::<K>(),
        ensures
            r.0 == hash_h1(self.hash_of(key@)),
            r.1 == hash_tag(self.hash_of(key@)),
    {
        let hash: u64 = self.hash_builder.hash(key);
        let h1: u64 = hash >> 7;
        let h2: u8 = (hash >> 57) as u8 & 0x7F;
        (h1, h2)
    }

    /// The home slot for `h1`: its low bits.
    fn get_index_from_h1(&self, h1: u64) -> (r: usize)
        requires
            self.wf(),
        ensures
            r == ((h1 as usize) & ((self.capacity - 1) as usize)),
            r < self.capacity,
    {
        proof {
            lemma_mask_in_range(h1 as usize, self.capacity);
        }
        (h1 as usize) & (self.capacity() - 1)
    }

    /// Step `j` of a probe that starts at slot `s` meets a full byte equal
    /// to `h2` whose slot holds the key `k`.
    closed spec fn probe_hit(self, s: int, j: int, h2: u8, k: K::V) -> bool {
        let i = wrap(s, j, self.capacity as int);
        &&& is_full_byte(self.control_bytes@[i])
        &&& self.control_bytes@[i] == h2
        &&& self.holds_key(i, k)
    }

    /// What a lookup probe from slot `s` for tag `h2` and key `k` returns: the
    /// slot of the first hit before the first empty slot, or `None` when no
    /// step before the first empty slot (or in a whole turn) is a hit.
    closed spec fn lookup_ok(self, r: Option<usize>, s: int, h2: u8, k: K::V) -> bool {
        let cap = self.capacity as int;
        let ctrl = self.control_bytes@;
        match r {
            Some(i) => exists|j: int|
                0 <= j < cap && i == wrap(s, j, cap) && #[trigger] self.probe_hit(s, j, h2, k)
                    && steps_clear(ctrl, cap, s, j) && forall|e: int|
                    0 <= e < j ==> !#[trigger] self.probe_hit(s, e, h2, k),
            None => forall|j: int|
                0 <= j < cap && steps_clear(ctrl, cap, s, j) ==> !#[trigger] self.probe_hit(
                    s,
                    j,
                    h2,
                    k,
                ),
        }
    }

    /// A key the map holds is a hit of the probe that its own hash parts
    /// give, at the step of its slot; so a probe that goes over every step
    /// up to an empty slot, or a whole turn, without a hit shows it absent.
    proof fn lemma_absent_linear(self, k: K::V, s: int, h2: u8, d: int)
        requires
            self.wf(),
            s == home_slot(self.hash_of(k), self.capacity),
            h2 == hash_tag(self.hash_of(k)),
            0 <= d <= self.capacity,
            forall|e: int| 0 <= e < d ==> !#[trigger] self.probe_hit(s, e, h2, k),
            d < self.capacity ==> self.control_bytes@[wrap(s, d, self.capacity as int)]
                == empty_byte(),
        ensures
            !self@.contains_key(k),
    {
        let cap = self.capacity as int;
        if self@.contains_key(k) {
            let i = self.lemma_slot_of_key(k);
            let dd = dist(s, i, cap);
            lemma_home_in_range(self.hash_of(k), self.capacity);
            assert(wrap(s, dd, cap) == i);
            assert(self.probe_hit(s, dd, h2, k));
            if dd > d {
                assert(self.control_bytes@[wrap(s, d, cap)] != empty_byte());
            }
        }
    }

    /// Probes from slot `h1 & (capacity - 1)`, one slot at a time, for the
    /// slot of `key` among the full slots with byte `h2`, stopping at the
    /// first empty slot or after going once around.
    fn probe_for_lookup_scalar(&self, h1: u64, h2: u8, key: &K) -> (r: Option<usize>)
        requires
            self.wf(),
            key_model::<K>(),
        ensures
            self.lookup_ok(r, probe_start(h1, self.capacity), h2, key@),
            r matches Some(i) ==> i < self.capacity && self.holds_key(i as int, key@),
            h1 == hash_h1(self.hash_of(key@)) && h2 == hash_tag(self.hash_of(key@)) ==> (r is None
                <==> !self@.contains_key(key@)),
    {
        proof {
            reveal(vstd::laws_eq::obeys_view_eq);
        }
        let mut index: usize = self.get_index_from_h1(h1);
        let start: usize = index;
        let mask: usize = self.capacity() - 1;
        let ghost cap: int = self.capacity as int;
        let ghost mut d: int = 0;
        loop
            invariant
                self.wf(),
                key_model::<K>(),
                K::obeys_eq_spec(),
                forall|x: K, y: K| x.eq_spec(&y) <==> (x@ == y@),
                start == probe_start(h1, self.capacity),
                cap == self.capacity,
                mask == cap - 1,
                0 <= start < cap,
                0 <= d < cap,
                index == wrap(start as int, d, cap),
                steps_clear(self.control_bytes@, cap, start as int, d),
                forall|e: int| 0 <= e < d ==> !#[trigger] self.probe_hit(start as int, e, h2, key@),
            decreases cap - d,
        {
            let ctrl: u8 = self.control_bytes[index];
            if is_full(ctrl) {
                let ctrl_h2: u8 = ctrl_h2(ctrl);
                if ctrl_h2 == h2 {
                    match &self.items[index] {
                        Some((k, _)) => {
                            if *k == *key {
                                proof {
                                    assert(self.probe_hit(start as int, d, h2, key@));
                                }
                                return Some(index);
                            }
                        },
                        None => {},
                    }
                }
            }
            proof {
                assert(!self.probe_hit(start as int, d, h2, key@));
            }
            if is_empty(ctrl) {
                proof {
                    assert forall|j: int|
                        0 <= j < cap && steps_clear(
                            self.control_bytes@,
                            cap,
                            start as int,
                            j,
                        ) implies !#[trigger] self.probe_hit(start as int, j, h2, key@) by {
                        if j > d {
                            assert(self.control_bytes@[wrap(start as int, d, cap)] != empty_byte());
                        }
                    }
                    if h1 == hash_h1(self.hash_of(key@)) && h2 == hash_tag(self.hash_of(key@)) {
                        self.lemma_absent_linear(key@, start as int, h2, d);
                    }
                }
                return None;
            }
            proof {
                lemma_mask_wraps(index, 1, self.capacity);
            }
            index = (index + 1) & mask;
            proof {
                d = d + 1;
            }
            if index == start {
                proof {
                    if h1 == hash_h1(self.hash_of(key@)) && h2 == hash_tag(self.hash_of(key@)) {
                        self.lemma_absent_linear(key@, start as int, h2, d);
                    }
                }
                return None;
            }
        }
    }

    /// Probes from slot `h1 & (capacity - 1)` for the slot that holds `key`
    /// (a full slot with byte `h2`), or else for the slot it should go in:
    /// the first deleted slot before the first empty one, or else that empty
    /// slot. `None` when the probe goes once around without meeting the key
    /// or an empty slot.
    fn probe_for_insert(&self, h1: u64, h2: u8, key: &K) -> (r: Option<InsertProbe>)
        requires
            self.wf(),
            key_model::<K>(),
        ensures
            self.insert_probe_ok(r, probe_start(h1, self.capacity), h2, key@),
            h1 == hash_h1(self.hash_of(key@)) && h2 == hash_tag(self.hash_of(key@)) ==> (r matches Some(
                InsertProbe::Found(_),
            ) <==> self@.contains_key(key@)),
    {
        return self.probe_for_insert_scalar(h1, h2, key);
    }

    /// What a probe for insertion from slot `s` for tag `h2` and key `k`
    /// returns.
    closed spec fn insert_probe_ok(self, r: Option<InsertProbe>, s: int, h2: u8, k: K::V) -> bool {
        let cap = self.capacity as int;
        let ctrl = self.control_bytes@;
        match r {
            Some(InsertProbe::Found(i)) => i < cap && self.holds_key(i as int, k) && self.lookup_ok(
                Some(i),
                s,
                h2,
                k,
            ),
            Some(InsertProbe::Vacant(i)) => {
                &&& i < cap
                &&& !is_full_byte(ctrl[i as int])
                &&& self.lookup_ok(None, s, h2, k)
                &&& path_clear(ctrl, cap, s, i as int)
                &&& no_deleted_before(ctrl, cap, s, i as int)
                &&& ctrl[i as int] == deleted_byte() ==> empty_after(ctrl, cap, s, i as int)
            },
            None => {
                &&& self.lookup_ok(None, s, h2, k)
                &&& forall|i: int| 0 <= i < cap ==> #[trigger] ctrl[i] != empty_byte()
            },
        }
    }

    fn probe_for_insert_scalar(&self, h1: u64, h2: u8, key: &K) -> (r: Option<InsertProbe>)
        requires
            self.wf(),
            key_model::<K>(),
        ensures
            self.insert_probe_ok(r, probe_start(h1, self.capacity), h2, key@),
            h1 == hash_h1(self.hash_of(key@)) && h2 == hash_tag(self.hash_of(key@)) ==> (r matches Some(
                InsertProbe::Found(_),
            ) <==> self@.contains_key(key@)),
    {
        proof {
            reveal(vstd::laws_eq::obeys_view_eq);
        }
        let mut index: usize = self.get_index_from_h1(h1);
        let mut first_tombstone: Option<InsertProbe> = None;
        let start: usize = index;
        let mask: usize = self.capacity() - 1;
        let ghost cap: int = self.capacity as int;
        let ghost mut d: int = 0;
        let ghost mut tomb_step: int = 0;
        let ghost tie: bool = h1 == hash_h1(self.hash_of(key@)) && h2 == hash_tag(
            self.hash_of(key@),
        );
        loop
            invariant
                self.wf(),
                key_model::<K>(),
                K::obeys_eq_spec(),
                forall|x: K, y: K| x.eq_spec(&y) <==> (x@ == y@),
                start == probe_start(h1, self.capacity),
                tie == (h1 == hash_h1(self.hash_of(key@)) && h2 == hash_tag(self.hash_of(key@))),
                cap == self.capacity,
                mask == cap - 1,
                0 <= start < cap,
                0 <= d < cap,
                index == wrap(start as int, d, cap),
                steps_clear(self.control_bytes@, cap, start as int, d),
                forall|e: int| 0 <= e < d ==> !#[trigger] self.probe_hit(start as int, e, h2, key@),
                match first_tombstone {
                    Some(InsertProbe::Vacant(t)) => {
                        &&& 0 <= tomb_step < d
                        &&& t == wrap(start as int, tomb_step, cap)
                        &&& self.control_bytes@[t as int] == deleted_byte()
                        &&& forall|e: int|
                            0 <= e < tomb_step ==> #[trigger] self.control_bytes@[wrap(
                                start as int,
                                e,
                                cap,
                            )] != deleted_byte()
                    },
                    Some(InsertProbe::Found(_)) => false,
                    None => forall|e: int|
                        0 <= e < d ==> #[trigger] self.control_bytes@[wrap(start as int, e, cap)]
                            != deleted_byte(),
                },
            decreases cap - d,
        {
            let ctrl: u8 = self.control_bytes[index];
            if is_full(ctrl) {
                if ctrl_h2(ctrl) == h2 {
                    match &self.items[index] {
                        Some((k, _)) => {
                            if *k == *key {
                                proof {
                                    assert(self.probe_hit(start as int, d, h2, key@));
                                    assert(self.lookup_ok(Some(index), start as int, h2, key@));
                                    if tie {
                                        assert(self.slot_ok(index as int));
                                    }
                                }
                                return Some(InsertProbe::Found(index));
                            }
                        },
                        None => {},
                    }
                }
            }
            proof {
                assert(!self.probe_hit(start as int, d, h2, key@));
            }
            if is_empty(ctrl) {
                proof {
                    assert forall|j: int|
                        0 <= j < cap && steps_clear(
                            self.control_bytes@,
                            cap,
                            start as int,
                            j,
                        ) implies !#[trigger] self.probe_hit(start as int, j, h2, key@) by {
                        if j > d {
                            assert(self.control_bytes@[wrap(start as int, d, cap)] != empty_byte());
                        }
                    }
                    assert(self.lookup_ok(None, start as int, h2, key@));
                    if tie {
                        self.lemma_absent_linear(key@, start as int, h2, d);
                    }
                }
                if first_tombstone.is_some() {
                    proof {
                        let t = wrap(start as int, tomb_step, cap);
                        assert(dist(start as int, t, cap) == tomb_step);
                        assert(self.control_bytes@[wrap(start as int, d, cap)] == empty_byte());
                        assert(empty_after(self.control_bytes@, cap, start as int, t));
                    }
                    return first_tombstone;
                }
                proof {
                    assert(dist(start as int, index as int, cap) == d);
                }
                return Some(InsertProbe::Vacant(index));
            }
            if is_deleted(ctrl) && first_tombstone.is_none() {
                first_tombstone = Some(InsertProbe::Vacant(index));
                proof {
                    tomb_step = d;
                }
            }
            proof {
                lemma_mask_wraps(index, 1, self.capacity);
            }
            index = (index + 1) & mask;
            proof {
                d = d + 1;
            }
            if index == start {
                proof {
                    assert(self.lookup_ok(None, start as int, h2, key@));
                    if tie {
                        self.lemma_absent_linear(key@, start as int, h2, d);
                    }
                    assert forall|i: int| 0 <= i < cap implies #[trigger] self.control_bytes@[i]
                        != empty_byte() by {
                        let dd = dist(start as int, i, cap);
                        assert(wrap(start as int, dd, cap) == i);
                    }
                }
                return None;
            }
        }
    }

    /// Filling a vacant slot `p` with a new key keeps the invariant.
    proof fn lemma_fill_vacant(pre: Self, post: Self, p: int, k: K::V, v: V)
        requires
            pre.wf(),
            0 <= p < pre.capacity,
            !is_full_byte(pre.control_bytes@[p]),
            !pre@.contains_key(k),
            path_clear(
                pre.control_bytes@,
                pre.capacity as int,
                home_slot(pre.hash_of(k), pre.capacity),
                p,
            ),
            post.capacity == pre.capacity,
            post.hash_builder == pre.hash_builder,
            post.items@.len() == pre.items@.len(),
            post.items@[p] is Some,
            post.key_at(p) == k,
            post.value_at(p) == v,
            forall|i: int| 0 <= i < pre.capacity && i != p ==> post.items@[i] == pre.items@[i],
            post.control_bytes@ == set_slot(
                pre.control_bytes@,
                pre.capacity as int,
                p,
                hash_tag(pre.hash_of(k)),
            ),
            post.contents@ == pre.contents@.insert(k, v),
            post.size == pre.size + 1,
            post.tombstones + (if pre.control_bytes@[p] == deleted_byte() {
                1int
            } else {
                0int
            }) == pre.tombstones,
        ensures
            post.wf(),
    {
        let cap = pre.capacity as int;
        let tag = hash_tag(pre.hash_of(k));
        lemma_tag_is_full(pre.hash_of(k));
        lemma_set_slot_layout(pre.control_bytes@, cap, p, tag);
        let c0 = pre.control_bytes@;
        let c1 = post.control_bytes@;
        assert forall|x: int| 0 <= x < cap && c0[x] != empty_byte() implies #[trigger] c1[x]
            != empty_byte() by {}
        assert forall|i: int| 0 <= i < cap && #[trigger] post.items@[i] is Some implies post.slot_ok(
            i,
        ) by {
            if i == p {
                lemma_home_in_range(pre.hash_of(k), pre.capacity);
                lemma_path_clear_mono(c0, c1, cap, home_slot(pre.hash_of(k), pre.capacity), p);
            } else {
                assert(pre.items@[i] is Some);
                assert(pre.slot_ok(i));
                assert(pre.key_at(i) != k);
                lemma_home_in_range(pre.hash_of(pre.key_at(i)), pre.capacity);
                lemma_path_clear_mono(
                    c0,
                    c1,
                    cap,
                    home_slot(pre.hash_of(pre.key_at(i)), pre.capacity),
                    i,
                );
            }
        }
        assert forall|i: int, j: int|
            0 <= i < cap && 0 <= j < cap && i != j && #[trigger] post.items@[i] is Some
                && #[trigger] post.items@[j] is Some implies post.key_at(i) != post.key_at(j) by {
            if i == p {
                assert(pre.items@[j] is Some);
                assert(pre.slot_ok(j));
            } else if j == p {
                assert(pre.items@[i] is Some);
                assert(pre.slot_ok(i));
            } else {
                assert(pre.items@[i] is Some && pre.items@[j] is Some);
            }
        }
        assert forall|kk: K::V| #[trigger] post.contents@.contains_key(kk) implies exists|i: int|
            0 <= i < cap && #[trigger] post.items@[i] is Some && post.key_at(i) == kk by {
            if kk == k {
                assert(post.items@[p] is Some);
            } else {
                assert(pre.contents@.contains_key(kk));
                let i = choose|i: int|
                    0 <= i < cap && #[trigger] pre.items@[i] is Some && pre.key_at(i) == kk;
                assert(post.items@[i] is Some);
            }
        }
        assert forall|i: int| 0 <= i < cap implies (#[trigger] post.items@[i] is Some
            <==> is_full_byte(c1[i])) by {
            if i != p {
                assert(pre.items@[i] is Some <==> is_full_byte(c0[i]));
            }
        }
        // counts
        let c2 = c0.update(p, tag);
        assert forall|x: int| 0 <= x < cap implies #[trigger] c1[x] == c2[x] by {}
        lemma_count_prefix(c1, c2, cap as nat, SlotState::Full);
        lemma_count_prefix(c1, c2, cap as nat, SlotState::Deleted);
        lemma_count_update(c0, cap as nat, p, tag, SlotState::Full);
        lemma_count_update(c0, cap as nat, p, tag, SlotState::Deleted);
        assert(post.contents@.dom() =~= pre.contents@.dom().insert(k));
    }

    /// Marking full slot `p` deleted and dropping its entry keeps the
    /// invariant.
    proof fn lemma_clear_full(pre: Self, post: Self, p: int)
        requires
            pre.wf(),
            0 <= p < pre.capacity,
            pre.items@[p] is Some,
            post.capacity == pre.capacity,
            post.hash_builder == pre.hash_builder,
            post.items@.len() == pre.items@.len(),
            post.items@[p] is None,
            forall|i: int| 0 <= i < pre.capacity && i != p ==> post.items@[i] == pre.items@[i],
            post.control_bytes@ == set_slot(
                pre.control_bytes@,
                pre.capacity as int,
                p,
                deleted_byte(),
            ),
            post.contents@ == pre.contents@.remove(pre.key_at(p)),
            post.size + 1 == pre.size,
            post.tombstones == pre.tombstones + 1,
        ensures
            post.wf(),
    {
        let cap = pre.capacity as int;
        let k = pre.key_at(p);
        lemma_set_slot_layout(pre.control_bytes@, cap, p, deleted_byte());
        let c0 = pre.control_bytes@;
        let c1 = post.control_bytes@;
        assert(pre.slot_ok(p));
        assert forall|x: int| 0 <= x < cap && c0[x] != empty_byte() implies #[trigger] c1[x]
            != empty_byte() by {}
        assert forall|i: int| 0 <= i < cap && #[trigger] post.items@[i] is Some implies post.slot_ok(
            i,
        ) by {
            assert(pre.items@[i] is Some);
            assert(pre.slot_ok(i));
            assert(pre.key_at(i) != k);
            lemma_home_in_range(pre.hash_of(pre.key_at(i)), pre.capacity);
            lemma_path_clear_mono(
                c0,
                c1,
                cap,
                home_slot(pre.hash_of(pre.key_at(i)), pre.capacity),
                i,
            );
        }
        assert forall|i: int, j: int|
            0 <= i < cap && 0 <= j < cap && i != j && #[trigger] post.items@[i] is Some
                && #[trigger] post.items@[j] is Some implies post.key_at(i) != post.key_at(j) by {
            assert(pre.items@[i] is Some && pre.items@[j] is Some);
        }
        assert forall|kk: K::V| #[trigger] post.contents@.contains_key(kk) implies exists|i: int|
            0 <= i < cap && #[trigger] post.items@[i] is Some && post.key_at(i) == kk by {
            assert(pre.contents@.contains_key(kk));
            let i = choose|i: int|
                0 <= i < cap && #[trigger] pre.items@[i] is Some && pre.key_at(i) == kk;
            assert(i != p);
            assert(post.items@[i] is Some);
        }
        assert forall|i: int| 0 <= i < cap implies (#[trigger] post.items@[i] is Some
            <==> is_full_byte(c1[i])) by {
            if i != p {
                assert(pre.items@[i] is Some <==> is_full_byte(c0[i]));
            }
        }
        let c2 = c0.update(p, deleted_byte());
        assert forall|x: int| 0 <= x < cap implies #[trigger] c1[x] == c2[x] by {}
        lemma_count_prefix(c1, c2, cap as nat, SlotState::Full);
        lemma_count_prefix(c1, c2, cap as nat, SlotState::Deleted);
        lemma_count_update(c0, cap as nat, p, deleted_byte(), SlotState::Full);
        lemma_count_update(c0, cap as nat, p, deleted_byte(), SlotState::Deleted);
        assert(post.contents@.dom() =~= pre.contents@.dom().remove(k));
    }

    /// Giving the key in slot `p` a new value keeps the invariant.
    proof fn lemma_replace_value(pre: Self, post: Self, p: int, v: V)
        requires
            pre.wf(),
            0 <= p < pre.capacity,
            pre.items@[p] is Some,
            post.capacity == pre.capacity,
            post.hash_builder == pre.hash_builder,
            post.items@.len() == pre.items@.len(),
            post.items@[p] is Some,
            post.key_at(p) == pre.key_at(p),
            post.value_at(p) == v,
            forall|i: int| 0 <= i < pre.capacity && i != p ==> post.items@[i] == pre.items@[i],
            post.control_bytes@ == pre.control_bytes@,
            post.contents@ == pre.contents@.insert(pre.key_at(p), v),
            post.size == pre.size,
            post.tombstones == pre.tombstones,
        ensures
            post.wf(),
    {
        let cap = pre.capacity as int;
        let k = pre.key_at(p);
        assert(pre.slot_ok(p));
        assert forall|i: int| 0 <= i < cap && #[trigger] post.items@[i] is Some implies post.slot_ok(
            i,
        ) by {
            if i != p {
                assert(pre.items@[i] is Some);
                assert(pre.slot_ok(i));
                assert(pre.key_at(i) != k);
            }
        }
        assert forall|i: int, j: int|
            0 <= i < cap && 0 <= j < cap && i != j && #[trigger] post.items@[i] is Some
                && #[trigger] post.items@[j] is Some implies post.key_at(i) != post.key_at(j) by {
            assert(pre.items@[i] is Some && pre.items@[j] is Some);
        }
        assert forall|kk: K::V| #[trigger] post.contents@.contains_key(kk) implies exists|i: int|
            0 <= i < cap && #[trigger] post.items@[i] is Some && post.key_at(i) == kk by {
            assert(pre.contents@.contains_key(kk));
            let i = choose|i: int|
                0 <= i < cap && #[trigger] pre.items@[i] is Some && pre.key_at(i) == kk;
            assert(post.items@[i] is Some);
        }
        assert forall|i: int| 0 <= i < cap implies (#[trigger] post.items@[i] is Some
            <==> is_full_byte(post.control_bytes@[i])) by {
            assert(pre.items@[i] is Some <==> is_full_byte(pre.control_bytes@[i]));
        }
        assert(post.contents@.dom() =~= pre.contents@.dom());
    }

    /// Inserts into a table that has an empty slot left, without resizing.
    fn insert_no_resize(&mut self, key: K, value: V) -> (r: Option<V>)
        requires
            old(self).wf(),
            key_model::<K>(),
            old(self).size + old(self).tombstones < old(self).capacity,
        ensures
            final(self).wf(),
            final(self)@ == old(self)@.insert(key@, value),
            r == (if old(self)@.contains_key(key@) {
                Some(old(self)@[key@])
            } else {
                None::<V>
            }),
            final(self).capacity == old(self).capacity,
            final(self).tombstones <= old(self).tombstones,
            final(self).tombstones == old(self).tombstones - (if !old(self)@.contains_key(key@)
                && old(self).probe_meets_tombstone(key@) {
                1int
            } else {
                0int
            }),
            final(self).size + final(self).tombstones <= old(self).size + old(self).tombstones + 1,
            final(self).hash_fn() == old(self).hash_fn(),
    {
        let (h1, h2) = self.get_h1_h2_from_key(&key);
        let ghost pre: Self = *self;
        let ghost kv: K::V = key@;
        let ghost vv: V = value;
        let ghost new_contents = pre.contents@.insert(kv, vv);
        let probe = self.probe_for_insert(h1, h2, &key);
        match probe {
            Some(InsertProbe::Found(index)) => {
                proof {
                    assert(pre.slot_ok(index as int));
                }
                let mut slot: Option<(K, V)> = None;
                std::mem::swap(&mut self.items[index], &mut slot);
                match slot {
                    Some((k, old)) => {
                        self.items[index] = Some((k, value));
                        self.contents = Ghost(new_contents);
                        proof {
                            Self::lemma_replace_value(pre, *self, index as int, vv);
                        }
                        Some(old)
                    },
                    None => {
                        proof {
                            assert(false);
                        }
                        None
                    },
                }
            },
            Some(InsertProbe::Vacant(index)) => {
                let ghost cap = self.capacity as int;
                proof {
                    lemma_count_update(
                        pre.control_bytes@,
                        cap as nat,
                        index as int,
                        h2,
                        SlotState::Deleted,
                    );
                    lemma_count_partition(pre.control_bytes@, cap as nat);
                    lemma_tag_is_full(pre.hash_of(kv));
                }
                if is_deleted(self.control_bytes[index]) {
                    self.tombstones = self.tombstones - 1;
                }
                self.items[index] = Some((key, value));
                self.control_bytes[index] = h2;
                if index < 15 {
                    let clone_index: usize = self.capacity + index + 1;
                    self.control_bytes[clone_index] = h2;
                }
                self.size = self.size + 1;
                self.contents = Ghost(new_contents);
                proof {
                    assert(self.control_bytes@ =~= set_slot(
                        pre.control_bytes@,
                        cap,
                        index as int,
                        h2,
                    ));
                    Self::lemma_fill_vacant(pre, *self, index as int, kv, vv);
                    let h = home_slot(pre.hash_of(kv), pre.capacity);
                    lemma_home_in_range(pre.hash_of(kv), pre.capacity);
                    let dd = dist(h, index as int, cap);
                    assert(wrap(h, dd, cap) == index);
                    if pre.control_bytes@[index as int] == deleted_byte() {
                        assert(pre.control_bytes@[wrap(h, dd, cap)] == deleted_byte());
                        assert(pre.probe_meets_tombstone(kv));
                    } else {
                        if pre.probe_meets_tombstone(kv) {
                            let d0 = choose|d: int|
                                0 <= d < cap && #[trigger] pre.control_bytes@[wrap(h, d, cap)]
                                    == deleted_byte() && forall|e: int|
                                    0 <= e < d ==> #[trigger] pre.control_bytes@[wrap(h, e, cap)]
                                        != empty_byte();
                            if d0 < dd {
                                assert(pre.control_bytes@[wrap(h, d0, cap)] != deleted_byte());
                            } else if d0 > dd {
                                assert(pre.control_bytes@[wrap(h, dd, cap)] != empty_byte());
                            }
                        }
                    }
                }
                None
            },
            None => {
                proof {
                    let ctrl = pre.control_bytes@;
                    let cap = pre.capacity as nat;
                    lemma_count_partition(ctrl, cap);
                    if count_state(ctrl, cap, SlotState::Empty) > 0 {
                        lemma_count_witness(ctrl, cap, SlotState::Empty);
                        let i = choose|i: int| 0 <= i < cap && state_of(#[trigger] ctrl[i]) == SlotState::Empty;
                        assert(ctrl[i] != empty_byte());
                    }
                    assert(false);
                }
                None
            },
        }
    }

    /// The value of `key`, if the map holds it.
    pub fn get(&self, key: &K) -> (r: Option<&V>)
        requires
            self.wf(),
            key_model::<K>(),
        ensures
            r is Some <==> self@.contains_key(key@),
            r matches Some(v) ==> *v == self@[key@],
    {
        let (h1, h2) = self.get_h1_h2_from_key(&key);
        match self.probe_for_lookup_scalar(h1, h2, &key) {
            Some(index) => {
                proof {
                    assert(self.slot_ok(index as int));
                }
                match &self.items[index] {
                    Some((_, v)) => Some(v),
                    None => None,
                }
            },
            None => None,
        }
    }

    /// Removes `key` and returns its value, if the map holds it. Its slot
    /// becomes a tombstone.
    pub fn delete(&mut self, key: &K) -> (r: Option<V>)
        requires
            old(self).wf(),
            key_model::<K>(),
        ensures
            final(self).wf(),
            final(self)@ == old(self)@.remove(key@),
            !old(self)@.contains_key(key@) ==> *final(self) == *old(self),
            final(self).hash_fn() == old(self).hash_fn(),
            r == (if old(self)@.contains_key(key@) {
                Some(old(self)@[key@])
            } else {
                None::<V>
            }),
            final(self).spec_capacity() == old(self).spec_capacity(),
            final(self).tombstone_count() == old(self).tombstone_count() + (if old(self)@.contains_key(
                key@,
            ) {
                1int
            } else {
                0int
            }),
    {
        let (h1, h2) = self.get_h1_h2_from_key(&key);
        match self.probe_for_lookup_scalar(h1, h2, &key) {
            Some(index) => {
                let ghost pre: Self = *self;
                let ghost cap = self.capacity as int;
                proof {
                    assert(pre.slot_ok(index as int));
                    lemma_count_update(
                        pre.control_bytes@,
                        cap as nat,
                        index as int,
                        deleted_byte(),
                        SlotState::Full,
                    );
                    lemma_count_partition(pre.control_bytes@, cap as nat);
                }
                let mut slot: Option<(K, V)> = None;
                std::mem::swap(&mut self.items[index], &mut slot);
                match slot {
                    Some((_, v)) => {
                        self.size = self.size - 1;
                        self.tombstones = self.tombstones + 1;
                        self.control_bytes[index] = ctrl_deleted();
                        if index < 15 {
                            let clone_index: usize = self.capacity + index + 1;
                            self.control_bytes[clone_index] = ctrl_deleted();
                        }
                        self.contents = Ghost(pre.contents@.remove(pre.key_at(index as int)));
                        proof {
                            assert(self.control_bytes@ =~= set_slot(
                                pre.control_bytes@,
                                cap,
                                index as int,
                                deleted_byte(),
                            ));
                            Self::lemma_clear_full(pre, *self, index as int);
                        }
                        Some(v)
                    },
                    None => {
                        proof {
                            assert(false);
                        }
                        None
                    },
                }
            },
            None => None,
        }
    }

    /// Inserts `key` with `value`, first growing or rebuilding the table when
    /// its thresholds say so. Returns the value `key` had, if any.
    pub fn insert(&mut self, key: K, value: V) -> (r: Option<V>)
        requires
            old(self).wf(),
            key_model::<K>(),
            old(self).spec_capacity() <= usize::MAX / 16,
        ensures
            final(self).wf(),
            final(self)@ == old(self)@.insert(key@, value),
            r == (if old(self)@.contains_key(key@) {
                Some(old(self)@[key@])
            } else {
                None::<V>
            }),
            final(self).spec_capacity() == if old(self).grows_on_insert() {
                2 * old(self).spec_capacity()
            } else {
                old(self).spec_capacity()
            },
            old(self).rehashes_on_insert() || old(self).grows_on_insert() ==> final(self).tombstone_count() == 0,
            final(self).tombstone_count() <= old(self).tombstone_count(),
            !old(self).rehashes_on_insert() && !old(self).grows_on_insert() ==> final(self).tombstone_count()
                == old(self).tombstone_count() - (if !old(self)@.contains_key(key@)
                && old(self).probe_meets_tombstone(key@) {
                1int
            } else {
                0int
            }),
            final(self).hash_fn() == old(self).hash_fn(),
            (final(self).spec_len() + final(self).tombstone_count()) * 8 < final(self).spec_capacity() * 7 + 8,
            old(self).spec_len() + old(self).tombstone_count() >= old(self).spec_capacity()
                - old(self).spec_capacity() / 8 ==> final(self).spec_capacity() == 2 * old(self).spec_capacity(),
    {
        proof {
            self.lemma_wf();
            lemma_capacity_mult16(self.spec_capacity() as int);
        }
        self.maybe_grow_or_rehash();
        self.insert_no_resize(key, value)
    }

    /// Whether to rebuild at the same capacity before an insertion.
    fn should_rehash(&self) -> (r: bool)
        requires
            self.size + self.tombstones <= self.capacity,
        ensures
            r == self.rehashes_on_insert(),
    {
        proof {
            let c = self.capacity;
            let s = self.size;
            assert(c >> 3usize == c / 8usize) by (bit_vector);
            assert(s >> 1usize == s / 2usize) by (bit_vector);
        }
        // if load factor is high, its better to grow than to rehash
        let should_grow: bool = (self.tombstones + self.size) >= self.capacity - (self.capacity
            >> 3);
        let should_rehash: bool = self.tombstones >= self.size >> 1;
        return should_rehash && !should_grow;
    }

    /// Whether to grow before an insertion.
    fn should_grow(&self) -> (r: bool)
        requires
            self.size + self.tombstones <= self.capacity,
            self.spec_capacity() <= usize::MAX / 16,
        ensures
            r == miso_should_grow(
                self.spec_len() as int,
                self.tombstone_count() as int,
                self.spec_capacity() as int,
            ),
    {
        return (self.tombstones + self.size) * 8 >= self.capacity * 7;
    }

    /// Grows or rebuilds the table when its thresholds say so; afterwards an
    /// empty slot is left.
    fn maybe_grow_or_rehash(&mut self)
        requires
            old(self).wf(),
            key_model::<K>(),
            old(self).spec_capacity() <= usize::MAX / 16,
        ensures
            final(self).wf(),
            final(self)@ == old(self)@,
            !old(self).rehashes_on_insert() && !old(self).grows_on_insert() ==> *final(self)
                == *old(self),
            final(self).hash_fn() == old(self).hash_fn(),
            final(self).spec_capacity() == if old(self).grows_on_insert() {
                2 * old(self).spec_capacity()
            } else {
                old(self).spec_capacity()
            },
            old(self).rehashes_on_insert() || old(self).grows_on_insert() ==> final(self).tombstone_count() == 0,
            !old(self).rehashes_on_insert() && !old(self).grows_on_insert() ==> final(self).tombstone_count() == old(self).tombstone_count(),
            final(self).size + final(self).tombstones < final(self).capacity,
            (final(self).size + final(self).tombstones) * 8 < final(self).capacity * 7,
    {
        proof {
            self.lemma_wf();
        }
        if self.should_rehash() {
            self.rehash();
        } else if self.should_grow() {
            self.grow();
        }
    }

    /// Rebuilds the table at twice the capacity.
    fn grow(&mut self)
        requires
            old(self).wf(),
            key_model::<K>(),
            old(self).spec_capacity() <= usize::MAX / 16,
        ensures
            final(self).wf(),
            final(self)@ == old(self)@,
            final(self).hash_fn() == old(self).hash_fn(),
            final(self).spec_capacity() == 2 * old(self).spec_capacity(),
            final(self).tombstone_count() == 0,
            final(self).size == old(self).size,
    {
        proof {
            self.lemma_wf();
            lemma_double_pow2(self.capacity);
        }
        let new_capacity: usize = 2 * self.capacity;
        self.rebuild(new_capacity);
    }

    /// Rebuilds the table at the same capacity, dropping its tombstones.
    fn rehash(&mut self)
        requires
            old(self).wf(),
            key_model::<K>(),
            old(self).size < old(self).capacity,
        ensures
            final(self).wf(),
            final(self)@ == old(self)@,
            final(self).hash_fn() == old(self).hash_fn(),
            final(self).spec_capacity() == old(self).spec_capacity(),
            final(self).tombstone_count() == 0,
            final(self).size == old(self).size,
    {
        let capacity: usize = self.capacity();
        self.rebuild(capacity);
    }

    /// Moves every entry into a fresh table of `new_capacity` slots that
    /// hashes the same way.
    fn rebuild(&mut self, new_capacity: usize)
        requires
            old(self).wf(),
            key_model::<K>(),
            is_table_capacity(new_capacity as int),
            new_capacity <= usize::MAX / 2 + 1,
            old(self).size < new_capacity,
        ensures
            final(self).wf(),
            final(self)@ == old(self)@,
            final(self).hash_fn() == old(self).hash_fn(),
            final(self).capacity == new_capacity,
            final(self).tombstones == 0,
            final(self).size == old(self).size,
    {
        let ghost pre: Self = *self;
        let ghost cap: int = self.capacity as int;
        let mut new_map = Self::with_hasher(new_capacity, self.hash_builder.clone());
        let mut i: usize = 0;
        while i < self.capacity
            invariant
                pre.wf(),
                key_model::<K>(),
                cap == pre.capacity,
                self.capacity == pre.capacity,
                self.control_bytes@ == pre.control_bytes@,
                self.items@.len() == cap,
                0 <= i <= cap,
                forall|j: int| i <= j < cap ==> #[trigger] self.items@[j] == pre.items@[j],
                new_map.wf(),
                new_map.capacity == new_capacity,
                new_map.tombstones == 0,
                new_map.hash_fn() == pre.hash_fn(),
                pre.size < new_capacity,
                new_map.size == count_state(pre.control_bytes@, i as nat, SlotState::Full),
                forall|k: K::V|
                    #[trigger] new_map@.contains_key(k) <==> exists|j: int|
                        0 <= j < i && #[trigger] pre.holds_key(j, k),
                forall|j: int|
                    0 <= j < i && #[trigger] pre.items@[j] is Some ==> new_map@[pre.key_at(j)]
                        == pre.value_at(j),
            decreases cap - i,
        {
            if is_full(self.control_bytes[i]) {
                let mut slot: Option<(K, V)> = None;
                std::mem::swap(&mut self.items[i], &mut slot);
                match slot {
                    Some((k, v)) => {
                        proof {
                            lemma_count_bounds(
                                pre.control_bytes@,
                                (i + 1) as nat,
                                cap as nat,
                                SlotState::Full,
                            );
                            assert(!new_map@.contains_key(k@)) by {
                                if new_map@.contains_key(k@) {
                                    let j = choose|j: int|
                                        0 <= j < i && #[trigger] pre.holds_key(j, k@);
                                    assert(pre.items@[j] is Some && pre.items@[i as int] is Some);
                                }
                            }
                        }
                        let ghost nm = new_map@;
                        new_map.insert_no_resize(k, v);
                        proof {
                            assert forall|kk: K::V| #[trigger]
                                new_map@.contains_key(kk) <==> exists|j: int|
                                    0 <= j < i + 1 && #[trigger] pre.holds_key(j, kk) by {
                                if new_map@.contains_key(kk) && kk != k@ {
                                    assert(nm.contains_key(kk));
                                }
                                if kk == k@ {
                                    assert(pre.holds_key(i as int, kk));
                                }
                            }
                            assert forall|j: int|
                                0 <= j < i + 1 && #[trigger] pre.items@[j] is Some implies new_map@[pre.key_at(
                                j,
                            )] == pre.value_at(j) by {
                                if j < i {
                                    assert(pre.items@[j] is Some && pre.items@[i as int] is Some);
                                }
                            }
                        }
                    },
                    None => {
                        proof {
                            assert(false);
                        }
                    },
                }
            } else {
                proof {
                    assert(pre.items@[i as int] is None);
                    assert forall|kk: K::V| #[trigger]
                        new_map@.contains_key(kk) <==> exists|j: int|
                            0 <= j < i + 1 && #[trigger] pre.holds_key(j, kk) by {
                        if exists|j: int| 0 <= j < i + 1 && #[trigger] pre.holds_key(j, kk) {
                            let j = choose|j: int| 0 <= j < i + 1 && #[trigger] pre.holds_key(j, kk);
                            assert(j != i);
                        }
                    }
                }
            }
            i = i + 1;
        }
        proof {
            assert forall|k: K::V| #[trigger] new_map@.contains_key(k) == pre@.contains_key(k) by {
                if pre@.contains_key(k) {
                    let j = pre.lemma_slot_of_key(k);
                    assert(pre.holds_key(j, k));
                }
                if new_map@.contains_key(k) {
                    let j = choose|j: int| 0 <= j < cap && #[trigger] pre.holds_key(j, k);
                    assert(pre.items@[j] is Some);
                    assert(pre.slot_ok(j));
                }
            }
            assert forall|k: K::V| #[trigger] new_map@.contains_key(k) implies new_map@[k] == pre@[k] by {
                let j = pre.lemma_slot_of_key(k);
                assert(pre.items@[j] is Some);
            }
            assert(new_map@ =~= pre@);
        }
        *self = new_map;
    }

    /// An empty map of `capacity` slots (a power of two, at least sixteen)
    /// that hashes with `hash_builder`.
    fn with_hasher(capacity: usize, hash_builder: KeyHasher<K>) -> (r: Self)
        requires
            is_table_capacity(capacity as int),
            capacity <= usize::MAX / 2 + 1,
        ensures
            r.wf(),
            r@ == Map::<K::V, V>::empty(),
            r.spec_capacity() == capacity,
            r.tombstone_count() == 0,
            r.hash_builder.hash_of_fn() == hash_builder.hash_of_fn(),
    {
        let mut items: Vec<Option<(K, V)>> = Vec::new();
        let mut control_bytes: Vec<u8> = Vec::new();
        let mut i: usize = 0;
        while i < capacity
            invariant
                i <= capacity,
                items@.len() == i,
                control_bytes@.len() == i,
                forall|j: int| 0 <= j < i ==> #[trigger] items@[j] is None,
                forall|j: int| 0 <= j < i ==> #[trigger] control_bytes@[j] == empty_byte(),
            decreases capacity - i,
        {
            items.push(None);
            control_bytes.push(ctrl_empty());
            i = i + 1;
        }
        // the sentinel, then the copies of the first fifteen slots
        control_bytes.push(ctrl_sentinel());
        let mut j: usize = 0;
        while j < 15
            invariant
                j <= 15,
                control_bytes@.len() == capacity + 1 + j,
                control_bytes@[capacity as int] == sentinel_byte(),
                forall|x: int| 0 <= x < capacity ==> #[trigger] control_bytes@[x] == empty_byte(),
                forall|x: int|
                    capacity < x < capacity + 1 + j ==> #[trigger] control_bytes@[x] == empty_byte(),
            decreases 15 - j,
        {
            control_bytes.push(ctrl_empty());
            j = j + 1;
        }
        let r = Miso {
            items,
            hash_builder,
            control_bytes,
            capacity,
            size: 0,
            tombstones: 0,
            contents: Ghost(Map::empty()),
        };
        proof {
            let ctrl = r.control_bytes@;
            assert forall|x: int| 0 <= x < 15 implies #[trigger] ctrl[capacity + 1 + x] == (if x
                < capacity {
                ctrl[x]
            } else {
                empty_byte()
            }) by {
                assert(ctrl[capacity + 1 + x] == empty_byte());
                assert(ctrl[x] == empty_byte());
            }
            lemma_count_all_empty(ctrl, capacity as nat);
            assert(r.contents@.dom() =~= Set::<K::V>::empty());
        }
        r
    }

    /// An empty map with room for `capacity` entries: its capacity is the
    /// least power of two that is at least `capacity` and at least sixteen.
    pub fn with_capacity(capacity: usize) -> (r: Self)
        requires
            capacity <= usize::MAX / 4,
        ensures
            r.wf(),
            r@ == Map::<K::V, V>::empty(),
            r.tombstone_count() == 0,
            r.spec_capacity() >= capacity,
            r.spec_capacity() >= 16,
            r.spec_capacity() == 16 || r.spec_capacity() / 2 < capacity,
            is_table_capacity(r.spec_capacity() as int),
    {
        let mut cap: usize = 16;
        proof {
            assert(16usize & 15usize == 0usize) by (bit_vector);
        }
        while cap < capacity
            invariant
                16 <= cap,
                cap & ((cap - 1) as usize) == 0,
                cap == 16 || cap / 2 < capacity,
                capacity <= usize::MAX / 4,
                cap <= usize::MAX / 2,
            decreases usize::MAX - cap,
        {
            proof {
                lemma_double_pow2(cap);
            }
            cap = cap * 2;
        }
        Self::with_hasher(cap, KeyHasher::new())
    }

    /// An empty map with the default capacity, 1024.
    pub fn new() -> (r: Self)
        ensures
            r.wf(),
            r@ == Map::<K::V, V>::empty(),
            r.tombstone_count() == 0,
            r.spec_capacity() == DEFAULT_CAPACITY,
    {
        let r = Self::with_capacity(DEFAULT_CAPACITY);
        proof {
            assert(1024usize & 1023usize == 0usize) by (bit_vector);
            lemma_pow2_window(r.spec_capacity() as usize, 1024);
        }
        r
    }
}

} // verus!
