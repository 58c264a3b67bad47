//! `HashMap`: an open-addressing hash map that probes a group of sixteen
//! control bytes at a time. From the home slot of a key, it loads the sixteen
//! bytes there, checks every position whose tag matches, stops if one of the
//! sixteen is empty, and otherwise moves sixteen slots on, wrapping around.

use vstd::prelude::*;
use vstd::std_specs::cmp::PartialEqSpec;
use std::hash::Hash;
use crate::bitmask::{BitMask, BitMaskIter, bit_set, lemma_nonzero_has_bit};
use crate::control::{
    ControlBytes, is_full_byte, empty_byte, deleted_byte, sentinel_byte, layout_ok,
    set_slot, lemma_set_slot_layout, pos_slot, lemma_pos_byte,
};
use crate::group::{Group, GroupOps, matches_tag};
use crate::hashing::KeyHasher;
use crate::scalar::ScalarOps;
use crate::slots::{
    key_model,
    SlotState, count_state, hash_h1, hash_tag, home_slot, is_table_capacity, lemma_capacity_mult16,
    lemma_count_all_empty, lemma_count_bounds, lemma_count_partition, lemma_count_prefix,
    lemma_count_update, lemma_double_pow2, lemma_home_in_range, lemma_mask_in_range,
    lemma_mask_wraps, lemma_pow2_window, lemma_tag_is_full, lemma_two_not_full, probe_start, wrap,
};

verus! {

/// The group queries the map uses.
pub type DefaultOps = ScalarOps;

/// The capacity of a map made by `new`.
pub const DEFAULT_CAPACITY: usize = 1024;

/// The array index where window `w` of a probe from slot `h` starts.
pub open spec fn window_at(h: int, w: int, cap: int) -> int {
    wrap(h, 16 * w, cap)
}

/// Window `w` of a probe from `h` holds no empty byte, so the probe goes on
/// past it.
pub open spec fn window_clear(ctrl: Seq<u8>, cap: int, h: int, w: int) -> bool {
    forall|j: int| 0 <= j < 16 ==> #[trigger] ctrl[window_at(h, w, cap) + j] != empty_byte()
}

/// Position `j` of window `w` of a probe from `h` stands for slot `i`.
pub open spec fn sees(cap: int, h: int, w: int, j: int, i: int) -> bool {
    &&& 0 <= w < cap / 16
    &&& 0 <= j < 16
    &&& window_at(h, w, cap) + j != cap
    &&& pos_slot(window_at(h, w, cap) + j, cap) == i
}

/// A probe from `h` sees slot `i` in some window, and every window before it
/// is clear.
pub open spec fn reachable(ctrl: Seq<u8>, cap: int, h: int, i: int) -> bool {
    exists|w: int, j: int|
        #[trigger] sees(cap, h, w, j, i) && forall|v: int|
            0 <= v < w ==> #[trigger] window_clear(ctrl, cap, h, v)
}

/// Reachability survives when no empty byte is added.
pub proof fn lemma_reachable_mono(ctrl: Seq<u8>, ctrl2: Seq<u8>, cap: int, h: int, i: int)
    requires
        reachable(ctrl, cap, h, i),
        0 <= h < cap,
        cap % 16 == 0,
        forall|x: int|
            0 <= x < cap + 16 && ctrl[x] != empty_byte() ==> #[trigger] ctrl2[x] != empty_byte(),
    ensures
        reachable(ctrl2, cap, h, i),
{
    let (w, j) = choose|w: int, j: int|
        #[trigger] sees(cap, h, w, j, i) && forall|v: int|
            0 <= v < w ==> #[trigger] window_clear(ctrl, cap, h, v);
    assert forall|v: int| 0 <= v < w implies #[trigger] window_clear(ctrl2, cap, h, v) by {
        assert(window_clear(ctrl, cap, h, v));
        assert forall|jj: int| 0 <= jj < 16 implies #[trigger] ctrl2[window_at(h, v, cap) + jj]
            != empty_byte() by {
            assert(ctrl[window_at(h, v, cap) + jj] != empty_byte());
        }
    }
    assert(sees(cap, h, w, j, i));
}

/// A probe from `h` sees every slot but one: the slot just before `h`'s
/// offset within its sixteen-slot block, when that offset is not zero.
pub proof fn lemma_cover(cap: int, h: int, x: int)
    requires
        cap >= 16,
        cap % 16 == 0,
        0 <= h < cap,
        0 <= x < cap,
        x != h % 16 - 1,
    ensures
        exists|w: int, j: int| #[trigger] sees(cap, h, w, j, x),
{
    let r = h % 16;
    let q0 = h / 16;
    let nw = cap / 16;
    assert(h == 16 * q0 + r);
    assert(cap == 16 * nw);
    if x >= r {
        let q = (x - r) / 16;
        let s = r + 16 * q;
        assert(x - r == 16 * q + (x - r) % 16);
        assert(s <= x < s + 16);
        assert(q < nw);
        let w = if q >= q0 {
            q - q0
        } else {
            q - q0 + nw
        };
        assert(window_at(h, w, cap) == s);
        assert(sees(cap, h, w, x - s, x));
    } else {
        // x < r - 1: the window that starts sixteen slots before the end,
        // plus r, reaches past the sentinel to the copy of slot x.
        let q = nw - 1;
        let s = r + 16 * q;
        let w = if q >= q0 {
            q - q0
        } else {
            q - q0 + nw
        };
        assert(window_at(h, w, cap) == s);
        let j = cap + 1 + x - s;
        assert(0 <= j < 16);
        assert(sees(cap, h, w, j, x));
    }
}

/// Position `j` of window `w` is where an insertion probe from `h` puts a
/// new key: the windows before are clear of empty and deleted bytes; and the
/// position is the lowest deleted one of its window, or, when the window holds
/// no deleted byte, its lowest empty one.
pub open spec fn first_vacant(ctrl: Seq<u8>, cap: int, h: int, w: int, j: int) -> bool {
    let b = ctrl[window_at(h, w, cap) + j];
    &&& forall|v: int|
        0 <= v < w ==> #[trigger] window_clear(ctrl, cap, h, v) && window_no_deleted(ctrl, cap, h, v)
    &&& b == deleted_byte() ==> forall|jj: int|
        0 <= jj < j ==> #[trigger] ctrl[window_at(h, w, cap) + jj] != deleted_byte()
    &&& b == empty_byte() ==> window_no_deleted(ctrl, cap, h, w) && forall|jj: int|
        0 <= jj < j ==> #[trigger] ctrl[window_at(h, w, cap) + jj] != empty_byte()
}

/// Window `w` of a probe from `h` holds no deleted byte.
pub open spec fn window_no_deleted(ctrl: Seq<u8>, cap: int, h: int, w: int) -> bool {
    forall|j: int| 0 <= j < 16 ==> #[trigger] ctrl[window_at(h, w, cap) + j] != deleted_byte()
}

/// Whether the table should be rebuilt at the same capacity before an
/// insertion: there are tombstones, at least half as many as live entries,
/// and occupancy has not reached seven eighths.
pub open spec fn table_should_rehash(size: int, tombstones: int, capacity: int) -> bool {
    tombstones > 0 && tombstones >= size / 2 && !(tombstones + size >= capacity - capacity / 8)
}

/// Whether the table should grow before an insertion: one more entry would
/// push occupancy beyond seven eighths.
pub open spec fn table_should_grow(size: int, tombstones: int, capacity: int) -> bool {
    (tombstones + size + 1) * 8 > capacity * 7
}

/// The result of probing for a key to insert: the slot that holds it, or the
/// slot it should go in.
enum InsertProbe {
    Vacant(usize),
    Found(usize),
}

/// An open-addressing hash map with group probing.
pub struct HashMap<K: View, V> {
    items: Vec<Option<(K, V)>>,
    ctrl_bytes: ControlBytes,
    hash_builder: KeyHasher<K>,
    capacity: usize,
    size: usize,
    tombstones: usize,
    contents: Ghost<Map<K::V, V>>,
}

impl<K: View + Hash + Eq, V> View for HashMap<K, V> {
    type V = Map<K::V, V>;

    closed spec fn view(&self) -> Map<K::V, V> {
        self.contents@
    }
}

impl<K: View + Hash + Eq, V> HashMap<K, V> {
    /// The number of slots.
    pub closed spec fn spec_capacity(self) -> nat {
        self.capacity as nat
    }

    /// The number of live entries.
    pub closed spec fn spec_len(self) -> nat {
        self.size as nat
    }

    /// The number of deleted slots.
    pub closed spec fn tombstone_count(self) -> nat {
        self.tombstones as nat
    }

    /// Whether an insertion into this map first rebuilds it at the same
    /// capacity.
    pub open spec fn rehashes_on_insert(self) -> bool {
        table_should_rehash(
            self.spec_len() as int,
            self.tombstone_count() as int,
            self.spec_capacity() as int,
        )
    }

    /// Whether an insertion into this map first rebuilds it at twice the
    /// capacity.
    pub open spec fn grows_on_insert(self) -> bool {
        !self.rehashes_on_insert() && table_should_grow(
            self.spec_len() as int,
            self.tombstone_count() as int,
            self.spec_capacity() as int,
        )
    }

    closed spec fn hash_of(self, k: K::V) -> u64 {
        self.hash_builder.hash_of(k)
    }

    /// The function from key views to hashes that this map's hash state
    /// computes; drawn at random when the map is made, kept for its life.
    pub closed spec fn hash_fn(self) -> spec_fn(K::V) -> u64 {
        self.hash_builder.hash_of_fn()
    }

    /// The number of full slots.
    pub closed spec fn full_slot_count(self) -> nat {
        count_state(self.ctrl_bytes@, self.capacity as nat, SlotState::Full)
    }

    /// The number of deleted slots.
    pub closed spec fn deleted_slot_count(self) -> nat {
        count_state(self.ctrl_bytes@, self.capacity as nat, SlotState::Deleted)
    }

    /// Whether a probe for `k` meets a deleted byte in a window that it
    /// reaches (every window before is clear of empty bytes): an insertion
    /// of a new key `k` then reuses the first such slot.
    pub closed spec fn probe_meets_tombstone(self, k: K::V) -> bool {
        let cap = self.capacity as int;
        let h = home_slot(self.hash_of(k), self.capacity);
        exists|w: int, j: int|
            0 <= w < cap / 16 && 0 <= j < 16 && #[trigger] self.ctrl_bytes@[window_at(h, w, cap)
                + j] == deleted_byte() && forall|v: int|
                0 <= v < w ==> #[trigger] window_clear(self.ctrl_bytes@, cap, h, v)
    }

    closed spec fn key_at(self, i: int) -> K::V {
        self.items@[i].unwrap().0@
    }

    closed spec fn value_at(self, i: int) -> V {
        self.items@[i].unwrap().1
    }

    closed spec fn holds_key(self, i: int, k: K::V) -> bool {
        self.items@[i] is Some && self.key_at(i) == k
    }

    /// What a full slot `i` owes: its byte is its key's tag, its entry is in
    /// the contents, and a probe from its key's home slot reaches it.
    closed spec fn slot_ok(self, i: int) -> bool {
        let k = self.key_at(i);
        &&& self.ctrl_bytes@[i] == hash_tag(self.hash_of(k))
        &&& self.contents@.contains_key(k)
        &&& self.contents@[k] == self.value_at(i)
        &&& reachable(
            self.ctrl_bytes@,
            self.capacity as int,
            home_slot(self.hash_of(k), self.capacity),
            i,
        )
    }

    /// The invariant of the map.
    pub closed spec fn wf(self) -> bool {
        let cap = self.capacity as int;
        let ctrl = self.ctrl_bytes@;
        &&& is_table_capacity(cap)
        &&& cap <= usize::MAX / 2 + 1
        &&& self.items@.len() == cap
        &&& self.ctrl_bytes.wf()
        &&& self.ctrl_bytes.spec_capacity() == cap
        &&& forall|i: int|
            0 <= i < cap ==> (#[trigger] self.items@[i] is Some <==> is_full_byte(ctrl[i]))
        &&& forall|i: int| 0 <= i < cap && #[trigger] self.items@[i] is Some ==> self.slot_ok(i)
        &&& forall|i: int, j: int|
            0 <= i < cap && 0 <= j < cap && i != j && #[trigger] self.items@[i] is Some
                && #[trigger] self.items@[j] is Some ==> self.key_at(i) != self.key_at(j)
        &&& forall|k: K::V| #[trigger]
            self.contents@.contains_key(k) ==> exists|i: int|
                0 <= i < cap && #[trigger] self.items@[i] is Some && self.key_at(i) == k
        &&& count_state(ctrl, cap as nat, SlotState::Full) == self.size
        &&& count_state(ctrl, cap as nat, SlotState::Deleted) == self.tombstones
        &&& self.contents@.dom().finite()
        &&& self.contents@.dom().len() == self.size
    }

    /// What the invariant says of the counts, capacity and bytes.
    pub proof fn lemma_wf(self)
        requires
            self.wf(),
        ensures
            self.spec_len() + self.tombstone_count() <= self.spec_capacity(),
            self.spec_len() == self@.len(),
            self.spec_len() == self.full_slot_count(),
            self.tombstone_count() == self.deleted_slot_count(),
            self.spec_capacity() >= 16,
            self.spec_capacity() % 16 == 0,
            is_table_capacity(self.spec_capacity() as int),
            self@.dom().finite(),
    {
        self.ctrl_bytes.lemma_layout();
        lemma_count_partition(self.ctrl_bytes@, self.capacity as nat);
        lemma_capacity_mult16(self.capacity as int);
    }

    /// The slot a key that this map holds lives in.
    proof fn lemma_slot_of_key(self, k: K::V) -> (i: int)
        requires
            self.wf(),
            self@.contains_key(k),
        ensures
            0 <= i < self.capacity,
            self.holds_key(i, k),
            self.slot_ok(i),
    {
        let i = choose|i: int|
            0 <= i < self.capacity && #[trigger] self.items@[i] is Some && self.key_at(i) == k;
        i
    }

    /// The number of live entries.
    pub fn len(&self) -> (r: usize)
        requires
            self.wf(),
        ensures
            r == self.spec_len(),
            r == self@.len(),
    {
        return self.size;
    }

    /// The number of slots.
    pub fn capacity(&self) -> (r: usize)
        requires
            self.wf(),
        ensures
            r == self.spec_capacity(),
            r >= 16,
            r & ((r - 1) as usize) == 0,
    {
        return self.capacity;
    }

    /// Splits the hash of `key` into the part that picks the home slot and
    /// the tag.
    fn get_h1_h2_from_key(&self, key: &K) -> (r: (u64, u8))
        requires
            key_model::<K>(),
        ensures
            r.0 == hash_h1(self.hash_of(key@)),
            r.1 == hash_tag(self.hash_of(key@)),
    {
        let hash: u64 = self.hash_builder.hash(key);
        let h1: u64 = hash >> 7;
        let h2: u8 = (hash >> 57) as u8 & 0x7F;
        (h1, h2)
    }

    /// The home slot for `h1`: its low bits.
    fn get_index_from_h1(&self, h1: u64) -> (r: usize)
        requires
            self.wf(),
        ensures
            r == ((h1 as usize) & ((self.capacity - 1) as usize)),
            r < self.capacity,
    {
        proof {
            lemma_mask_in_range(h1 as usize, self.capacity);
        }
        (h1 as usize) & (self.capacity() - 1)
    }

    /// Position `j` of window `w` of a probe from slot `s` holds a full byte
    /// equal to `h2`, and the slot it stands for holds the key `k`.
    closed spec fn table_hit(self, s: int, w: int, j: int, h2: u8, k: K::V) -> bool {
        let cap = self.capacity as int;
        let p = window_at(s, w, cap) + j;
        &&& 0 <= w < cap / 16
        &&& 0 <= j < 16
        &&& p != cap
        &&& is_full_byte(self.ctrl_bytes@[p])
        &&& self.ctrl_bytes@[p] == h2
        &&& self.holds_key(pos_slot(p, cap), k)
    }

    /// What a lookup probe from slot `s` for tag `h2` and key `k` returns: the
    /// slot of the first hit, in window order and within a window in position
    /// order, among the windows up to the first one with an empty byte; or
    /// `None` when none of those windows (or, going once around, none at all)
    /// has a hit.
    closed spec fn lookup_ok(self, r: Option<usize>, s: int, h2: u8, k: K::V) -> bool {
        let cap = self.capacity as int;
        let ctrl = self.ctrl_bytes@;
        match r {
            Some(i) => exists|w: int, j: int|
                #[trigger] self.table_hit(s, w, j, h2, k) && pos_slot(window_at(s, w, cap) + j, cap)
                    == i && (forall|v: int| 0 <= v < w ==> #[trigger] window_clear(ctrl, cap, s, v))
                    && (forall|v: int, jj: int|
                    0 <= v < w ==> !#[trigger] self.table_hit(s, v, jj, h2, k)) && (forall|jj: int|
                    0 <= jj < j ==> !#[trigger] self.table_hit(s, w, jj, h2, k)),
            None => forall|w: int, j: int|
                (forall|v: int| 0 <= v < w ==> #[trigger] window_clear(ctrl, cap, s, v))
                    ==> !#[trigger] self.table_hit(s, w, j, h2, k),
        }
    }

    /// When the positions of `tag_mask` are those of window `w` whose byte is
    /// full and equal to `h2`, and every one of them has been checked, the
    /// window has no hit.
    proof fn lemma_window_checked(
        self,
        k: K::V,
        start: int,
        w: int,
        index: int,
        h2: u8,
        tag_mask: BitMask,
        checked: bool,
    )
        requires
            self.wf(),
            0 <= start < self.capacity,
            index == window_at(start, w, self.capacity as int),
            forall|j: int|
                #[trigger] tag_mask.has(j) <==> 0 <= j < 16 && matches_tag(
                    self.ctrl_bytes@[index + j],
                    h2,
                ),
            checked ==> forall|j: int|
                0 <= j < 16 && #[trigger] tag_mask.has(j) ==> !self.holds_key(
                    pos_slot(index + j, self.capacity as int),
                    k,
                ),
            !checked ==> forall|j: int| !#[trigger] tag_mask.has(j),
        ensures
            forall|j: int| !#[trigger] self.table_hit(start, w, j, h2, k),
    {
        assert forall|j: int| !#[trigger] self.table_hit(start, w, j, h2, k) by {
            if self.table_hit(start, w, j, h2, k) {
                assert(tag_mask.has(j));
            }
        }
    }

    /// A key the map holds is a hit of the probe that its own hash parts give,
    /// in the window that reaches its slot; so a probe that finds no hit in
    /// any window up to one that is not clear, or in any window at all, shows
    /// it absent.
    proof fn lemma_absent(self, k: K::V, start: int, h2: u8, w: int)
        requires
            self.wf(),
            start == home_slot(self.hash_of(k), self.capacity),
            h2 == hash_tag(self.hash_of(k)),
            0 <= w,
            forall|v: int, j: int| 0 <= v <= w ==> !#[trigger] self.table_hit(start, v, j, h2, k),
            w + 1 == self.capacity / 16 || !window_clear(
                self.ctrl_bytes@,
                self.capacity as int,
                start,
                w,
            ),
        ensures
            !self@.contains_key(k),
    {
        let cap = self.capacity as int;
        self.lemma_wf();
        self.ctrl_bytes.lemma_layout();
        if self@.contains_key(k) {
            let i = self.lemma_slot_of_key(k);
            let (ws, js) = choose|ws: int, js: int|
                #[trigger] sees(cap, start, ws, js, i) && forall|v: int|
                    0 <= v < ws ==> #[trigger] window_clear(self.ctrl_bytes@, cap, start, v);
            if ws <= w {
                lemma_home_in_range(self.hash_of(k), self.capacity);
                assert(cap == 16 * (cap / 16));
                assert(16 * ws < cap);
                lemma_pos_byte(self.ctrl_bytes@, cap, window_at(start, ws, cap) + js);
                lemma_tag_is_full(self.hash_of(k));
                assert(self.table_hit(start, ws, js, h2, k));
            } else {
                assert(window_clear(self.ctrl_bytes@, cap, start, w));
            }
        }
    }

    /// Checks the positions of `tag_mask` in the window at `index`, lowest
    /// first: the slot of the first one that holds `key`, if one does.
    fn check_tag_hits(&self, index: usize, tag_mask: BitMask, key: &K) -> (r: Option<usize>)
        requires
            self.wf(),
            key_model::<K>(),
            index < self.capacity,
            forall|j: int|
                #[trigger] tag_mask.has(j) ==> 0 <= j < 16 && is_full_byte(
                    self.ctrl_bytes@[index + j],
                ),
        ensures
            match r {
                Some(i) => {
                    &&& i < self.capacity
                    &&& self.holds_key(i as int, key@)
                    &&& exists|j: int|
                        #[trigger] tag_mask.has(j) && i == pos_slot(index + j, self.capacity as int)
                            && forall|jj: int|
                            0 <= jj < j && #[trigger] tag_mask.has(jj) ==> !self.holds_key(
                                pos_slot(index + jj, self.capacity as int),
                                key@,
                            )
                },
                None => forall|j: int|
                    0 <= j < 16 && #[trigger] tag_mask.has(j) ==> !self.holds_key(
                        pos_slot(index + j, self.capacity as int),
                        key@,
                    ),
            },
    {
        proof {
            reveal(vstd::laws_eq::obeys_view_eq);
            self.lemma_wf();
            self.ctrl_bytes.lemma_layout();
        }
        let ghost cap = self.capacity as int;
        let mut hits: BitMaskIter = tag_mask.into_iter();
        loop
            invariant
                self.wf(),
                K::obeys_eq_spec(),
                forall|x: K, y: K| x.eq_spec(&y) <==> (x@ == y@),
                cap == self.capacity,
                cap >= 16,
                layout_ok(self.ctrl_bytes@, cap),
                index < cap,
                forall|j: int|
                    #[trigger] tag_mask.has(j) ==> 0 <= j < 16 && is_full_byte(
                        self.ctrl_bytes@[index + j],
                    ),
                forall|j: int| #[trigger]
                    bit_set(hits.remaining(), j) ==> tag_mask.has(j),
                forall|j: int|
                    0 <= j < 16 && #[trigger] tag_mask.has(j) && !bit_set(hits.remaining(), j)
                        ==> !self.holds_key(pos_slot(index + j, cap), key@),
            decreases hits.remaining(),
        {
            let ghost before: u16 = hits.remaining();
            match hits.next() {
                Some(hit) => {
                    proof {
                        assert(tag_mask.has(hit as int));
                        assert(self.ctrl_bytes@[cap] == sentinel_byte());
                    }
                    let slot: usize = self.ctrl_bytes.table_idx(index, hit);
                    match &self.items[slot] {
                        Some((k, _)) => {
                            if *k == *key {
                                proof {
                                    assert forall|jj: int|
                                        0 <= jj < hit && #[trigger] tag_mask.has(jj) implies !self.holds_key(
                                        pos_slot(index + jj, cap),
                                        key@,
                                    ) by {
                                        assert(!bit_set(before, jj));
                                    }
                                    assert(tag_mask.has(hit as int));
                                }
                                return Some(slot);
                            }
                        },
                        None => {},
                    }
                },
                None => {
                    proof {
                        lemma_nonzero_has_bit(hits.remaining());
                    }
                    return None;
                },
            }
        }
    }

    /// Probes the windows from slot `h1 & (capacity - 1)` for the slot that
    /// holds `key` among the full bytes equal to `h2`, stopping after the
    /// first window with an empty byte or after going once around.
    fn probe_for_lookup(&self, h1: u64, h2: u8, key: &K) -> (r: Option<usize>)
        requires
            self.wf(),
            key_model::<K>(),
        ensures
            self.lookup_ok(r, probe_start(h1, self.capacity), h2, key@),
            r matches Some(i) ==> i < self.capacity && self.holds_key(i as int, key@),
            h1 == hash_h1(self.hash_of(key@)) && h2 == hash_tag(self.hash_of(key@)) ==> (r is None
                <==> !self@.contains_key(key@)),
    {
        proof {
            self.lemma_wf();
            self.ctrl_bytes.lemma_layout();
        }
        let mut index: usize = self.get_index_from_h1(h1);
        let start: usize = index;
        let mask: usize = self.capacity() - 1;
        let ghost cap: int = self.capacity as int;
        let ghost nw: int = cap / 16;
        let ghost mut w: int = 0;
        let ghost tie: bool = h1 == hash_h1(self.hash_of(key@)) && h2 == hash_tag(
            self.hash_of(key@),
        );
        loop
            invariant
                self.wf(),
                key_model::<K>(),
                tie == (h1 == hash_h1(self.hash_of(key@)) && h2 == hash_tag(self.hash_of(key@))),
                start == probe_start(h1, self.capacity),
                cap == self.capacity,
                mask == cap - 1,
                cap >= 16,
                cap % 16 == 0,
                nw == cap / 16,
                layout_ok(self.ctrl_bytes@, cap),
                self.ctrl_bytes@.len() == cap + 16,
                0 <= start < cap,
                0 <= w < nw,
                index == window_at(start as int, w, cap),
                forall|v: int| 0 <= v < w ==> #[trigger] window_clear(self.ctrl_bytes@, cap, start as int, v),
                forall|v: int, j: int|
                    0 <= v < w ==> !#[trigger] self.table_hit(start as int, v, j, h2, key@),
            decreases nw - w,
        {
            let group = Group::<DefaultOps>::load(&self.ctrl_bytes, index);
            let tag_mask = group.match_tag(h2);
            let empty_mask = group.match_empty();
            proof {
                assert forall|j: int| 0 <= j < 16 implies #[trigger] group.bytes()[j]
                    == self.ctrl_bytes@[index + j] by {}
                assert forall|j: int|
                    #[trigger] tag_mask.has(j) <==> 0 <= j < 16 && matches_tag(
                        self.ctrl_bytes@[index + j],
                        h2,
                    ) by {
                    if 0 <= j < 16 {
                        assert(group.bytes()[j] == self.ctrl_bytes@[index + j]);
                    }
                }
            }
            let any_tag: bool = tag_mask.any();
            if any_tag {
                let hit = self.check_tag_hits(index, tag_mask, key);
                match hit {
                    Some(slot) => {
                        proof {
                            self.lemma_hit_found(
                                key@,
                                start as int,
                                w,
                                index as int,
                                h2,
                                tag_mask,
                                slot as int,
                            );
                        }
                        return Some(slot);
                    },
                    None => {},
                }
            }
            proof {
                self.lemma_window_checked(key@, start as int, w, index as int, h2, tag_mask, any_tag);
            }
            if empty_mask.any() {
                proof {
                    let j = choose|j: int| 0 <= j < 16 && #[trigger] empty_mask.has(j);
                    assert(group.bytes()[j] == self.ctrl_bytes@[index + j]);
                    assert(!window_clear(self.ctrl_bytes@, cap, start as int, w));
                    self.lemma_none_at_stop(key@, start as int, w, h2);
                    if tie {
                        self.lemma_absent(key@, start as int, h2, w);
                    }
                }
                return None;
            }
            proof {
                assert forall|j: int| 0 <= j < 16 implies #[trigger] self.ctrl_bytes@[window_at(
                    start as int,
                    w,
                    cap,
                ) + j] != empty_byte() by {
                    assert(group.bytes()[j] == self.ctrl_bytes@[index + j]);
                    assert(!empty_mask.has(j));
                }
                assert(window_clear(self.ctrl_bytes@, cap, start as int, w));
                lemma_mask_wraps(index, 16, self.capacity);
            }
            index = (index + 16) & mask;
            proof {
                w = w + 1;
            }
            if index == start {
                proof {
                    self.lemma_none_at_stop(key@, start as int, w - 1, h2);
                    if tie {
                        self.lemma_absent(key@, start as int, h2, w - 1);
                    }
                }
                return None;
            }
        }
    }

    /// The slot `check_tag_hits` returns in window `w` is the first hit of
    /// the probe.
    proof fn lemma_hit_found(
        self,
        k: K::V,
        start: int,
        w: int,
        index: int,
        h2: u8,
        tag_mask: BitMask,
        slot: int,
    )
        requires
            self.wf(),
            0 <= start < self.capacity,
            0 <= w < self.capacity / 16,
            index == window_at(start, w, self.capacity as int),
            forall|v: int|
                0 <= v < w ==> #[trigger] window_clear(
                    self.ctrl_bytes@,
                    self.capacity as int,
                    start,
                    v,
                ),
            forall|v: int, j: int| 0 <= v < w ==> !#[trigger] self.table_hit(start, v, j, h2, k),
            forall|j: int|
                #[trigger] tag_mask.has(j) <==> 0 <= j < 16 && matches_tag(
                    self.ctrl_bytes@[index + j],
                    h2,
                ),
            self.holds_key(slot, k),
            exists|j: int|
                #[trigger] tag_mask.has(j) && slot == pos_slot(index + j, self.capacity as int)
                    && forall|jj: int|
                    0 <= jj < j && #[trigger] tag_mask.has(jj) ==> !self.holds_key(
                        pos_slot(index + jj, self.capacity as int),
                        k,
                    ),
        ensures
            self.lookup_ok(Some(slot as usize), start, h2, k),
    {
        let cap = self.capacity as int;
        self.lemma_wf();
        self.ctrl_bytes.lemma_layout();
        let j = choose|j: int|
            #[trigger] tag_mask.has(j) && slot == pos_slot(index + j, cap) && forall|jj: int|
                0 <= jj < j && #[trigger] tag_mask.has(jj) ==> !self.holds_key(
                    pos_slot(index + jj, cap),
                    k,
                );
        assert(self.ctrl_bytes@[cap] == sentinel_byte());
        assert(self.table_hit(start, w, j, h2, k));
        assert forall|jj: int| 0 <= jj < j implies !#[trigger] self.table_hit(start, w, jj, h2, k) by {
            if self.table_hit(start, w, jj, h2, k) {
                assert(tag_mask.has(jj));
            }
        }
    }

    /// A probe that found no hit in windows `0..=w` and stops there (window
    /// `w` is not clear, or it is the last) has no hit in any window it
    /// reaches.
    proof fn lemma_none_at_stop(self, k: K::V, start: int, w: int, h2: u8)
        requires
            0 <= w,
            forall|v: int, j: int| 0 <= v <= w ==> !#[trigger] self.table_hit(start, v, j, h2, k),
            w + 1 == self.capacity / 16 || !window_clear(
                self.ctrl_bytes@,
                self.capacity as int,
                start,
                w,
            ),
        ensures
            self.lookup_ok(None, start, h2, k),
    {
        let cap = self.capacity as int;
        assert forall|v: int, j: int|
            (forall|u: int| 0 <= u < v ==> #[trigger] window_clear(self.ctrl_bytes@, cap, start, u))
                implies !#[trigger] self.table_hit(start, v, j, h2, k) by {
            if v > w && self.table_hit(start, v, j, h2, k) {
                assert(window_clear(self.ctrl_bytes@, cap, start, w));
            }
        }
    }

    /// What a probe for insertion from slot `s` for tag `h2` and key `k`
    /// returns.
    closed spec fn insert_probe_ok(self, r: Option<InsertProbe>, s: int, h2: u8, k: K::V) -> bool {
        let cap = self.capacity as int;
        match r {
            Some(InsertProbe::Found(i)) => {
                &&& i < cap
                &&& self.holds_key(i as int, k)
                &&& self.lookup_ok(Some(i), s, h2, k)
            },
            Some(InsertProbe::Vacant(i)) => {
                &&& i < cap
                &&& !is_full_byte(self.ctrl_bytes@[i as int])
                &&& self.lookup_ok(None, s, h2, k)
                &&& reachable(self.ctrl_bytes@, cap, s, i as int)
                &&& exists|w: int, j: int|
                    #[trigger] sees(cap, s, w, j, i as int) && first_vacant(
                        self.ctrl_bytes@,
                        cap,
                        s,
                        w,
                        j,
                    )
            },
            None => {
                &&& self.lookup_ok(None, s, h2, k)
                &&& forall|v: int, j: int, i: int| #[trigger]
                    sees(cap, s, v, j, i) ==> is_full_byte(self.ctrl_bytes@[i])
            },
        }
    }

    /// Probes the windows from slot `h1 & (capacity - 1)` for the slot that
    /// holds `key` among the full bytes equal to `h2`, or else for the slot it
    /// should go in: the lowest deleted position of the first window that
    /// has one, among the windows up to the first with an empty byte; or else
    /// the lowest empty position of that window.
    fn probe_for_insert(&self, h1: u64, h2: u8, key: &K) -> (r: Option<InsertProbe>)
        requires
            self.wf(),
            key_model::<K>(),
        ensures
            self.insert_probe_ok(r, probe_start(h1, self.capacity), h2, key@),
            h1 == hash_h1(self.hash_of(key@)) && h2 == hash_tag(self.hash_of(key@)) ==> (r matches Some(
                InsertProbe::Found(_),
            ) <==> self@.contains_key(key@)),
    {
        proof {
            self.lemma_wf();
            self.ctrl_bytes.lemma_layout();
        }
        let ghost tie: bool = h1 == hash_h1(self.hash_of(key@)) && h2 == hash_tag(
            self.hash_of(key@),
        );
        let mut index: usize = self.get_index_from_h1(h1);
        let mut first_tombstone: Option<InsertProbe> = None;
        let start: usize = index;
        let mask: usize = self.capacity() - 1;
        let ghost cap: int = self.capacity as int;
        let ghost nw: int = cap / 16;
        let ghost mut w: int = 0;
        let ghost mut tw: int = 0;
        let ghost mut tj: int = 0;
        loop
            invariant
                self.wf(),
                key_model::<K>(),
                tie == (h1 == hash_h1(self.hash_of(key@)) && h2 == hash_tag(self.hash_of(key@))),
                start == probe_start(h1, self.capacity),
                cap == self.capacity,
                mask == cap - 1,
                cap >= 16,
                cap % 16 == 0,
                nw == cap / 16,
                layout_ok(self.ctrl_bytes@, cap),
                self.ctrl_bytes@.len() == cap + 16,
                0 <= start < cap,
                0 <= w < nw,
                index == window_at(start as int, w, cap),
                forall|v: int| 0 <= v < w ==> #[trigger] window_clear(self.ctrl_bytes@, cap, start as int, v),
                forall|v: int, j: int|
                    0 <= v < w ==> !#[trigger] self.table_hit(start as int, v, j, h2, key@),
                match first_tombstone {
                    Some(InsertProbe::Vacant(t)) => {
                        &&& 0 <= tw < w
                        &&& sees(cap, start as int, tw, tj, t as int)
                        &&& self.ctrl_bytes@[t as int] == deleted_byte()
                        &&& self.ctrl_bytes@[window_at(start as int, tw, cap) + tj] == deleted_byte()
                        &&& forall|v: int|
                            0 <= v < tw ==> #[trigger] window_no_deleted(
                                self.ctrl_bytes@,
                                cap,
                                start as int,
                                v,
                            )
                        &&& forall|jj: int|
                            0 <= jj < tj ==> #[trigger] self.ctrl_bytes@[window_at(
                                start as int,
                                tw,
                                cap,
                            ) + jj] != deleted_byte()
                    },
                    Some(InsertProbe::Found(_)) => false,
                    None => forall|v: int|
                        0 <= v < w ==> #[trigger] window_no_deleted(
                            self.ctrl_bytes@,
                            cap,
                            start as int,
                            v,
                        ),
                },
            decreases nw - w,
        {
            let group = Group::<DefaultOps>::load(&self.ctrl_bytes, index);
            let tag_mask = group.match_tag(h2);
            let delete_mask = group.match_deleted();
            let empty_mask = group.match_empty();
            proof {
                assert forall|j: int| 0 <= j < 16 implies #[trigger] group.bytes()[j]
                    == self.ctrl_bytes@[index + j] by {}
                assert forall|j: int|
                    #[trigger] tag_mask.has(j) <==> 0 <= j < 16 && matches_tag(
                        self.ctrl_bytes@[index + j],
                        h2,
                    ) by {
                    if 0 <= j < 16 {
                        assert(group.bytes()[j] == self.ctrl_bytes@[index + j]);
                    }
                }
            }
            let any_tag: bool = tag_mask.any();
            if any_tag {
                let hit = self.check_tag_hits(index, tag_mask, key);
                match hit {
                    Some(slot) => {
                        proof {
                            self.lemma_hit_found(
                                key@,
                                start as int,
                                w,
                                index as int,
                                h2,
                                tag_mask,
                                slot as int,
                            );
                            if tie {
                                assert(self.slot_ok(slot as int));
                            }
                        }
                        return Some(InsertProbe::Found(slot));
                    },
                    None => {},
                }
            }
            proof {
                self.lemma_window_checked(key@, start as int, w, index as int, h2, tag_mask, any_tag);
            }
            if first_tombstone.is_none() {
                if delete_mask.any() {
                    let lsb: usize = delete_mask.lsb_idx();
                    proof {
                        assert(group.bytes()[lsb as int] == self.ctrl_bytes@[index + lsb]);
                        assert(self.ctrl_bytes@[cap] == sentinel_byte());
                        lemma_pos_byte(self.ctrl_bytes@, cap, index + lsb);
                    }
                    proof {
                        assert forall|jj: int| 0 <= jj < lsb implies #[trigger] self.ctrl_bytes@[window_at(
                            start as int,
                            w,
                            cap,
                        ) + jj] != deleted_byte() by {
                            assert(group.bytes()[jj] == self.ctrl_bytes@[index + jj]);
                            assert(!delete_mask.has(jj));
                        }
                    }
                    let index: usize = self.ctrl_bytes.table_idx(index, lsb);
                    first_tombstone = Some(InsertProbe::Vacant(index));
                    proof {
                        tw = w;
                        tj = lsb as int;
                    }
                }
            }
            if empty_mask.any() {
                proof {
                    let j = choose|j: int| 0 <= j < 16 && #[trigger] empty_mask.has(j);
                    assert(group.bytes()[j] == self.ctrl_bytes@[index + j]);
                    assert(!window_clear(self.ctrl_bytes@, cap, start as int, w));
                    self.lemma_none_at_stop(key@, start as int, w, h2);
                    if tie {
                        self.lemma_absent(key@, start as int, h2, w);
                    }
                }
                if first_tombstone.is_some() {
                    proof {
                    match first_tombstone {
                        Some(InsertProbe::Vacant(t)) => {
                            assert(forall|v: int|
                                0 <= v < tw ==> #[trigger] window_clear(
                                    self.ctrl_bytes@,
                                    cap,
                                    start as int,
                                    v,
                                ));
                            assert(first_vacant(self.ctrl_bytes@, cap, start as int, tw, tj));
                            assert(sees(cap, start as int, tw, tj, t as int));
                        },
                        _ => {},
                    }
                    }
                    return first_tombstone;
                }
                let lsb: usize = empty_mask.lsb_idx();
                proof {
                    assert(group.bytes()[lsb as int] == self.ctrl_bytes@[index + lsb]);
                    assert(self.ctrl_bytes@[cap] == sentinel_byte());
                    lemma_pos_byte(self.ctrl_bytes@, cap, index + lsb);
                }
                proof {
                    assert forall|jj: int| 0 <= jj < 16 implies #[trigger] self.ctrl_bytes@[window_at(
                        start as int,
                        w,
                        cap,
                    ) + jj] != deleted_byte() by {
                        assert(group.bytes()[jj] == self.ctrl_bytes@[index + jj]);
                        assert(!delete_mask.has(jj));
                    }
                    assert(window_no_deleted(self.ctrl_bytes@, cap, start as int, w));
                    assert forall|jj: int| 0 <= jj < lsb implies #[trigger] self.ctrl_bytes@[window_at(
                        start as int,
                        w,
                        cap,
                    ) + jj] != empty_byte() by {
                        assert(group.bytes()[jj] == self.ctrl_bytes@[index + jj]);
                        assert(!empty_mask.has(jj));
                    }
                    assert(first_vacant(self.ctrl_bytes@, cap, start as int, w, lsb as int));
                }
                let index: usize = self.ctrl_bytes.table_idx(index, lsb);
                proof {
                    assert(sees(cap, start as int, w, lsb as int, index as int));
                }
                return Some(InsertProbe::Vacant(index));
            }
            proof {
                assert forall|j: int| 0 <= j < 16 implies #[trigger] self.ctrl_bytes@[window_at(
                    start as int,
                    w,
                    cap,
                ) + j] != empty_byte() by {
                    assert(group.bytes()[j] == self.ctrl_bytes@[index + j]);
                    assert(!empty_mask.has(j));
                }
                assert(window_clear(self.ctrl_bytes@, cap, start as int, w));
                if first_tombstone is None {
                    assert forall|j: int| 0 <= j < 16 implies #[trigger] self.ctrl_bytes@[window_at(
                        start as int,
                        w,
                        cap,
                    ) + j] != deleted_byte() by {
                        assert(group.bytes()[j] == self.ctrl_bytes@[index + j]);
                        assert(!delete_mask.has(j));
                    }
                    assert(window_no_deleted(self.ctrl_bytes@, cap, start as int, w));
                }
                lemma_mask_wraps(index, 16, self.capacity);
            }
            index = (index + 16) & mask;
            proof {
                w = w + 1;
            }
            if index == start {
                proof {
                    self.lemma_none_at_stop(key@, start as int, w - 1, h2);
                    if tie {
                        self.lemma_absent(key@, start as int, h2, w - 1);
                    }
                    if first_tombstone is None {
                        assert forall|v: int, j: int, i: int| #[trigger]
                            sees(cap, start as int, v, j, i) implies is_full_byte(
                            self.ctrl_bytes@[i],
                        ) by {
                            let p = window_at(start as int, v, cap) + j;
                            assert(window_clear(self.ctrl_bytes@, cap, start as int, v));
                            assert(window_no_deleted(self.ctrl_bytes@, cap, start as int, v));
                            assert(self.ctrl_bytes@[p] != empty_byte());
                            assert(self.ctrl_bytes@[p] != deleted_byte());
                            lemma_pos_byte(self.ctrl_bytes@, cap, p);
                        }
                    }
                    match first_tombstone {
                        Some(InsertProbe::Vacant(t)) => {
                            assert(forall|v: int|
                                0 <= v < tw ==> #[trigger] window_clear(
                                    self.ctrl_bytes@,
                                    cap,
                                    start as int,
                                    v,
                                ));
                            assert(first_vacant(self.ctrl_bytes@, cap, start as int, tw, tj));
                            assert(sees(cap, start as int, tw, tj, t as int));
                        },
                        _ => {},
                    }
                }
                return first_tombstone;
            }
        }
    }

    /// Filling a vacant slot `p` with a new key keeps the invariant.
    proof fn lemma_fill_vacant(pre: Self, post: Self, p: int, k: K::V, v: V)
        requires
            pre.wf(),
            0 <= p < pre.capacity,
            !is_full_byte(pre.ctrl_bytes@[p]),
            !pre@.contains_key(k),
            reachable(
                pre.ctrl_bytes@,
                pre.capacity as int,
                home_slot(pre.hash_of(k), pre.capacity),
                p,
            ),
            post.capacity == pre.capacity,
            post.hash_builder == pre.hash_builder,
            post.items@.len() == pre.items@.len(),
            post.items@[p] is Some,
            post.key_at(p) == k,
            post.value_at(p) == v,
            forall|i: int| 0 <= i < pre.capacity && i != p ==> post.items@[i] == pre.items@[i],
            post.ctrl_bytes.wf(),
            post.ctrl_bytes.spec_capacity() == pre.capacity,
            post.ctrl_bytes@ == set_slot(
                pre.ctrl_bytes@,
                pre.capacity as int,
                p,
                hash_tag(pre.hash_of(k)),
            ),
            post.contents@ == pre.contents@.insert(k, v),
            post.size == pre.size + 1,
            post.tombstones + (if pre.ctrl_bytes@[p] == deleted_byte() {
                1int
            } else {
                0int
            }) == pre.tombstones,
        ensures
            post.wf(),
    {
        let cap = pre.capacity as int;
        let tag = hash_tag(pre.hash_of(k));
        pre.lemma_wf();
        pre.ctrl_bytes.lemma_layout();
        lemma_tag_is_full(pre.hash_of(k));
        lemma_set_slot_layout(pre.ctrl_bytes@, cap, p, tag);
        let c0 = pre.ctrl_bytes@;
        let c1 = post.ctrl_bytes@;
        assert forall|x: int| 0 <= x < cap + 16 && c0[x] != empty_byte() implies #[trigger] c1[x]
            != empty_byte() by {}
        assert forall|i: int| 0 <= i < cap && #[trigger] post.items@[i] is Some implies post.slot_ok(
            i,
        ) by {
            if i == p {
                lemma_home_in_range(pre.hash_of(k), pre.capacity);
                lemma_reachable_mono(c0, c1, cap, home_slot(pre.hash_of(k), pre.capacity), p);
            } else {
                assert(pre.items@[i] is Some);
                assert(pre.slot_ok(i));
                assert(pre.key_at(i) != k);
                lemma_home_in_range(pre.hash_of(pre.key_at(i)), pre.capacity);
                lemma_reachable_mono(
                    c0,
                    c1,
                    cap,
                    home_slot(pre.hash_of(pre.key_at(i)), pre.capacity),
                    i,
                );
            }
        }
        assert forall|i: int, j: int|
            0 <= i < cap && 0 <= j < cap && i != j && #[trigger] post.items@[i] is Some
                && #[trigger] post.items@[j] is Some implies post.key_at(i) != post.key_at(j) by {
            if i == p {
                assert(pre.items@[j] is Some);
                assert(pre.slot_ok(j));
            } else if j == p {
                assert(pre.items@[i] is Some);
                assert(pre.slot_ok(i));
            } else {
                assert(pre.items@[i] is Some && pre.items@[j] is Some);
            }
        }
        assert forall|kk: K::V| #[trigger] post.contents@.contains_key(kk) implies exists|i: int|
            0 <= i < cap && #[trigger] post.items@[i] is Some && post.key_at(i) == kk by {
            if kk == k {
                assert(post.items@[p] is Some);
            } else {
                assert(pre.contents@.contains_key(kk));
                let i = choose|i: int|
                    0 <= i < cap && #[trigger] pre.items@[i] is Some && pre.key_at(i) == kk;
                assert(post.items@[i] is Some);
            }
        }
        assert forall|i: int| 0 <= i < cap implies (#[trigger] post.items@[i] is Some
            <==> is_full_byte(c1[i])) by {
            if i != p {
                assert(pre.items@[i] is Some <==> is_full_byte(c0[i]));
            }
        }
        let c2 = c0.update(p, tag);
        assert forall|x: int| 0 <= x < cap implies #[trigger] c1[x] == c2[x] by {}
        lemma_count_prefix(c1, c2, cap as nat, SlotState::Full);
        lemma_count_prefix(c1, c2, cap as nat, SlotState::Deleted);
        lemma_count_update(c0, cap as nat, p, tag, SlotState::Full);
        lemma_count_update(c0, cap as nat, p, tag, SlotState::Deleted);
        assert(post.contents@.dom() =~= pre.contents@.dom().insert(k));
    }

    /// Marking full slot `p` deleted and dropping its entry keeps the
    /// invariant.
    proof fn lemma_clear_full(pre: Self, post: Self, p: int)
        requires
            pre.wf(),
            0 <= p < pre.capacity,
            pre.items@[p] is Some,
            post.capacity == pre.capacity,
            post.hash_builder == pre.hash_builder,
            post.items@.len() == pre.items@.len(),
            post.items@[p] is None,
            forall|i: int| 0 <= i < pre.capacity && i != p ==> post.items@[i] == pre.items@[i],
            post.ctrl_bytes.wf(),
            post.ctrl_bytes.spec_capacity() == pre.capacity,
            post.ctrl_bytes@ == set_slot(pre.ctrl_bytes@, pre.capacity as int, p, deleted_byte()),
            post.contents@ == pre.contents@.remove(pre.key_at(p)),
            post.size + 1 == pre.size,
            post.tombstones == pre.tombstones + 1,
        ensures
            post.wf(),
    {
        let cap = pre.capacity as int;
        let k = pre.key_at(p);
        pre.lemma_wf();
        pre.ctrl_bytes.lemma_layout();
        lemma_set_slot_layout(pre.ctrl_bytes@, cap, p, deleted_byte());
        let c0 = pre.ctrl_bytes@;
        let c1 = post.ctrl_bytes@;
        assert(pre.slot_ok(p));
        assert forall|x: int| 0 <= x < cap + 16 && c0[x] != empty_byte() implies #[trigger] c1[x]
            != empty_byte() by {}
        assert forall|i: int| 0 <= i < cap && #[trigger] post.items@[i] is Some implies post.slot_ok(
            i,
        ) by {
            assert(pre.items@[i] is Some);
            assert(pre.slot_ok(i));
            assert(pre.key_at(i) != k);
            lemma_home_in_range(pre.hash_of(pre.key_at(i)), pre.capacity);
            lemma_reachable_mono(
                c0,
                c1,
                cap,
                home_slot(pre.hash_of(pre.key_at(i)), pre.capacity),
                i,
            );
        }
        assert forall|i: int, j: int|
            0 <= i < cap && 0 <= j < cap && i != j && #[trigger] post.items@[i] is Some
                && #[trigger] post.items@[j] is Some implies post.key_at(i) != post.key_at(j) by {
            assert(pre.items@[i] is Some && pre.items@[j] is Some);
        }
        assert forall|kk: K::V| #[trigger] post.contents@.contains_key(kk) implies exists|i: int|
            0 <= i < cap && #[trigger] post.items@[i] is Some && post.key_at(i) == kk by {
            assert(pre.contents@.contains_key(kk));
            let i = choose|i: int|
                0 <= i < cap && #[trigger] pre.items@[i] is Some && pre.key_at(i) == kk;
            assert(i != p);
            assert(post.items@[i] is Some);
        }
        assert forall|i: int| 0 <= i < cap implies (#[trigger] post.items@[i] is Some
            <==> is_full_byte(c1[i])) by {
            if i != p {
                assert(pre.items@[i] is Some <==> is_full_byte(c0[i]));
            }
        }
        let c2 = c0.update(p, deleted_byte());
        assert forall|x: int| 0 <= x < cap implies #[trigger] c1[x] == c2[x] by {}
        lemma_count_prefix(c1, c2, cap as nat, SlotState::Full);
        lemma_count_prefix(c1, c2, cap as nat, SlotState::Deleted);
        lemma_count_update(c0, cap as nat, p, deleted_byte(), SlotState::Full);
        lemma_count_update(c0, cap as nat, p, deleted_byte(), SlotState::Deleted);
        assert(post.contents@.dom() =~= pre.contents@.dom().remove(k));
    }

    /// Giving the key in slot `p` a new value keeps the invariant.
    proof fn lemma_replace_value(pre: Self, post: Self, p: int, v: V)
        requires
            pre.wf(),
            0 <= p < pre.capacity,
            pre.items@[p] is Some,
            post.capacity == pre.capacity,
            post.hash_builder == pre.hash_builder,
            post.items@.len() == pre.items@.len(),
            post.items@[p] is Some,
            post.key_at(p) == pre.key_at(p),
            post.value_at(p) == v,
            forall|i: int| 0 <= i < pre.capacity && i != p ==> post.items@[i] == pre.items@[i],
            post.ctrl_bytes == pre.ctrl_bytes,
            post.contents@ == pre.contents@.insert(pre.key_at(p), v),
            post.size == pre.size,
            post.tombstones == pre.tombstones,
        ensures
            post.wf(),
    {
        let cap = pre.capacity as int;
        let k = pre.key_at(p);
        assert(pre.slot_ok(p));
        assert forall|i: int| 0 <= i < cap && #[trigger] post.items@[i] is Some implies post.slot_ok(
            i,
        ) by {
            if i != p {
                assert(pre.items@[i] is Some);
                assert(pre.slot_ok(i));
                assert(pre.key_at(i) != k);
            }
        }
        assert forall|i: int, j: int|
            0 <= i < cap && 0 <= j < cap && i != j && #[trigger] post.items@[i] is Some
                && #[trigger] post.items@[j] is Some implies post.key_at(i) != post.key_at(j) by {
            assert(pre.items@[i] is Some && pre.items@[j] is Some);
        }
        assert forall|kk: K::V| #[trigger] post.contents@.contains_key(kk) implies exists|i: int|
            0 <= i < cap && #[trigger] post.items@[i] is Some && post.key_at(i) == kk by {
            assert(pre.contents@.contains_key(kk));
            let i = choose|i: int|
                0 <= i < cap && #[trigger] pre.items@[i] is Some && pre.key_at(i) == kk;
            assert(post.items@[i] is Some);
        }
        assert forall|i: int| 0 <= i < cap implies (#[trigger] post.items@[i] is Some
            <==> is_full_byte(post.ctrl_bytes@[i])) by {
            assert(pre.items@[i] is Some <==> is_full_byte(pre.ctrl_bytes@[i]));
        }
        assert(post.contents@.dom() =~= pre.contents@.dom());
    }

    /// Inserts into a table that has at least two slots that are not full,
    /// without resizing.
    fn insert_no_resize(&mut self, key: K, value: V) -> (r: Option<V>)
        requires
            old(self).wf(),
            key_model::<K>(),
            old(self).size + old(self).tombstones + 2 <= old(self).capacity,
        ensures
            final(self).wf(),
            final(self)@ == old(self)@.insert(key@, value),
            r == (if old(self)@.contains_key(key@) {
                Some(old(self)@[key@])
            } else {
                None::<V>
            }),
            final(self).capacity == old(self).capacity,
            final(self).tombstones <= old(self).tombstones,
            final(self).tombstones == old(self).tombstones - (if !old(self)@.contains_key(key@)
                && old(self).probe_meets_tombstone(key@) {
                1int
            } else {
                0int
            }),
            final(self).size + final(self).tombstones <= old(self).size + old(self).tombstones + 1,
            final(self).hash_fn() == old(self).hash_fn(),
    {
        let (h1, h2) = self.get_h1_h2_from_key(&key);
        let ghost pre: Self = *self;
        let ghost kv: K::V = key@;
        let ghost vv: V = value;
        let ghost new_contents = pre.contents@.insert(kv, vv);
        let probe = self.probe_for_insert(h1, h2, &key);
        match probe {
            Some(InsertProbe::Found(index)) => {
                proof {
                    assert(pre.slot_ok(index as int));
                }
                let mut slot: Option<(K, V)> = None;
                std::mem::swap(&mut self.items[index], &mut slot);
                match slot {
                    Some((k, old)) => {
                        self.items[index] = Some((k, value));
                        self.contents = Ghost(new_contents);
                        proof {
                            Self::lemma_replace_value(pre, *self, index as int, vv);
                        }
                        Some(old)
                    },
                    None => {
                        proof {
                            assert(false);
                        }
                        None
                    },
                }
            },
            Some(InsertProbe::Vacant(index)) => {
                let ghost cap = self.capacity as int;
                proof {
                    pre.ctrl_bytes.lemma_layout();
                    lemma_count_update(
                        pre.ctrl_bytes@,
                        cap as nat,
                        index as int,
                        h2,
                        SlotState::Deleted,
                    );
                    lemma_count_partition(pre.ctrl_bytes@, cap as nat);
                    lemma_tag_is_full(pre.hash_of(kv));
                }
                if self.ctrl_bytes.at(index).is_deleted() {
                    self.tombstones = self.tombstones - 1;
                }
                self.items[index] = Some((key, value));
                self.ctrl_bytes.set_full(index, h2);
                self.size = self.size + 1;
                self.contents = Ghost(new_contents);
                proof {
                    Self::lemma_fill_vacant(pre, *self, index as int, kv, vv);
                    let h = home_slot(pre.hash_of(kv), pre.capacity);
                    let ctrl = pre.ctrl_bytes@;
                    pre.lemma_wf();
                    lemma_home_in_range(pre.hash_of(kv), pre.capacity);
                    let (w, j) = choose|w: int, j: int|
                        #[trigger] sees(cap, h, w, j, index as int) && first_vacant(
                            ctrl,
                            cap,
                            h,
                            w,
                            j,
                        );
                    let p = window_at(h, w, cap) + j;
                    lemma_pos_byte(ctrl, cap, p);
                    if ctrl[index as int] == deleted_byte() {
                        assert(ctrl[window_at(h, w, cap) + j] == deleted_byte());
                        assert(pre.probe_meets_tombstone(kv));
                    } else {
                        assert(ctrl[index as int] == empty_byte());
                        if pre.probe_meets_tombstone(kv) {
                            let (w0, j0) = choose|w0: int, j0: int|
                                0 <= w0 < cap / 16 && 0 <= j0 < 16
                                    && #[trigger] ctrl[window_at(h, w0, cap) + j0] == deleted_byte()
                                    && forall|v: int|
                                    0 <= v < w0 ==> #[trigger] window_clear(ctrl, cap, h, v);
                            if w0 < w {
                                assert(window_clear(ctrl, cap, h, w0));
                                assert(window_no_deleted(ctrl, cap, h, w0));
                                assert(ctrl[window_at(h, w0, cap) + j0] != deleted_byte());
                            } else if w0 == w {
                                assert(window_no_deleted(ctrl, cap, h, w));
                                assert(ctrl[window_at(h, w, cap) + j0] != deleted_byte());
                            } else {
                                assert(window_clear(ctrl, cap, h, w));
                                assert(ctrl[window_at(h, w, cap) + j] != empty_byte());
                            }
                        }
                    }
                }
                None
            },
            None => {
                proof {
                    let ctrl = pre.ctrl_bytes@;
                    let cap = pre.capacity as int;
                    let h = home_slot(pre.hash_of(kv), pre.capacity);
                    pre.lemma_wf();
                    pre.ctrl_bytes.lemma_layout();
                    lemma_home_in_range(pre.hash_of(kv), pre.capacity);
                    lemma_two_not_full(ctrl, cap as nat);
                    let (x, y) = choose|x: int, y: int|
                        0 <= x < y < cap && !is_full_byte(#[trigger] ctrl[x]) && !is_full_byte(
                            #[trigger] ctrl[y],
                        );
                    let z = if x != h % 16 - 1 {
                        x
                    } else {
                        y
                    };
                    lemma_cover(cap, h, z);
                    let (v, j) = choose|v: int, j: int| #[trigger] sees(cap, h, v, j, z);
                    assert(is_full_byte(ctrl[z]));
                    assert(false);
                }
                None
            },
        }
    }

    /// The value of `key`, if the map holds it.
    pub fn get(&self, key: &K) -> (r: Option<&V>)
        requires
            self.wf(),
            key_model::<K>(),
        ensures
            r is Some <==> self@.contains_key(key@),
            r matches Some(v) ==> *v == self@[key@],
    {
        let (h1, h2) = self.get_h1_h2_from_key(&key);
        match self.probe_for_lookup(h1, h2, &key) {
            Some(index) => {
                proof {
                    assert(self.slot_ok(index as int));
                }
                match &self.items[index] {
                    Some((_, v)) => Some(v),
                    None => None,
                }
            },
            None => None,
        }
    }

    /// Removes `key` and returns its value, if the map holds it. Its slot
    /// becomes a tombstone.
    pub fn delete(&mut self, key: &K) -> (r: Option<V>)
        requires
            old(self).wf(),
            key_model::<K>(),
        ensures
            final(self).wf(),
            final(self)@ == old(self)@.remove(key@),
            !old(self)@.contains_key(key@) ==> *final(self) == *old(self),
            final(self).hash_fn() == old(self).hash_fn(),
            r == (if old(self)@.contains_key(key@) {
                Some(old(self)@[key@])
            } else {
                None::<V>
            }),
            final(self).spec_capacity() == old(self).spec_capacity(),
            final(self).tombstone_count() == old(self).tombstone_count() + (if old(self)@.contains_key(key@) {
                1int
            } else {
                0int
            }),
    {
        let (h1, h2) = self.get_h1_h2_from_key(&key);
        match self.probe_for_lookup(h1, h2, &key) {
            Some(index) => {
                let ghost pre: Self = *self;
                let ghost cap = self.capacity as int;
                proof {
                    assert(pre.slot_ok(index as int));
                    pre.ctrl_bytes.lemma_layout();
                    lemma_count_update(
                        pre.ctrl_bytes@,
                        cap as nat,
                        index as int,
                        deleted_byte(),
                        SlotState::Full,
                    );
                    lemma_count_partition(pre.ctrl_bytes@, cap as nat);
                }
                let mut slot: Option<(K, V)> = None;
                std::mem::swap(&mut self.items[index], &mut slot);
                match slot {
                    Some((_, v)) => {
                        self.size = self.size - 1;
                        self.tombstones = self.tombstones + 1;
                        self.ctrl_bytes.set_deleted(index);
                        self.contents = Ghost(pre.contents@.remove(pre.key_at(index as int)));
                        proof {
                            Self::lemma_clear_full(pre, *self, index as int);
                        }
                        Some(v)
                    },
                    None => {
                        proof {
                            assert(false);
                        }
                        None
                    },
                }
            },
            None => None,
        }
    }

    /// Inserts `key` with `value`, first growing or rebuilding the table when
    /// its thresholds say so. Returns the value `key` had, if any.
    pub fn insert(&mut self, key: K, value: V) -> (r: Option<V>)
        requires
            old(self).wf(),
            key_model::<K>(),
            old(self).spec_capacity() <= usize::MAX / 16,
        ensures
            final(self).wf(),
            final(self)@ == old(self)@.insert(key@, value),
            r == (if old(self)@.contains_key(key@) {
                Some(old(self)@[key@])
            } else {
                None::<V>
            }),
            final(self).spec_capacity() == if old(self).grows_on_insert() {
                2 * old(self).spec_capacity()
            } else {
                old(self).spec_capacity()
            },
            old(self).rehashes_on_insert() || old(self).grows_on_insert() ==> final(self).tombstone_count() == 0,
            final(self).tombstone_count() <= old(self).tombstone_count(),
            !old(self).rehashes_on_insert() && !old(self).grows_on_insert() ==> final(self).tombstone_count()
                == old(self).tombstone_count() - (if !old(self)@.contains_key(key@)
                && old(self).probe_meets_tombstone(key@) {
                1int
            } else {
                0int
            }),
            final(self).hash_fn() == old(self).hash_fn(),
            (final(self).spec_len() + final(self).tombstone_count()) * 8 <= final(self).spec_capacity() * 7,
            old(self).spec_len() + old(self).tombstone_count() >= old(self).spec_capacity()
                - old(self).spec_capacity() / 8 ==> final(self).spec_capacity() == 2 * old(self).spec_capacity(),
    {
        proof {
            self.lemma_wf();
            lemma_capacity_mult16(self.spec_capacity() as int);
        }
        self.maybe_grow_or_rehash();
        self.insert_no_resize(key, value)
    }

    /// Whether to rebuild at the same capacity before an insertion.
    fn should_rehash(&self) -> (r: bool)
        requires
            self.size + self.tombstones <= self.capacity,
        ensures
            r == self.rehashes_on_insert(),
    {
        proof {
            let c = self.capacity;
            let s = self.size;
            assert(c >> 3usize == c / 8usize) by (bit_vector);
            assert(s >> 1usize == s / 2usize) by (bit_vector);
        }
        // Prefer grow over rehash when close to capacity
        let should_grow: bool = (self.tombstones + self.size) >= self.capacity - (self.capacity
            >> 3);
        // Only rehash when we actually have tombstones and they are at least half of live items
        let should_rehash: bool = self.tombstones > 0 && self.tombstones >= (self.size >> 1);
        should_rehash && !should_grow
    }

    /// Whether to grow before an insertion.
    fn should_grow(&self) -> (r: bool)
        requires
            self.size + self.tombstones <= self.capacity,
            self.spec_capacity() <= usize::MAX / 16,
        ensures
            r == table_should_grow(
                self.spec_len() as int,
                self.tombstone_count() as int,
                self.spec_capacity() as int,
            ),
    {
        // Grow if the next insertion would push load factor beyond 7/8
        (self.tombstones + self.size + 1) * 8 > self.capacity * 7
    }

    /// Grows or rebuilds the table when its thresholds say so; afterwards at
    /// least two slots are not full.
    fn maybe_grow_or_rehash(&mut self)
        requires
            old(self).wf(),
            key_model::<K>(),
            old(self).spec_capacity() <= usize::MAX / 16,
        ensures
            final(self).wf(),
            final(self)@ == old(self)@,
            !old(self).rehashes_on_insert() && !old(self).grows_on_insert() ==> *final(self)
                == *old(self),
            final(self).hash_fn() == old(self).hash_fn(),
            final(self).spec_capacity() == if old(self).grows_on_insert() {
                2 * old(self).spec_capacity()
            } else {
                old(self).spec_capacity()
            },
            old(self).rehashes_on_insert() || old(self).grows_on_insert() ==> final(self).tombstone_count() == 0,
            !old(self).rehashes_on_insert() && !old(self).grows_on_insert() ==> final(self).tombstone_count() == old(self).tombstone_count(),
            final(self).size + final(self).tombstones + 2 <= final(self).capacity,
            (final(self).size + final(self).tombstones + 1) * 8 <= final(self).capacity * 7,
    {
        proof {
            self.lemma_wf();
        }
        if self.should_rehash() {
            self.rehash();
        } else if self.should_grow() {
            self.grow();
        }
    }

    /// Rebuilds the table at twice the capacity.
    fn grow(&mut self)
        requires
            old(self).wf(),
            key_model::<K>(),
            old(self).spec_capacity() <= usize::MAX / 16,
        ensures
            final(self).wf(),
            final(self)@ == old(self)@,
            final(self).hash_fn() == old(self).hash_fn(),
            final(self).spec_capacity() == 2 * old(self).spec_capacity(),
            final(self).tombstone_count() == 0,
            final(self).size == old(self).size,
    {
        proof {
            self.lemma_wf();
            lemma_double_pow2(self.capacity);
        }
        let new_capacity: usize = 2 * self.capacity;
        self.rebuild(new_capacity);
    }

    /// Rebuilds the table at the same capacity, dropping its tombstones.
    fn rehash(&mut self)
        requires
            old(self).wf(),
            key_model::<K>(),
            old(self).size + 2 <= old(self).capacity,
        ensures
            final(self).wf(),
            final(self)@ == old(self)@,
            final(self).hash_fn() == old(self).hash_fn(),
            final(self).spec_capacity() == old(self).spec_capacity(),
            final(self).tombstone_count() == 0,
            final(self).size == old(self).size,
    {
        let capacity: usize = self.capacity();
        self.rebuild(capacity);
    }

    /// Moves every entry into a fresh table of `new_capacity` slots that
    /// hashes the same way.
    fn rebuild(&mut self, new_capacity: usize)
        requires
            old(self).wf(),
            key_model::<K>(),
            is_table_capacity(new_capacity as int),
            new_capacity <= usize::MAX / 2 + 1,
            old(self).size + 2 <= new_capacity,
        ensures
            final(self).wf(),
            final(self)@ == old(self)@,
            final(self).hash_fn() == old(self).hash_fn(),
            final(self).capacity == new_capacity,
            final(self).tombstones == 0,
            final(self).size == old(self).size,
    {
        let ghost pre: Self = *self;
        let ghost cap: int = self.capacity as int;
        proof {
            pre.lemma_wf();
            pre.ctrl_bytes.lemma_layout();
        }
        let mut new_map = Self::with_hasher(new_capacity, self.hash_builder.clone());
        let mut i: usize = 0;
        while i < self.capacity
            invariant
                pre.wf(),
                key_model::<K>(),
                cap == pre.capacity,
                self.capacity == pre.capacity,
                self.ctrl_bytes == pre.ctrl_bytes,
                pre.ctrl_bytes.wf(),
                pre.ctrl_bytes@.len() == cap + 16,
                self.items@.len() == cap,
                0 <= i <= cap,
                forall|j: int| i <= j < cap ==> #[trigger] self.items@[j] == pre.items@[j],
                new_map.wf(),
                new_map.capacity == new_capacity,
                new_map.tombstones == 0,
                new_map.hash_fn() == pre.hash_fn(),
                pre.size + 2 <= new_capacity,
                new_map.size == count_state(pre.ctrl_bytes@, i as nat, SlotState::Full),
                forall|k: K::V|
                    #[trigger] new_map@.contains_key(k) <==> exists|j: int|
                        0 <= j < i && #[trigger] pre.holds_key(j, k),
                forall|j: int|
                    0 <= j < i && #[trigger] pre.items@[j] is Some ==> new_map@[pre.key_at(j)]
                        == pre.value_at(j),
            decreases cap - i,
        {
            if self.ctrl_bytes.at(i).is_full() {
                let mut slot: Option<(K, V)> = None;
                std::mem::swap(&mut self.items[i], &mut slot);
                match slot {
                    Some((k, v)) => {
                        proof {
                            lemma_count_bounds(
                                pre.ctrl_bytes@,
                                (i + 1) as nat,
                                cap as nat,
                                SlotState::Full,
                            );
                            assert(!new_map@.contains_key(k@)) by {
                                if new_map@.contains_key(k@) {
                                    let j = choose|j: int|
                                        0 <= j < i && #[trigger] pre.holds_key(j, k@);
                                    assert(pre.items@[j] is Some && pre.items@[i as int] is Some);
                                }
                            }
                        }
                        let ghost nm = new_map@;
                        new_map.insert_no_resize(k, v);
                        proof {
                            assert forall|kk: K::V| #[trigger]
                                new_map@.contains_key(kk) <==> exists|j: int|
                                    0 <= j < i + 1 && #[trigger] pre.holds_key(j, kk) by {
                                if new_map@.contains_key(kk) && kk != k@ {
                                    assert(nm.contains_key(kk));
                                }
                                if kk == k@ {
                                    assert(pre.holds_key(i as int, kk));
                                }
                            }
                            assert forall|j: int|
                                0 <= j < i + 1 && #[trigger] pre.items@[j] is Some implies new_map@[pre.key_at(
                                j,
                            )] == pre.value_at(j) by {
                                if j < i {
                                    assert(pre.items@[j] is Some && pre.items@[i as int] is Some);
                                }
                            }
                        }
                    },
                    None => {
                        proof {
                            assert(false);
                        }
                    },
                }
            } else {
                proof {
                    assert(pre.items@[i as int] is None);
                    assert forall|kk: K::V| #[trigger]
                        new_map@.contains_key(kk) <==> exists|j: int|
                            0 <= j < i + 1 && #[trigger] pre.holds_key(j, kk) by {
                        if exists|j: int| 0 <= j < i + 1 && #[trigger] pre.holds_key(j, kk) {
                            let j = choose|j: int| 0 <= j < i + 1 && #[trigger] pre.holds_key(j, kk);
                            assert(j != i);
                        }
                    }
                }
            }
            i = i + 1;
        }
        proof {
            assert forall|k: K::V| #[trigger] new_map@.contains_key(k) == pre@.contains_key(k) by {
                if pre@.contains_key(k) {
                    let j = pre.lemma_slot_of_key(k);
                    assert(pre.holds_key(j, k));
                }
                if new_map@.contains_key(k) {
                    let j = choose|j: int| 0 <= j < cap && #[trigger] pre.holds_key(j, k);
                    assert(pre.items@[j] is Some);
                    assert(pre.slot_ok(j));
                }
            }
            assert forall|k: K::V| #[trigger] new_map@.contains_key(k) implies new_map@[k] == pre@[k] by {
                let j = pre.lemma_slot_of_key(k);
                assert(pre.items@[j] is Some);
            }
            assert(new_map@ =~= pre@);
        }
        *self = new_map;
    }

    /// An empty map of `capacity` slots (a power of two, at least sixteen)
    /// that hashes with `hash_builder`.
    fn with_hasher(capacity: usize, hash_builder: KeyHasher<K>) -> (r: Self)
        requires
            is_table_capacity(capacity as int),
            capacity <= usize::MAX / 2 + 1,
        ensures
            r.wf(),
            r@ == Map::<K::V, V>::empty(),
            r.spec_capacity() == capacity,
            r.tombstone_count() == 0,
            r.hash_builder.hash_of_fn() == hash_builder.hash_of_fn(),
    {
        let mut items: Vec<Option<(K, V)>> = Vec::new();
        let mut i: usize = 0;
        while i < capacity
            invariant
                i <= capacity,
                items@.len() == i,
                forall|j: int| 0 <= j < i ==> #[trigger] items@[j] is None,
            decreases capacity - i,
        {
            items.push(None);
            i = i + 1;
        }
        let ctrl_bytes = ControlBytes::new(capacity);
        let r = HashMap {
            items,
            ctrl_bytes,
            hash_builder,
            capacity,
            size: 0,
            tombstones: 0,
            contents: Ghost(Map::empty()),
        };
        proof {
            lemma_count_all_empty(r.ctrl_bytes@, capacity as nat);
            assert(r.contents@.dom() =~= Set::<K::V>::empty());
        }
        r
    }

    /// An empty map with room for `capacity` entries: its capacity is the
    /// least power of two that is at least `capacity` and at least sixteen.
    pub fn with_capacity(capacity: usize) -> (r: Self)
        requires
            capacity <= usize::MAX / 4,
        ensures
            r.wf(),
            r@ == Map::<K::V, V>::empty(),
            r.tombstone_count() == 0,
            r.spec_capacity() >= capacity,
            r.spec_capacity() >= 16,
            r.spec_capacity() == 16 || r.spec_capacity() / 2 < capacity,
            is_table_capacity(r.spec_capacity() as int),
    {
        let mut cap: usize = 16;
        proof {
            assert(16usize & 15usize == 0usize) by (bit_vector);
        }
        while cap < capacity
            invariant
                16 <= cap,
                cap & ((cap - 1) as usize) == 0,
                cap == 16 || cap / 2 < capacity,
                capacity <= usize::MAX / 4,
                cap <= usize::MAX / 2,
            decreases usize::MAX - cap,
        {
            proof {
                lemma_double_pow2(cap);
            }
            cap = cap * 2;
        }
        Self::with_hasher(cap, KeyHasher::new())
    }

    /// An empty map with the default capacity, 1024.
    pub fn new() -> (r: Self)
        ensures
            r.wf(),
            r@ == Map::<K::V, V>::empty(),
            r.tombstone_count() == 0,
            r.spec_capacity() == DEFAULT_CAPACITY,
    {
        let r = Self::with_capacity(DEFAULT_CAPACITY);
        proof {
            assert(1024usize & 1023usize == 0usize) by (bit_vector);
            lemma_pow2_window(r.spec_capacity() as usize, 1024);
        }
        r
    }
}

} // verus!
