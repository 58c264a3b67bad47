//! What the two maps share: how a 64-bit hash splits into a home slot and a
//! tag, the shape of a table's capacity, and the count of slots in each
//! state.

use vstd::prelude::*;
use vstd::laws_eq::obeys_view_eq;
use vstd::std_specs::hash::obeys_key_model;
use crate::control::{is_full_byte, is_slot_byte, empty_byte, deleted_byte};

verus! {

/// What the maps ask of a key type: its equality is equality of views, and
/// it obeys vstd's key model (its hash is deterministic and its equality is
/// identity). A key is then determined by its view, and so is its hash.
pub open spec fn key_model<K: View + PartialEq>() -> bool {
    obeys_view_eq::<K>() && obeys_key_model::<K>()
}

/// The seven-bit tag of a hash: its top seven bits.
pub open spec fn hash_tag(h: u64) -> u8 {
    ((h >> 57u64) as u8) & 0x7Fu8
}

/// The part of a hash that picks the home slot: all but its low seven bits.
pub open spec fn hash_h1(h: u64) -> u64 {
    h >> 7u64
}

/// The slot a probe for `h1` starts at, in a table of `capacity` slots: the
/// low bits of `h1`.
pub open spec fn probe_start(h1: u64, capacity: usize) -> int {
    ((h1 as usize) & ((capacity - 1) as usize)) as int
}

/// The slot a hash starts probing at, in a table of `capacity` slots.
pub open spec fn home_slot(h: u64, capacity: usize) -> int {
    (((h >> 7u64) as usize) & ((capacity - 1) as usize)) as int
}

/// The index `d` steps after slot `h`, wrapping around a table of `cap`
/// slots (for `d` below `cap`).
pub open spec fn wrap(h: int, d: int, cap: int) -> int {
    if h + d < cap {
        h + d
    } else {
        h + d - cap
    }
}

/// A capacity the maps use: a power of two, at least sixteen.
pub open spec fn is_table_capacity(capacity: int) -> bool {
    &&& 16 <= capacity <= usize::MAX
    &&& (capacity as usize) & ((capacity - 1) as usize) == 0
}

/// A table capacity is a multiple of sixteen.
pub proof fn lemma_capacity_mult16(capacity: int)
    requires
        is_table_capacity(capacity),
    ensures
        capacity % 16 == 0,
{
    let c: usize = capacity as usize;
    let m: usize = (c - 1) as usize;
    assert(c % 16usize == 0usize) by (bit_vector)
        requires
            c & m == 0usize,
            m == c - 1usize,
            c >= 16usize,
    ;
}

/// The tag of a hash is the byte of a full slot.
pub proof fn lemma_tag_is_full(h: u64)
    ensures
        is_full_byte(hash_tag(h)),
        hash_tag(h) == (h >> 57u64) as u8,
{
    assert(((h >> 57u64) as u8) & 0x7Fu8 < 0x80u8) by (bit_vector);
    assert(((h >> 57u64) as u8) & 0x7Fu8 == (h >> 57u64) as u8) by (bit_vector);
}

/// Masking with `capacity - 1` gives a slot index.
pub proof fn lemma_mask_in_range(x: usize, capacity: usize)
    requires
        capacity > 0,
    ensures
        x & ((capacity - 1) as usize) < capacity,
{
    let m: usize = (capacity - 1) as usize;
    assert(x & m <= m) by (bit_vector);
}

/// The home slot is a slot.
pub proof fn lemma_home_in_range(h: u64, capacity: usize)
    requires
        capacity > 0,
    ensures
        0 <= home_slot(h, capacity) < capacity,
{
    lemma_mask_in_range((h >> 7u64) as usize, capacity);
}

/// In a power-of-two table, masking `x + step` with `capacity - 1` wraps
/// around the end, for `x` a slot and `step` at most `capacity`.
pub proof fn lemma_mask_wraps(x: usize, step: usize, capacity: usize)
    requires
        capacity > 0,
        capacity & ((capacity - 1) as usize) == 0,
        x < capacity,
        step <= capacity,
        x + step <= usize::MAX,
    ensures
        ((x + step) as usize) & ((capacity - 1) as usize) == if x + step < capacity {
            x + step
        } else {
            x + step - capacity
        },
{
    let m: usize = (capacity - 1) as usize;
    let y: usize = (x + step) as usize;
    assert(y & m == if y < capacity {
        y
    } else {
        (y - capacity) as usize
    }) by (bit_vector)
        requires
            capacity > 0usize,
            capacity & m == 0usize,
            m == capacity - 1usize,
            x < capacity,
            step <= capacity,
            y == x + step,
    ;
}

/// Doubling a power of two keeps it one.
pub proof fn lemma_double_pow2(p: usize)
    requires
        p > 0,
        p & ((p - 1) as usize) == 0,
        p <= usize::MAX / 2,
    ensures
        ((2 * p) as usize) & ((2 * p - 1) as usize) == 0,
{
    let q: usize = (2 * p) as usize;
    let m: usize = (p - 1) as usize;
    let n: usize = (q - 1) as usize;
    assert(q & n == 0usize) by (bit_vector)
        requires
            p > 0usize,
            p & m == 0usize,
            m == p - 1usize,
            q == 2 * p,
            n == q - 1usize,
    ;
}

/// The only power of two in `[p, 2p)` is `p`, for `p` a power of two.
pub proof fn lemma_pow2_window(c: usize, p: usize)
    requires
        c & ((c - 1) as usize) == 0,
        p & ((p - 1) as usize) == 0,
        0 < p <= c,
        c / 2 < p,
    ensures
        c == p,
{
    let m: usize = (c - 1) as usize;
    let n: usize = (p - 1) as usize;
    assert(c == p) by (bit_vector)
        requires
            c & m == 0usize,
            m == c - 1usize,
            p & n == 0usize,
            n == p - 1usize,
            0usize < p,
            p <= c,
            c / 2usize < p,
    ;
}

/// The state of a slot, read from its control byte.
pub enum SlotState {
    Empty,
    Deleted,
    Full,
    Other,
}

/// The state a control byte puts its slot in.
pub open spec fn state_of(b: u8) -> SlotState {
    if is_full_byte(b) {
        SlotState::Full
    } else if b == deleted_byte() {
        SlotState::Deleted
    } else if b == empty_byte() {
        SlotState::Empty
    } else {
        SlotState::Other
    }
}

/// The number of the first `n` bytes of `s` that put their slot in state `st`.
pub open spec fn count_state(s: Seq<u8>, n: nat, st: SlotState) -> nat
    decreases n,
{
    if n == 0 {
        0
    } else {
        count_state(s, (n - 1) as nat, st) + if state_of(s[n - 1]) == st {
            1nat
        } else {
            0nat
        }
    }
}

/// The count reads only the first `n` bytes.
pub proof fn lemma_count_prefix(s: Seq<u8>, t: Seq<u8>, n: nat, st: SlotState)
    requires
        s.len() >= n,
        t.len() >= n,
        forall|i: int| 0 <= i < n ==> #[trigger] s[i] == t[i],
    ensures
        count_state(s, n, st) == count_state(t, n, st),
    decreases n,
{
    if n > 0 {
        lemma_count_prefix(s, t, (n - 1) as nat, st);
    }
}

/// Changing byte `k` of the first `n` moves the count by what changed.
pub proof fn lemma_count_update(s: Seq<u8>, n: nat, k: int, b: u8, st: SlotState)
    requires
        0 <= k < n <= s.len(),
    ensures
        count_state(s.update(k, b), n, st) + (if state_of(s[k]) == st {
            1int
        } else {
            0int
        }) == count_state(s, n, st) + (if state_of(b) == st {
            1int
        } else {
            0int
        }),
    decreases n,
{
    if k < n - 1 {
        lemma_count_update(s, (n - 1) as nat, k, b, st);
    } else {
        lemma_count_prefix(s, s.update(k, b), (n - 1) as nat, st);
    }
}

/// A count never passes the number of bytes counted, and grows with them.
pub proof fn lemma_count_bounds(s: Seq<u8>, m: nat, n: nat, st: SlotState)
    requires
        m <= n,
    ensures
        count_state(s, m, st) <= count_state(s, n, st),
        count_state(s, n, st) <= n,
        count_state(s, n, st) - count_state(s, m, st) <= n - m,
    decreases n,
{
    if n > 0 {
        if m < n {
            lemma_count_bounds(s, m, (n - 1) as nat, st);
        } else {
            lemma_count_bounds(s, (n - 1) as nat, (n - 1) as nat, st);
        }
    }
}

/// When every byte is a slot byte, the full, deleted and empty counts add up
/// to the number of bytes.
pub proof fn lemma_count_partition(s: Seq<u8>, n: nat)
    requires
        n <= s.len(),
        forall|i: int| 0 <= i < n ==> is_slot_byte(#[trigger] s[i]),
    ensures
        count_state(s, n, SlotState::Full) + count_state(s, n, SlotState::Deleted) + count_state(
            s,
            n,
            SlotState::Empty,
        ) == n,
    decreases n,
{
    if n > 0 {
        lemma_count_partition(s, (n - 1) as nat);
        assert(is_slot_byte(s[n - 1]));
    }
}

/// A positive count has a witness.
pub proof fn lemma_count_witness(s: Seq<u8>, n: nat, st: SlotState)
    requires
        n <= s.len(),
        count_state(s, n, st) > 0,
    ensures
        exists|i: int| 0 <= i < n && state_of(#[trigger] s[i]) == st,
    decreases n,
{
    if state_of(s[n - 1]) == st {
        assert(state_of(s[n - 1]) == st);
    } else {
        lemma_count_witness(s, (n - 1) as nat, st);
        let i = choose|i: int| 0 <= i < n - 1 && state_of(#[trigger] s[i]) == st;
        assert(state_of(s[i]) == st);
    }
}

/// When at least two of the first `n` bytes are not full, two distinct ones
/// are found.
pub proof fn lemma_two_not_full(s: Seq<u8>, n: nat)
    requires
        n <= s.len(),
        count_state(s, n, SlotState::Full) + 2 <= n,
    ensures
        exists|i: int, j: int|
            0 <= i < j < n && !is_full_byte(#[trigger] s[i]) && !is_full_byte(#[trigger] s[j]),
    decreases n,
{
    if is_full_byte(s[n - 1]) {
        lemma_two_not_full(s, (n - 1) as nat);
        let (i, j) = choose|i: int, j: int|
            0 <= i < j < n - 1 && !is_full_byte(#[trigger] s[i]) && !is_full_byte(#[trigger] s[j]);
        assert(!is_full_byte(s[i]) && !is_full_byte(s[j]));
    } else {
        lemma_one_not_full(s, (n - 1) as nat);
        let i = choose|i: int| 0 <= i < n - 1 && !is_full_byte(#[trigger] s[i]);
        assert(!is_full_byte(s[i]) && !is_full_byte(s[n - 1]));
    }
}

/// When at least one of the first `n` bytes is not full, one is found.
pub proof fn lemma_one_not_full(s: Seq<u8>, n: nat)
    requires
        n <= s.len(),
        count_state(s, n, SlotState::Full) + 1 <= n,
    ensures
        exists|i: int| 0 <= i < n && !is_full_byte(#[trigger] s[i]),
    decreases n,
{
    if is_full_byte(s[n - 1]) {
        lemma_one_not_full(s, (n - 1) as nat);
        let i = choose|i: int| 0 <= i < n - 1 && !is_full_byte(#[trigger] s[i]);
        assert(!is_full_byte(s[i]));
    } else {
        assert(!is_full_byte(s[n - 1]));
    }
}

/// A sequence of empty bytes counts nothing full or deleted.
pub proof fn lemma_count_all_empty(s: Seq<u8>, n: nat)
    requires
        n <= s.len(),
        forall|i: int| 0 <= i < n ==> #[trigger] s[i] == empty_byte(),
    ensures
        count_state(s, n, SlotState::Full) == 0,
        count_state(s, n, SlotState::Deleted) == 0,
    decreases n,
{
    if n > 0 {
        lemma_count_all_empty(s, (n - 1) as nat);
        assert(s[n - 1] == empty_byte());
    }
}

} // verus!
