//! Laws of the library that relate several of its operations. Each takes the
//! states before and after the operations, tied together as the operations'
//! contracts tie them, and states what the later reads give.

use vstd::prelude::*;
use std::hash::Hash;
use crate::bitmask::{
    BitMask, bit_set, lemma_mask_ext, lemma_clear_lowest, lemma_nonzero_has_bit, remaining_after,
    yielded, clear_lowest,
};
use crate::miso::Miso;
use crate::slots::lemma_capacity_mult16;
use crate::table::HashMap;
use crate::control::{ControlByte, is_full_byte, empty_byte, deleted_byte, sentinel_byte};
use crate::group::{GroupOps, matches_tag};
use crate::neon::NeonGroup;
use crate::scalar::ScalarOps;

verus! {

/// A read gives back the last write: once `insert(k, v)` has turned `before`
/// into `after` (its contract says `after@ == before@.insert(k, v)`), `get(k)`
/// on `after` finds `v`, every other key reads as it did, and `len` has grown
/// by one exactly when `k` was new.
pub proof fn law_miso_get_after_insert<K: View + Hash + Eq, V>(
    before: Miso<K, V>,
    after: Miso<K, V>,
    k: K::V,
    v: V,
)
    requires
        before.wf(),
        after.wf(),
        after@ == before@.insert(k, v),
    ensures
        after@.contains_key(k),
        after@[k] == v,
        forall|k2: K::V|
            k2 != k ==> (#[trigger] after@.contains_key(k2) == before@.contains_key(k2)),
        forall|k2: K::V| k2 != k && before@.contains_key(k2) ==> #[trigger] after@[k2] == before@[k2],
        after.spec_len() == before.spec_len() + (if before@.contains_key(k) {
            0int
        } else {
            1int
        }),
{
    before.lemma_wf();
    after.lemma_wf();
    if before@.contains_key(k) {
        assert(after@.dom() =~= before@.dom());
    }
}

/// After `delete(k)` has turned `before` into `after`, `get(k)` finds nothing,
/// every other key reads as it did, and `len` has shrunk by one exactly when
/// `k` was there.
pub proof fn law_miso_get_after_delete<K: View + Hash + Eq, V>(
    before: Miso<K, V>,
    after: Miso<K, V>,
    k: K::V,
)
    requires
        before.wf(),
        after.wf(),
        after@ == before@.remove(k),
    ensures
        !after@.contains_key(k),
        forall|k2: K::V|
            k2 != k ==> (#[trigger] after@.contains_key(k2) == before@.contains_key(k2)),
        forall|k2: K::V| k2 != k && before@.contains_key(k2) ==> #[trigger] after@[k2] == before@[k2],
        after.spec_len() == before.spec_len() - (if before@.contains_key(k) {
            1int
        } else {
            0int
        }),
{
    before.lemma_wf();
    after.lemma_wf();
    if !before@.contains_key(k) {
        assert(after@.dom() =~= before@.dom());
    }
}

/// Two inserts of one key: the second returns the first value (its contract
/// returns `mid@[k]`), and the map is as if only the second had happened.
pub proof fn law_miso_overwrite<K: View + Hash + Eq, V>(
    before: Miso<K, V>,
    mid: Miso<K, V>,
    after: Miso<K, V>,
    k: K::V,
    v1: V,
    v2: V,
)
    requires
        before.wf(),
        mid.wf(),
        after.wf(),
        mid@ == before@.insert(k, v1),
        after@ == mid@.insert(k, v2),
    ensures
        mid@.contains_key(k) && mid@[k] == v1,
        after@ == before@.insert(k, v2),
        after.spec_len() == mid.spec_len(),
{
    mid.lemma_wf();
    after.lemma_wf();
    assert(after@ =~= before@.insert(k, v2));
    assert(after@.dom() =~= mid@.dom());
}

/// Inserting a new key and then deleting it gives back the contents and the
/// length the map started with.
pub proof fn law_miso_insert_then_delete<K: View + Hash + Eq, V>(
    before: Miso<K, V>,
    mid: Miso<K, V>,
    after: Miso<K, V>,
    k: K::V,
    v: V,
)
    requires
        before.wf(),
        mid.wf(),
        after.wf(),
        !before@.contains_key(k),
        mid@ == before@.insert(k, v),
        after@ == mid@.remove(k),
    ensures
        after@ == before@,
        after.spec_len() == before.spec_len(),
{
    before.lemma_wf();
    after.lemma_wf();
    assert(after@ =~= before@);
}

/// A read gives back the last write: once `insert(k, v)` has turned `before`
/// into `after` (its contract says `after@ == before@.insert(k, v)`), `get(k)`
/// on `after` finds `v`, every other key reads as it did, and `len` has grown
/// by one exactly when `k` was new.
pub proof fn law_table_get_after_insert<K: View + Hash + Eq, V>(
    before: HashMap<K, V>,
    after: HashMap<K, V>,
    k: K::V,
    v: V,
)
    requires
        before.wf(),
        after.wf(),
        after@ == before@.insert(k, v),
    ensures
        after@.contains_key(k),
        after@[k] == v,
        forall|k2: K::V|
            k2 != k ==> (#[trigger] after@.contains_key(k2) == before@.contains_key(k2)),
        forall|k2: K::V| k2 != k && before@.contains_key(k2) ==> #[trigger] after@[k2] == before@[k2],
        after.spec_len() == before.spec_len() + (if before@.contains_key(k) {
            0int
        } else {
            1int
        }),
{
    before.lemma_wf();
    after.lemma_wf();
    if before@.contains_key(k) {
        assert(after@.dom() =~= before@.dom());
    }
}

/// After `delete(k)` has turned `before` into `after`, `get(k)` finds nothing,
/// every other key reads as it did, and `len` has shrunk by one exactly when
/// `k` was there.
pub proof fn law_table_get_after_delete<K: View + Hash + Eq, V>(
    before: HashMap<K, V>,
    after: HashMap<K, V>,
    k: K::V,
)
    requires
        before.wf(),
        after.wf(),
        after@ == before@.remove(k),
    ensures
        !after@.contains_key(k),
        forall|k2: K::V|
            k2 != k ==> (#[trigger] after@.contains_key(k2) == before@.contains_key(k2)),
        forall|k2: K::V| k2 != k && before@.contains_key(k2) ==> #[trigger] after@[k2] == before@[k2],
        after.spec_len() == before.spec_len() - (if before@.contains_key(k) {
            1int
        } else {
            0int
        }),
{
    before.lemma_wf();
    after.lemma_wf();
    if !before@.contains_key(k) {
        assert(after@.dom() =~= before@.dom());
    }
}

/// Two inserts of one key: the second returns the first value (its contract
/// returns `mid@[k]`), and the map is as if only the second had happened.
pub proof fn law_table_overwrite<K: View + Hash + Eq, V>(
    before: HashMap<K, V>,
    mid: HashMap<K, V>,
    after: HashMap<K, V>,
    k: K::V,
    v1: V,
    v2: V,
)
    requires
        before.wf(),
        mid.wf(),
        after.wf(),
        mid@ == before@.insert(k, v1),
        after@ == mid@.insert(k, v2),
    ensures
        mid@.contains_key(k) && mid@[k] == v1,
        after@ == before@.insert(k, v2),
        after.spec_len() == mid.spec_len(),
{
    mid.lemma_wf();
    after.lemma_wf();
    assert(after@ =~= before@.insert(k, v2));
    assert(after@.dom() =~= mid@.dom());
}

/// Inserting a new key and then deleting it gives back the contents and the
/// length the map started with.
pub proof fn law_table_insert_then_delete<K: View + Hash + Eq, V>(
    before: HashMap<K, V>,
    mid: HashMap<K, V>,
    after: HashMap<K, V>,
    k: K::V,
    v: V,
)
    requires
        before.wf(),
        mid.wf(),
        after.wf(),
        !before@.contains_key(k),
        mid@ == before@.insert(k, v),
        after@ == mid@.remove(k),
    ensures
        after@ == before@,
        after.spec_len() == before.spec_len(),
{
    before.lemma_wf();
    after.lemma_wf();
    assert(after@ =~= before@);
}

/// A control byte is in at most one of the states full, empty and deleted,
/// and the sentinel is in none of them.
pub proof fn law_byte_states_disjoint(b: u8)
    ensures
        !(is_full_byte(b) && b == empty_byte()),
        !(is_full_byte(b) && b == deleted_byte()),
        !(b == empty_byte() && b == deleted_byte()),
        !is_full_byte(sentinel_byte()),
        sentinel_byte() != empty_byte(),
        sentinel_byte() != deleted_byte(),
{
}

/// `from_tag` then `tag` gives back the tag's low seven bits, and the byte it
/// makes is full.
pub proof fn law_tag_round_trip(tag: u8, made: ControlByte)
    requires
        made@ == tag % 128,
    ensures
        is_full_byte(made@),
        made@ % 128 == tag % 128,
{
}

/// The portable and the vector group queries compute the same masks, for a
/// tag below 0x80 (the tags the maps use).
pub proof fn law_group_ops_agree(
    view: [ControlByte; 16],
    tag: u8,
    scalar_tag: BitMask,
    neon_tag: BitMask,
    scalar_empty: BitMask,
    neon_empty: BitMask,
    scalar_deleted: BitMask,
    neon_deleted: BitMask,
)
    requires
        tag < 0x80,
        forall|j: int| #[trigger]
            scalar_tag.has(j) <==> 0 <= j < 16 && matches_tag(ScalarOps::view_bytes(view)[j], tag),
        forall|j: int| #[trigger]
            neon_tag.has(j) <==> 0 <= j < 16 && NeonGroup::view_bytes(view)[j] == tag,
        forall|j: int| #[trigger]
            scalar_empty.has(j) <==> 0 <= j < 16 && ScalarOps::view_bytes(view)[j] == empty_byte(),
        forall|j: int| #[trigger]
            neon_empty.has(j) <==> 0 <= j < 16 && NeonGroup::view_bytes(view)[j] == empty_byte(),
        forall|j: int| #[trigger]
            scalar_deleted.has(j) <==> 0 <= j < 16 && ScalarOps::view_bytes(view)[j]
                == deleted_byte(),
        forall|j: int| #[trigger]
            neon_deleted.has(j) <==> 0 <= j < 16 && NeonGroup::view_bytes(view)[j]
                == deleted_byte(),
    ensures
        scalar_tag == neon_tag,
        scalar_empty == neon_empty,
        scalar_deleted == neon_deleted,
{
    assert forall|j: int| 0 <= j < 16 implies #[trigger] scalar_tag.has(j) == neon_tag.has(j) by {
        assert(ScalarOps::view_bytes(view)[j] == NeonGroup::view_bytes(view)[j]);
    }
    lemma_mask_ext(scalar_tag, neon_tag);
    assert forall|j: int| 0 <= j < 16 implies #[trigger] scalar_empty.has(j) == neon_empty.has(j) by {
        assert(ScalarOps::view_bytes(view)[j] == NeonGroup::view_bytes(view)[j]);
    }
    lemma_mask_ext(scalar_empty, neon_empty);
    assert forall|j: int| 0 <= j < 16 implies #[trigger] scalar_deleted.has(j) == neon_deleted.has(j) by {
        assert(ScalarOps::view_bytes(view)[j] == NeonGroup::view_bytes(view)[j]);
    }
    lemma_mask_ext(scalar_deleted, neon_deleted);
}

/// What `k` calls of `BitMaskIter::next` leave of a mask, and where they
/// stand in the sequence of yielded positions.
proof fn lemma_iter_prefix(m: u16, k: nat)
    ensures
        forall|j: int| #[trigger] bit_set(remaining_after(m, k), j) ==> bit_set(m, j),
        remaining_after(m, k) != 0 ==> yielded(m, k) >= k,
        k >= 1 && remaining_after(m, k) != 0 ==> remaining_after(m, (k - 1) as nat) != 0 && yielded(
            m,
            (k - 1) as nat,
        ) < yielded(m, k),
        forall|j: int|
            #[trigger] bit_set(m, j) ==> bit_set(remaining_after(m, k), j) || exists|i: nat|
                i < k && remaining_after(m, i) != 0 && #[trigger] yielded(m, i) == j,
    decreases k,
{
    lemma_clear_lowest(remaining_after(m, k));
    if k > 0 {
        let km = (k - 1) as nat;
        lemma_iter_prefix(m, km);
        let r = remaining_after(m, km);
        lemma_clear_lowest(r);
        assert(remaining_after(m, k) == clear_lowest(r));
        if r == 0 {
            lemma_nonzero_has_bit(r);
            assert forall|j: int| #[trigger] bit_set(m, j) implies bit_set(
                remaining_after(m, k),
                j,
            ) || exists|i: nat| i < k && remaining_after(m, i) != 0 && #[trigger] yielded(m, i)
                == j by {
                assert(!bit_set(r, j));
                let i = choose|i: nat|
                    i < km && remaining_after(m, i) != 0 && #[trigger] yielded(m, i) == j;
                assert(i < k);
            }
        } else {
            let rk = remaining_after(m, k);
            if rk != 0 {
                assert(bit_set(rk, yielded(m, k)));
                assert(bit_set(r, yielded(m, k)));
                if yielded(m, k) < yielded(m, km) {
                    assert(!bit_set(r, yielded(m, k)));
                }
            }
            assert forall|j: int| #[trigger] bit_set(m, j) implies bit_set(rk, j) || exists|i: nat|
                i < k && remaining_after(m, i) != 0 && #[trigger] yielded(m, i) == j by {
                if bit_set(r, j) {
                    if !bit_set(rk, j) {
                        assert(yielded(m, km) == j);
                    }
                } else {
                    let i = choose|i: nat|
                        i < km && remaining_after(m, i) != 0 && #[trigger] yielded(m, i) == j;
                    assert(i < k);
                }
            }
        }
    }
}

/// The yielded positions increase from any call to any later call that
/// still yields.
proof fn lemma_iter_increasing(m: u16, k1: nat, k2: nat)
    requires
        k1 < k2,
        remaining_after(m, k2) != 0,
    ensures
        remaining_after(m, k1) != 0,
        yielded(m, k1) < yielded(m, k2),
    decreases k2 - k1,
{
    lemma_iter_prefix(m, k2);
    let km = (k2 - 1) as nat;
    if k1 < km {
        lemma_iter_increasing(m, k1, km);
    }
}

/// Iterating a mask with `BitMaskIter::next` yields every set position
/// exactly once, in increasing order, and then `None` for ever: once nothing
/// remains nothing ever does again, nothing remains after sixteen calls,
/// every yielded position is set in the mask, the positions strictly
/// increase, and every set position is yielded by one of the first sixteen
/// calls.
pub proof fn law_iteration(m: u16)
    ensures
        forall|k: nat| #[trigger] remaining_after(m, k) == 0 ==> remaining_after(m, k + 1) == 0,
        remaining_after(m, 16) == 0,
        forall|k: nat| remaining_after(m, k) != 0 ==> bit_set(m, #[trigger] yielded(m, k)),
        forall|k1: nat, k2: nat|
            k1 < k2 && remaining_after(m, k2) != 0 ==> #[trigger] yielded(m, k1) < #[trigger] yielded(
                m,
                k2,
            ),
        forall|j: int|
            #[trigger] bit_set(m, j) ==> exists|k: nat|
                k < 16 && remaining_after(m, k) != 0 && #[trigger] yielded(m, k) == j,
{
    assert forall|k: nat| #[trigger] remaining_after(m, k) == 0 implies remaining_after(m, k + 1)
        == 0 by {
        lemma_clear_lowest(remaining_after(m, k));
        assert(remaining_after(m, k + 1) == clear_lowest(remaining_after(m, k)));
    }
    lemma_iter_prefix(m, 16);
    lemma_clear_lowest(remaining_after(m, 16));
    assert forall|k: nat| remaining_after(m, k) != 0 implies bit_set(m, #[trigger] yielded(m, k)) by {
        lemma_iter_prefix(m, k);
        lemma_clear_lowest(remaining_after(m, k));
    }
    assert forall|k1: nat, k2: nat|
        k1 < k2 && remaining_after(m, k2) != 0 implies #[trigger] yielded(m, k1) < #[trigger] yielded(
        m,
        k2,
    ) by {
        lemma_iter_increasing(m, k1, k2);
    }
    assert forall|j: int| #[trigger] bit_set(m, j) implies exists|k: nat|
        k < 16 && remaining_after(m, k) != 0 && #[trigger] yielded(m, k) == j by {
        lemma_nonzero_has_bit(0);
        assert(!bit_set(remaining_after(m, 16), j));
    }
}

/// Near full, an insertion grows the table rather than rebuilding it in
/// place: when live entries and tombstones fill at least
/// `capacity - capacity / 8` slots, `Miso::insert` doubles the capacity.
pub proof fn law_miso_grows_when_near_full<K: View + Hash + Eq, V>(m: Miso<K, V>)
    requires
        m.wf(),
        m.spec_len() + m.tombstone_count() >= m.spec_capacity() - m.spec_capacity() / 8,
    ensures
        !m.rehashes_on_insert(),
        m.grows_on_insert(),
{
    m.lemma_wf();
    lemma_capacity_mult16(m.spec_capacity() as int);
}

/// Near full, an insertion grows the table rather than rebuilding it in
/// place: when live entries and tombstones fill at least
/// `capacity - capacity / 8` slots, `HashMap::insert` doubles the capacity.
pub proof fn law_table_grows_when_near_full<K: View + Hash + Eq, V>(m: HashMap<K, V>)
    requires
        m.wf(),
        m.spec_len() + m.tombstone_count() >= m.spec_capacity() - m.spec_capacity() / 8,
    ensures
        !m.rehashes_on_insert(),
        m.grows_on_insert(),
{
    m.lemma_wf();
}

} // verus!
