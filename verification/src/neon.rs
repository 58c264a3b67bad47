//! The group queries in the form of the NEON code path: every byte of the
//! group is compared for equality with one splatted value, and the lanes that
//! compare equal give the bits of the mask. Here each lane is compared in
//! safe code, one after the other.

use vstd::prelude::*;
use crate::bitmask::BitMask;
use crate::control::{ControlByte, ControlBytes, lemma_from_byte, lemma_view_injective};
use crate::group::GroupOps;

verus! {

/// The mask of the lanes of `view` that equal `value`.
fn lanes_equal_to(view: [ControlByte; 16], value: u8) -> (m: BitMask)
    ensures
        forall|j: int| #[trigger] m.has(j) <==> 0 <= j < 16 && NeonGroup::view_bytes(view)[j]
            == value,
{
    let splat: ControlByte = ControlByte::from(value);
    proof {
        lemma_from_byte(value);
    }
    let mut mask = BitMask::zero();
    let mut i: usize = 0;
    while i < 16
        invariant
            i <= 16,
            splat@ == value,
            forall|j: int| #[trigger] mask.has(j) <==> 0 <= j < i && NeonGroup::view_bytes(view)[j]
                == value,
        decreases 16 - i,
    {
        proof {
            lemma_view_injective(view[i as int], splat);
        }
        if view[i] == splat {
            mask.set(i);
        }
        i = i + 1;
    }
    mask
}

/// Group queries that compare all sixteen lanes with one value.
pub struct NeonGroup;

impl GroupOps for NeonGroup {
    type View = [ControlByte; 16];

    open spec fn view_bytes(view: [ControlByte; 16]) -> Seq<u8> {
        view@.map_values(|c: ControlByte| c@)
    }

    fn load(ctrl: &ControlBytes, index: usize) -> (view: [ControlByte; 16]) {
        proof {
            ctrl.lemma_layout();
        }
        let first: ControlByte = ctrl.at(index);
        let mut buf: [ControlByte; 16] = [first; 16];
        let mut i: usize = 0;
        while i < 16
            invariant
                ctrl.wf(),
                index + 16 <= ctrl@.len(),
                ctrl@.len() <= usize::MAX,
                i <= 16,
                forall|j: int| 0 <= j < i ==> #[trigger] buf@[j]@ == ctrl@[index + j],
            decreases 16 - i,
        {
            let c: ControlByte = ctrl.at(index + i);
            buf[i] = c;
            i = i + 1;
        }
        assert(Self::view_bytes(buf) =~= ctrl@.subrange(index as int, index + 16));
        buf
    }

    /// Lanes equal to `tag`: for a tag below 0x80, the full bytes with that
    /// tag.
    open spec fn tag_matches(b: u8, tag: u8) -> bool {
        b == tag
    }

    proof fn lemma_tag_matches(b: u8, tag: u8) {
    }

    fn match_tag(view: [ControlByte; 16], tag: u8) -> (m: BitMask) {
        lanes_equal_to(view, tag)
    }

    fn match_empty(view: [ControlByte; 16]) -> (m: BitMask) {
        lanes_equal_to(view, ControlByte::EMPTY)
    }

    fn match_deleted(view: [ControlByte; 16]) -> (m: BitMask) {
        lanes_equal_to(view, ControlByte::DELETED)
    }
}

} // verus!
