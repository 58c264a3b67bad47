//! The portable group queries: one control byte at a time.

use vstd::prelude::*;
use crate::bitmask::BitMask;
use crate::control::{ControlByte, ControlBytes, empty_byte, deleted_byte};
use crate::group::{GroupOps, matches_tag};

verus! {

/// Group queries that test the sixteen bytes one by one.
pub struct ScalarOps;

impl GroupOps for ScalarOps {
    type View = [ControlByte; 16];

    open spec fn view_bytes(view: [ControlByte; 16]) -> Seq<u8> {
        view@.map_values(|c: ControlByte| c@)
    }

    fn load(ctrl: &ControlBytes, index: usize) -> (view: [ControlByte; 16]) {
        proof {
            ctrl.lemma_layout();
        }
        let first: ControlByte = ctrl.at(index);
        let mut buf: [ControlByte; 16] = [first; 16];
        let mut i: usize = 0;
        while i < 16
            invariant
                ctrl.wf(),
                index + 16 <= ctrl@.len(),
                ctrl@.len() <= usize::MAX,
                i <= 16,
                forall|j: int| 0 <= j < i ==> #[trigger] buf@[j]@ == ctrl@[index + j],
            decreases 16 - i,
        {
            let c: ControlByte = ctrl.at(index + i);
            buf[i] = c;
            i = i + 1;
        }
        assert(Self::view_bytes(buf) =~= ctrl@.subrange(index as int, index + 16));
        buf
    }

    /// Full bytes with tag `tag`, for every tag.
    open spec fn tag_matches(b: u8, tag: u8) -> bool {
        matches_tag(b, tag)
    }

    proof fn lemma_tag_matches(b: u8, tag: u8) {
    }

    fn match_tag(view: [ControlByte; 16], tag: u8) -> (m: BitMask) {
        let mut mask = BitMask::zero();
        let mut i: usize = 0;
        while i < 16
            invariant
                i <= 16,
                forall|j: int| #[trigger] mask.has(j) <==> 0 <= j < i && matches_tag(
                    Self::view_bytes(view)[j],
                    tag,
                ),
            decreases 16 - i,
        {
            let byte: ControlByte = view[i];
            if byte.is_full() {
                if byte.tag() == tag {
                    mask.set(i);
                }
            }
            i = i + 1;
        }
        mask
    }

    fn match_deleted(view: [ControlByte; 16]) -> (m: BitMask) {
        let mut mask = BitMask::zero();
        let mut i: usize = 0;
        while i < 16
            invariant
                i <= 16,
                forall|j: int| #[trigger] mask.has(j) <==> 0 <= j < i && Self::view_bytes(view)[j]
                    == deleted_byte(),
            decreases 16 - i,
        {
            if view[i].is_deleted() {
                mask.set(i);
            }
            i = i + 1;
        }
        mask
    }

    fn match_empty(view: [ControlByte; 16]) -> (m: BitMask) {
        let mut mask = BitMask::zero();
        let mut i: usize = 0;
        while i < 16
            invariant
                i <= 16,
                forall|j: int| #[trigger] mask.has(j) <==> 0 <= j < i && Self::view_bytes(view)[j]
                    == empty_byte(),
            decreases 16 - i,
        {
            if view[i].is_empty() {
                mask.set(i);
            }
            i = i + 1;
        }
        mask
    }
}

} // verus!
