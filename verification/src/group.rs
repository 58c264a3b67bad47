//! A group: sixteen consecutive control bytes, loaded at once and queried
//! for the positions that hold a given tag, an empty byte or a deleted byte.

use vstd::prelude::*;
use crate::bitmask::BitMask;
use crate::control::{ControlBytes, is_full_byte, empty_byte, deleted_byte};

verus! {

/// Whether a control byte is that of a full slot with tag `tag`.
pub open spec fn matches_tag(b: u8, tag: u8) -> bool {
    is_full_byte(b) && b == tag
}

/// The three queries of a group, over some representation of its sixteen
/// bytes.
pub trait GroupOps {
    type View: Copy;

    /// The sixteen bytes a loaded group holds.
    spec fn view_bytes(view: Self::View) -> Seq<u8>;

    /// Loads the sixteen bytes that start at index `index` of the array.
    fn load(ctrl: &ControlBytes, index: usize) -> (view: Self::View)
        requires
            ctrl.wf(),
            index + 16 <= ctrl@.len(),
        ensures
            Self::view_bytes(view) == ctrl@.subrange(index as int, index + 16),
    ;

    /// Which bytes the tag query reports for `tag`.
    spec fn tag_matches(b: u8, tag: u8) -> bool;

    /// For a tag below 0x80 (the tags the maps store) the tag query reports
    /// exactly the full bytes with that tag.
    proof fn lemma_tag_matches(b: u8, tag: u8)
        requires
            tag < 0x80,
        ensures
            Self::tag_matches(b, tag) == matches_tag(b, tag),
    ;

    /// The positions whose byte the tag query reports for `tag`.
    fn match_tag(view: Self::View, tag: u8) -> (m: crate::bitmask::BitMask)
        requires
            Self::view_bytes(view).len() == 16,
        ensures
            forall|j: int| #[trigger] m.has(j) <==> 0 <= j < 16 && Self::tag_matches(
                Self::view_bytes(view)[j],
                tag,
            ),
    ;

    /// The positions that hold a deleted byte.
    fn match_deleted(view: Self::View) -> (m: crate::bitmask::BitMask)
        requires
            Self::view_bytes(view).len() == 16,
        ensures
            forall|j: int| #[trigger] m.has(j) <==> 0 <= j < 16 && Self::view_bytes(view)[j]
                == deleted_byte(),
    ;

    /// The positions that hold an empty byte.
    fn match_empty(view: Self::View) -> (m: crate::bitmask::BitMask)
        requires
            Self::view_bytes(view).len() == 16,
        ensures
            forall|j: int| #[trigger] m.has(j) <==> 0 <= j < 16 && Self::view_bytes(view)[j]
                == empty_byte(),
    ;
}

/// Sixteen loaded control bytes.
pub struct Group<G: GroupOps> {
    view: G::View,
}

impl<G: GroupOps> Group<G> {
    /// The sixteen bytes of the group.
    pub closed spec fn bytes(self) -> Seq<u8> {
        G::view_bytes(self.view)
    }

    /// Loads the sixteen bytes that start at index `index` of the array.
    pub fn load(ctrl: &ControlBytes, index: usize) -> (g: Self)
        requires
            ctrl.wf(),
            index + 16 <= ctrl@.len(),
        ensures
            g.bytes() == ctrl@.subrange(index as int, index + 16),
    {
        Group { view: G::load(ctrl, index) }
    }

    /// The positions whose byte the tag query of `G` reports for `tag`; for
    /// a tag below 0x80, the full bytes with that tag.
    pub fn match_tag(&self, tag: u8) -> (m: BitMask)
        requires
            self.bytes().len() == 16,
        ensures
            forall|j: int| #[trigger] m.has(j) <==> 0 <= j < 16 && G::tag_matches(
                self.bytes()[j],
                tag,
            ),
            tag < 0x80 ==> forall|j: int| #[trigger] m.has(j) <==> 0 <= j < 16 && matches_tag(
                self.bytes()[j],
                tag,
            ),
    {
        proof {
            if tag < 0x80 {
                assert forall|j: int| 0 <= j < 16 implies G::tag_matches(self.bytes()[j], tag)
                    == matches_tag(self.bytes()[j], tag) by {
                    G::lemma_tag_matches(self.bytes()[j], tag);
                }
            }
        }
        G::match_tag(self.view, tag)
    }

    /// The positions that hold a deleted byte.
    pub fn match_deleted(&self) -> (m: BitMask)
        requires
            self.bytes().len() == 16,
        ensures
            forall|j: int| #[trigger] m.has(j) <==> 0 <= j < 16 && self.bytes()[j]
                == deleted_byte(),
    {
        G::match_deleted(self.view)
    }

    /// The positions that hold an empty byte.
    pub fn match_empty(&self) -> (m: BitMask)
        requires
            self.bytes().len() == 16,
        ensures
            forall|j: int| #[trigger] m.has(j) <==> 0 <= j < 16 && self.bytes()[j] == empty_byte(),
    {
        G::match_empty(self.view)
    }
}

} // verus!
