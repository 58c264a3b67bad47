//! Control bytes: one byte per slot that says whether the slot is empty,
//! deleted (a tombstone) or full, and for a full slot holds seven bits of the
//! key's hash. The array of control bytes has sixteen bytes more than the
//! table has slots: a sentinel after the last slot, then copies of the first
//! fifteen slots' bytes, so that sixteen bytes read from any slot index stay
//! inside the array.

use vstd::prelude::*;

verus! {

/// The byte of an empty slot.
pub open spec fn empty_byte() -> u8 {
    0x80u8
}

/// The byte of a deleted slot.
pub open spec fn deleted_byte() -> u8 {
    0xFEu8
}

/// The byte that stands after the last slot.
pub open spec fn sentinel_byte() -> u8 {
    0xFFu8
}

/// A byte of a full slot: its top bit is clear.
pub open spec fn is_full_byte(b: u8) -> bool {
    b < 0x80
}

/// The bytes a slot of a well-formed table can hold.
pub open spec fn is_slot_byte(b: u8) -> bool {
    is_full_byte(b) || b == empty_byte() || b == deleted_byte()
}

/// A byte is full exactly when its top bit is clear.
pub proof fn lemma_full_iff_top_bit_clear(b: u8)
    ensures
        (b & 0x80u8 == 0u8) <==> b < 0x80u8,
        b & 0x7Fu8 == b % 128,
        b < 0x80u8 ==> b & 0x7Fu8 == b,
{
    assert((b & 0x80u8 == 0u8) <==> b < 0x80u8) by (bit_vector);
    assert(b & 0x7Fu8 == b % 128) by (bit_vector);
}

/// The control byte of one slot.
#[derive(Debug, Clone, Copy, PartialEq, Eq, Structural)]
pub struct ControlByte(u8);

impl View for ControlByte {
    type V = u8;

    closed spec fn view(&self) -> u8 {
        self.0
    }
}

impl ControlByte {
    /// The byte of an empty slot.
    pub const EMPTY: u8 = 0x80;

    /// The byte of a deleted slot.
    pub const DELETED: u8 = 0xFE;

    /// The byte after the last slot.
    pub const SENTINEL: u8 = 0xFF;

    /// The control byte of an empty slot.
    pub fn empty_b() -> (r: Self)
        ensures
            r@ == empty_byte(),
    {
        ControlByte(Self::EMPTY)
    }

    /// The control byte of a deleted slot.
    pub fn deleted_b() -> (r: Self)
        ensures
            r@ == deleted_byte(),
    {
        ControlByte(Self::DELETED)
    }

    /// The control byte after the last slot.
    pub fn sentinel_b() -> (r: Self)
        ensures
            r@ == sentinel_byte(),
    {
        ControlByte(Self::SENTINEL)
    }

    /// Whether the slot is full: the top bit is clear.
    pub fn is_full(self) -> (r: bool)
        ensures
            r == is_full_byte(self@),
    {
        proof {
            lemma_full_iff_top_bit_clear(self.0);
        }
        self.0 & 0x80 == 0
    }

    /// Whether the slot is empty.
    pub fn is_empty(self) -> (r: bool)
        ensures
            r == (self@ == empty_byte()),
    {
        self.0 == Self::EMPTY
    }

    /// Whether the slot is deleted.
    pub fn is_deleted(self) -> (r: bool)
        ensures
            r == (self@ == deleted_byte()),
    {
        self.0 == Self::DELETED
    }

    /// The low seven bits, which for a full slot are the hash tag.
    pub fn tag(self) -> (r: u8)
        ensures
            r == self@ % 128,
            is_full_byte(self@) ==> r == self@,
    {
        proof {
            lemma_full_iff_top_bit_clear(self.0);
        }
        return self.0 & 0x7F;
    }

    /// The control byte of a full slot with tag `tag` (only its low seven
    /// bits are kept).
    pub fn from_tag(tag: u8) -> (r: Self)
        ensures
            r@ == tag % 128,
            is_full_byte(r@),
    {
        proof {
            lemma_full_iff_top_bit_clear(tag);
        }
        ControlByte(tag & 0x7F)
    }
}

impl From<u8> for ControlByte {
    fn from(byte: u8) -> (r: ControlByte) {
        ControlByte(byte)
    }
}

impl vstd::std_specs::convert::FromSpecImpl<u8> for ControlByte {
    open spec fn obeys_from_spec() -> bool {
        true
    }

    closed spec fn from_spec(byte: u8) -> ControlByte {
        ControlByte(byte)
    }
}

/// Two control bytes are equal exactly when their values are.
pub proof fn lemma_view_injective(a: ControlByte, b: ControlByte)
    ensures
        a@ == b@ <==> a == b,
{
}

/// Converting a byte keeps it as the control byte's value.
pub proof fn lemma_from_byte(byte: u8)
    ensures
        <ControlByte as vstd::std_specs::convert::FromSpec<u8>>::from_spec(byte)@ == byte,
{
}

/// The byte of an empty slot.
pub fn ctrl_empty() -> (r: u8)
    ensures
        r == empty_byte(),
{
    ControlByte::EMPTY
}

/// The byte of a deleted slot.
pub fn ctrl_deleted() -> (r: u8)
    ensures
        r == deleted_byte(),
{
    ControlByte::DELETED
}

/// The byte after the last slot.
pub fn ctrl_sentinel() -> (r: u8)
    ensures
        r == sentinel_byte(),
{
    ControlByte::SENTINEL
}

/// The tag held in a control byte: its low seven bits.
pub fn ctrl_h2(byte: u8) -> (r: u8)
    ensures
        r == byte % 128,
        is_full_byte(byte) ==> r == byte,
{
    ControlByte::from(byte).tag()
}

/// Whether a control byte is that of a full slot.
pub fn is_full(byte: u8) -> (r: bool)
    ensures
        r == is_full_byte(byte),
{
    ControlByte::from(byte).is_full()
}

/// Whether a control byte is that of an empty slot.
pub fn is_empty(byte: u8) -> (r: bool)
    ensures
        r == (byte == empty_byte()),
{
    ControlByte::from(byte).is_empty()
}

/// Whether a control byte is that of a deleted slot.
pub fn is_deleted(byte: u8) -> (r: bool)
    ensures
        r == (byte == deleted_byte()),
{
    ControlByte::from(byte).is_deleted()
}

/// The control bytes of a table of `capacity` slots, with the sixteen bytes
/// that follow them.
#[derive(Debug)]
pub struct ControlBytes {
    bytes: Vec<ControlByte>,
    capacity: usize,
}

/// The array layout: `capacity` slot bytes, each empty, deleted or full; the
/// sentinel; then a copy of each of the first fifteen slot bytes (an empty
/// byte where there is no such slot).
pub open spec fn layout_ok(s: Seq<u8>, capacity: int) -> bool {
    &&& s.len() == capacity + 16
    &&& forall|i: int| 0 <= i < capacity ==> is_slot_byte(#[trigger] s[i])
    &&& s[capacity] == sentinel_byte()
    &&& forall|j: int|
        0 <= j < 15 ==> #[trigger] s[capacity + 1 + j] == (if j < capacity {
            s[j]
        } else {
            empty_byte()
        })
}

/// The slot that index `p` of the array stands for: the index itself below
/// `capacity`, the copied slot above it.
pub open spec fn pos_slot(p: int, capacity: int) -> int {
    if p < capacity {
        p
    } else {
        p - capacity - 1
    }
}

/// Every index of the array but the sentinel holds the byte of the slot it
/// stands for.
pub proof fn lemma_pos_byte(s: Seq<u8>, capacity: int, p: int)
    requires
        layout_ok(s, capacity),
        capacity >= 15,
        0 <= p < capacity + 16,
        p != capacity,
    ensures
        0 <= pos_slot(p, capacity) < capacity,
        s[p] == s[pos_slot(p, capacity)],
        is_slot_byte(s[p]),
{
    if p > capacity {
        let j = p - capacity - 1;
        assert(s[capacity + 1 + j] == s[j]);
    }
}

/// The array after slot `idx` (below `capacity`) is set to `b`, with its
/// copy when it has one.
pub open spec fn set_slot(s: Seq<u8>, capacity: int, idx: int, b: u8) -> Seq<u8> {
    if idx < 15 {
        s.update(idx, b).update(capacity + 1 + idx, b)
    } else {
        s.update(idx, b)
    }
}

/// Setting a slot to a slot byte keeps the layout.
pub proof fn lemma_set_slot_layout(s: Seq<u8>, capacity: int, idx: int, b: u8)
    requires
        layout_ok(s, capacity),
        0 <= idx < capacity,
        is_slot_byte(b),
    ensures
        layout_ok(set_slot(s, capacity, idx, b), capacity),
        set_slot(s, capacity, idx, b)[idx] == b,
        forall|i: int|
            0 <= i < capacity && i != idx ==> #[trigger] set_slot(s, capacity, idx, b)[i] == s[i],
{
    let t = set_slot(s, capacity, idx, b);
    assert forall|j: int| 0 <= j < 15 implies #[trigger] t[capacity + 1 + j] == (if j < capacity {
        t[j]
    } else {
        empty_byte()
    }) by {
        if j == idx {
        } else {
            assert(t[capacity + 1 + j] == s[capacity + 1 + j]);
        }
    }
}

impl View for ControlBytes {
    type V = Seq<u8>;

    closed spec fn view(&self) -> Seq<u8> {
        self.bytes@.map_values(|c: ControlByte| c@)
    }
}

impl ControlBytes {
    /// The number of slots.
    pub closed spec fn spec_capacity(self) -> nat {
        self.capacity as nat
    }

    /// The array holds `capacity + 16` bytes laid out as `layout_ok` says.
    pub closed spec fn wf(self) -> bool {
        &&& self.capacity + 16 <= usize::MAX
        &&& self.bytes@.len() == self.capacity + 16
        &&& layout_ok(self@, self.capacity as int)
    }

    /// What well-formedness says of the bytes.
    pub proof fn lemma_layout(self)
        requires
            self.wf(),
        ensures
            self@.len() == self.spec_capacity() + 16,
            self.spec_capacity() + 16 <= usize::MAX,
            layout_ok(self@, self.spec_capacity() as int),
    {
    }

    /// Control bytes for `capacity` empty slots.
    pub fn new(capacity: usize) -> (r: Self)
        requires
            capacity + 16 <= usize::MAX,
        ensures
            r.wf(),
            r.spec_capacity() == capacity,
            r@.len() == capacity + 16,
            forall|i: int|
                0 <= i < capacity + 16 && i != capacity ==> #[trigger] r@[i] == empty_byte(),
            r@[capacity as int] == sentinel_byte(),
    {
        let mut bytes: Vec<ControlByte> = Vec::new();
        let total: usize = capacity + 16;
        let mut i: usize = 0;
        while i < total
            invariant
                i <= total,
                total == capacity + 16,
                bytes@.len() == i,
                forall|j: int| 0 <= j < i ==> #[trigger] bytes@[j]@ == empty_byte(),
            decreases total - i,
        {
            bytes.push(ControlByte::empty_b());
            i = i + 1;
        }
        bytes[capacity] = ControlByte::sentinel_b();
        let r = ControlBytes { bytes, capacity };
        proof {
            assert(r@.len() == capacity + 16);
            assert forall|j: int| 0 <= j < capacity + 16 && j != capacity implies #[trigger] r@[j]
                == empty_byte() by {
                assert(r.bytes@[j]@ == empty_byte());
            }
            assert forall|j: int| 0 <= j < 15 implies #[trigger] r@[capacity + 1 + j] == (if j
                < capacity {
                r@[j]
            } else {
                empty_byte()
            }) by {
                assert(r@[capacity + 1 + j] == empty_byte());
                if j < capacity {
                    assert(r@[j] == empty_byte());
                }
            }
        }
        r
    }

    /// The number of slots.
    pub fn capacity(&self) -> (r: usize)
        ensures
            r == self.spec_capacity(),
    {
        self.capacity
    }

    /// The byte at index `idx` of the array.
    pub fn at(&self, idx: usize) -> (r: ControlByte)
        requires
            self.wf(),
            idx < self@.len(),
        ensures
            r@ == self@[idx as int],
    {
        self.bytes[idx]
    }

    /// The index of the copy of slot `idx`, when it has one.
    fn clone_idx(&self, idx: usize) -> (r: Option<usize>)
        requires
            self.capacity + 16 <= usize::MAX,
            idx < self.spec_capacity(),
        ensures
            idx < 15 ==> r == Some((self.spec_capacity() + 1 + idx) as usize),
            idx >= 15 ==> r is None,
    {
        if idx >= 15 {
            return None;
        }
        let clone_idx: usize = self.capacity + idx + 1;
        Some(clone_idx)
    }

    /// The slot that index `index + hit` of the array stands for.
    pub fn table_idx(&self, index: usize, hit: usize) -> (r: usize)
        requires
            self.wf(),
            self.spec_capacity() >= 16,
            index < self.spec_capacity(),
            hit < 16,
            index + hit != self.spec_capacity(),
        ensures
            r == pos_slot(index + hit, self.spec_capacity() as int),
            r < self.spec_capacity(),
    {
        let pos: usize = index + hit;
        if pos < self.capacity {
            pos
        } else {
            pos - self.capacity - 1
        }
    }

    /// Writes `byte` at slot `idx` and at its copy.
    fn set_slot_byte(&mut self, idx: usize, byte: ControlByte)
        requires
            old(self).wf(),
            idx < old(self).spec_capacity(),
            is_slot_byte(byte@),
        ensures
            final(self).wf(),
            final(self).spec_capacity() == old(self).spec_capacity(),
            final(self)@ == set_slot(old(self)@, old(self).spec_capacity() as int, idx as int, byte@),
    {
        proof {
            lemma_set_slot_layout(old(self)@, self.capacity as int, idx as int, byte@);
        }
        self.bytes[idx] = byte;
        if let Some(clone_idx) = self.clone_idx(idx) {
            self.bytes[clone_idx] = self.bytes[idx];
        }
        assert(self@ =~= set_slot(old(self)@, old(self).spec_capacity() as int, idx as int, byte@));
    }

    /// Marks slot `idx` full with tag `tag` (its low seven bits).
    pub fn set_full(&mut self, idx: usize, tag: u8)
        requires
            old(self).wf(),
            idx < old(self).spec_capacity(),
        ensures
            final(self).wf(),
            final(self).spec_capacity() == old(self).spec_capacity(),
            final(self)@ == set_slot(old(self)@, old(self).spec_capacity() as int, idx as int, tag % 128),
    {
        let b = ControlByte::from_tag(tag);
        self.set_slot_byte(idx, b);
    }

    /// Marks slot `idx` deleted.
    pub fn set_deleted(&mut self, idx: usize)
        requires
            old(self).wf(),
            idx < old(self).spec_capacity(),
        ensures
            final(self).wf(),
            final(self).spec_capacity() == old(self).spec_capacity(),
            final(self)@ == set_slot(old(self)@, old(self).spec_capacity() as int, idx as int, deleted_byte()),
    {
        self.set_slot_byte(idx, ControlByte::deleted_b());
    }

    /// Marks slot `idx` empty.
    pub fn set_empty(&mut self, idx: usize)
        requires
            old(self).wf(),
            idx < old(self).spec_capacity(),
        ensures
            final(self).wf(),
            final(self).spec_capacity() == old(self).spec_capacity(),
            final(self)@ == set_slot(old(self)@, old(self).spec_capacity() as int, idx as int, empty_byte()),
    {
        self.set_slot_byte(idx, ControlByte::empty_b());
    }
}

} // verus!
