//! Sixteen-bit masks that say which of the sixteen control bytes of a group
//! matched a query, and an iterator over the positions of their set bits.

use vstd::prelude::*;
use vstd::std_specs::bits::{u16_trailing_zeros, axiom_u16_trailing_zeros};

verus! {

/// Whether bit `j` of `m` is set, for a position `j` of a group.
pub open spec fn bit_set(m: u16, j: int) -> bool {
    0 <= j < 16 && (m >> (j as u16)) & 1u16 == 1u16
}

/// A mask over the sixteen positions of a group: bit `j` is set when
/// position `j` matched.
#[derive(Debug, Clone, Copy)]
pub struct BitMask(u16);

impl BitMask {
    /// The raw sixteen bits.
    pub closed spec fn value(self) -> u16 {
        self.0
    }

    /// Whether position `j` is in the mask.
    pub open spec fn has(self, j: int) -> bool {
        bit_set(self.value(), j)
    }

    /// The mask with no position set.
    pub fn zero() -> (r: BitMask)
        ensures
            r.value() == 0,
            forall|j: int| !#[trigger] r.has(j),
    {
        proof {
            lemma_nonzero_has_bit(0);
        }
        BitMask(0)
    }

    /// Whether any position is set.
    pub fn any(&self) -> (r: bool)
        ensures
            r == (self.value() != 0),
            r <==> exists|j: int| 0 <= j < 16 && #[trigger] self.has(j),
    {
        proof {
            lemma_nonzero_has_bit(self.0);
            if self.0 != 0 {
                let t = choose|j: int| 0 <= j < 16 && #[trigger] bit_set(self.0, j);
                assert(self.has(t));
            }
        }
        self.0 != 0
    }

    /// The lowest set position, or 16 when no position is set.
    pub fn lsb_idx(&self) -> (r: usize)
        ensures
            r == u16_trailing_zeros(self.value()),
            r <= 16,
            r == 16 <==> self.value() == 0,
            r < 16 ==> self.has(r as int),
            forall|j: int| 0 <= j < r ==> !#[trigger] self.has(j),
    {
        proof {
            axiom_u16_trailing_zeros(self.0);
        }
        self.0.trailing_zeros() as usize
    }

    /// Sets position `i`.
    pub fn set(&mut self, i: usize)
        requires
            i < 16,
        ensures
            forall|j: int| #[trigger] final(self).has(j) == (old(self).has(j) || j == i),
            final(self).value() == old(self).value() | (1u16 << (i as u16)),
    {
        let s: u16 = i as u16;
        let m: u16 = self.0;
        proof {
            assert forall|j: int| #[trigger] bit_set(m | (1u16 << s), j) == (bit_set(m, j) || j == i) by {
                if 0 <= j < 16 {
                    let t: u16 = j as u16;
                    assert(((m | (1u16 << s)) >> t) & 1u16 == 1u16 <==> ((m >> t) & 1u16 == 1u16
                        || t == s)) by (bit_vector)
                        requires
                            s < 16,
                            t < 16,
                    ;
                }
            }
        }
        self.0 = m | (1u16 << s);
    }

    /// The mask whose bits are `mask`.
    pub fn from_u16(mask: u16) -> (r: BitMask)
        ensures
            r.value() == mask,
    {
        BitMask(mask)
    }

    /// An iterator over the set positions, lowest first.
    pub fn into_iter(self) -> (it: BitMaskIter)
        ensures
            it.remaining() == self.value(),
    {
        BitMaskIter { mask: self.0 }
    }
}

/// Every nonzero mask has a set bit below 16, and the zero mask has none.
pub proof fn lemma_nonzero_has_bit(m: u16)
    ensures
        (m != 0) <==> exists|j: int| 0 <= j < 16 && #[trigger] bit_set(m, j),
{
    axiom_u16_trailing_zeros(m);
    if m != 0 {
        let t = u16_trailing_zeros(m);
        assert(bit_set(m, t as int));
    } else {
        assert forall|j: int| 0 <= j < 16 implies !#[trigger] bit_set(m, j) by {
            let t: u16 = j as u16;
            assert((0u16 >> t) & 1u16 == 0u16) by (bit_vector);
        }
    }
}

/// A mask is determined by which of the sixteen positions it has.
pub proof fn lemma_mask_ext(a: BitMask, b: BitMask)
    requires
        forall|j: int| 0 <= j < 16 ==> #[trigger] a.has(j) == b.has(j),
    ensures
        a.value() == b.value(),
        a == b,
{
    let x = a.value();
    let y = b.value();
    assert(a.has(0) == b.has(0));
    assert(a.has(1) == b.has(1));
    assert(a.has(2) == b.has(2));
    assert(a.has(3) == b.has(3));
    assert(a.has(4) == b.has(4));
    assert(a.has(5) == b.has(5));
    assert(a.has(6) == b.has(6));
    assert(a.has(7) == b.has(7));
    assert(a.has(8) == b.has(8));
    assert(a.has(9) == b.has(9));
    assert(a.has(10) == b.has(10));
    assert(a.has(11) == b.has(11));
    assert(a.has(12) == b.has(12));
    assert(a.has(13) == b.has(13));
    assert(a.has(14) == b.has(14));
    assert(a.has(15) == b.has(15));
    assert(x == y) by (bit_vector)
        requires
            ((x >> 0u16) & 1u16 == 1u16) == ((y >> 0u16) & 1u16 == 1u16),
            ((x >> 1u16) & 1u16 == 1u16) == ((y >> 1u16) & 1u16 == 1u16),
            ((x >> 2u16) & 1u16 == 1u16) == ((y >> 2u16) & 1u16 == 1u16),
            ((x >> 3u16) & 1u16 == 1u16) == ((y >> 3u16) & 1u16 == 1u16),
            ((x >> 4u16) & 1u16 == 1u16) == ((y >> 4u16) & 1u16 == 1u16),
            ((x >> 5u16) & 1u16 == 1u16) == ((y >> 5u16) & 1u16 == 1u16),
            ((x >> 6u16) & 1u16 == 1u16) == ((y >> 6u16) & 1u16 == 1u16),
            ((x >> 7u16) & 1u16 == 1u16) == ((y >> 7u16) & 1u16 == 1u16),
            ((x >> 8u16) & 1u16 == 1u16) == ((y >> 8u16) & 1u16 == 1u16),
            ((x >> 9u16) & 1u16 == 1u16) == ((y >> 9u16) & 1u16 == 1u16),
            ((x >> 10u16) & 1u16 == 1u16) == ((y >> 10u16) & 1u16 == 1u16),
            ((x >> 11u16) & 1u16 == 1u16) == ((y >> 11u16) & 1u16 == 1u16),
            ((x >> 12u16) & 1u16 == 1u16) == ((y >> 12u16) & 1u16 == 1u16),
            ((x >> 13u16) & 1u16 == 1u16) == ((y >> 13u16) & 1u16 == 1u16),
            ((x >> 14u16) & 1u16 == 1u16) == ((y >> 14u16) & 1u16 == 1u16),
            ((x >> 15u16) & 1u16 == 1u16) == ((y >> 15u16) & 1u16 == 1u16),
    ;
}

/// Yields the positions of the set bits of a mask, lowest first.
pub struct BitMaskIter {
    mask: u16,
}

impl BitMaskIter {
    /// The bits not yet yielded.
    pub closed spec fn remaining(self) -> u16 {
        self.mask
    }

    /// Yields the lowest remaining position and clears it, or `None` when
    /// no position remains.
    pub fn next(&mut self) -> (r: Option<usize>)
        ensures
            final(self).remaining() == clear_lowest(old(self).remaining()),
            old(self).remaining() == 0 ==> r is None && final(self).remaining() == 0,
            old(self).remaining() != 0 ==> {
                &&& r is Some
                &&& r->0 == u16_trailing_zeros(old(self).remaining())
                &&& r->0 < 16
                &&& final(self).remaining() < old(self).remaining()
                &&& bit_set(old(self).remaining(), r->0 as int)
                &&& forall|j: int| 0 <= j < r->0 ==> !#[trigger] bit_set(old(self).remaining(), j)
                &&& forall|j: int| #[trigger] bit_set(final(self).remaining(), j)
                    == (bit_set(old(self).remaining(), j) && j != r->0)
            },
    {
        proof {
            lemma_clear_lowest(self.mask);
        }
        if self.mask == 0 {
            return None;
        }
        let m: u16 = self.mask;
        let idx: u32 = m.trailing_zeros();
        self.mask = m & (m - 1);
        Some(idx as usize)
    }
}

/// The mask with its lowest set bit cleared (zero stays zero).
pub open spec fn clear_lowest(m: u16) -> u16 {
    m & ((m - 1) as u16)
}

/// Clearing the lowest set bit removes exactly the position of the trailing
/// zeros count, and makes the mask smaller.
pub proof fn lemma_clear_lowest(m: u16)
    ensures
        m == 0 ==> clear_lowest(m) == 0,
        m == 0 ==> u16_trailing_zeros(m) == 16,
        m != 0 ==> {
            &&& u16_trailing_zeros(m) < 16
            &&& bit_set(m, u16_trailing_zeros(m) as int)
            &&& forall|j: int| 0 <= j < u16_trailing_zeros(m) ==> !#[trigger] bit_set(m, j)
            &&& clear_lowest(m) < m
            &&& forall|j: int| #[trigger] bit_set(clear_lowest(m), j) == (bit_set(m, j) && j
                != u16_trailing_zeros(m))
        },
{
    axiom_u16_trailing_zeros(m);
    let p: u16 = (m - 1) as u16;
    if m == 0 {
        assert(m & p == 0u16) by (bit_vector)
            requires
                m == 0u16,
        ;
    } else {
        let t: u16 = u16_trailing_zeros(m) as u16;
        assert(m << ((16 - t) as u16) == 0u16);
        assert forall|j: int| 0 <= j < t implies !#[trigger] bit_set(m, j) by {
            let u: u16 = j as u16;
            assert((m >> u) & 1u16 == 0u16);
        }
        assert(bit_set(m, t as int));
        assert forall|j: int| #[trigger] bit_set(m & p, j) == (bit_set(m, j) && j != t) by {
            if 0 <= j < 16 {
                let u: u16 = j as u16;
                assert(((m & p) >> u) & 1u16 == 1u16 <==> ((m >> u) & 1u16 == 1u16 && u != t))
                    by (bit_vector)
                    requires
                        t < 16,
                        u < 16,
                        m != 0,
                        p == (m - 1) as u16,
                        (m >> t) & 1u16 == 1u16,
                        m << ((16 - t) as u16) == 0u16,
                ;
            }
        }
        assert(m & p < m) by (bit_vector)
            requires
                m != 0,
                p == (m - 1) as u16,
        ;
    }
}

/// What remains of mask `m` after `k` calls of `BitMaskIter::next`.
pub open spec fn remaining_after(m: u16, k: nat) -> u16
    decreases k,
{
    if k == 0 {
        m
    } else {
        clear_lowest(remaining_after(m, (k - 1) as nat))
    }
}

/// The position the `k`-th call of `BitMaskIter::next` (from zero) on mask
/// `m` yields, when what remains is not zero.
pub open spec fn yielded(m: u16, k: nat) -> int {
    u16_trailing_zeros(remaining_after(m, k)) as int
}

} // verus!
