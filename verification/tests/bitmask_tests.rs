use miso::bitmask::BitMask;

#[test]
fn bitmask_zero_has_nothing() {
    let m = BitMask::zero();
    assert!(!m.any());
    assert_eq!(m.lsb_idx(), 16);
}

#[test]
fn bitmask_set_and_lsb() {
    let mut m = BitMask::zero();
    m.set(9);
    assert!(m.any());
    assert_eq!(m.lsb_idx(), 9);
    m.set(4);
    assert_eq!(m.lsb_idx(), 4);
    m.set(15);
    assert_eq!(m.lsb_idx(), 4);
}

#[test]
fn bitmask_set_is_idempotent() {
    let mut a = BitMask::zero();
    a.set(3);
    a.set(3);
    let mut it = a.into_iter();
    assert_eq!(it.next(), Some(3));
    assert_eq!(it.next(), None);
}

#[test]
fn bitmask_from_u16() {
    let m = BitMask::from_u16(0b1000_0000_0000_0000);
    assert!(m.any());
    assert_eq!(m.lsb_idx(), 15);
    assert!(!BitMask::from_u16(0).any());
    assert_eq!(BitMask::from_u16(0).lsb_idx(), 16);
}

#[test]
fn bitmask_iter_yields_positions_in_order() {
    let m = BitMask::from_u16(0b1010_0000_0000_0101);
    let mut it = m.into_iter();
    let mut seen = Vec::new();
    while let Some(i) = it.next() {
        seen.push(i);
    }
    assert_eq!(seen, vec![0, 2, 13, 15]);
    assert_eq!(it.next(), None);
}

#[test]
fn bitmask_iter_all_sixteen() {
    let mut it = BitMask::from_u16(0xFFFF).into_iter();
    for i in 0..16 {
        assert_eq!(it.next(), Some(i));
    }
    assert_eq!(it.next(), None);
}

#[test]
fn bitmask_iter_stays_none() {
    let mut it = BitMask::from_u16(0b10).into_iter();
    assert_eq!(it.next(), Some(1));
    for _ in 0..5 {
        assert_eq!(it.next(), None);
    }
    let mut empty = BitMask::zero().into_iter();
    assert_eq!(empty.next(), None);
    assert_eq!(empty.next(), None);
}
