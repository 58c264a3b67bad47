use miso::bitmask::BitMask;
use miso::control::ControlBytes;
use miso::group::Group;
use miso::neon::NeonGroup;
use miso::scalar::ScalarOps;

fn positions(m: BitMask) -> Vec<usize> {
    let mut it = m.into_iter();
    let mut out = Vec::new();
    while let Some(i) = it.next() {
        out.push(i);
    }
    out
}

fn sample() -> ControlBytes {
    let mut cb = ControlBytes::new(32);
    cb.set_full(0, 0x11);
    cb.set_full(2, 0x22);
    cb.set_full(5, 0x11);
    cb.set_deleted(7);
    cb.set_full(30, 0x11);
    cb.set_deleted(31);
    cb
}

#[test]
fn group_scalar_matches() {
    let cb = sample();
    let g = Group::<ScalarOps>::load(&cb, 0);
    assert_eq!(positions(g.match_tag(0x11)), vec![0, 5]);
    assert_eq!(positions(g.match_tag(0x22)), vec![2]);
    assert_eq!(positions(g.match_tag(0x33)), Vec::<usize>::new());
    assert_eq!(positions(g.match_deleted()), vec![7]);
    assert_eq!(
        positions(g.match_empty()),
        vec![1, 3, 4, 6, 8, 9, 10, 11, 12, 13, 14, 15]
    );
}

#[test]
fn group_scalar_tag_ignores_empty_byte() {
    let cb = ControlBytes::new(16);
    let g = Group::<ScalarOps>::load(&cb, 0);
    assert!(!g.match_tag(0x80).any());
    assert!(!g.match_tag(0x00).any());
}

#[test]
fn group_wraps_through_sentinel_and_copies() {
    let cb = sample();
    // positions 0..16 of this window are slots 30, 31, the sentinel, then
    // the copies of slots 0..12
    let g = Group::<ScalarOps>::load(&cb, 30);
    assert_eq!(positions(g.match_tag(0x11)), vec![0, 3, 8]);
    assert_eq!(positions(g.match_deleted()), vec![1, 10]);
    assert!(!positions(g.match_empty()).contains(&2));
}

#[test]
fn group_scalar_and_neon_agree() {
    let cb = sample();
    for index in 0..32 {
        let s = Group::<ScalarOps>::load(&cb, index);
        let n = Group::<NeonGroup>::load(&cb, index);
        for tag in [0x11u8, 0x22, 0x33, 0x00, 0x7F] {
            assert_eq!(positions(s.match_tag(tag)), positions(n.match_tag(tag)));
        }
        assert_eq!(positions(s.match_empty()), positions(n.match_empty()));
        assert_eq!(positions(s.match_deleted()), positions(n.match_deleted()));
    }
}
