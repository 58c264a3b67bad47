use miso::control::{
    ctrl_deleted, ctrl_empty, ctrl_h2, ctrl_sentinel, is_deleted, is_empty, is_full, ControlByte,
    ControlBytes,
};

#[test]
fn control_byte_states() {
    let empty = ControlByte::from(ControlByte::EMPTY);
    assert!(empty.is_empty());
    assert!(!empty.is_full());
    assert!(!empty.is_deleted());
    let deleted = ControlByte::from(ControlByte::DELETED);
    assert!(deleted.is_deleted());
    assert!(!deleted.is_full());
    assert!(!deleted.is_empty());
    let sentinel = ControlByte::from(ControlByte::SENTINEL);
    assert!(!sentinel.is_full());
    assert!(!sentinel.is_empty());
    assert!(!sentinel.is_deleted());
    let full = ControlByte::from(0x2A);
    assert!(full.is_full());
    assert_eq!(full.tag(), 0x2A);
}

#[test]
fn control_byte_from_tag_keeps_low_bits() {
    let b = ControlByte::from_tag(0x85);
    assert!(b.is_full());
    assert_eq!(b.tag(), 0x05);
    assert_eq!(ControlByte::from_tag(0x7F).tag(), 0x7F);
    assert_eq!(ControlByte::from_tag(0).tag(), 0);
    assert_eq!(ControlByte::from(0xFE).tag(), 0x7E);
}

#[test]
fn control_free_functions() {
    assert_eq!(ctrl_empty(), 0x80);
    assert_eq!(ctrl_deleted(), 0xFE);
    assert_eq!(ctrl_sentinel(), 0xFF);
    assert_eq!(ctrl_h2(0x9F), 0x1F);
    assert!(is_full(0x10));
    assert!(!is_full(0x80));
    assert!(is_empty(0x80));
    assert!(is_deleted(0xFE));
    assert!(!is_deleted(0xFF));
}

#[test]
fn control_bytes_new_layout() {
    let cb = ControlBytes::new(32);
    assert_eq!(cb.capacity(), 32);
    for i in 0..32 {
        assert!(cb.at(i).is_empty());
    }
    assert_eq!(cb.at(32), ControlByte::from(ControlByte::SENTINEL));
    for i in 33..48 {
        assert!(cb.at(i).is_empty());
    }
}

#[test]
fn control_bytes_set_full_mirrors_first_slots() {
    let mut cb = ControlBytes::new(32);
    cb.set_full(3, 0x91);
    assert!(cb.at(3).is_full());
    assert_eq!(cb.at(3).tag(), 0x11);
    assert_eq!(cb.at(32 + 3 + 1), cb.at(3));
    cb.set_full(20, 0x22);
    assert_eq!(cb.at(20).tag(), 0x22);
    for i in 33..48 {
        if i != 36 {
            assert!(cb.at(i).is_empty());
        }
    }
}

#[test]
fn control_bytes_set_deleted_and_empty() {
    let mut cb = ControlBytes::new(16);
    cb.set_full(14, 0x01);
    assert_eq!(cb.at(16 + 14 + 1).tag(), 0x01);
    cb.set_deleted(14);
    assert!(cb.at(14).is_deleted());
    assert!(cb.at(31).is_deleted());
    cb.set_empty(14);
    assert!(cb.at(14).is_empty());
    assert!(cb.at(31).is_empty());
    cb.set_deleted(15);
    assert!(cb.at(15).is_deleted());
    assert_eq!(cb.at(16), ControlByte::from(ControlByte::SENTINEL));
}

#[test]
fn control_bytes_table_idx() {
    let cb = ControlBytes::new(32);
    assert_eq!(cb.table_idx(10, 5), 15);
    assert_eq!(cb.table_idx(30, 1), 31);
    assert_eq!(cb.table_idx(30, 3), 0);
    assert_eq!(cb.table_idx(31, 15), 13);
}


#[test]
fn control_byte_named_values() {
    assert!(ControlByte::empty_b().is_empty());
    assert!(ControlByte::deleted_b().is_deleted());
    assert_eq!(ControlByte::sentinel_b(), ControlByte::from(0xFF));
    assert_eq!(ControlByte::empty_b(), ControlByte::from(ControlByte::EMPTY));
    assert_eq!(ControlByte::deleted_b(), ControlByte::from(ControlByte::DELETED));
}
