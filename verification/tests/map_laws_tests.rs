use miso::miso::Miso;
use miso::table::HashMap;

#[test]
fn capacity_is_least_power_of_two() {
    assert_eq!(Miso::<u32, u32>::with_capacity(0).capacity(), 16);
    assert_eq!(Miso::<u32, u32>::with_capacity(16).capacity(), 16);
    assert_eq!(Miso::<u32, u32>::with_capacity(17).capacity(), 32);
    assert_eq!(Miso::<u32, u32>::with_capacity(1000).capacity(), 1024);
    assert_eq!(Miso::<u32, u32>::new().capacity(), 1024);
    assert_eq!(HashMap::<u32, u32>::with_capacity(0).capacity(), 16);
    assert_eq!(HashMap::<u32, u32>::with_capacity(33).capacity(), 64);
    assert_eq!(HashMap::<u32, u32>::new().capacity(), 1024);
}

#[test]
fn table_get_after_insert_and_delete() {
    let mut map = HashMap::with_capacity(16);
    for i in 0..10u64 {
        assert_eq!(map.insert(i, i * 10), None);
    }
    for i in 0..10u64 {
        assert_eq!(map.get(&i), Some(&(i * 10)));
    }
    assert_eq!(map.delete(&3), Some(30));
    assert_eq!(map.get(&3), None);
    assert_eq!(map.get(&4), Some(&40));
    assert_eq!(map.len(), 9);
    assert_eq!(map.delete(&3), None);
    assert_eq!(map.len(), 9);
    assert_eq!(map.insert(3, 33), None);
    assert_eq!(map.get(&3), Some(&33));
    assert_eq!(map.len(), 10);
}

#[test]
fn miso_get_after_insert_and_delete() {
    let mut map = Miso::with_capacity(16);
    for i in 0..10u64 {
        assert_eq!(map.insert(i, i * 10), None);
    }
    for i in 0..10u64 {
        assert_eq!(map.get(&i), Some(&(i * 10)));
    }
    assert_eq!(map.delete(&3), Some(30));
    assert_eq!(map.get(&3), None);
    assert_eq!(map.len(), 9);
    assert_eq!(map.insert(3, 33), None);
    assert_eq!(map.get(&3), Some(&33));
}

#[test]
fn table_grows_at_seven_eighths() {
    let mut map = HashMap::with_capacity(16);
    // the 15th insertion finds 14 entries: (14 + 1) * 8 > 16 * 7; at 13
    // entries the load after one more would be exactly 7/8, which is kept
    for i in 0..14u32 {
        map.insert(i, ());
    }
    assert_eq!(map.capacity(), 16);
    map.insert(14, ());
    assert_eq!(map.capacity(), 32);
    for i in 0..15u32 {
        assert_eq!(map.get(&i), Some(&()));
    }
}

#[test]
fn miso_grows_at_seven_eighths() {
    let mut map = Miso::with_capacity(16);
    // the 15th insertion finds 14 entries: 14 * 8 >= 16 * 7
    for i in 0..14u32 {
        map.insert(i, ());
    }
    assert_eq!(map.capacity(), 16);
    map.insert(14, ());
    assert_eq!(map.capacity(), 32);
    for i in 0..15u32 {
        assert_eq!(map.get(&i), Some(&()));
    }
}

#[test]
fn table_overwrite_at_threshold_still_grows() {
    let mut map = HashMap::with_capacity(16);
    for i in 0..14u32 {
        map.insert(i, i);
    }
    assert_eq!(map.insert(0, 100), Some(0));
    assert_eq!(map.capacity(), 32);
    assert_eq!(map.len(), 14);
}

#[test]
fn table_tombstones_trigger_rehash_not_growth() {
    let mut map = HashMap::with_capacity(16);
    for round in 0..50u32 {
        map.insert(round, round);
        assert_eq!(map.delete(&round), Some(round));
    }
    assert_eq!(map.len(), 0);
    assert_eq!(map.capacity(), 16);
}

#[test]
fn miso_tombstones_trigger_rehash_not_growth() {
    let mut map = Miso::with_capacity(16);
    for round in 0..50u32 {
        map.insert(round, round);
        assert_eq!(map.delete(&round), Some(round));
    }
    assert_eq!(map.len(), 0);
    assert_eq!(map.capacity(), 16);
}

#[test]
fn table_full_cycle_many_keys() {
    let mut map = HashMap::new();
    for i in 0..3000u32 {
        map.insert(i, i + 1);
    }
    assert_eq!(map.len(), 3000);
    assert!(map.capacity() >= 4096);
    for i in (0..3000u32).step_by(2) {
        assert_eq!(map.delete(&i), Some(i + 1));
    }
    for i in 0..3000u32 {
        if i % 2 == 0 {
            assert_eq!(map.get(&i), None);
        } else {
            assert_eq!(map.get(&i), Some(&(i + 1)));
        }
    }
    assert_eq!(map.len(), 1500);
}

#[test]
fn miso_full_cycle_many_keys() {
    let mut map = Miso::new();
    for i in 0..3000u32 {
        map.insert(i, i + 1);
    }
    assert_eq!(map.len(), 3000);
    for i in (0..3000u32).step_by(2) {
        assert_eq!(map.delete(&i), Some(i + 1));
    }
    for i in 0..3000u32 {
        if i % 2 == 0 {
            assert_eq!(map.get(&i), None);
        } else {
            assert_eq!(map.get(&i), Some(&(i + 1)));
        }
    }
    assert_eq!(map.len(), 1500);
}

#[test]
fn maps_agree_on_string_keys() {
    let mut a = Miso::with_capacity(16);
    let mut b = HashMap::with_capacity(16);
    for i in 0..200 {
        let k = format!("key{}", i % 37);
        assert_eq!(a.insert(k.clone(), i), b.insert(k, i));
        if i % 5 == 0 {
            let d = format!("key{}", i % 11);
            assert_eq!(a.delete(&d), b.delete(&d));
        }
        assert_eq!(a.len(), b.len());
    }
    for i in 0..37 {
        let k = format!("key{}", i);
        assert_eq!(a.get(&k), b.get(&k));
    }
}
