use evm_loader::error::ProgramError;
use evm_loader::hamt::{Hamt, HAMT_MIN};

fn key(b: u8) -> [u8; 32] {
    let mut k = [0u8; 32];
    k[0] = b;
    k
}

fn fresh(len: usize) -> Hamt {
    Hamt::new(vec![0x5Au8; len], true).unwrap()
}

#[test]
fn reset_trie_holds_nothing() {
    let h = fresh(512);
    assert_eq!(h.find(&key(1)), None);
    assert_eq!(h.find(&[0u8; 32]), None);
    assert_eq!(h.find(&[0xFFu8; 32]), None);
}

#[test]
fn open_refuses_arena_below_control_prefix() {
    assert_eq!(Hamt::new(vec![0u8; HAMT_MIN - 1], true).err(), Some(ProgramError::AccountDataTooSmall));
    assert!(Hamt::new(vec![0u8; HAMT_MIN], false).is_ok());
}

#[test]
fn insert_then_find() {
    let mut h = fresh(4096);
    h.insert(&key(1), &[0x11; 32]).unwrap();
    h.insert(&key(2), &[0x22; 32]).unwrap();
    assert_eq!(h.find(&key(1)), Some([0x11; 32]));
    assert_eq!(h.find(&key(2)), Some([0x22; 32]));
    assert_eq!(h.find(&key(3)), None);
}

#[test]
fn replacing_keeps_only_the_last_value() {
    let mut h = fresh(4096);
    h.insert(&key(1), &[0x11; 32]).unwrap();
    h.insert(&key(1), &[0x12; 32]).unwrap();
    assert_eq!(h.find(&key(1)), Some([0x12; 32]));
}

#[test]
fn zero_value_is_stored_not_absent() {
    let mut h = fresh(4096);
    h.insert(&key(4), &[0u8; 32]).unwrap();
    assert_eq!(h.find(&key(4)), Some([0u8; 32]));
}

#[test]
fn keys_sharing_a_long_prefix() {
    let mut h = fresh(1 << 16);
    let mut a = [0xABu8; 32];
    let mut b = [0xABu8; 32];
    a[31] = 0;
    b[31] = 1;
    h.insert(&a, &[1u8; 32]).unwrap();
    h.insert(&b, &[2u8; 32]).unwrap();
    assert_eq!(h.find(&a), Some([1u8; 32]));
    assert_eq!(h.find(&b), Some([2u8; 32]));
    assert_eq!(h.remove(&a), Ok(Some([1u8; 32])));
    assert_eq!(h.find(&a), None);
    assert_eq!(h.find(&b), Some([2u8; 32]));
}

#[test]
fn remove_gives_old_value_and_unbinds() {
    let mut h = fresh(8192);
    for i in 0..20u8 {
        h.insert(&key(i), &[i; 32]).unwrap();
    }
    assert_eq!(h.remove(&key(7)), Ok(Some([7u8; 32])));
    assert_eq!(h.remove(&key(7)), Ok(None));
    for i in 0..20u8 {
        if i == 7 {
            assert_eq!(h.find(&key(i)), None);
        } else {
            assert_eq!(h.find(&key(i)), Some([i; 32]));
        }
    }
}

#[test]
fn sequence_of_inserts_and_removes_on_distinct_keys() {
    let mut h = fresh(1 << 20);
    let keys: Vec<[u8; 32]> = (0..64u8).map(|i| {
        let mut k = [0u8; 32];
        k[0] = i.wrapping_mul(37);
        k[5] = i;
        k[31] = 255 - i;
        k
    }).collect();
    for (i, k) in keys.iter().enumerate() {
        h.insert(k, &[i as u8; 32]).unwrap();
    }
    for (i, k) in keys.iter().enumerate() {
        if i % 3 == 0 {
            h.remove(k).unwrap();
        }
    }
    for (i, k) in keys.iter().enumerate() {
        if i % 5 == 0 {
            h.insert(k, &[200; 32]).unwrap();
        }
    }
    for (i, k) in keys.iter().enumerate() {
        let expected = if i % 5 == 0 { Some([200u8; 32]) } else if i % 3 == 0 { None } else { Some([i as u8; 32]) };
        assert_eq!(h.find(k), expected);
    }
}

#[test]
fn out_of_storage_leaves_arena_unchanged() {
    let mut h = fresh(HAMT_MIN + 194);
    h.insert(&key(1), &[1u8; 32]).unwrap();
    let before = h.data.clone();
    assert_eq!(h.insert(&key(2), &[2u8; 32]), Err(ProgramError::OutOfStorage));
    assert_eq!(h.data, before);
    assert_eq!(h.find(&key(1)), Some([1u8; 32]));
}

#[test]
fn reopening_without_reset_keeps_contents() {
    let mut h = fresh(4096);
    h.insert(&key(9), &[9u8; 32]).unwrap();
    let reopened = Hamt::new(h.data.clone(), false).unwrap();
    assert_eq!(reopened.find(&key(9)), Some([9u8; 32]));
    let wiped = Hamt::new(h.data, true).unwrap();
    assert_eq!(wiped.find(&key(9)), None);
}

#[test]
fn inserting_the_same_pair_again_changes_nothing() {
    let mut h = fresh(4096);
    h.insert(&key(3), &[0x33; 32]).unwrap();
    let before = h.data.clone();
    h.insert(&key(3), &[0x33; 32]).unwrap();
    assert_eq!(h.data, before);
    assert_eq!(h.find(&key(3)), Some([0x33; 32]));
}
