use category_stats::hash::{add_to_hash, to_key, SEED};

#[test]
fn add_to_hash_rotates_xors_and_multiplies() {
    assert_eq!(SEED, 0x517cc1b727220a95);
    assert_eq!(add_to_hash(0, 0), 0);
    assert_eq!(add_to_hash(0, 1), 5871781006564002453);
    assert_eq!(add_to_hash(1, 0), 3429551472952562336);
    assert_eq!(add_to_hash(u64::MAX, u64::MAX), 0);
    assert_eq!(add_to_hash(1 << 63, 3), 883374682458736911);
}

#[test]
fn add_to_hash_matches_the_formula() {
    let xs: [u64; 5] = [0, 1, 0xdead_beef, u64::MAX, 1 << 59];
    let is: [u64; 4] = [0, 59, 255, u64::MAX];
    for x in xs.iter() {
        for i in is.iter() {
            assert_eq!(add_to_hash(*x, *i), (x.rotate_left(5) ^ i).wrapping_mul(SEED));
        }
    }
}

#[test]
fn to_key_folds_four_bytes_and_the_length() {
    assert_eq!(to_key(b"abcd"), 5170270237178390654);
    assert_eq!(to_key(b"Hamburg;12.0"), 17780851486112423711);
    assert_eq!(to_key(b"Hamburg;9.5"), 5205888418966874548);
    assert_eq!(to_key(b"Palermo;18.5"), 13157508500190348150);
}

#[test]
fn equal_inputs_have_equal_keys() {
    let a = b"Palermo;18.5".to_vec();
    let b = b"Palermo;18.5".to_vec();
    assert_eq!(to_key(&a), to_key(&b));
}

#[test]
fn keys_look_at_the_first_four_bytes_and_the_length_only() {
    assert_eq!(to_key(b"Hamburg;12.0"), to_key(b"Hambolo;15.0"));
    assert_ne!(to_key(b"Hamburg;12.0"), to_key(b"Hamburg;9.5"));
    assert_ne!(to_key(b"Hamburg;12.0"), to_key(b"Bamburg;12.0"));
}
