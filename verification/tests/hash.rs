use primitivemap::{DefaultHasher, Hasher};

#[test]
fn default_hasher_type_support() {
    DefaultHasher::hash(1_u8);
    DefaultHasher::hash(1_u16);
    DefaultHasher::hash(1_u32);
    DefaultHasher::hash(1_u64);
    DefaultHasher::hash(1_usize);
    DefaultHasher::hash(1_i8);
    DefaultHasher::hash(1_i16);
    DefaultHasher::hash(1_i32);
}

#[test]
fn eight_bit_keys_hash_to_themselves() {
    assert_eq!(DefaultHasher::hash(0_u8), 0);
    assert_eq!(DefaultHasher::hash(200_u8), 200);
    assert_eq!(DefaultHasher::hash(-5_i8), -5);
    assert_eq!(DefaultHasher::hash(127_i8), 127);
}

#[test]
fn wider_keys_are_mixed_by_shift_and_xor() {
    assert_eq!(DefaultHasher::hash(1_u16), 1);
    assert_eq!(DefaultHasher::hash(128_u16), 129);
    assert_eq!(DefaultHasher::hash(0xFFFF_u16), 0xFFFF ^ 0x01FF);
    assert_eq!(DefaultHasher::hash(300_u32), 300 ^ 2);
    assert_eq!(DefaultHasher::hash(1_u64 << 40), (1_u64 << 40) ^ (1_u64 << 33));
    assert_eq!(DefaultHasher::hash(1024_usize), 1024 ^ 8);
    // an arithmetic shift keeps the sign
    assert_eq!(DefaultHasher::hash(-1_i16), 0);
    assert_eq!(DefaultHasher::hash(-256_i32), -256 ^ -2);
    assert_eq!(DefaultHasher::hash(256_i32), 256 ^ 2);
}

#[test]
fn compress_is_the_remainder_by_the_table_size() {
    assert_eq!(DefaultHasher::compress(200_u8, 256), 200);
    assert_eq!(DefaultHasher::compress(200_u8, 7), 200 % 7);
    assert_eq!(DefaultHasher::compress(1000_u16, 1024), 1000);
    assert_eq!(DefaultHasher::compress(1030_u32, 1024), 6);
    assert_eq!(DefaultHasher::compress(12_u64, 1), 0);
    assert_eq!(DefaultHasher::compress(99_usize, 100), 99);
    assert_eq!(DefaultHasher::compress(5_i16, 4), 1);
}

#[test]
fn compress_of_a_negative_hash_goes_by_its_machine_word() {
    assert_eq!(DefaultHasher::compress(-1_i8, 16), (usize::MAX) % 16);
    assert_eq!(DefaultHasher::compress(-2_i32, 10), (usize::MAX - 1) % 10);
}

#[test]
fn compress_stays_below_the_table_size() {
    let mut bound: usize = 1;
    while bound < 40 {
        let mut key: u16 = 0;
        while key < 2000 {
            assert!(DefaultHasher::compress(DefaultHasher::hash(key), bound) < bound);
            key += 7;
        }
        bound += 1;
    }
}

#[test]
fn the_default_hasher_can_be_made_both_ways() {
    let _a: DefaultHasher<u8> = DefaultHasher::new();
    let _b: DefaultHasher<u64> = Default::default();
}
