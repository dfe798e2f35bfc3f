use level_archive::hash::{get_level_hash, hash_bytes};

/// The hash written out with wide integers and explicit masks.
fn reference(bytes: &[u8]) -> u32 {
    let mask: u64 = 0xffff_ffff;
    let mut hash: u64 = 0;
    let mut index: u64 = 1;
    for &byte in bytes {
        let shift = index & 0x1f;
        index = (index + 1) & mask;
        let term = (byte as u64 + (((byte as u64) << shift) & mask)) & mask;
        hash = (hash + term) & mask;
    }
    ((hash + index) & mask) as u32
}

#[test]
fn hash_of_nothing_is_one() {
    assert_eq!(hash_bytes(&[]), 1);
    assert_eq!(get_level_hash(""), 1);
}

#[test]
fn hash_of_a_is_293() {
    assert_eq!(get_level_hash("a"), 0x125);
    assert_eq!(get_level_hash("a"), 293);
    assert_eq!(hash_bytes(&[0x61]), 293);
}

#[test]
fn hash_of_short_names() {
    assert_eq!(get_level_hash("abc"), 1676);
    assert_eq!(get_level_hash("level01"), 16621);
}

#[test]
fn hash_wraps_at_32_bits() {
    // 32 bytes of 1 add 32 + (2^1 + ... + 2^31) + 2^0, which is 2^32 + 31,
    // and the counter ends at 33.
    assert_eq!(hash_bytes(&[1u8; 32]), 64);
    assert_eq!(hash_bytes(&[0xffu8; 40]), 140036);
    assert_eq!(hash_bytes(&[0x80u8; 31]), 3744);
}

#[test]
fn hash_shift_uses_low_five_bits_of_counter() {
    // The byte at index 31 meets the counter 32, whose low five bits are 0.
    let mut bytes = [0u8; 32];
    bytes[31] = 7;
    assert_eq!(hash_bytes(&bytes), 7 + 7 + 33);
}

#[test]
fn hash_of_a_name_is_the_hash_of_its_utf8_bytes() {
    assert_eq!(get_level_hash("é"), hash_bytes(&[0xc3, 0xa9]));
    assert_eq!(get_level_hash("é"), 1433);
}

#[test]
fn hash_is_the_same_every_time() {
    let name = "some/level/name.lvl";
    assert_eq!(get_level_hash(name), get_level_hash(name));
    assert_eq!(hash_bytes(name.as_bytes()), get_level_hash(name));
}

#[test]
fn hash_matches_reference_on_many_inputs() {
    let mut bytes: Vec<u8> = Vec::new();
    let mut seed: u32 = 12345;
    for _ in 0..300 {
        seed = seed.wrapping_mul(1664525).wrapping_add(1013904223);
        bytes.push((seed >> 24) as u8);
        assert_eq!(hash_bytes(&bytes), reference(&bytes));
    }
}
