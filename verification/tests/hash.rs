use block_codec::xxhash32::XXHash32;

fn one_shot(data: &[u8], seed: u32) -> u32 {
    let mut h = XXHash32::new(seed);
    h.update(data);
    h.digest()
}

#[test]
fn xxhash32_empty_seed_zero() {
    assert_eq!(one_shot(b"", 0), 0x02CC5D05);
}

#[test]
fn xxhash32_abc_seed_zero() {
    assert_eq!(one_shot(b"abc", 0), 0x32D153FF);
}

#[test]
fn xxhash32_full_groups_and_word_tail() {
    // 24 bytes: one full 16-byte group plus an 8-byte tail of two words
    assert_eq!(one_shot(b"abcdefghijklmnopqrstuvwx", 0), 0x133FFFA2);
}

#[test]
fn xxhash32_seeded_group() {
    assert_eq!(one_shot(&[b'a'; 16], 0x9747B28C), 0xFFD3C79A);
}

#[test]
fn xxhash32_split_updates_match_single_update() {
    let mut data: Vec<u8> = Vec::new();
    for i in 0..40u8 {
        data.push(i);
    }
    let whole = one_shot(&data, 0);
    assert_eq!(whole, 0xD6A6CF02);

    for split in [1usize, 7, 15, 16, 17, 24, 39] {
        let mut h = XXHash32::new(0);
        h.update(&data[..split]);
        h.update(&data[split..]);
        assert_eq!(h.digest(), whole);
    }

    let mut three = XXHash32::new(0);
    three.update(&data[..7]);
    three.update(&data[7..20]);
    three.update(&data[20..]);
    assert_eq!(three.digest(), whole);

    let mut byte_by_byte = XXHash32::new(0);
    for i in 0..data.len() {
        byte_by_byte.update(&data[i..i + 1]);
    }
    assert_eq!(byte_by_byte.digest(), whole);
}

#[test]
fn xxhash32_digest_does_not_disturb_state() {
    let mut h = XXHash32::new(5);
    h.update(b"hello ");
    let first = h.digest();
    assert_eq!(first, h.digest());
    h.update(b"world");
    let combined = h.digest();
    assert_eq!(combined, one_shot(b"hello world", 5));
    assert_eq!(combined, h.digest());
}
