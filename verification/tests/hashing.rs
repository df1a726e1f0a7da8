use libsraid::hashing::{digest_hex, file_hash_hex, FileHasher};

#[test]
fn digest_hex_is_lowercase_pairs() {
    assert_eq!(digest_hex(&[0x00, 0x0f, 0xa5, 0xff]), "000fa5ff");
    assert_eq!(digest_hex(&[]), "");
    let d = blake3::hash(b"abc");
    assert_eq!(digest_hex(d.as_bytes()), d.to_hex().to_string());
}

#[test]
fn file_hash_of_pieces_is_hash_of_whole() {
    let data: Vec<u8> = (0..10_000u32).map(|i| (i * 7 % 251) as u8).collect();
    let mut h = FileHasher::new();
    h.update(&data[..3000]);
    h.update(&data[3000..3000]);
    h.update(&data[3000..]);
    assert_eq!(h.finalize(), blake3::hash(&data).as_bytes().to_vec());
    assert_eq!(file_hash_hex(&h), blake3::hash(&data).to_hex().to_string());
    let empty = FileHasher::new();
    assert_eq!(file_hash_hex(&empty), blake3::hash(b"").to_hex().to_string());
}
