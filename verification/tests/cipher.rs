use woody_woodpacker::cipher::{xor_cipher, CIPHER_KEY};

#[test]
fn cipher_key_is_0x61() {
    assert_eq!(CIPHER_KEY, 0x61);
}

#[test]
fn cipher_xors_every_byte_of_the_range() {
    let mut buf: Vec<u8> = vec![0x00, 0x61, 0xff, 0x10, 0x9e];
    xor_cipher(&mut buf, 0, 5);
    assert_eq!(buf, vec![0x61, 0x00, 0x9e, 0x71, 0xff]);
}

#[test]
fn cipher_leaves_bytes_outside_the_range() {
    let mut buf: Vec<u8> = vec![1, 2, 3, 4, 5, 6];
    xor_cipher(&mut buf, 2, 3);
    assert_eq!(buf, vec![1, 2, 3 ^ 0x61, 4 ^ 0x61, 5 ^ 0x61, 6]);
}

#[test]
fn cipher_of_empty_range_changes_nothing() {
    let mut buf: Vec<u8> = vec![7, 8, 9];
    xor_cipher(&mut buf, 3, 0);
    assert_eq!(buf, vec![7, 8, 9]);
    let mut empty: Vec<u8> = Vec::new();
    xor_cipher(&mut empty, 0, 0);
    assert!(empty.is_empty());
}

#[test]
fn cipher_twice_restores_every_byte_value() {
    let plain: Vec<u8> = (0..=255u8).collect();
    let mut buf = plain.clone();
    xor_cipher(&mut buf, 0, 256);
    assert_ne!(buf, plain);
    for i in 0..256 {
        assert_eq!(buf[i], plain[i] ^ 0x61);
    }
    xor_cipher(&mut buf, 0, 256);
    assert_eq!(buf, plain);
}

#[test]
fn cipher_twice_restores_a_range() {
    let plain: Vec<u8> = vec![0xde, 0xad, 0xbe, 0xef, 0x00, 0x61];
    let mut buf = plain.clone();
    xor_cipher(&mut buf, 1, 4);
    xor_cipher(&mut buf, 1, 4);
    assert_eq!(buf, plain);
}
