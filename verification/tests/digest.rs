use tonyutils::digest::{sha256_hex, to_hex};

#[test]
fn hex_has_two_lowercase_digits_for_each_byte() {
    assert_eq!(to_hex(&[1, 2, 3, 15, 16]), "0102030f10");
    assert_eq!(to_hex(b"Hello world!"), "48656c6c6f20776f726c6421");
    assert_eq!(to_hex(&[0x00, 0xff, 0xa0, 0x0a]), "00ffa00a");
}

#[test]
fn hex_of_nothing_is_empty() {
    assert_eq!(to_hex(&[]), "");
}

#[test]
fn digest_of_the_empty_message() {
    assert_eq!(
        sha256_hex(b""),
        "e3b0c44298fc1c149afbf4c8996fb92427ae41e4649b934ca495991b7852b855"
    );
}

#[test]
fn digest_of_abc() {
    assert_eq!(
        sha256_hex(b"abc"),
        "ba7816bf8f01cfea414140de5dae2223b00361a396177a9cb410ff61f20015ad"
    );
}

#[test]
fn digest_of_a_message_longer_than_one_block() {
    assert_eq!(
        sha256_hex(b"abcdbcdecdefdefgefghfghighijhijkijkljklmklmnlmnomnopnopq"),
        "248d6a61d20638b8e5c026930c3e6039a33ce45964ff2167f6ecedd419db06c1"
    );
}

#[test]
fn digest_has_sixty_four_digits() {
    assert_eq!(sha256_hex(&[0u8; 1000]).len(), 64);
}
