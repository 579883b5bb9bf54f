use tsuitate_bot::digest::{digest_hex, head_hex, hex};

#[test]
fn digests_are_those_of_sha256() {
    assert_eq!(
        digest_hex(b"abc", 32),
        "ba7816bf8f01cfea414140de5dae2223b00361a396177a9cb410ff61f20015ad"
    );
    assert_eq!(digest_hex(b"", 8), "e3b0c44298fc1c14");
    assert_eq!(digest_hex(b"", 0), "");
}

#[test]
fn bytes_are_written_in_two_digits_each() {
    assert_eq!(hex(&[]), "");
    assert_eq!(hex(&[0, 15, 16, 255]), "000f10ff");
    assert_eq!(head_hex(&vec![1, 2, 3], 2), "0102");
}
