use dirspec::digest::bits2shastr;
use dirspec::hex::bytes_to_hexstr;

#[test]
fn digest_of_empty_input_is_the_known_constant() {
    assert_eq!(
        bits2shastr(b""),
        "e3b0c44298fc1c149afbf4c8996fb92427ae41e4649b934ca495991b7852b855"
    );
}

#[test]
fn digest_of_abc() {
    assert_eq!(
        bits2shastr(b"abc"),
        "ba7816bf8f01cfea414140de5dae2223b00361a396177a9cb410ff61f20015ad"
    );
}

#[test]
fn hex_is_lowercase_and_zero_padded() {
    assert_eq!(bytes_to_hexstr(&[0x00, 0x0f, 0xa0, 0xff, 0x5c]), "000fa0ff5c");
    assert_eq!(bytes_to_hexstr(&[]), "");
}
