use niks3::hashing::sha256;
use niks3::nix_base32::encode;
use niks3::nix_base32::hash_to_nix_string;
use sha2::Digest;
use sha2::Sha256;

#[test]
fn test_nix_base32_encode() {
    assert_eq!(encode(b""), "");
    assert_eq!(encode(b"\x00"), "00");
    assert_eq!(encode(b"\xff"), "7z");

    let mut hasher = Sha256::new();
    hasher.update(b"hello");
    let hash = hasher.finalize();
    let encoded = encode(&hash);

    assert_eq!(
        encoded,
        "094qif9n4cq4fdg459qzbhg1c6wywawwaaivx0k0x8xhbyx4vwic"
    );
}

#[test]
fn test_hash_to_nix_string() {
    let hash = [0x12, 0x34, 0x56, 0x78];
    let result = hash_to_nix_string("sha256", &hash);
    assert!(result.starts_with("sha256:"));
}

#[test]
fn hash_to_nix_string_is_name_colon_digits() {
    let hash = [0x12, 0x34, 0x56, 0x78];
    let result = hash_to_nix_string("sha256", &hash);
    assert_eq!(result, format!("sha256:{}", encode(&hash)));
    assert_eq!(hash_to_nix_string("md5", b""), "md5:");
}

#[test]
fn encode_length_is_bits_over_five_rounded_up() {
    let mut input: Vec<u8> = Vec::new();
    for n in 0..40usize {
        assert_eq!(encode(&input).len(), (n * 8 + 4) / 5);
        input.push(n as u8);
    }
}

#[test]
fn encode_uses_only_its_alphabet() {
    let input: Vec<u8> = (0..=255u8).collect();
    let encoded = encode(&input);
    for c in encoded.chars() {
        assert!("0123456789abcdfghijklmnpqrsvwxyz".contains(c));
    }
}

#[test]
fn encode_puts_the_highest_group_first() {
    // One byte: bits 5..7 give the first symbol, bits 0..4 the second.
    assert_eq!(encode(&[0x01]), "01");
    assert_eq!(encode(&[0x1f]), "0z");
    assert_eq!(encode(&[0x20]), "10");
    assert_eq!(encode(&[0xe0]), "70");
    // Two bytes: sixteen bits in four symbols, the first holding one bit.
    assert_eq!(encode(&[0x00, 0x80]), "1000");
    assert_eq!(encode(&[0xff, 0xff]), "1zzz");
}

#[test]
fn encode_agrees_with_the_library_digest() {
    let digest = sha256(b"hello");
    assert_eq!(
        encode(&digest),
        "094qif9n4cq4fdg459qzbhg1c6wywawwaaivx0k0x8xhbyx4vwic"
    );
}
