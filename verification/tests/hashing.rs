use niks3::hashing::HashingSink;
use niks3::hashing::file_hash_string;
use niks3::hashing::sha256;

fn hex(bytes: &[u8]) -> String {
    let mut text = String::new();
    for b in bytes {
        text.push_str(&format!("{:02x}", b));
    }
    text
}

#[test]
fn sha256_of_known_inputs() {
    assert_eq!(
        hex(&sha256(b"")),
        "e3b0c44298fc1c149afbf4c8996fb92427ae41e4649b934ca495991b7852b855"
    );
    assert_eq!(
        hex(&sha256(b"hello")),
        "2cf24dba5fb0a30e26e83b2ac5b9e29e1b161e5c1fa7425e73043362938b9824"
    );
    assert_eq!(sha256(b"anything").len(), 32);
}

#[test]
fn file_hash_string_prefixes_the_algorithm() {
    assert_eq!(file_hash_string("abc="), "sha256:abc=");
    assert_eq!(file_hash_string(""), "sha256:");
}

#[test]
fn sink_of_nothing() {
    let sink = HashingSink::new();
    assert_eq!(sink.size(), 0);
    let (size, hash) = sink.finish();
    assert_eq!(size, 0);
    assert_eq!(hash, "sha256:47DEQpj8HBSa+/TImW+5JCeuQeRkm5NMpJWZG3hSuFU=");
}

#[test]
fn sink_counts_and_digests_chunks() {
    let mut sink = HashingSink::new();
    assert!(sink.update(b"hel"));
    assert!(sink.update(b""));
    assert!(sink.update(b"lo"));
    assert_eq!(sink.size(), 5);
    let (size, hash) = sink.finish();
    assert_eq!(size, 5);
    assert_eq!(hash, "sha256:LPJNul+wow4m6DsqxbninhsWHlwfp0JecwQzYpOLmCQ=");
}

#[test]
fn sink_does_not_depend_on_chunking() {
    let data: Vec<u8> = (0..1000u32).map(|n| (n % 251) as u8).collect();
    let mut whole = HashingSink::new();
    assert!(whole.update(&data));
    let mut pieces = HashingSink::new();
    for chunk in data.chunks(7) {
        assert!(pieces.update(chunk));
    }
    assert_eq!(whole.finish(), pieces.finish());
}
