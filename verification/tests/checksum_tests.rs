use pipeline_utils::checksum::{digest_hex, digest_matches, generate, verify};

#[test]
fn test_generate_returns_hex_string() {
    let hash = generate(b"hello pipeline");
    assert_eq!(hash.len(), 64);
    assert!(hash.chars().all(|c| c.is_ascii_hexdigit()));
}

#[test]
fn test_verify_correct_hash() {
    let data: &[u8] = b"mmkpc";
    let hash = generate(data);
    let ok = verify(data, &hash);
    assert!(ok);
}

#[test]
fn test_verify_wrong_hash() {
    let ok = verify(b"mmkpc", "deadbeef");
    assert!(!ok);
}

#[test]
fn test_deterministic() {
    let data: &[u8] = b"deterministic content";
    let h1 = generate(data);
    let h2 = generate(data);
    assert_eq!(h1, h2);
}

#[test]
fn generate_matches_blake3_of_empty_input() {
    assert_eq!(
        generate(b""),
        "af1349b9f5f9a1a6a0404dea36dcc9499bcb25c9adc112b7cc9a93cae41f3262"
    );
}

#[test]
fn verify_ignores_ascii_case() {
    let data: &[u8] = b"mmkpc";
    let upper = generate(data).to_ascii_uppercase();
    assert!(verify(data, &upper));
}

#[test]
fn digest_hex_encodes_low_case_nibbles() {
    assert_eq!(digest_hex(&[0x00, 0x0f, 0xab, 0xff]), "000fabff");
    assert_eq!(digest_hex(&[]), "");
}

#[test]
fn digest_matches_compares_encoding() {
    assert!(digest_matches(&[0xde, 0xad], "DEAD"));
    assert!(!digest_matches(&[0xde, 0xad], "dea"));
    assert!(!digest_matches(&[0xde, 0xad], "beef"));
}
