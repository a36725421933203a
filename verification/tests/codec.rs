use narserve::base32::nar_hash_to_base32;

fn zeros_hex() -> String {
    "0".repeat(64)
}

#[test]
fn encode_zero_digest() {
    let input = format!("sha256:{}", zeros_hex());
    let out = nar_hash_to_base32(&input).unwrap();
    assert_eq!(out, format!("sha256:{}", "0".repeat(52)));
}

#[test]
fn encode_matches_reference_implementation() {
    let samples: Vec<Vec<u8>> = vec![
        (0u8..32).collect(),
        vec![0xff; 32],
        vec![0x1f],
        vec![0xde, 0xad, 0xbe, 0xef],
        (100u8..164).collect(),
    ];
    for bytes in samples {
        let input = format!("sha256:{}", hex::encode(&bytes));
        let out = nar_hash_to_base32(&input).unwrap();
        let expected = format!("sha256:{}", nix_base32::to_nix_base32(&bytes));
        assert_eq!(out, expected);
    }
}

#[test]
fn encode_is_deterministic() {
    let input = format!("sha256:{}", hex::encode([0xabu8, 0xcd, 0x01, 0x99]));
    let a = nar_hash_to_base32(&input).unwrap();
    let b = nar_hash_to_base32(&input).unwrap();
    assert_eq!(a, b);
}

#[test]
fn encode_accepts_uppercase_hex() {
    let lower = nar_hash_to_base32("sha256:deadbeef").unwrap();
    let upper = nar_hash_to_base32("sha256:DEADBEEF").unwrap();
    assert_eq!(lower, upper);
}

#[test]
fn encode_rejects_non_hex_payload() {
    assert!(nar_hash_to_base32("sha256:zz").is_err());
}

#[test]
fn encode_rejects_odd_length_payload() {
    assert!(nar_hash_to_base32("sha256:abc").is_err());
}

#[test]
fn encode_rejects_short_input() {
    assert!(nar_hash_to_base32("sha").is_err());
}

#[test]
fn encode_of_empty_payload_is_bare_tag() {
    assert_eq!(nar_hash_to_base32("sha256:").unwrap(), "sha256:");
}
