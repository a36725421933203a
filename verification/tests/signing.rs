use ed25519_dalek::{PublicKey, SecretKey, Signature, Verifier};
use narserve::database::{PathInfo, StorePath};
use narserve::signature::{sign_twice_verifies, Key};

fn keypair_bytes(seed: u8) -> [u8; 64] {
    let secret = SecretKey::from_bytes(&[seed; 32]).unwrap();
    let public = PublicKey::from(&secret);
    let mut bytes = [0u8; 64];
    bytes[..32].copy_from_slice(secret.as_bytes());
    bytes[32..].copy_from_slice(public.as_bytes());
    bytes
}

fn key_text(seed: u8) -> String {
    format!("test-key-1:{}", base64::encode(&keypair_bytes(seed)[..]))
}

fn sample_info() -> PathInfo {
    PathInfo {
        id: 1,
        path: StorePath::new("/nix/store/h1-pkg"),
        nar_hash: format!("sha256:{}", "0".repeat(52)),
        nar_size: 128,
        deriver: None,
    }
}

fn verify_signature_text(seed: u8, fingerprint: &str, signature: &str) -> bool {
    let (name, sig_b64) = signature.split_once(':').unwrap();
    assert_eq!(name, "test-key-1");
    let sig_bytes = base64::decode(sig_b64).unwrap();
    let public = PublicKey::from_bytes(&keypair_bytes(seed)[32..]).unwrap();
    let sig = Signature::try_from(sig_bytes.as_slice()).unwrap();
    public.verify(fingerprint.as_bytes(), &sig).is_ok()
}

#[test]
fn parse_accepts_well_formed_key() {
    assert!(Key::parse(&key_text(7)).is_ok());
}

#[test]
fn parse_rejects_missing_separator() {
    assert!(Key::parse("no-separator-here").is_err());
}

#[test]
fn parse_rejects_bad_base64() {
    assert!(Key::parse("name:!!!not-base64!!!").is_err());
}

#[test]
fn parse_rejects_mismatched_halves() {
    // a valid public point that is not the one derived from the secret
    // half is not a key pair
    let mut bytes = keypair_bytes(7);
    let other = keypair_bytes(8);
    bytes[32..].copy_from_slice(&other[32..]);
    assert!(Key::parse(&format!("name:{}", base64::encode(&bytes[..]))).is_err());
}

#[test]
fn parse_rejects_wrong_key_length() {
    assert!(Key::parse(&format!("name:{}", base64::encode([1u8; 16]))).is_err());
}

#[test]
fn parse_splits_at_first_colon() {
    // the payload after the first colon is not valid base64, so the
    // split cannot have happened at the second colon
    assert!(Key::parse("a:b:not base64").is_err());
}

#[test]
fn signature_verifies_with_empty_references() {
    let key = Key::parse(&key_text(7)).unwrap();
    let info = sample_info();
    let signature = key.sign(&info, &[]);
    // the references segment is empty but present: the fingerprint
    // still ends with its separator
    let fingerprint = format!("1;/nix/store/h1-pkg;sha256:{};128;", "0".repeat(52));
    assert!(verify_signature_text(7, &fingerprint, &signature));
}

#[test]
fn signature_verifies_with_references_in_given_order() {
    let key = Key::parse(&key_text(9)).unwrap();
    let info = sample_info();
    let refs = vec![StorePath::new("aaa-first"), StorePath::new("mmm-middle")];
    let signature = key.sign(&info, &refs);
    let fingerprint = format!(
        "1;/nix/store/h1-pkg;sha256:{};128;/nix/store/aaa-first,/nix/store/mmm-middle",
        "0".repeat(52)
    );
    assert!(verify_signature_text(9, &fingerprint, &signature));
}

#[test]
fn signing_twice_verifies_both() {
    let key = Key::parse(&key_text(3)).unwrap();
    let info = sample_info();
    let s1 = key.sign(&info, &[]);
    let s2 = key.sign(&info, &[]);
    assert_eq!(s1, s2);
    let fingerprint = format!("1;/nix/store/h1-pkg;sha256:{};128;", "0".repeat(52));
    assert!(verify_signature_text(3, &fingerprint, &s1));
    assert!(verify_signature_text(3, &fingerprint, &s2));
}

#[test]
fn sign_twice_verifies_reports_success() {
    let info = sample_info();
    let refs = vec![StorePath::new("aaa-first")];
    let (s1, s2, ok) = sign_twice_verifies(&key_text(5), &info, &refs).unwrap();
    assert_eq!(s1, s2);
    assert!(ok);
}

#[test]
fn sign_twice_verifies_rejects_bad_key() {
    let info = sample_info();
    assert!(sign_twice_verifies("bad key text", &info, &[]).is_none());
}

#[test]
fn signature_covers_largest_size() {
    let key = Key::parse(&key_text(11)).unwrap();
    let mut info = sample_info();
    info.nar_size = u64::MAX;
    let signature = key.sign(&info, &[]);
    let fingerprint = format!(
        "1;/nix/store/h1-pkg;sha256:{};18446744073709551615;",
        "0".repeat(52)
    );
    assert!(verify_signature_text(11, &fingerprint, &signature));
}
