use ed25519_dalek::{PublicKey, SecretKey, Signature, Verifier};
use narserve::cache_info::get_cache_info;
use narserve::database::{Catalog, PathRow, RefEdge};
use narserve::nar_info::{get_nar_info, NarInfoError, NarInfoRequest};

fn keypair_bytes() -> [u8; 64] {
    let secret = SecretKey::from_bytes(&[42; 32]).unwrap();
    let public = PublicKey::from(&secret);
    let mut bytes = [0u8; 64];
    bytes[..32].copy_from_slice(secret.as_bytes());
    bytes[32..].copy_from_slice(public.as_bytes());
    bytes
}

fn key_text() -> String {
    format!("cache.example-1:{}", base64::encode(&keypair_bytes()[..]))
}

fn zeros_digest() -> String {
    format!("sha256:{}", "0".repeat(64))
}

fn encoded_zeros() -> String {
    format!("sha256:{}", "0".repeat(52))
}

fn row(id: u64, path: &str, size: u64) -> PathRow {
    PathRow {
        id,
        path: path.to_string(),
        hash: zeros_digest(),
        nar_size: size,
        deriver: None,
    }
}

#[test]
fn from_param_strips_suffix() {
    let req = NarInfoRequest::from_param("abc123.narinfo").unwrap();
    assert_eq!(req.0, "abc123");
}

#[test]
fn from_param_rejects_other_names() {
    assert_eq!(NarInfoRequest::from_param("abc123.nar").unwrap_err(), "abc123.nar");
}

#[test]
fn cache_info_text_is_fixed() {
    let r = get_cache_info();
    assert_eq!(r.0, "StoreDir: /nix/store\nWantMassQuery: 1\nPriority: 20\n");
}

#[test]
fn narinfo_without_deriver_omits_the_line() {
    let catalog = Catalog { rows: vec![row(1, "/nix/store/h1-pkg", 128)], refs: vec![] };
    let text = get_nar_info(&catalog, "h1", &key_text()).unwrap().0;
    assert!(!text.contains("Deriver:"));
    let sig_line = text.lines().last().unwrap().to_string();
    let expected = format!(
        "StorePath: /nix/store/h1-pkg\nURL: nar/h1-pkg\nCompression: none\nFileHash: {h}\nFileSize: 128\nNarHash: {h}\nNarSize: 128\nReferences: \n{sig}\n",
        h = encoded_zeros(),
        sig = sig_line,
    );
    assert_eq!(text, expected);
}

#[test]
fn narinfo_with_deriver_keeps_the_line_in_place() {
    let mut r = row(1, "/nix/store/h1-pkg", 128);
    r.deriver = Some("/nix/store/h1-pkg.drv".to_string());
    let catalog = Catalog { rows: vec![r], refs: vec![] };
    let text = get_nar_info(&catalog, "h1", &key_text()).unwrap().0;
    let lines: Vec<&str> = text.lines().collect();
    assert_eq!(lines[7], "References: ");
    assert_eq!(lines[8], "Deriver: h1-pkg.drv");
    assert!(lines[9].starts_with("Sig: "));
    assert_eq!(lines.len(), 10);
}

#[test]
fn narinfo_references_line_is_sorted() {
    let catalog = Catalog {
        rows: vec![
            row(1, "/nix/store/h1-pkg", 128),
            row(2, "/nix/store/zz-b", 1),
            row(3, "/nix/store/aa-a", 2),
        ],
        refs: vec![
            RefEdge { referrer: 1, reference: 2 },
            RefEdge { referrer: 1, reference: 3 },
        ],
    };
    let text = get_nar_info(&catalog, "h1", &key_text()).unwrap().0;
    assert!(text.contains("\nReferences: /nix/store/aa-a /nix/store/zz-b\n"));
}

#[test]
fn narinfo_not_found() {
    let catalog = Catalog { rows: vec![row(1, "/nix/store/h1-pkg", 128)], refs: vec![] };
    assert_eq!(get_nar_info(&catalog, "zz", &key_text()).unwrap_err(), NarInfoError::NotFound);
}

#[test]
fn narinfo_bad_digest_is_storage_error() {
    let mut r = row(1, "/nix/store/h1-pkg", 128);
    r.hash = "bad".to_string();
    let catalog = Catalog { rows: vec![r], refs: vec![] };
    assert_eq!(get_nar_info(&catalog, "h1", &key_text()).unwrap_err(), NarInfoError::Storage);
}

#[test]
fn narinfo_bad_key_is_key_format_error() {
    let catalog = Catalog { rows: vec![row(1, "/nix/store/h1-pkg", 128)], refs: vec![] };
    assert_eq!(get_nar_info(&catalog, "h1", "nocolon").unwrap_err(), NarInfoError::KeyFormat);
}

#[test]
fn narinfo_end_to_end_with_verifying_signature() {
    let catalog = Catalog { rows: vec![row(1, "/nix/store/h1-pkg", 128)], refs: vec![] };
    let req = NarInfoRequest::from_param("h1.narinfo").unwrap();
    let text = get_nar_info(&catalog, req.0, &key_text()).unwrap().0;

    let lines: Vec<&str> = text.lines().collect();
    assert_eq!(lines[0], "StorePath: /nix/store/h1-pkg");
    assert_eq!(lines[7], "References: ");
    assert!(!text.contains("Deriver:"));

    let sig_line = lines.last().unwrap();
    let sig_text = sig_line.strip_prefix("Sig: ").unwrap();
    let (name, sig_b64) = sig_text.split_once(':').unwrap();
    assert_eq!(name, "cache.example-1");
    let sig_bytes = base64::decode(sig_b64).unwrap();
    let fingerprint = format!("1;/nix/store/h1-pkg;{};128;", encoded_zeros());
    let public = PublicKey::from_bytes(&keypair_bytes()[32..]).unwrap();
    let sig = Signature::try_from(sig_bytes.as_slice()).unwrap();
    assert!(public.verify(fingerprint.as_bytes(), &sig).is_ok());
}
