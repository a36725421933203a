//! Signer: parses a named signing key, builds the canonical fingerprint
//! of a resolved record, and signs it.
//!
//! The key text is `<name>:<base64 keypair>`; the fingerprint is
//! `1;<prefixed path>;<encoded hash>;<size>;<comma-joined prefixed
//! references>`, with the references in the ascending order the catalog
//! lookup established; the signature text is `<name>:<base64 signature>`.

use ed25519_dalek::Signer;
use ed25519_dalek::Verifier;
use vstd::prelude::*;
use vstd::string::*;
use vstd::utf8::encode_utf8;

use crate::database::rels_of;
use crate::database::PathInfo;
use crate::database::StorePath;
use crate::spec_store_dir;
use crate::strutil::lemma_join_push;
use crate::strutil::push_dec;
use crate::strutil::spec_dec;
use crate::strutil::spec_join;

verus! {

/// A key text that is not `<name>:<base64 keypair>`.
#[derive(Debug)]
pub struct KeyFormatError;

/// The base64 text of `bytes` in the standard alphabet with padding;
/// it depends on the bytes alone.
pub uninterp spec fn base64_encode_of(bytes: Seq<u8>) -> Seq<char>;

/// What base64 decoding makes of a text: the bytes it denotes, or
/// nothing when the text is not valid base64; it depends on the text
/// alone.
pub uninterp spec fn base64_decode_of(text: Seq<char>) -> Option<Seq<u8>>;

/// Whether 64 bytes form a usable keypair: 32 secret bytes followed by
/// a valid public point; it depends on the bytes alone.
pub uninterp spec fn ed25519_keypair_valid(bytes: Seq<u8>) -> bool;

/// The public half that the scheme derives from 32 secret bytes; it
/// depends on those bytes alone.
pub uninterp spec fn ed25519_public_of(secret: Seq<u8>) -> Seq<u8>;

/// The detached signature the scheme produces: deterministic in the
/// keypair bytes and the message.
pub uninterp spec fn ed25519_sig_of(keypair_bytes: Seq<u8>, msg: Seq<u8>) -> Seq<u8>;

/// Whether a signature verifies for a message under a public key; it
/// depends on the three byte strings alone.
pub uninterp spec fn ed25519_verifies(pub_bytes: Seq<u8>, msg: Seq<u8>, sig: Seq<u8>) -> bool;

/// Relies on `base64::encode`: encodes any bytes, by the bytes alone.
#[verifier::external_body]
fn b64_encode(b: &[u8]) -> (r: String)
    ensures
        r@ == base64_encode_of(b@),
{
    base64::encode(b)
}

/// Relies on `base64::decode`: accepts or rejects a text by the text
/// alone, and maps what it accepts to its bytes.
#[verifier::external_body]
fn b64_decode(s: &str) -> (r: Option<Vec<u8>>)
    ensures
        r is Some <==> base64_decode_of(s@) is Some,
        r matches Some(b) ==> base64_decode_of(s@) == Some(b@),
{
    base64::decode(s).ok()
}

/// Relies on `ed25519_dalek::Keypair::from_bytes`: accepts exactly 64
/// bytes whose last 32 form a valid public point, by the bytes alone.
#[verifier::external_body]
fn keypair_check(bytes: &[u8]) -> (r: bool)
    ensures
        r == ed25519_keypair_valid(bytes@),
        r ==> bytes@.len() == 64,
{
    ed25519_dalek::Keypair::from_bytes(bytes).is_ok()
}

/// Relies on `ed25519_dalek::SecretKey::from_bytes` and
/// `PublicKey::from`: the public half derived from 32 secret bytes
/// depends on those bytes alone and is 32 bytes long.
#[verifier::external_body]
fn derive_public(secret: &[u8]) -> (r: Vec<u8>)
    requires
        secret@.len() == 32,
    ensures
        r@ == ed25519_public_of(secret@),
        r@.len() == 32,
{
    let sk = ed25519_dalek::SecretKey::from_bytes(secret).unwrap();
    ed25519_dalek::PublicKey::from(&sk).to_bytes().to_vec()
}

/// Relies on `ed25519_dalek::Keypair::from_bytes` and `Signer::sign`:
/// the signature depends on the keypair bytes and message alone, and --
/// when the stored public half (the last 32 bytes) really is the one
/// derived from the secret half -- verifies against it. A keypair whose
/// halves do not belong together signs, but what it signs does not
/// verify, so nothing is promised of it.
#[verifier::external_body]
fn ed25519_sign(keypair_bytes: &[u8], msg: &[u8]) -> (r: Vec<u8>)
    requires
        ed25519_keypair_valid(keypair_bytes@),
    ensures
        r@ == ed25519_sig_of(keypair_bytes@, msg@),
        keypair_bytes@.skip(32) == ed25519_public_of(keypair_bytes@.take(32))
            ==> ed25519_verifies(keypair_bytes@.skip(32), msg@, r@),
{
    let keypair = ed25519_dalek::Keypair::from_bytes(keypair_bytes).unwrap();
    keypair.sign(msg).to_bytes().to_vec()
}

/// Relies on `ed25519_dalek::PublicKey::from_bytes`, signature parsing
/// and `Verifier::verify`: acceptance depends on the public-key bytes,
/// the message and the signature bytes alone.
#[verifier::external_body]
fn ed25519_verify(pub_bytes: &[u8], msg: &[u8], sig: &[u8]) -> (r: bool)
    ensures
        r == ed25519_verifies(pub_bytes@, msg@, sig@),
{
    match (
        ed25519_dalek::PublicKey::from_bytes(pub_bytes),
        ed25519_dalek::Signature::try_from(sig),
    ) {
        (Ok(pk), Ok(s)) => pk.verify(msg, &s).is_ok(),
        _ => false,
    }
}

/// The index of the first `:` in `text`, or -1 when there is none.
pub open spec fn spec_first_colon(text: Seq<char>) -> int
    decreases text.len(),
{
    if text.len() == 0 {
        -1
    } else if text[0] == ':' {
        0
    } else {
        let rest = spec_first_colon(text.skip(1));
        if rest == -1 {
            -1
        } else {
            rest + 1
        }
    }
}

proof fn lemma_first_colon_at(text: Seq<char>, i: int)
    requires
        0 <= i <= text.len(),
        forall|k: int| 0 <= k < i ==> text[k] != ':',
    ensures
        i < text.len() && text[i] == ':' ==> spec_first_colon(text) == i,
        i == text.len() ==> spec_first_colon(text) == -1,
    decreases i,
{
    if i > 0 {
        lemma_first_colon_at(text.skip(1), i - 1);
    }
}

/// The first colon of the text, where the parser splits.
fn find_first_colon(text: &str) -> (r: Option<usize>)
    ensures
        r matches Some(i) ==> i < text@.len() && text@[i as int] == ':' && spec_first_colon(text@)
            == i,
        r is None ==> spec_first_colon(text@) == -1,
{
    let len = text.unicode_len();
    let mut i: usize = 0;
    while i < len
        invariant
            i <= len,
            len == text@.len(),
            forall|k: int| 0 <= k < i ==> text@[k] != ':',
        decreases len - i,
    {
        let c = text.get_char(i);
        if c == ':' {
            proof {
                lemma_first_colon_at(text@, i as int);
            }
            return Some(i);
        }
        i = i + 1;
    }
    proof {
        lemma_first_colon_at(text@, len as int);
    }
    None
}

/// A key text the parser accepts: a first colon, a base64 payload, and
/// a usable keypair -- 64 bytes whose public half belongs to its secret
/// half.
pub open spec fn spec_key_text_ok(text: Seq<char>) -> bool {
    &&& spec_first_colon(text) >= 0
    &&& base64_decode_of(text.skip(spec_first_colon(text) + 1)) matches Some(b)
        && ed25519_keypair_valid(b) && b.skip(32) == ed25519_public_of(b.take(32))
}

/// Byte-for-byte equality of two byte strings.
fn bytes_eq(a: &[u8], b: &[u8]) -> (r: bool)
    ensures
        r == (a@ == b@),
{
    if a.len() != b.len() {
        return false;
    }
    let n = a.len();
    let mut i: usize = 0;
    while i < n
        invariant
            i <= n,
            n == a@.len(),
            a@.len() == b@.len(),
            forall|k: int| 0 <= k < i ==> a@[k] == b@[k],
        decreases n - i,
    {
        if a[i] != b[i] {
            return false;
        }
        i = i + 1;
    }
    proof {
        assert(a@ =~= b@);
    }
    true
}

/// A named signing key.
pub struct Key {
    name: String,
    key: Vec<u8>,
}

impl Key {
    /// The key's human-readable name; never secret.
    pub closed spec fn spec_name(&self) -> Seq<char> {
        self.name@
    }

    /// The keypair bytes: the secret half, then the public half.
    pub closed spec fn spec_key(&self) -> Seq<u8> {
        self.key@
    }

    /// A usable key: its bytes form a valid keypair whose public half
    /// is the one derived from its secret half.
    pub closed spec fn wf(&self) -> bool {
        &&& ed25519_keypair_valid(self.key@)
        &&& self.key@.skip(32) == ed25519_public_of(self.key@.take(32))
    }

    /// Parses a key source text of the form `<name>:<base64 keypair>`:
    /// the name is everything before the first colon; fails when the
    /// separator is absent, the payload is not base64, or the decoded
    /// bytes do not form a valid key pair -- 64 bytes whose public
    /// half belongs to its secret half.
    pub fn parse(text: &str) -> (r: Result<Key, KeyFormatError>)
        ensures
            r is Ok <==> spec_key_text_ok(text@),
            r matches Ok(k) ==> {
                &&& k.wf()
                &&& k.spec_key().len() == 64
                &&& k.spec_name() == text@.take(spec_first_colon(text@))
                &&& base64_decode_of(text@.skip(spec_first_colon(text@) + 1)) == Some(k.spec_key())
            },
    {
        let len = text.unicode_len();
        let i = match find_first_colon(text) {
            Some(i) => i,
            None => {
                return Err(KeyFormatError);
            },
        };
        let name = text.substring_char(0, i);
        let payload = text.substring_char(i + 1, len);
        proof {
            assert(name@ =~= text@.take(i as int));
            assert(payload@ =~= text@.skip(i + 1));
        }
        let bytes = match b64_decode(payload) {
            Some(b) => b,
            None => {
                return Err(KeyFormatError);
            },
        };
        if !keypair_check(bytes.as_slice()) {
            return Err(KeyFormatError);
        }
        let derived = derive_public(&bytes.as_slice()[0..32]);
        if !bytes_eq(derived.as_slice(), &bytes.as_slice()[32..64]) {
            return Err(KeyFormatError);
        }
        proof {
            assert(bytes@.subrange(0, 32) =~= bytes@.take(32));
            assert(bytes@.subrange(32, 64) =~= bytes@.skip(32));
        }
        Ok(Key { name: name.to_owned(), key: bytes })
    }

    /// Signs the canonical fingerprint of a resolved record and its
    /// ordered references, and returns `<name>:<base64 signature>`.
    /// The signature verifies against the key's public half.
    pub fn sign(&self, path_info: &PathInfo, references: &[StorePath]) -> (r: String)
        requires
            self.wf(),
        ensures
            r@ == spec_signature_text(
                self.spec_name(),
                self.spec_key(),
                spec_fingerprint(path_info.path.rel(), path_info.nar_hash@, path_info.nar_size as nat, rels_of(references@)),
            ),
            ed25519_verifies(
                self.spec_key().skip(32),
                encode_utf8(spec_fingerprint(path_info.path.rel(), path_info.nar_hash@, path_info.nar_size as nat, rels_of(references@))),
                ed25519_sig_of(
                    self.spec_key(),
                    encode_utf8(spec_fingerprint(path_info.path.rel(), path_info.nar_hash@, path_info.nar_size as nat, rels_of(references@))),
                ),
            ),
    {
        let fp = fingerprint(path_info, references);
        let sig = ed25519_sign(self.key.as_slice(), fp.as_str().as_bytes());
        let sig_b64 = b64_encode(sig.as_slice());
        let mut out = self.name.clone();
        let colon = ":";
        proof {
            reveal_strlit(":");
            assert(colon@ =~= seq![':']);
        }
        out.append(colon);
        out.append(sig_b64.as_str());
        proof {
            assert(out@ =~= spec_signature_text(
                self.spec_name(),
                self.spec_key(),
                spec_fingerprint(path_info.path.rel(), path_info.nar_hash@, path_info.nar_size as nat, rels_of(references@)),
            ));
        }
        out
    }
}

/// The signature line's text: the key name, a colon, and the base64
/// form of the detached signature over the fingerprint's bytes.
pub open spec fn spec_signature_text(name: Seq<char>, keypair: Seq<u8>, msg: Seq<char>) -> Seq<
    char,
> {
    name + seq![':'] + base64_encode_of(ed25519_sig_of(keypair, encode_utf8(msg)))
}

/// The canonical signing fingerprint of a resolved record and its
/// ordered reference list, all paths in their prefixed form.
pub open spec fn spec_fingerprint(
    rel: Seq<char>,
    hash_text: Seq<char>,
    size: nat,
    refs_rels: Seq<Seq<char>>,
) -> Seq<char> {
    seq!['1', ';'] + spec_store_dir() + rel + seq![';'] + hash_text + seq![';'] + spec_dec(size)
        + seq![';'] + spec_join(refs_rels.map_values(|r: Seq<char>| spec_store_dir() + r), seq![','])
}

/// Builds the fingerprint text: the references keep the order they
/// were handed in, already ascending from the catalog lookup.
fn fingerprint(path_info: &PathInfo, references: &[StorePath]) -> (r: String)
    ensures
        r@ == spec_fingerprint(path_info.path.rel(), path_info.nar_hash@, path_info.nar_size as nat, rels_of(references@)),
{
    let ghost mapped = rels_of(references@).map_values(|r: Seq<char>| spec_store_dir() + r);
    let mut fp = "1;".to_owned();
    let semi = ";";
    proof {
        reveal_strlit("1;");
        reveal_strlit(";");
        assert(fp@ =~= seq!['1', ';']);
        assert(semi@ =~= seq![';']);
    }
    let wp = path_info.path.with_prefix();
    fp.append(wp.as_str());
    fp.append(semi);
    fp.append(path_info.nar_hash.as_str());
    fp.append(semi);
    push_dec(&mut fp, path_info.nar_size);
    fp.append(semi);
    let ghost base = fp@;
    proof {
        assert(mapped.take(0) =~= Seq::<Seq<char>>::empty());
        assert(fp@ =~= base + spec_join(mapped.take(0), seq![',']));
    }
    let comma = ",";
    proof {
        reveal_strlit(",");
        assert(comma@ =~= seq![',']);
    }
    let n = references.len();
    let mut i: usize = 0;
    while i < n
        invariant
            i <= n,
            n == references@.len(),
            mapped == rels_of(references@).map_values(|r: Seq<char>| spec_store_dir() + r),
            base == seq!['1', ';'] + spec_store_dir() + path_info.path.rel() + seq![';']
                + path_info.nar_hash@ + seq![';'] + spec_dec(path_info.nar_size as nat)
                + seq![';'],
            comma@ == seq![','],
            fp@ == base + spec_join(mapped.take(i as int), seq![',']),
        decreases n - i,
    {
        if i > 0 {
            fp.append(comma);
        }
        let wpi = references[i].with_prefix();
        fp.append(wpi.as_str());
        proof {
            lemma_join_push(mapped.take(i as int), seq![','], mapped[i as int]);
            assert(mapped.take(i as int).push(mapped[i as int]) =~= mapped.take(i + 1));
            assert(wpi@ == mapped[i as int]);
            assert(fp@ =~= base + spec_join(mapped.take(i + 1), seq![',']));
        }
        i = i + 1;
    }
    proof {
        assert(mapped.take(n as int) =~= mapped);
        assert(fp@ =~= spec_fingerprint(path_info.path.rel(), path_info.nar_hash@, path_info.nar_size as nat, rels_of(references@)));
    }
    fp
}

/// The fingerprint of a record with no dependencies still carries the
/// references segment: it ends with the list's separator and an empty
/// list, nothing is left out.
pub proof fn lemma_fingerprint_no_refs(rel: Seq<char>, hash_text: Seq<char>, size: nat)
    ensures
        spec_fingerprint(rel, hash_text, size, Seq::<Seq<char>>::empty()) == seq!['1', ';']
            + spec_store_dir() + rel + seq![';'] + hash_text + seq![';'] + spec_dec(size)
            + seq![';'],
{
    let mapped = Seq::<Seq<char>>::empty().map_values(|r: Seq<char>| spec_store_dir() + r);
    assert(mapped =~= Seq::<Seq<char>>::empty());
    assert(spec_join(mapped, seq![',']) =~= Seq::<char>::empty());
    assert(spec_fingerprint(rel, hash_text, size, Seq::<Seq<char>>::empty()) =~= seq!['1', ';']
        + spec_store_dir() + rel + seq![';'] + hash_text + seq![';'] + spec_dec(size) + seq![';']);
}

/// Signing one fingerprint twice yields texts that are equal and a
/// signature that verifies against the key's public half; the checks
/// are returned proven: the signature texts agree and verification
/// succeeded.
pub fn sign_twice_verifies(key_text: &str, path_info: &PathInfo, references: &[StorePath]) -> (r:
    Option<(String, String, bool)>)
    ensures
        r is Some <==> spec_key_text_ok(key_text@),
        r matches Some(t) ==> t.0@ == t.1@ && t.2,
{
    let key = match Key::parse(key_text) {
        Ok(k) => k,
        Err(_) => {
            return None;
        },
    };
    let s1 = key.sign(path_info, references);
    let s2 = key.sign(path_info, references);
    let fp = fingerprint(path_info, references);
    let sig = ed25519_sign(key.key.as_slice(), fp.as_str().as_bytes());
    let pub_half: &[u8] = &key.key.as_slice()[32..64];
    proof {
        assert(pub_half@ =~= key.spec_key().skip(32));
    }
    let ok = ed25519_verify(pub_half, fp.as_str().as_bytes(), sig.as_slice());
    Some((s1, s2, ok))
}

} // verus!
