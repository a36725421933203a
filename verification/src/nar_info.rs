//! Metadata assembly: resolves a hash prefix, collects the ordered
//! references, signs the canonical fingerprint, and serializes the
//! protocol's fixed multi-line text record.

use vstd::prelude::*;
use vstd::string::*;

use crate::base32::spec_base32_encode;
use crate::base32::spec_hex_bytes;
use crate::base32::spec_sha256_tag;
use crate::database::digest_ok;
use crate::database::get_path_info;
use crate::database::get_references;
use crate::database::rels_of;
use crate::database::spec_references;
use crate::database::spec_resolved;
use crate::database::Catalog;
use crate::database::PathInfo;
use crate::database::StorePath;
use crate::signature::spec_fingerprint;
use crate::signature::spec_first_colon;
use crate::signature::spec_key_text_ok;
use crate::signature::spec_signature_text;
use crate::signature::base64_decode_of;
use crate::signature::Key;
use crate::spec_store_dir;
use crate::strutil::ends_with;
use crate::strutil::lemma_join_push;
use crate::strutil::push_dec;
use crate::strutil::spec_dec;
use crate::strutil::spec_join;
use crate::strutil::str_ends_with;

verus! {

/// A metadata request: the hash prefix taken from a `<hash>.narinfo`
/// route parameter.
#[derive(Debug)]
pub struct NarInfoRequest<'r>(pub &'r str);

/// The suffix a metadata request carries.
pub open spec fn spec_narinfo_suffix() -> Seq<char> {
    seq!['.', 'n', 'a', 'r', 'i', 'n', 'f', 'o']
}

impl<'r> NarInfoRequest<'r> {
    /// Accepts `<hash>.narinfo` and keeps the hash; anything else is
    /// handed back unchanged.
    pub fn from_param(param: &'r str) -> (r: Result<Self, &'r str>)
        ensures
            r is Ok <==> ends_with(param@, spec_narinfo_suffix()),
            r matches Ok(q) ==> q.0@ == param@.take(param@.len() - 8),
            r matches Err(e) ==> e@ == param@,
    {
        let suffix = ".narinfo";
        proof {
            reveal_strlit(".narinfo");
            assert(suffix@ =~= spec_narinfo_suffix());
        }
        if str_ends_with(param, suffix) {
            let len = param.unicode_len();
            let hash = param.substring_char(0, len - 8);
            proof {
                assert(hash@ =~= param@.take(param@.len() - 8));
            }
            Ok(NarInfoRequest(hash))
        } else {
            Err(param)
        }
    }
}

/// The protocol's metadata text record.
#[derive(Debug)]
pub struct NarInfoResponse(pub String);

/// Why a metadata request was not answered, in the taxonomy the
/// transport maps to status codes: no catalog match; a catalog
/// integrity fault; an unusable signing key.
#[derive(Debug, PartialEq, Eq)]
pub enum NarInfoError {
    NotFound,
    Storage,
    KeyFormat,
}

/// The deriver line, present exactly when a deriver is recorded.
pub open spec fn spec_deriver_line(deriver_rel: Option<Seq<char>>) -> Seq<char> {
    match deriver_rel {
        Some(d) => "Deriver: "@ + d + "\n"@,
        None => Seq::<char>::empty(),
    }
}

/// The record's fixed leading lines: store path, URL, compression,
/// hash and size fields, and the space-joined references, each in its
/// prefixed form, in their given (ascending) order.
pub open spec fn spec_narinfo_head(
    rel: Seq<char>,
    hash_text: Seq<char>,
    size: nat,
    refs_rels: Seq<Seq<char>>,
) -> Seq<char> {
    "StorePath: "@ + spec_store_dir() + rel + "\n"@ + "URL: nar/"@ + rel + "\n"@
        + "Compression: none\n"@ + "FileHash: "@ + hash_text + "\n"@ + "FileSize: "@ + spec_dec(
        size,
    ) + "\n"@ + "NarHash: "@ + hash_text + "\n"@ + "NarSize: "@ + spec_dec(size) + "\n"@
        + "References: "@ + spec_join(
        refs_rels.map_values(|r: Seq<char>| spec_store_dir() + r),
        " "@,
    ) + "\n"@
}

/// The whole record: the fixed lines, the deriver line when one is
/// recorded, and the signature line; omitting the deriver disturbs
/// nothing around it.
pub open spec fn spec_narinfo_text(
    rel: Seq<char>,
    hash_text: Seq<char>,
    size: nat,
    deriver_rel: Option<Seq<char>>,
    refs_rels: Seq<Seq<char>>,
    sig: Seq<char>,
) -> Seq<char> {
    spec_narinfo_head(rel, hash_text, size, refs_rels) + spec_deriver_line(deriver_rel) + "Sig: "@
        + sig + "\n"@
}

/// The deriver's relative path, where one is recorded.
pub open spec fn spec_deriver_rel(info: PathInfo) -> Option<Seq<char>> {
    match info.deriver {
        Some(d) => Some(d.rel()),
        None => None,
    }
}

/// Serializes the record: every field in its fixed position, the
/// references prefixed and in the order they are handed in, the deriver
/// line only when a deriver is recorded.
fn serialize_nar_info(info: &PathInfo, references: &[StorePath], signature: &str) -> (r: String)
    ensures
        r@ == spec_narinfo_text(
            info.path.rel(),
            info.nar_hash@,
            info.nar_size as nat,
            spec_deriver_rel(*info),
            rels_of(references@),
            signature@,
        ),
{
    let ghost refs_rels = rels_of(references@);
    let mut out = "StorePath: ".to_owned();
    let nl = "\n";
    let wp = info.path.with_prefix();
    out.append(wp.as_str());
    out.append(nl);
    out.append("URL: nar/");
    let rel = info.path.without_prefix();
    out.append(rel.as_str());
    out.append(nl);
    out.append("Compression: none\n");
    out.append("FileHash: ");
    out.append(info.nar_hash.as_str());
    out.append(nl);
    out.append("FileSize: ");
    push_dec(&mut out, info.nar_size);
    out.append(nl);
    out.append("NarHash: ");
    out.append(info.nar_hash.as_str());
    out.append(nl);
    out.append("NarSize: ");
    push_dec(&mut out, info.nar_size);
    out.append(nl);
    out.append("References: ");
    let ghost mapped = refs_rels.map_values(|r: Seq<char>| spec_store_dir() + r);
    let ghost base = out@;
    proof {
        assert(mapped.take(0) =~= Seq::<Seq<char>>::empty());
        assert(out@ =~= base + spec_join(mapped.take(0), " "@));
    }
    let space = " ";
    let n = references.len();
    let mut i: usize = 0;
    while i < n
        invariant
            i <= n,
            n == references@.len(),
            refs_rels == rels_of(references@),
            mapped == refs_rels.map_values(|r: Seq<char>| spec_store_dir() + r),
            space@ == " "@,
            out@ == base + spec_join(mapped.take(i as int), " "@),
        decreases n - i,
    {
        if i > 0 {
            out.append(space);
        }
        let ri = references[i].with_prefix();
        out.append(ri.as_str());
        proof {
            lemma_join_push(mapped.take(i as int), " "@, mapped[i as int]);
            assert(mapped.take(i as int).push(mapped[i as int]) =~= mapped.take(i + 1));
            assert(ri@ == mapped[i as int]);
            assert(out@ =~= base + spec_join(mapped.take(i + 1), " "@));
        }
        i = i + 1;
    }
    proof {
        assert(mapped.take(n as int) =~= mapped);
    }
    out.append(nl);
    match &info.deriver {
        Some(d) => {
            out.append("Deriver: ");
            let dr = d.without_prefix();
            out.append(dr.as_str());
            out.append(nl);
        },
        None => {},
    }
    out.append("Sig: ");
    out.append(signature);
    out.append(nl);
    proof {
        assert(out@ =~= spec_narinfo_text(
            info.path.rel(),
            info.nar_hash@,
            info.nar_size as nat,
            spec_deriver_rel(*info),
            rels_of(references@),
            signature@,
        ));
    }
    out
}

/// The signature line's text for the record resolved at row `b`, under
/// the key that `key_text` parses to.
pub open spec fn spec_row_signature(catalog: Catalog, b: int, key_text: Seq<char>) -> Seq<char> {
    match base64_decode_of(key_text.skip(spec_first_colon(key_text) + 1)) {
        Some(kb) => spec_signature_text(
            key_text.take(spec_first_colon(key_text)),
            kb,
            spec_fingerprint(
                StorePath::spec_new(catalog.rows@[b].path@),
                spec_sha256_tag() + spec_base32_encode(
                    spec_hex_bytes(catalog.rows@[b].hash@.skip(7)),
                ),
                catalog.rows@[b].nar_size as nat,
                spec_references(catalog.rows@, catalog.refs@, catalog.rows@[b].id),
            ),
        ),
        None => Seq::<char>::empty(),
    }
}

/// The whole record's text for the record resolved at row `b`.
pub open spec fn spec_row_narinfo(catalog: Catalog, b: int, key_text: Seq<char>) -> Seq<char> {
    spec_narinfo_text(
        StorePath::spec_new(catalog.rows@[b].path@),
        spec_sha256_tag() + spec_base32_encode(spec_hex_bytes(catalog.rows@[b].hash@.skip(7))),
        catalog.rows@[b].nar_size as nat,
        match catalog.rows@[b].deriver {
            Some(d) => Some(StorePath::spec_new(d@)),
            None => None,
        },
        spec_references(catalog.rows@, catalog.refs@, catalog.rows@[b].id),
        spec_row_signature(catalog, b, key_text),
    )
}

/// Assembles the metadata record for a hash prefix: resolve, collect
/// references, parse the signing key, sign, serialize. Success is owed
/// exactly when a row matches, its digest is sound, and the key text
/// parses; each failure names its cause.
pub fn get_nar_info(catalog: &Catalog, hash: &str, key_text: &str) -> (r: Result<
    NarInfoResponse,
    NarInfoError,
>)
    ensures
        ({
            let ch = spec_resolved(catalog.rows@, hash@);
            &&& (r == Err::<NarInfoResponse, NarInfoError>(NarInfoError::NotFound) <==> ch is None)
            &&& (r == Err::<NarInfoResponse, NarInfoError>(NarInfoError::Storage) <==> (
            ch matches Some(b) && !digest_ok(catalog.rows@[b].hash@)))
            &&& (r == Err::<NarInfoResponse, NarInfoError>(NarInfoError::KeyFormat) <==> (
            ch matches Some(b) && digest_ok(catalog.rows@[b].hash@) && !spec_key_text_ok(
                key_text@,
            )))
            &&& (r is Ok <==> (ch matches Some(b) && digest_ok(catalog.rows@[b].hash@)
                && spec_key_text_ok(key_text@)))
            &&& (r matches Ok(resp) ==> (ch matches Some(b) && resp.0@ == spec_row_narinfo(
                *catalog,
                b,
                key_text@,
            )))
        }),
{
    let info = match get_path_info(catalog, hash) {
        Err(_) => {
            return Err(NarInfoError::Storage);
        },
        Ok(None) => {
            return Err(NarInfoError::NotFound);
        },
        Ok(Some(info)) => info,
    };
    let references = get_references(catalog, &info);
    let key = match Key::parse(key_text) {
        Err(_) => {
            return Err(NarInfoError::KeyFormat);
        },
        Ok(k) => k,
    };
    let signature = key.sign(&info, references.as_slice());
    let text = serialize_nar_info(&info, references.as_slice(), signature.as_str());
    Ok(NarInfoResponse(text))
}

/// A record without a deriver omits the deriver line entirely, leaving
/// the surrounding lines untouched; one with a deriver carries the line
/// in its fixed place, directly before the signature line.
pub proof fn lemma_deriver_line_placement(
    rel: Seq<char>,
    hash_text: Seq<char>,
    size: nat,
    d: Seq<char>,
    refs_rels: Seq<Seq<char>>,
    sig: Seq<char>,
)
    ensures
        ({
            let absent = spec_narinfo_text(rel, hash_text, size, None, refs_rels, sig);
            let present = spec_narinfo_text(rel, hash_text, size, Some(d), refs_rels, sig);
            let line = "Deriver: "@ + d + "\n"@;
            let tail = "Sig: "@ + sig + "\n"@;
            let head = spec_narinfo_head(rel, hash_text, size, refs_rels);
            &&& absent == head + tail
            &&& present == head + line + tail
            &&& present.len() == absent.len() + line.len()
        }),
{
    let absent = spec_narinfo_text(rel, hash_text, size, None, refs_rels, sig);
    let present = spec_narinfo_text(rel, hash_text, size, Some(d), refs_rels, sig);
    let line = "Deriver: "@ + d + "\n"@;
    let tail = "Sig: "@ + sig + "\n"@;
    let head = spec_narinfo_head(rel, hash_text, size, refs_rels);
    assert(absent =~= head + tail);
    assert(present =~= head + line + tail);
}

} // verus!
