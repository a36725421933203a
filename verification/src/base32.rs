//! Hash codec: re-encodes a hexadecimal digest in the store protocol's
//! base-32 text form.
//!
//! The digest bytes are read as one long bit string; five bits at a time
//! are mapped through a fixed 32-character alphabet, emitted from the
//! most significant group down, which corresponds to walking the bit
//! groups from the last one back to group zero.

use vstd::arithmetic::div_mod::lemma_fundamental_div_mod;
use vstd::arithmetic::div_mod::lemma_fundamental_div_mod_converse;
use vstd::prelude::*;

use crate::strutil::push_char;

verus! {

/// The codec's 32-character alphabet: digits and lowercase letters,
/// leaving out the easily confused `e`, `o`, `u` and `t`.
pub const BASE32_CHARACTERS: [char; 32] = ['0', '1', '2', '3', '4', '5', '6', '7', '8', '9', 'a',
    'b', 'c', 'd', 'f', 'g', 'h', 'i', 'j', 'k', 'l', 'm', 'n', 'p', 'q', 'r', 's', 'v', 'w', 'x',
    'y', 'z'];

/// A digest string whose payload is not valid hexadecimal.
#[derive(Debug)]
pub struct MalformedInputError;

/// Bit `k` of the byte string, as 0 or 1: bit `k % 8` of byte `k / 8`,
/// counting from the least significant bit; zero past the end.
pub open spec fn spec_bit(bytes: Seq<u8>, k: int) -> int {
    if 0 <= k < 8 * bytes.len() {
        ((bytes[k / 8] >> ((k % 8) as u8)) & 1) as int
    } else {
        0
    }
}

/// The value of the five-bit group `n`: bits `[5n, 5n + 5)`.
pub open spec fn spec_group5(bytes: Seq<u8>, n: int) -> int {
    spec_bit(bytes, 5 * n) + 2 * spec_bit(bytes, 5 * n + 1) + 4 * spec_bit(bytes, 5 * n + 2) + 8
        * spec_bit(bytes, 5 * n + 3) + 16 * spec_bit(bytes, 5 * n + 4)
}

/// The encoded length: one character per five bits, rounded up.
pub open spec fn spec_base32_len(n: nat) -> nat {
    (8 * n + 4) / 5
}

/// The base-32 text of `bytes`: character `p` carries group
/// `len - 1 - p`, so the most significant group comes first.
pub open spec fn spec_base32_encode(bytes: Seq<u8>) -> Seq<char> {
    Seq::new(
        spec_base32_len(bytes.len()),
        |p: int| BASE32_CHARACTERS@[spec_group5(bytes, spec_base32_len(bytes.len()) - 1 - p)],
    )
}

/// The position of `c` in the codec's alphabet, or -1 when `c` is not
/// an alphabet character: the inverse of the alphabet mapping.
#[verifier::opaque]
pub open spec fn alpha_index(c: char) -> int {
    if c == '0' {
        0
    } else if c == '1' {
        1
    } else if c == '2' {
        2
    } else if c == '3' {
        3
    } else if c == '4' {
        4
    } else if c == '5' {
        5
    } else if c == '6' {
        6
    } else if c == '7' {
        7
    } else if c == '8' {
        8
    } else if c == '9' {
        9
    } else if c == 'a' {
        10
    } else if c == 'b' {
        11
    } else if c == 'c' {
        12
    } else if c == 'd' {
        13
    } else if c == 'f' {
        14
    } else if c == 'g' {
        15
    } else if c == 'h' {
        16
    } else if c == 'i' {
        17
    } else if c == 'j' {
        18
    } else if c == 'k' {
        19
    } else if c == 'l' {
        20
    } else if c == 'm' {
        21
    } else if c == 'n' {
        22
    } else if c == 'p' {
        23
    } else if c == 'q' {
        24
    } else if c == 'r' {
        25
    } else if c == 's' {
        26
    } else if c == 'v' {
        27
    } else if c == 'w' {
        28
    } else if c == 'x' {
        29
    } else if c == 'y' {
        30
    } else if c == 'z' {
        31
    } else {
        -1
    }
}

/// Bit `r` of a five-bit group value.
pub open spec fn bit_of5(v: int, r: int) -> int {
    if r == 0 {
        v % 2
    } else if r == 1 {
        (v / 2) % 2
    } else if r == 2 {
        (v / 4) % 2
    } else if r == 3 {
        (v / 8) % 2
    } else {
        (v / 16) % 2
    }
}

/// The value of group `q` read back from encoded text `s`: the groups
/// were emitted most significant first, so group `q` sits at character
/// `len - 1 - q`.
pub open spec fn spec_read_group(s: Seq<char>, q: int) -> int {
    alpha_index(s[s.len() - 1 - q])
}

/// Bit `k` of the byte string read back from encoded text `s`.
#[verifier::opaque]
pub open spec fn spec_read_bit(s: Seq<char>, k: int) -> int {
    bit_of5(spec_read_group(s, k / 5), k % 5)
}

/// Byte `i` of the byte string read back from encoded text `s`.
pub open spec fn spec_read_byte(s: Seq<char>, i: int) -> u8 {
    (spec_read_bit(s, 8 * i) + 2 * spec_read_bit(s, 8 * i + 1) + 4 * spec_read_bit(s, 8 * i + 2) + 8
        * spec_read_bit(s, 8 * i + 3) + 16 * spec_read_bit(s, 8 * i + 4) + 32 * spec_read_bit(
        s,
        8 * i + 5,
    ) + 64 * spec_read_bit(s, 8 * i + 6) + 128 * spec_read_bit(s, 8 * i + 7)) as u8
}

/// The inverse of the encoding: maps each character back through the
/// alphabet and reassembles the bytes, five bits per character; fails
/// when a character is outside the alphabet.
pub open spec fn spec_base32_decode(s: Seq<char>) -> Option<Seq<u8>> {
    if forall|p: int| 0 <= p < s.len() ==> alpha_index(#[trigger] s[p]) >= 0 {
        Some(Seq::new((5 * s.len() / 8) as nat, |i: int| spec_read_byte(s, i)))
    } else {
        None
    }
}

/// The literal algorithm tag that prefixes every encoded digest.
pub open spec fn spec_sha256_tag() -> Seq<char> {
    seq!['s', 'h', 'a', '2', '5', '6', ':']
}

/// A hexadecimal digit, either case.
pub open spec fn is_hex_digit(c: char) -> bool {
    ('0' as u32) <= (c as u32) <= ('9' as u32) || ('a' as u32) <= (c as u32) <= ('f' as u32) || (
    'A' as u32) <= (c as u32) <= ('F' as u32)
}

/// The value of a hexadecimal digit.
pub open spec fn hex_digit_value(c: char) -> int {
    if ('0' as u32) <= (c as u32) <= ('9' as u32) {
        (c as u32) - ('0' as u32)
    } else if ('a' as u32) <= (c as u32) <= ('f' as u32) {
        (c as u32) - ('a' as u32) + 10
    } else {
        (c as u32) - ('A' as u32) + 10
    }
}

/// An even-length string of hexadecimal digits.
pub open spec fn spec_hex_valid(s: Seq<char>) -> bool {
    s.len() % 2 == 0 && forall|i: int| 0 <= i < s.len() ==> is_hex_digit(#[trigger] s[i])
}

/// The bytes a valid hexadecimal string denotes, two digits per byte,
/// most significant digit first.
pub open spec fn spec_hex_bytes(s: Seq<char>) -> Seq<u8> {
    Seq::new(
        (s.len() / 2) as nat,
        |i: int| (hex_digit_value(s[2 * i]) * 16 + hex_digit_value(s[2 * i + 1])) as u8,
    )
}

/// Relies on `hex::decode`: accepts exactly the even-length strings of
/// hexadecimal digits (either case) and returns their bytes, two digits
/// per byte, most significant digit first.
#[verifier::external_body]
fn hex_decode(s: &str) -> (r: Option<Vec<u8>>)
    ensures
        r is Some <==> spec_hex_valid(s@),
        r matches Some(b) ==> b@ == spec_hex_bytes(s@),
{
    hex::decode(s).ok()
}

/// How the implementation packs five bits from the two bytes around a
/// group boundary, shown equal to the group's arithmetic value.
proof fn lemma_pack_bits(x: u8, y: u8, j: u8, c: u8)
    by (bit_vector)
    requires
        j < 8,
        c == if j == 0 {
            x & 0x1f
        } else {
            ((x >> j) | (y << ((8 - j) as u8))) & 0x1f
        },
    ensures
        c < 32,
        c as int == bit_from_pair(x, y, j, 0) + 2 * bit_from_pair(x, y, j, 1) + 4 * bit_from_pair(
            x,
            y,
            j,
            2,
        ) + 8 * bit_from_pair(x, y, j, 3) + 16 * bit_from_pair(x, y, j, 4),
{
}

/// Bit `j + r` of the 16-bit window formed by `x` (low byte) and `y`
/// (high byte).
pub open spec fn bit_from_pair(x: u8, y: u8, j: u8, r: u8) -> int {
    if j + r < 8 {
        ((x >> ((j + r) as u8)) & 1) as int
    } else {
        ((y >> ((j + r - 8) as u8)) & 1) as int
    }
}

/// The packed group value at bit offset `5n = 8i + j` equals the
/// specification's group value.
proof fn lemma_group_value(bytes: Seq<u8>, n: int, i: int, j: u8, x: u8, y: u8, c: u8)
    requires
        0 <= n,
        5 * n == 8 * i + j,
        j < 8,
        0 <= i < bytes.len(),
        8 * bytes.len() + 4 < usize::MAX,
        x == bytes[i],
        y == if j > 0 && i + 1 < bytes.len() {
            bytes[i + 1]
        } else {
            0
        },
        c == if j == 0 {
            x & 0x1f
        } else {
            ((x >> j) | (y << ((8 - j) as u8))) & 0x1f
        },
    ensures
        c < 32,
        c as int == spec_group5(bytes, n),
{
    lemma_pack_bits(x, y, j, c);
    assert forall|r: u8| r < 5 implies bit_from_pair(x, y, j, r) == spec_bit(bytes, 5 * n + r) by {
        let k = 5 * n + r;
        if j + r < 8 {
            lemma_fundamental_div_mod_converse(k, 8, i, (j + r) as int);
            assert(spec_bit(bytes, k) == ((bytes[i] >> ((j + r) as u8)) & 1) as int);
        } else {
            lemma_fundamental_div_mod_converse(k, 8, i + 1, (j + r - 8) as int);
            if i + 1 < bytes.len() {
                assert(spec_bit(bytes, k) == ((bytes[i + 1] >> ((j + r - 8) as u8)) & 1) as int);
            } else {
                assert(k >= 8 * bytes.len());
                assert(spec_bit(bytes, k) == 0);
                let m = (j + r - 8) as u8;
                assert(((0u8 >> m) & 1) as int == 0) by (bit_vector);
            }
        }
    }
}

proof fn lemma_bit01(bytes: Seq<u8>, k: int)
    ensures
        0 <= spec_bit(bytes, k) <= 1,
{
    if 0 <= k < 8 * bytes.len() {
        let x = bytes[k / 8];
        let jj = (k % 8) as u8;
        assert(((x >> jj) & 1) <= 1) by (bit_vector);
    }
}

proof fn lemma_group5_range(bytes: Seq<u8>, q: int)
    ensures
        0 <= spec_group5(bytes, q) < 32,
{
    lemma_bit01(bytes, 5 * q);
    lemma_bit01(bytes, 5 * q + 1);
    lemma_bit01(bytes, 5 * q + 2);
    lemma_bit01(bytes, 5 * q + 3);
    lemma_bit01(bytes, 5 * q + 4);
}

/// The inverse mapping cancels the alphabet.
proof fn lemma_alpha_inverse(g: int)
    requires
        0 <= g < 32,
    ensures
        alpha_index(BASE32_CHARACTERS@[g]) == g,
{
    reveal(alpha_index);
}

/// Extracting bit `r` of a group value recovers the encoded bit.
proof fn lemma_bit_of_group5(bytes: Seq<u8>, q: int, r: int)
    requires
        0 <= r < 5,
    ensures
        bit_of5(spec_group5(bytes, q), r) == spec_bit(bytes, 5 * q + r),
{
    let b0 = spec_bit(bytes, 5 * q);
    let b1 = spec_bit(bytes, 5 * q + 1);
    let b2 = spec_bit(bytes, 5 * q + 2);
    let b3 = spec_bit(bytes, 5 * q + 3);
    let b4 = spec_bit(bytes, 5 * q + 4);
    lemma_bit01(bytes, 5 * q);
    lemma_bit01(bytes, 5 * q + 1);
    lemma_bit01(bytes, 5 * q + 2);
    lemma_bit01(bytes, 5 * q + 3);
    lemma_bit01(bytes, 5 * q + 4);
    let v = spec_group5(bytes, q);
    if r == 0 {
        lemma_fundamental_div_mod_converse(v, 2, b1 + 2 * b2 + 4 * b3 + 8 * b4, b0);
    } else if r == 1 {
        lemma_fundamental_div_mod_converse(v, 2, b1 + 2 * b2 + 4 * b3 + 8 * b4, b0);
        lemma_fundamental_div_mod_converse(b1 + 2 * b2 + 4 * b3 + 8 * b4, 2, b2 + 2 * b3 + 4 * b4,
            b1);
        assert(v / 2 == b1 + 2 * b2 + 4 * b3 + 8 * b4);
    } else if r == 2 {
        lemma_fundamental_div_mod_converse(v, 4, b2 + 2 * b3 + 4 * b4, b0 + 2 * b1);
        lemma_fundamental_div_mod_converse(b2 + 2 * b3 + 4 * b4, 2, b3 + 2 * b4, b2);
    } else if r == 3 {
        lemma_fundamental_div_mod_converse(v, 8, b3 + 2 * b4, b0 + 2 * b1 + 4 * b2);
        lemma_fundamental_div_mod_converse(b3 + 2 * b4, 2, b4, b3);
    } else {
        lemma_fundamental_div_mod_converse(v, 16, b4, b0 + 2 * b1 + 4 * b2 + 8 * b3);
        lemma_fundamental_div_mod_converse(b4, 2, 0, b4);
    }
}

/// A byte reassembles from its eight bits.
proof fn lemma_byte_from_bits(x: u8)
    by (bit_vector)
    ensures
        x as int == ((x >> 0u8) & 1) as int + 2 * ((x >> 1u8) & 1) as int + 4 * ((x >> 2u8)
            & 1) as int + 8 * ((x >> 3u8) & 1) as int + 16 * ((x >> 4u8) & 1) as int + 32 * ((x
            >> 5u8) & 1) as int + 64 * ((x >> 6u8) & 1) as int + 128 * ((x >> 7u8) & 1) as int,
{
}

/// The number of bytes read back from an encoded text equals the
/// original count.
proof fn lemma_decode_len(n: int)
    requires
        0 <= n,
    ensures
        5 * (spec_base32_len(n as nat) as int) / 8 == n,
{
    let m = spec_base32_len(n as nat) as int;
    lemma_fundamental_div_mod(8 * n + 4, 5);
    let t = (8 * n + 4) % 5;
    lemma_fundamental_div_mod_converse(5 * m, 8, n, 4 - t);
}

/// Reading bit `k` back from the encoded text recovers bit `k` of the
/// bytes.
proof fn lemma_read_bit_matches(bytes: Seq<u8>, k: int)
    requires
        0 <= k < 8 * bytes.len(),
    ensures
        spec_read_bit(spec_base32_encode(bytes), k) == spec_bit(bytes, k),
{
    reveal(spec_read_bit);
    let s = spec_base32_encode(bytes);
    let n = bytes.len() as int;
    let m = spec_base32_len(bytes.len()) as int;
    lemma_fundamental_div_mod(8 * n + 4, 5);
    lemma_fundamental_div_mod(k, 5);
    let q = k / 5;
    let r = k % 5;
    assert(5 * q <= k < 5 * m);
    assert(0 <= q < m);
    assert(s[m - 1 - q] == BASE32_CHARACTERS@[spec_group5(bytes, q)]);
    lemma_group5_range(bytes, q);
    lemma_alpha_inverse(spec_group5(bytes, q));
    assert(spec_read_group(s, q) == spec_group5(bytes, q));
    lemma_bit_of_group5(bytes, q, r);
}

/// Reading byte `i` back from the encoded text recovers byte `i`.
proof fn lemma_read_byte_matches(bytes: Seq<u8>, i: int)
    requires
        0 <= i < bytes.len(),
    ensures
        spec_read_byte(spec_base32_encode(bytes), i) == bytes[i],
{
    let s = spec_base32_encode(bytes);
    let x = bytes[i];
    lemma_fundamental_div_mod_converse(8 * i, 8, i, 0);
    lemma_fundamental_div_mod_converse(8 * i + 1, 8, i, 1);
    lemma_fundamental_div_mod_converse(8 * i + 2, 8, i, 2);
    lemma_fundamental_div_mod_converse(8 * i + 3, 8, i, 3);
    lemma_fundamental_div_mod_converse(8 * i + 4, 8, i, 4);
    lemma_fundamental_div_mod_converse(8 * i + 5, 8, i, 5);
    lemma_fundamental_div_mod_converse(8 * i + 6, 8, i, 6);
    lemma_fundamental_div_mod_converse(8 * i + 7, 8, i, 7);
    lemma_read_bit_matches(bytes, 8 * i);
    lemma_read_bit_matches(bytes, 8 * i + 1);
    lemma_read_bit_matches(bytes, 8 * i + 2);
    lemma_read_bit_matches(bytes, 8 * i + 3);
    lemma_read_bit_matches(bytes, 8 * i + 4);
    lemma_read_bit_matches(bytes, 8 * i + 5);
    lemma_read_bit_matches(bytes, 8 * i + 6);
    lemma_read_bit_matches(bytes, 8 * i + 7);
    lemma_byte_from_bits(x);
}

/// Decoding the encoded form of any byte string through the inverse of
/// the alphabet mapping recovers the bytes exactly, so re-encoding the
/// decoded value reproduces the encoded text.
pub proof fn lemma_base32_round_trip(bytes: Seq<u8>)
    ensures
        spec_base32_decode(spec_base32_encode(bytes)) == Some(bytes),
{
    let s = spec_base32_encode(bytes);
    let n = bytes.len() as int;
    let m = spec_base32_len(bytes.len()) as int;
    lemma_decode_len(n);
    assert forall|p: int| 0 <= p < s.len() implies alpha_index(#[trigger] s[p]) >= 0 by {
        lemma_group5_range(bytes, m - 1 - p);
        lemma_alpha_inverse(spec_group5(bytes, m - 1 - p));
    }
    let dec = Seq::new((5 * s.len() / 8) as nat, |i: int| spec_read_byte(s, i));
    assert forall|i: int| 0 <= i < n implies dec[i] == bytes[i] by {
        lemma_read_byte_matches(bytes, i);
    }
    assert(dec =~= bytes);
}

/// Re-encodes a `sha256:`-tagged hexadecimal digest into the tagged
/// base-32 form; rejects a digest whose payload is not valid
/// hexadecimal (including one too short to carry the tag).
pub fn nar_hash_to_base32(nar_hash: &str) -> (r: Result<String, MalformedInputError>)
    requires
        nar_hash@.len() <= 0x1000_0000,
    ensures
        r is Ok <==> nar_hash@.len() >= 7 && spec_hex_valid(nar_hash@.skip(7)),
        r matches Ok(t) ==> t@ == spec_sha256_tag() + spec_base32_encode(
            spec_hex_bytes(nar_hash@.skip(7)),
        ),
{
    let n_chars = nar_hash.unicode_len();
    if n_chars < 7 {
        return Err(MalformedInputError);
    }
    let hex_part = nar_hash.substring_char(7, n_chars);
    proof {
        assert(hex_part@ =~= nar_hash@.skip(7));
    }
    let bytes = match hex_decode(hex_part) {
        Some(b) => b,
        None => {
            return Err(MalformedInputError);
        },
    };
    let mut out = "sha256:".to_owned();
    proof {
        reveal_strlit("sha256:");
        assert(out@ =~= spec_sha256_tag());
    }
    let ghost enc = spec_base32_encode(bytes@);
    let len = bytes.len();
    if len == 0 {
        proof {
            assert(enc =~= Seq::<char>::empty());
            assert(out@ =~= spec_sha256_tag() + enc);
        }
        return Ok(out);
    }
    let total = (len * 8 - 1) / 5 + 1;
    proof {
        lemma_fundamental_div_mod(8 * len as int - 1, 5);
        lemma_fundamental_div_mod_converse(
            8 * len as int + 4,
            5,
            (8 * len as int - 1) / 5 + 1,
            (8 * len as int - 1) % 5,
        );
        assert(total == spec_base32_len(bytes@.len()));
        assert(enc.take(0) =~= Seq::<char>::empty());
        assert(out@ =~= spec_sha256_tag() + enc.take(0));
    }
    let mut p: usize = 0;
    while p < total
        invariant
            0 <= p <= total,
            len == bytes@.len(),
            1 <= len,
            8 * len + 4 < usize::MAX,
            total == spec_base32_len(bytes@.len()),
            enc == spec_base32_encode(bytes@),
            out@ == spec_sha256_tag() + enc.take(p as int),
        decreases total - p,
    {
        let n = total - 1 - p;
        proof {
            lemma_fundamental_div_mod(8 * len as int - 1, 5);
            assert(5 * n < 8 * len);
        }
        let b = n * 5;
        let i = b / 8;
        let j = (b % 8) as u8;
        proof {
            lemma_fundamental_div_mod(b as int, 8);
            assert(8 * i as int <= b < 8 * len);
            assert(i < len);
        }
        let x = bytes[i];
        let y = if j > 0 && i + 1 < len {
            bytes[i + 1]
        } else {
            0
        };
        let c = if j == 0 {
            x & 0x1f
        } else {
            ((x >> j) | (y << (8 - j))) & 0x1f
        };
        proof {
            lemma_group_value(bytes@, n as int, i as int, j, x, y, c);
            assert(enc[p as int] == BASE32_CHARACTERS@[c as int]);
        }
        push_char(&mut out, BASE32_CHARACTERS[c as usize]);
        proof {
            assert(enc.take(p + 1) =~= enc.take(p as int).push(enc[p as int]));
            assert(out@ =~= spec_sha256_tag() + enc.take(p + 1));
        }
        p = p + 1;
    }
    proof {
        assert(enc.take(total as int) =~= enc);
    }
    Ok(out)
}


/// Encoding is deterministic: two calls on one digest return the same
/// text, shown here with both results returned proven equal.
pub fn encode_twice_agrees(nar_hash: &str) -> (r: (
    Result<String, MalformedInputError>,
    Result<String, MalformedInputError>,
))
    requires
        nar_hash@.len() <= 0x1000_0000,
    ensures
        r.0 is Ok <==> r.1 is Ok,
        r.0 matches Ok(a) ==> (r.1 matches Ok(b) && a@ == b@),
{
    let first = nar_hash_to_base32(nar_hash);
    let second = nar_hash_to_base32(nar_hash);
    (first, second)
}

} // verus!
