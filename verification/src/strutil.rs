//! Character-sequence utilities: lexicographic order, prefix and suffix
//! tests, decimal formatting and separator joins, with their spec-level
//! counterparts.

use vstd::prelude::*;
use vstd::string::*;

verus! {

/// Strictly smaller unicode scalar value.
pub open spec fn char_lt(a: char, b: char) -> bool {
    (a as u32) < (b as u32)
}

/// Lexicographic order on character sequences, by unicode scalar value;
/// a proper prefix sorts before its extensions.  This is the order of
/// Rust's `str` comparison on the strings this library handles.
pub open spec fn lex_le(a: Seq<char>, b: Seq<char>) -> bool
    decreases a.len(),
{
    if a.len() == 0 {
        true
    } else if b.len() == 0 {
        false
    } else if a[0] == b[0] {
        lex_le(a.skip(1), b.skip(1))
    } else {
        char_lt(a[0], b[0])
    }
}

/// `p` is a prefix of `s`.
pub open spec fn starts_with(s: Seq<char>, p: Seq<char>) -> bool {
    p.len() <= s.len() && forall|i: int| 0 <= i < p.len() ==> s[i] == p[i]
}

/// `x` is a suffix of `s`.
pub open spec fn ends_with(s: Seq<char>, x: Seq<char>) -> bool {
    x.len() <= s.len() && forall|i: int| 0 <= i < x.len() ==> s[s.len() - x.len() + i] == x[i]
}

pub proof fn lemma_lex_le_reflexive(a: Seq<char>)
    ensures
        lex_le(a, a),
    decreases a.len(),
{
    if a.len() > 0 {
        lemma_lex_le_reflexive(a.skip(1));
    }
}

pub proof fn lemma_lex_le_total(a: Seq<char>, b: Seq<char>)
    ensures
        lex_le(a, b) || lex_le(b, a),
    decreases a.len(),
{
    if a.len() > 0 && b.len() > 0 {
        if a[0] == b[0] {
            lemma_lex_le_total(a.skip(1), b.skip(1));
        } else {
            vstd::utf8::char_u32_cast(a[0], a[0] as u32);
            vstd::utf8::char_u32_cast(b[0], b[0] as u32);
        }
    }
}

pub proof fn lemma_lex_le_antisymmetric(a: Seq<char>, b: Seq<char>)
    ensures
        lex_le(a, b) && lex_le(b, a) ==> a == b,
    decreases a.len(),
{
    if a.len() > 0 && b.len() > 0 && a[0] == b[0] {
        lemma_lex_le_antisymmetric(a.skip(1), b.skip(1));
        if lex_le(a, b) && lex_le(b, a) {
            assert(a =~= seq![a[0]] + a.skip(1));
            assert(b =~= seq![b[0]] + b.skip(1));
        }
    }
}

pub proof fn lemma_lex_le_transitive(a: Seq<char>, b: Seq<char>, c: Seq<char>)
    ensures
        lex_le(a, b) && lex_le(b, c) ==> lex_le(a, c),
    decreases a.len(),
{
    if a.len() > 0 && b.len() > 0 && c.len() > 0 {
        lemma_lex_le_transitive(a.skip(1), b.skip(1), c.skip(1));
    }
}

/// The lexicographic order as a relation value, for the ordering
/// predicates of sequences.
pub open spec fn lex_leq() -> spec_fn(Seq<char>, Seq<char>) -> bool {
    |a: Seq<char>, b: Seq<char>| lex_le(a, b)
}

/// The lexicographic order is a total order.
pub proof fn lemma_lex_total_ordering()
    ensures
        vstd::relations::total_ordering(lex_leq()),
{
    assert forall|a: Seq<char>| #[trigger] lex_leq()(a, a) by {
        lemma_lex_le_reflexive(a);
    }
    assert forall|a: Seq<char>, b: Seq<char>| #[trigger] lex_leq()(a, b) && #[trigger] lex_leq()(
        b,
        a,
    ) implies a == b by {
        lemma_lex_le_antisymmetric(a, b);
    }
    assert forall|a: Seq<char>, b: Seq<char>, c: Seq<char>|
        #[trigger] lex_leq()(a, b) && #[trigger] lex_leq()(b, c) implies lex_leq()(a, c) by {
        lemma_lex_le_transitive(a, b, c);
    }
    assert forall|a: Seq<char>, b: Seq<char>| #[trigger] lex_leq()(a, b) || #[trigger] lex_leq()(
        b,
        a,
    ) by {
        lemma_lex_le_total(a, b);
    }
}

/// A prefix never sorts after its extensions.
pub proof fn lemma_prefix_lex_le(s: Seq<char>, p: Seq<char>)
    ensures
        starts_with(s, p) ==> lex_le(p, s),
    decreases p.len(),
{
    if starts_with(s, p) && p.len() > 0 {
        lemma_prefix_lex_le(s.skip(1), p.skip(1));
        assert(starts_with(s.skip(1), p.skip(1)));
    }
}

/// A string that sorts at or after `w` without extending it also sorts
/// after everything that does extend `w`.
pub proof fn lemma_sorts_past_all_extensions(w: Seq<char>, s: Seq<char>, t: Seq<char>)
    requires
        lex_le(w, s),
        !starts_with(s, w),
        starts_with(t, w),
    ensures
        !lex_le(s, t),
    decreases w.len(),
{
    assert(w.len() > 0);
    assert(t[0] == w[0]);
    if s.len() > 0 && s[0] == w[0] {
        assert(!starts_with(s.skip(1), w.skip(1))) by {
            if starts_with(s.skip(1), w.skip(1)) {
                assert forall|i: int| 0 <= i < w.len() implies s[i] == w[i] by {
                    if i >= 1 {
                        assert(s.skip(1)[i - 1] == w.skip(1)[i - 1]);
                    }
                }
            }
        }
        assert(starts_with(t.skip(1), w.skip(1)));
        lemma_sorts_past_all_extensions(w.skip(1), s.skip(1), t.skip(1));
    } else {
        assert(s.len() > 0);
        assert(char_lt(w[0], s[0]));
        if lex_le(s, t) {
            if s[0] == t[0] {
                vstd::utf8::char_u32_cast(s[0], s[0] as u32);
                vstd::utf8::char_u32_cast(w[0], w[0] as u32);
                assert(false);
            } else {
                assert(char_lt(s[0], t[0]));
                assert(false);
            }
        }
    }
}

/// Relies on std's `String::push`: appends exactly one character.
#[verifier::external_body]
pub fn push_char(s: &mut String, c: char)
    ensures
        final(s)@ == old(s)@.push(c),
{
    s.push(c);
}

/// Lexicographic comparison of two strings, by unicode scalar value.
pub fn str_lex_le(a: &str, b: &str) -> (r: bool)
    ensures
        r == lex_le(a@, b@),
{
    let a_len = a.unicode_len();
    let b_len = b.unicode_len();
    let mut i: usize = 0;
    proof {
        assert(a@.skip(0) =~= a@);
        assert(b@.skip(0) =~= b@);
    }
    loop
        invariant
            i <= a_len,
            i <= b_len,
            a_len == a@.len(),
            b_len == b@.len(),
            lex_le(a@, b@) == lex_le(a@.skip(i as int), b@.skip(i as int)),
        decreases a_len - i,
    {
        if i == a_len {
            return true;
        }
        if i == b_len {
            return false;
        }
        let ca = a.get_char(i);
        let cb = b.get_char(i);
        if (ca as u32) != (cb as u32) {
            proof {
                vstd::utf8::char_u32_cast(ca, ca as u32);
                vstd::utf8::char_u32_cast(cb, cb as u32);
            }
            return (ca as u32) < (cb as u32);
        }
        proof {
            vstd::utf8::char_u32_cast(ca, ca as u32);
            vstd::utf8::char_u32_cast(cb, cb as u32);
            assert(a@.skip(i as int).skip(1) =~= a@.skip(i + 1));
            assert(b@.skip(i as int).skip(1) =~= b@.skip(i + 1));
        }
        i = i + 1;
    }
}

/// Whether `s` begins with `p`.
pub fn str_starts_with(s: &str, p: &str) -> (r: bool)
    ensures
        r == starts_with(s@, p@),
{
    let s_len = s.unicode_len();
    let p_len = p.unicode_len();
    if p_len > s_len {
        return false;
    }
    let mut i: usize = 0;
    while i < p_len
        invariant
            i <= p_len <= s_len,
            s_len == s@.len(),
            p_len == p@.len(),
            forall|k: int| 0 <= k < i ==> s@[k] == p@[k],
        decreases p_len - i,
    {
        let cs = s.get_char(i);
        let cp = p.get_char(i);
        if (cs as u32) != (cp as u32) {
            proof {
                vstd::utf8::char_u32_cast(cs, cs as u32);
                vstd::utf8::char_u32_cast(cp, cp as u32);
            }
            return false;
        }
        proof {
            vstd::utf8::char_u32_cast(cs, cs as u32);
            vstd::utf8::char_u32_cast(cp, cp as u32);
        }
        i = i + 1;
    }
    true
}

/// Whether `s` ends with `x`.
pub fn str_ends_with(s: &str, x: &str) -> (r: bool)
    ensures
        r == ends_with(s@, x@),
{
    let s_len = s.unicode_len();
    let x_len = x.unicode_len();
    if x_len > s_len {
        return false;
    }
    let off = s_len - x_len;
    let mut i: usize = 0;
    while i < x_len
        invariant
            i <= x_len <= s_len,
            off == s_len - x_len,
            s_len == s@.len(),
            x_len == x@.len(),
            forall|k: int| 0 <= k < i ==> s@[off + k] == x@[k],
        decreases x_len - i,
    {
        let cs = s.get_char(off + i);
        let cx = x.get_char(i);
        if (cs as u32) != (cx as u32) {
            proof {
                vstd::utf8::char_u32_cast(cs, cs as u32);
                vstd::utf8::char_u32_cast(cx, cx as u32);
            }
            return false;
        }
        proof {
            vstd::utf8::char_u32_cast(cs, cs as u32);
            vstd::utf8::char_u32_cast(cx, cx as u32);
        }
        i = i + 1;
    }
    true
}

/// The decimal digits.
pub const DEC_DIGITS: [char; 10] = ['0', '1', '2', '3', '4', '5', '6', '7', '8', '9'];

/// The decimal text of `n`, most significant digit first, no leading zeros.
pub open spec fn spec_dec(n: nat) -> Seq<char>
    decreases n,
{
    if n < 10 {
        seq![DEC_DIGITS[n as int]]
    } else {
        spec_dec(n / 10).push(DEC_DIGITS[(n % 10) as int])
    }
}

/// Appends the decimal text of `n` to `s`.
pub fn push_dec(s: &mut String, n: u64)
    ensures
        final(s)@ == old(s)@ + spec_dec(n as nat),
    decreases n,
{
    if n >= 10 {
        push_dec(s, n / 10);
    }
    let d = (n % 10) as usize;
    push_char(s, DEC_DIGITS[d]);
    proof {
        if n >= 10 {
            assert(old(s)@ + spec_dec((n / 10) as nat) + seq![DEC_DIGITS@[(n % 10) as int]] =~= old(
                s,
            )@ + spec_dec(n as nat));
        } else {
            assert(old(s)@ + seq![DEC_DIGITS@[n as int]] =~= old(s)@ + spec_dec(n as nat));
        }
    }
}

/// The items joined with `sep` between neighbours; empty when there are
/// no items.
pub open spec fn spec_join(items: Seq<Seq<char>>, sep: Seq<char>) -> Seq<char>
    decreases items.len(),
{
    if items.len() == 0 {
        seq![]
    } else if items.len() == 1 {
        items[0]
    } else {
        items[0] + sep + spec_join(items.skip(1), sep)
    }
}

/// Joining one more item appends a separator and the item.
pub proof fn lemma_join_push(items: Seq<Seq<char>>, sep: Seq<char>, x: Seq<char>)
    ensures
        items.len() == 0 ==> spec_join(items.push(x), sep) == x,
        items.len() > 0 ==> spec_join(items.push(x), sep) == spec_join(items, sep) + sep + x,
    decreases items.len(),
{
    if items.len() == 0 {
        assert(items.push(x)[0] == x);
        assert(spec_join(items.push(x), sep) == x);
    } else if items.len() == 1 {
        assert(items.push(x).skip(1) =~= seq![x]);
        assert(items.push(x)[0] == items[0]);
        assert(spec_join(seq![x], sep) == x);
        assert(spec_join(items.push(x), sep) == items[0] + sep + x);
    } else {
        lemma_join_push(items.skip(1), sep, x);
        assert(items.push(x).skip(1) =~= items.skip(1).push(x));
        assert(spec_join(items, sep) + sep + x =~= items[0] + sep + (spec_join(items.skip(1), sep)
            + sep + x));
    }
}

} // verus!
