//! The token-sort ratio: Jaro-Winkler similarity of two texts after their
//! words have been put in order, on a scale from 0 to 100 points.
//!
//! Scores are fixed-point numbers counted in millionths of a point, so that
//! every rule of the scorer is integer arithmetic. The similarity itself is
//! computed by `strsim`; its double enters the library as its IEEE 754 bit
//! pattern and is rounded to the nearest millionth by [`ratio_from_bits`].

use vstd::prelude::*;
use vstd::arithmetic::power2::*;
use crate::text::{
    chars_of, join, join_words, lemma_sorting_ignores_order, normalize, normalized, sort_words,
    sorted_words, split_tokens, string_of, tokens, word_views,
};

verus! {

/// A score, in millionths of a point.
pub type Score = u64;

/// One point.
pub const POINT: u64 = 1_000_000;

/// The greatest similarity: 100 points.
pub const RATIO_MAX: u64 = 100_000_000;

/// The bit pattern of the double that `strsim::jaro_winkler` returns for two
/// texts.
pub uninterp spec fn jaro_winkler_bits(a: Seq<char>, b: Seq<char>) -> u64;

/// Calls `strsim::jaro_winkler` and hands back the bits of its result.
/// Trusted: the result depends on the two texts alone, which is all that
/// [`jaro_winkler_bits`] claims.
#[verifier::external_body]
fn jaro_winkler_to_bits(a: &str, b: &str) -> (bits: u64)
    ensures
        bits == jaro_winkler_bits(a@, b@),
{
    strsim::jaro_winkler(a, b).to_bits()
}

/// The sign bit of a double is set.
pub open spec fn double_is_negative(bits: u64) -> bool {
    bits >= 0x8000_0000_0000_0000
}

/// The biased exponent of a double: eleven bits.
pub open spec fn double_exponent(bits: u64) -> nat {
    ((bits / 0x10_0000_0000_0000) % 0x800) as nat
}

/// The fraction of a double: its low fifty-two bits.
pub open spec fn double_fraction(bits: u64) -> nat {
    (bits % 0x10_0000_0000_0000) as nat
}

/// The significand of a non-negative double below one, which has the value
/// `double_significand / 2^double_scale`.
pub open spec fn double_significand(bits: u64) -> nat {
    if double_exponent(bits) == 0 {
        double_fraction(bits)
    } else {
        0x10_0000_0000_0000 + double_fraction(bits)
    }
}

/// See [`double_significand`].
pub open spec fn double_scale(bits: u64) -> nat {
    if double_exponent(bits) == 0 {
        1074
    } else {
        (1075 - double_exponent(bits)) as nat
    }
}

/// The similarity that a double between zero and one stands for, in
/// millionths of a point: a hundred million times its value, rounded to the
/// nearest integer, halves upwards. A negative double or a NaN counts as
/// zero, anything from one upwards as [`RATIO_MAX`].
pub open spec fn ratio_of_bits(bits: u64) -> nat {
    if double_is_negative(bits) || (double_exponent(bits) == 0x7ff && double_fraction(bits) != 0) {
        0
    } else if double_exponent(bits) >= 1023 {
        RATIO_MAX as nat
    } else {
        let significand = double_significand(bits) as int;
        let unit = pow2(double_scale(bits)) as int;
        ((2 * significand * (RATIO_MAX as int) + unit) / (2 * unit)) as nat
    }
}

/// The canonical form of a normalized text: its words in lexicographic
/// order, joined by single spaces.
pub open spec fn canonical(norm: Seq<char>) -> Seq<char> {
    join(sorted_words(tokens(norm)))
}

/// The token-sort ratio of two texts that are already normalized.
pub open spec fn prenormalized_ratio(norm1: Seq<char>, norm2: Seq<char>) -> nat {
    if norm1.len() == 0 || norm2.len() == 0 {
        0
    } else {
        ratio_of_bits(jaro_winkler_bits(canonical(norm1), canonical(norm2)))
    }
}

/// The token-sort ratio of two texts: zero if either is empty, else the
/// ratio of their normal forms.
pub open spec fn token_sort_ratio_of(s1: Seq<char>, s2: Seq<char>) -> nat {
    if s1.len() == 0 || s2.len() == 0 {
        0
    } else {
        prenormalized_ratio(normalized(s1), normalized(s2))
    }
}

/// Word order does not count: two normalized texts that hold the same words
/// equally often, in whatever order, have the same ratio to every text.
pub proof fn lemma_ratio_ignores_word_order(norm1: Seq<char>, other1: Seq<char>, norm2: Seq<char>)
    requires
        tokens(norm1).to_multiset() == tokens(other1).to_multiset(),
        norm1.len() > 0,
        other1.len() > 0,
    ensures
        prenormalized_ratio(norm1, norm2) == prenormalized_ratio(other1, norm2),
        prenormalized_ratio(norm2, norm1) == prenormalized_ratio(norm2, other1),
{
    lemma_sorting_ignores_order(tokens(norm1), tokens(other1));
}

/// The powers of two that bound the arithmetic of [`ratio_from_bits`].
proof fn lemma_pow2_values()
    ensures
        pow2(53) == 0x20_0000_0000_0000,
        pow2(80) == 0x1_0000_0000_0000_0000_0000,
        pow2(81) == 0x2_0000_0000_0000_0000_0000,
{
    lemma2_to64();
    lemma2_to64_rest();
    lemma_pow2_adds(64, 16);
    lemma_pow2_unfold(81);
}

/// Two to the power of `e`.
fn pow2_u128(e: u64) -> (p: u128)
    requires
        e <= 80,
    ensures
        p == pow2(e as nat),
{
    let mut p: u128 = 1;
    let mut k: u64 = 0;
    proof {
        lemma2_to64();
    }
    while k < e
        invariant
            k <= e <= 80,
            p == pow2(k as nat),
        decreases e - k,
    {
        proof {
            lemma_pow2_unfold((k + 1) as nat);
            lemma_pow2_values();
            if k + 1 < 80 {
                lemma_pow2_strictly_increases((k + 1) as nat, 80);
            }
        }
        p = p * 2;
        k += 1;
    }
    p
}

/// Every similarity lies between 0 and 100 points.
pub proof fn lemma_ratio_bounded(bits: u64)
    ensures
        ratio_of_bits(bits) <= RATIO_MAX,
{
    if !double_is_negative(bits) && double_exponent(bits) < 1023 {
        let m = double_significand(bits) as int;
        let s = double_scale(bits);
        let p = pow2(s) as int;
        lemma_pow2_values();
        lemma_pow2_pos(s);
        if s > 53 {
            lemma_pow2_strictly_increases(53, s);
        }
        assert(m < p);
        let r = RATIO_MAX as int;
        assert(2 * m * r + p < (r + 1) * (2 * p)) by (nonlinear_arith)
            requires
                0 <= m < p,
                r > 0,
        ;
        assert((2 * m * r + p) / (2 * p) < r + 1) by (nonlinear_arith)
            requires
                2 * m * r + p < (r + 1) * (2 * p),
                p > 0,
        ;
    }
}

/// Rounds the double with the given bit pattern to a similarity in
/// millionths of a point.
pub fn ratio_from_bits(bits: u64) -> (ratio: Score)
    ensures
        ratio == ratio_of_bits(bits),
        ratio <= RATIO_MAX,
{
    proof {
        lemma_ratio_bounded(bits);
    }
    let exponent: u64 = (bits / 0x10_0000_0000_0000) % 0x800;
    let fraction: u64 = bits % 0x10_0000_0000_0000;
    if bits >= 0x8000_0000_0000_0000 || (exponent == 0x7ff && fraction != 0) {
        return 0;
    }
    if exponent >= 1023 {
        return RATIO_MAX;
    }
    let significand: u64 = if exponent == 0 {
        fraction
    } else {
        0x10_0000_0000_0000 + fraction
    };
    let scale: u64 = if exponent == 0 {
        1074
    } else {
        1075 - exponent
    };
    let twice: u128 = 2 * (significand as u128) * (RATIO_MAX as u128);
    if scale > 80 {
        proof {
            let p = pow2(scale as nat) as int;
            lemma_pow2_values();
            if scale > 81 {
                lemma_pow2_strictly_increases(81, scale as nat);
            }
            assert(twice < p);
            assert((twice + p) / (2 * p) == 0) by (nonlinear_arith)
                requires
                    0 <= twice < p,
            ;
        }
        return 0;
    }
    let unit: u128 = pow2_u128(scale);
    proof {
        lemma_pow2_values();
        lemma_pow2_pos(scale as nat);
        if scale < 80 {
            lemma_pow2_strictly_increases(scale as nat, 80);
        }
    }
    let rounded: u128 = (twice + unit) / (2 * unit);
    rounded as u64
}

/// The words of a text in lexicographic order.
pub fn tokenize_and_sort(s: &str) -> (words: Vec<Vec<char>>)
    ensures
        word_views(words@) == sorted_words(tokens(s@)),
{
    let chars = chars_of(s);
    sort_words(split_tokens(&chars))
}

/// The canonical form of a normalized text.
pub fn canonical_form(norm: &str) -> (form: String)
    ensures
        form@ == canonical(norm@),
{
    let words = tokenize_and_sort(norm);
    let joined = join_words(&words);
    string_of(&joined)
}

/// Token-sort ratio of two texts that are already normalized.
pub fn token_sort_ratio_prenormalized(norm1: &str, norm2: &str) -> (ratio: Score)
    ensures
        ratio == prenormalized_ratio(norm1@, norm2@),
        ratio <= RATIO_MAX,
{
    if norm1.is_empty() || norm2.is_empty() {
        return 0;
    }
    let sorted1 = canonical_form(norm1);
    let sorted2 = canonical_form(norm2);
    ratio_from_bits(jaro_winkler_to_bits(sorted1.as_str(), sorted2.as_str()))
}

/// Token-sort ratio of two texts, from 0 to [`RATIO_MAX`]: how alike they
/// are once case, spacing and word order are set aside.
pub fn token_sort_ratio(s1: &str, s2: &str) -> (ratio: Score)
    ensures
        ratio == token_sort_ratio_of(s1@, s2@),
        ratio <= RATIO_MAX,
{
    if s1.is_empty() || s2.is_empty() {
        return 0;
    }
    let norm1 = normalize(s1);
    let norm2 = normalize(s2);
    token_sort_ratio_prenormalized(norm1.as_str(), norm2.as_str())
}

} // verus!
