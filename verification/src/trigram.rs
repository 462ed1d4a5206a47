//! Character trigrams: the coarse signal by which titles are found.

use vstd::prelude::*;
use std::collections::HashSet;
use crate::record::texts;
use crate::text::{chars_of, contains_text, lowercase, lowercase_of, occurs_at, string_of};

verus! {

broadcast use vstd::std_specs::hash::group_hash_axioms;

/// `t` is three consecutive characters of `s`.
pub open spec fn is_trigram_of(s: Seq<char>, t: Seq<char>) -> bool {
    t.len() == 3 && contains_text(s, t)
}

/// All windows of three consecutive characters of a text.
pub open spec fn windows_of(s: Seq<char>) -> Set<Seq<char>> {
    Set::new(|t: Seq<char>| is_trigram_of(s, t))
}

/// The trigrams of a text: the windows of its lower-case form.
pub open spec fn trigrams_of(text: Seq<char>) -> Set<Seq<char>> {
    windows_of(lowercase_of(text))
}

/// The window that starts at position `k`.
pub open spec fn window(s: Seq<char>, k: int) -> Seq<char> {
    s.subrange(k, k + 3)
}

/// The window at position `k` stands at an earlier position too.
pub open spec fn seen_before(s: Seq<char>, k: int) -> bool {
    exists|j: int| 0 <= j < k && window(s, j) == window(s, k)
}

/// The windows that start before position `upto`, each once, in the order
/// in which they first appear.
pub open spec fn first_windows(s: Seq<char>, upto: int) -> Seq<Seq<char>>
    decreases upto,
{
    if upto <= 0 {
        Seq::empty()
    } else if seen_before(s, upto - 1) {
        first_windows(s, upto - 1)
    } else {
        first_windows(s, upto - 1).push(window(s, upto - 1))
    }
}

/// The trigrams of a text, each once, in the order in which they first
/// appear in its lower-case form.
pub open spec fn trigram_list(text: Seq<char>) -> Seq<Seq<char>> {
    first_windows(lowercase_of(text), lowercase_of(text).len() - 2)
}

/// Three characters as one number: twenty-one bits for each.
pub open spec fn packed(a: char, b: char, c: char) -> u64 {
    ((a as int) * 0x400_0000_0000 + (b as int) * 0x20_0000 + (c as int)) as u64
}

/// The window that starts at position `k`, as one number.
pub open spec fn window_code(s: Seq<char>, k: int) -> u64 {
    packed(s[k], s[k + 1], s[k + 2])
}

/// Every character of the text is a code point of at most twenty-one bits.
pub open spec fn fits_packing(s: Seq<char>) -> bool {
    forall|k: int| 0 <= k < s.len() ==> 0 <= (#[trigger] s[k]) as int <= 0x10_ffff
}

/// Different windows have different numbers.
proof fn lemma_window_code_tells_windows_apart(s: Seq<char>, j: int, k: int)
    requires
        0 <= j,
        j + 3 <= s.len(),
        0 <= k,
        k + 3 <= s.len(),
        fits_packing(s),
    ensures
        window_code(s, j) == window_code(s, k) <==> window(s, j) == window(s, k),
{
    if window(s, j) == window(s, k) {
        assert(window(s, j)[0] == s[j] && window(s, k)[0] == s[k]);
        assert(window(s, j)[1] == s[j + 1] && window(s, k)[1] == s[k + 1]);
        assert(window(s, j)[2] == s[j + 2] && window(s, k)[2] == s[k + 2]);
    }
    if window_code(s, j) == window_code(s, k) {
        let a = s[j] as int;
        let b = s[j + 1] as int;
        let c = s[j + 2] as int;
        let d = s[k] as int;
        let e = s[k + 1] as int;
        let f = s[k + 2] as int;
        assert(a * 0x400_0000_0000 + b * 0x20_0000 + c == d * 0x400_0000_0000 + e * 0x20_0000 + f);
        assert(a == d && b == e && c == f) by (nonlinear_arith)
            requires
                a * 0x400_0000_0000 + b * 0x20_0000 + c == d * 0x400_0000_0000 + e * 0x20_0000
                    + f,
                0 <= a <= 0x10_ffff,
                0 <= b <= 0x10_ffff,
                0 <= c <= 0x10_ffff,
                0 <= d <= 0x10_ffff,
                0 <= e <= 0x10_ffff,
                0 <= f <= 0x10_ffff,
        ;
        assert(s[j] == s[k] && s[j + 1] == s[k + 1] && s[j + 2] == s[k + 2]);
        assert(window(s, j) =~= window(s, k));
    }
}

/// The number of a character: its code point.
fn code_point(c: char) -> (code: u64)
    ensures
        code == c as int,
        code <= 0x10_ffff,
{
    (c as u32) as u64
}

/// A text of fewer than three characters has no window.
pub proof fn lemma_short_text_has_no_window(s: Seq<char>)
    requires
        s.len() < 3,
    ensures
        windows_of(s) == Set::<Seq<char>>::empty(),
{
    assert forall|t: Seq<char>| !is_trigram_of(s, t) by {
        if t.len() == 3 {
            assert forall|at: int| !occurs_at(s, t, at) by {}
        }
    }
    assert(windows_of(s) =~= Set::<Seq<char>>::empty());
}

/// The set of trigrams of a text, each once, in the order in which they
/// first appear. The text is lower-cased first; its characters are Unicode
/// code points.
pub fn extract_trigrams(text: &str) -> (trigrams: Vec<String>)
    ensures
        texts(trigrams@) == trigram_list(text@),
        texts(trigrams@).no_duplicates(),
        texts(trigrams@).to_set() == trigrams_of(text@),
        lowercase_of(text@).len() < 3 ==> trigrams@.len() == 0,
{
    let lower = lowercase(text);
    let chars = chars_of(lower.as_str());
    let n = chars.len();
    let mut out: Vec<String> = Vec::new();
    if n < 3 {
        proof {
            lemma_short_text_has_no_window(chars@);
            assert(texts(out@).to_set() =~= Set::<Seq<char>>::empty());
            assert(texts(out@) =~= trigram_list(text@));
        }
        return out;
    }
    let mut codes: Vec<u64> = Vec::new();
    let mut k: usize = 0;
    while k < n
        invariant
            n == chars@.len(),
            k <= n,
            codes@.len() == k,
            forall|j: int|
                0 <= j < k ==> codes@[j] == (#[trigger] chars@[j]) as int && codes@[j] <= 0x10_ffff,
        decreases n - k,
    {
        codes.push(code_point(chars[k]));
        k += 1;
    }
    assert(fits_packing(chars@));
    let last = n - 3;
    let mut seen: HashSet<u64> = HashSet::new();
    let mut i: usize = 0;
    while i <= last
        invariant
            n == chars@.len(),
            n == codes@.len(),
            last == n - 3,
            i <= last + 1,
            fits_packing(chars@),
            texts(out@) == first_windows(chars@, i as int),
            forall|j: int|
                0 <= j < n ==> codes@[j] == (#[trigger] chars@[j]) as int && codes@[j] <= 0x10_ffff,
            texts(out@).no_duplicates(),
            forall|code: u64|
                seen@.contains(code) <==> exists|k: int|
                    0 <= k < i && window_code(chars@, k) == code,
            forall|t: Seq<char>|
                texts(out@).contains(t) <==> exists|k: int| 0 <= k < i && window(chars@, k) == t,
        decreases last + 1 - i,
    {
        let a = chars[i];
        let b = chars[i + 1];
        let c = chars[i + 2];
        let code: u64 = codes[i] * 0x400_0000_0000 + codes[i + 1] * 0x20_0000 + codes[i + 2];
        assert(code == window_code(chars@, i as int));
        let ghost here = window(chars@, i as int);
        let ghost before = texts(out@);
        let is_new = seen.insert(code);
        proof {
            if exists|k: int| 0 <= k < i && window(chars@, k) == here {
                let k = choose|k: int| 0 <= k < i && window(chars@, k) == here;
                lemma_window_code_tells_windows_apart(chars@, k, i as int);
                assert(!is_new);
            }
            if !is_new {
                let k = choose|k: int| 0 <= k < i && window_code(chars@, k) == code;
                lemma_window_code_tells_windows_apart(chars@, k, i as int);
                assert(window(chars@, k) == here);
            }
            assert(is_new == !seen_before(chars@, i as int));
        }
        if is_new {
            let mut w: Vec<char> = Vec::new();
            w.push(a);
            w.push(b);
            w.push(c);
            assert(w@ =~= here);
            out.push(string_of(&w));
            assert(texts(out@) =~= before.push(here));
            assert(!before.contains(here));
        }
        proof {
            let now = texts(out@);
            assert forall|t: Seq<char>| now.contains(t) <==> exists|k: int|
                0 <= k < i + 1 && window(chars@, k) == t by {
                if now.contains(t) {
                    let p = choose|p: int| 0 <= p < now.len() && now[p] == t;
                    if p < before.len() {
                        assert(before[p] == t);
                        assert(before.contains(t));
                    } else {
                        assert(window(chars@, i as int) == t);
                    }
                }
                if exists|k: int| 0 <= k < i + 1 && window(chars@, k) == t {
                    let k = choose|k: int| 0 <= k < i + 1 && window(chars@, k) == t;
                    if k < i || !is_new {
                        assert(before.contains(t));
                        let p = choose|p: int| 0 <= p < before.len() && before[p] == t;
                        assert(now[p] == t);
                    } else {
                        assert(now[before.len() as int] == t);
                    }
                }
            }
            assert forall|other: u64| seen@.contains(other) <==> exists|k: int|
                0 <= k < i + 1 && window_code(chars@, k) == other by {
                if other == code {
                    assert(window_code(chars@, i as int) == other);
                }
            }
        }
        i += 1;
    }
    proof {
        assert forall|t: Seq<char>|
            texts(out@).to_set().contains(t) <==> trigrams_of(text@).contains(t) by {
            if texts(out@).contains(t) {
                let k = choose|k: int| 0 <= k < i && window(chars@, k) == t;
                assert(occurs_at(chars@, t, k));
            }
            if is_trigram_of(chars@, t) {
                let at = choose|at: int| occurs_at(chars@, t, at);
                assert(window(chars@, at) == t);
            }
        }
        assert(texts(out@).to_set() =~= trigrams_of(text@));
    }
    out
}

} // verus!
