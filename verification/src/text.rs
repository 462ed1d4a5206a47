//! Text primitives shared by the index and the scorer: case folding,
//! whitespace tokens, normalization, ordering and substring search.
//!
//! Texts are modelled as `Seq<char>`. Three facts about characters come from
//! the standard library's Unicode tables and are only named here:
//! [`lowercase_of`], [`is_whitespace`] and [`is_alphabetic`]. Everything else
//! is defined on top of those names and proved.

use vstd::prelude::*;

verus! {

/// The lower-case form of a text, as `str::to_lowercase` computes it.
pub uninterp spec fn lowercase_of(s: Seq<char>) -> Seq<char>;

/// Whether a character is Unicode whitespace (`White_Space`), as
/// `char::is_whitespace` reports it.
pub uninterp spec fn is_whitespace(c: char) -> bool;

/// Whether a character is a Unicode letter (`Alphabetic`), as
/// `char::is_alphabetic` reports it.
pub uninterp spec fn is_alphabetic(c: char) -> bool;

/// Calls `str::to_lowercase`. Trusted: the result is the text's lower-case
/// form, which is what [`lowercase_of`] names.
#[verifier::external_body]
pub(crate) fn lowercase(s: &str) -> (lower: String)
    ensures
        lower@ == lowercase_of(s@),
{
    s.to_lowercase()
}

/// Calls `char::is_whitespace`. Trusted: the answer is what
/// [`is_whitespace`] names.
#[verifier::external_body]
pub(crate) fn char_is_whitespace(c: char) -> (b: bool)
    ensures
        b == is_whitespace(c),
{
    c.is_whitespace()
}

/// Calls `char::is_alphabetic`. Trusted: the answer is what
/// [`is_alphabetic`] names.
#[verifier::external_body]
pub(crate) fn char_is_alphabetic(c: char) -> (b: bool)
    ensures
        b == is_alphabetic(c),
{
    c.is_alphabetic()
}

/// Calls `String::from_iter` on the characters. Trusted: the string holds
/// exactly those characters, in order.
#[verifier::external_body]
pub(crate) fn string_of(chars: &Vec<char>) -> (s: String)
    ensures
        s@ == chars@,
{
    String::from_iter(chars)
}

/// The characters of a text, in order.
pub fn chars_of(s: &str) -> (chars: Vec<char>)
    ensures
        chars@ == s@,
{
    let mut out: Vec<char> = Vec::new();
    for c in it: s.chars()
        invariant
            it.seq() == s@,
            out@ == s@.take(it.index() as int),
    {
        out.push(c);
    }
    out
}

/// The views of a list of words.
pub open spec fn word_views(words: Seq<Vec<char>>) -> Seq<Seq<char>> {
    Seq::new(words.len(), |i: int| words[i]@)
}

/// The whitespace-separated words of a text, in order of appearance.
///
/// Defined by reading the text from the left: a whitespace character ends
/// the word before it, any other character starts a new word or extends the
/// word that the previous character belongs to.
pub open spec fn tokens(s: Seq<char>) -> Seq<Seq<char>>
    decreases s.len(),
{
    if s.len() == 0 {
        Seq::empty()
    } else {
        let before = tokens(s.drop_last());
        let c = s.last();
        if is_whitespace(c) {
            before
        } else if s.len() >= 2 && !is_whitespace(s[s.len() - 2]) {
            before.drop_last().push(before.last().push(c))
        } else {
            before.push(seq![c])
        }
    }
}

/// The words joined by single spaces.
pub open spec fn join(words: Seq<Seq<char>>) -> Seq<char>
    decreases words.len(),
{
    if words.len() == 0 {
        Seq::empty()
    } else if words.len() == 1 {
        words[0]
    } else {
        join(words.drop_last()) + seq![' '] + words.last()
    }
}

/// The normal form of a text: lower case, words separated by single spaces,
/// no whitespace at either end.
pub open spec fn normalized(s: Seq<char>) -> Seq<char> {
    if s.len() == 0 {
        Seq::empty()
    } else {
        join(tokens(lowercase_of(s)))
    }
}

/// A text without its leading whitespace.
pub open spec fn trimmed_start(s: Seq<char>) -> Seq<char>
    decreases s.len(),
{
    if s.len() > 0 && is_whitespace(s[0]) {
        trimmed_start(s.drop_first())
    } else {
        s
    }
}

/// A text without its trailing whitespace.
pub open spec fn trimmed_end(s: Seq<char>) -> Seq<char>
    decreases s.len(),
{
    if s.len() > 0 && is_whitespace(s.last()) {
        trimmed_end(s.drop_last())
    } else {
        s
    }
}

/// A text without whitespace at either end.
pub open spec fn trimmed(s: Seq<char>) -> Seq<char> {
    trimmed_end(trimmed_start(s))
}

/// `needle` stands in `hay` at position `at`.
pub open spec fn occurs_at(hay: Seq<char>, needle: Seq<char>, at: int) -> bool {
    &&& 0 <= at
    &&& at + needle.len() <= hay.len()
    &&& hay.subrange(at, at + needle.len()) == needle
}

/// `needle` is a contiguous part of `hay`. The empty text is part of every
/// text.
pub open spec fn contains_text(hay: Seq<char>, needle: Seq<char>) -> bool {
    exists|at: int| occurs_at(hay, needle, at)
}

/// `s` begins with `prefix`.
pub open spec fn starts_with(s: Seq<char>, prefix: Seq<char>) -> bool {
    occurs_at(s, prefix, 0)
}

/// Lexicographic order of texts by code point, the order of `str`.
pub open spec fn lex_le(a: Seq<char>, b: Seq<char>) -> bool
    decreases a.len(),
{
    if a.len() == 0 {
        true
    } else if b.len() == 0 {
        false
    } else if a[0] != b[0] {
        a[0] < b[0]
    } else {
        lex_le(a.drop_first(), b.drop_first())
    }
}

/// A sorted list with one more word put in its place: behind every word
/// that is not greater.
pub open spec fn insert_sorted(sorted: Seq<Seq<char>>, w: Seq<char>) -> Seq<Seq<char>>
    decreases sorted.len(),
{
    if sorted.len() == 0 {
        seq![w]
    } else if lex_le(sorted.last(), w) {
        sorted.push(w)
    } else {
        insert_sorted(sorted.drop_last(), w).push(sorted.last())
    }
}

/// The words in lexicographic order.
pub open spec fn sorted_words(words: Seq<Seq<char>>) -> Seq<Seq<char>>
    decreases words.len(),
{
    if words.len() == 0 {
        Seq::empty()
    } else {
        insert_sorted(sorted_words(words.drop_last()), words.last())
    }
}

/// Words are words: none is empty, none holds whitespace, and a text that
/// ends in a character other than whitespace has a last word.
pub proof fn lemma_tokens_are_words(s: Seq<char>)
    ensures
        forall|i: int| 0 <= i < tokens(s).len() ==> (#[trigger] tokens(s)[i]).len() > 0,
        forall|i: int, j: int|
            0 <= i < tokens(s).len() && 0 <= j < tokens(s)[i].len() ==> !is_whitespace(
                #[trigger] tokens(s)[i][j],
            ),
        s.len() > 0 && !is_whitespace(s.last()) ==> tokens(s).len() > 0,
    decreases s.len(),
{
    if s.len() > 0 {
        let before = tokens(s.drop_last());
        let c = s.last();
        lemma_tokens_are_words(s.drop_last());
        if is_whitespace(c) {
        } else if s.len() >= 2 && !is_whitespace(s[s.len() - 2]) {
            assert(s.drop_last().last() == s[s.len() - 2]);
            let grown = before.last().push(c);
            let now = before.drop_last().push(grown);
            assert forall|i: int| 0 <= i < now.len() implies (#[trigger] now[i]).len() > 0 by {
                if i < now.len() - 1 {
                    assert(now[i] == before[i]);
                }
            }
            assert forall|i: int, j: int| 0 <= i < now.len() && 0 <= j < now[i].len() implies !is_whitespace(
                #[trigger] now[i][j],
            ) by {
                if i < now.len() - 1 {
                    assert(now[i] == before[i]);
                } else if j < grown.len() - 1 {
                    assert(grown[j] == before.last()[j]);
                    assert(before.last() == before[before.len() - 1]);
                }
            }
        } else {
            let now = before.push(seq![c]);
            assert forall|i: int| 0 <= i < now.len() implies (#[trigger] now[i]).len() > 0 by {
                if i < now.len() - 1 {
                    assert(now[i] == before[i]);
                }
            }
            assert forall|i: int, j: int| 0 <= i < now.len() && 0 <= j < now[i].len() implies !is_whitespace(
                #[trigger] now[i][j],
            ) by {
                if i < now.len() - 1 {
                    assert(now[i] == before[i]);
                }
            }
        }
    }
}

/// Splits a text into its whitespace-separated words.
pub fn split_tokens(text: &Vec<char>) -> (words: Vec<Vec<char>>)
    ensures
        word_views(words@) == tokens(text@),
{
    let mut words: Vec<Vec<char>> = Vec::new();
    let mut cur: Vec<char> = Vec::new();
    let n = text.len();
    let mut i: usize = 0;
    while i < n
        invariant
            n == text@.len(),
            i <= n,
            (cur@.len() > 0) == (i > 0 && !is_whitespace(text@[i - 1])),
            tokens(text@.take(i as int)) == if cur@.len() > 0 {
                word_views(words@).push(cur@)
            } else {
                word_views(words@)
            },
        decreases n - i,
    {
        let c = text[i];
        let ghost prefix = text@.take(i as int);
        let ghost next = text@.take(i + 1);
        proof {
            assert(next.drop_last() == prefix);
            assert(next.last() == c);
            if i > 0 {
                assert(next[next.len() - 2] == text@[i - 1]);
            }
        }
        if char_is_whitespace(c) {
            if cur.len() > 0 {
                let ghost before = word_views(words@);
                let ghost word = cur@;
                words.push(cur);
                cur = Vec::new();
                assert(word_views(words@) == before.push(word));
            }
            assert(tokens(next) == word_views(words@));
        } else {
            let ghost before = word_views(words@);
            let ghost word = cur@;
            cur.push(c);
            proof {
                if word.len() > 0 {
                    assert(before.push(word).drop_last() == before);
                    assert(before.push(word).last() == word);
                    assert(tokens(next) == before.push(word.push(c)));
                } else {
                    assert(word.push(c) == seq![c]);
                    assert(tokens(next) == before.push(seq![c]));
                }
            }
        }
        i += 1;
    }
    assert(text@.take(n as int) == text@);
    if cur.len() > 0 {
        let ghost before = word_views(words@);
        let ghost word = cur@;
        words.push(cur);
        assert(word_views(words@) == before.push(word));
    }
    words
}

/// Joins words with single spaces.
pub fn join_words(words: &Vec<Vec<char>>) -> (text: Vec<char>)
    ensures
        text@ == join(word_views(words@)),
{
    let mut out: Vec<char> = Vec::new();
    let n = words.len();
    let mut k: usize = 0;
    while k < n
        invariant
            n == words@.len(),
            k <= n,
            out@ == join(word_views(words@).take(k as int)),
        decreases n - k,
    {
        let ghost done = word_views(words@).take(k as int);
        let ghost next = word_views(words@).take(k + 1);
        proof {
            assert(next.drop_last() == done);
            assert(next.last() == words@[k as int]@);
        }
        if k > 0 {
            out.push(' ');
        }
        let word = &words[k];
        let m = word.len();
        let ghost base = out@;
        let mut j: usize = 0;
        while j < m
            invariant
                m == word@.len(),
                j <= m,
                out@ == base + word@.take(j as int),
            decreases m - j,
        {
            out.push(word[j]);
            assert(word@.take(j + 1) == word@.take(j as int).push(word@[j as int]));
            j += 1;
        }
        assert(word@.take(m as int) == word@);
        proof {
            if k == 0 {
                assert(base + word@ == word@);
            }
        }
        k += 1;
    }
    assert(word_views(words@).take(n as int) == word_views(words@));
    out
}

/// Removes whitespace from both ends of a text.
pub fn trim_chars(text: &Vec<char>) -> (out: Vec<char>)
    ensures
        out@ == trimmed(text@),
{
    let n = text.len();
    let mut start: usize = 0;
    assert(text@.skip(0) == text@);
    while start < n && char_is_whitespace(text[start])
        invariant
            n == text@.len(),
            start <= n,
            trimmed_start(text@) == trimmed_start(text@.skip(start as int)),
        decreases n - start,
    {
        assert(text@.skip(start as int).drop_first() == text@.skip(start + 1));
        start += 1;
    }
    let ghost rest = text@.skip(start as int);
    assert(trimmed_start(text@) == rest);
    let mut end: usize = n;
    while end > start && char_is_whitespace(text[end - 1])
        invariant
            n == text@.len(),
            start <= end <= n,
            rest == text@.skip(start as int),
            trimmed_end(rest) == trimmed_end(text@.subrange(start as int, end as int)),
        decreases end,
    {
        assert(text@.subrange(start as int, end as int).drop_last() == text@.subrange(
            start as int,
            end - 1,
        ));
        end -= 1;
    }
    proof {
        if end == n {
            assert(text@.subrange(start as int, end as int) == rest);
        } else {
            assert(text@.subrange(start as int, n as int) == rest);
        }
    }
    let mut out: Vec<char> = Vec::new();
    let mut i: usize = start;
    while i < end
        invariant
            start <= i <= end <= n,
            n == text@.len(),
            out@ == text@.subrange(start as int, i as int),
        decreases end - i,
    {
        out.push(text[i]);
        i += 1;
    }
    out
}

/// Whether `needle` stands in `hay` at position `at`.
pub fn matches_at(hay: &Vec<char>, needle: &Vec<char>, at: usize) -> (found: bool)
    ensures
        found == occurs_at(hay@, needle@, at as int),
{
    let m = needle.len();
    if at > hay.len() || m > hay.len() - at {
        return false;
    }
    let mut j: usize = 0;
    while j < m
        invariant
            m == needle@.len(),
            at + m <= hay.len(),
            j <= m,
            forall|k: int| 0 <= k < j ==> hay@[at + k] == needle@[k],
        decreases m - j,
    {
        if hay[at + j] != needle[j] {
            assert(hay@.subrange(at as int, at + m)[j as int] != needle@[j as int]);
            return false;
        }
        j += 1;
    }
    assert(hay@.subrange(at as int, at + m) =~= needle@);
    true
}

/// Whether `needle` is a contiguous part of `hay`.
pub fn contains_chars(hay: &Vec<char>, needle: &Vec<char>) -> (found: bool)
    ensures
        found == contains_text(hay@, needle@),
{
    let n = hay.len();
    let m = needle.len();
    if m > n {
        return false;
    }
    let last = n - m;
    let mut at: usize = 0;
    loop
        invariant
            n == hay@.len(),
            m == needle@.len(),
            last == n - m,
            at <= last,
            forall|k: int| 0 <= k < at ==> !occurs_at(hay@, needle@, k),
        decreases last - at,
    {
        if matches_at(hay, needle, at) {
            return true;
        }
        if at == last {
            return false;
        }
        at += 1;
    }
}

/// Whether `a` comes before `b`, or equals it, in lexicographic order.
pub fn chars_le(a: &Vec<char>, b: &Vec<char>) -> (le: bool)
    ensures
        le == lex_le(a@, b@),
{
    let n = a.len();
    let m = b.len();
    let mut i: usize = 0;
    assert(a@.skip(0) == a@ && b@.skip(0) == b@);
    while i < n && i < m
        invariant
            n == a@.len(),
            m == b@.len(),
            i <= n,
            i <= m,
            lex_le(a@, b@) == lex_le(a@.skip(i as int), b@.skip(i as int)),
        decreases n - i,
    {
        let x = a[i];
        let y = b[i];
        proof {
            assert(a@.skip(i as int)[0] == x);
            assert(b@.skip(i as int)[0] == y);
            assert(a@.skip(i as int).drop_first() == a@.skip(i + 1));
            assert(b@.skip(i as int).drop_first() == b@.skip(i + 1));
        }
        if x != y {
            return x < y;
        }
        i += 1;
    }
    i == n
}

/// Where a word goes in a sorted list: behind the last word that is not
/// greater.
proof fn lemma_insert_sorted_at(sorted: Seq<Seq<char>>, w: Seq<char>, pos: int)
    requires
        0 <= pos <= sorted.len(),
        pos > 0 ==> lex_le(sorted[pos - 1], w),
        forall|j: int| pos <= j < sorted.len() ==> !lex_le(sorted[j], w),
    ensures
        insert_sorted(sorted, w) == sorted.insert(pos, w),
    decreases sorted.len(),
{
    if sorted.len() == 0 {
        assert(sorted.insert(pos, w) =~= seq![w]);
    } else if pos == sorted.len() {
        assert(sorted.insert(pos, w) =~= sorted.push(w));
    } else {
        lemma_insert_sorted_at(sorted.drop_last(), w, pos);
        assert(sorted.insert(pos, w) =~= sorted.drop_last().insert(pos, w).push(sorted.last()));
    }
}

/// The lexicographic order as a relation.
pub open spec fn lex_order() -> spec_fn(Seq<char>, Seq<char>) -> bool {
    |a: Seq<char>, b: Seq<char>| lex_le(a, b)
}

/// Every text is at most itself.
proof fn lemma_lex_le_reflexive(a: Seq<char>)
    ensures
        lex_le(a, a),
    decreases a.len(),
{
    if a.len() > 0 {
        lemma_lex_le_reflexive(a.drop_first());
    }
}

/// Two texts of which each is at most the other are the same text.
proof fn lemma_lex_le_antisymmetric(a: Seq<char>, b: Seq<char>)
    requires
        lex_le(a, b),
        lex_le(b, a),
    ensures
        a == b,
    decreases a.len(),
{
    if a.len() > 0 && b.len() > 0 {
        lemma_lex_le_antisymmetric(a.drop_first(), b.drop_first());
        assert(a =~= seq![a[0]] + a.drop_first());
        assert(b =~= seq![b[0]] + b.drop_first());
    } else {
        assert(a =~= b);
    }
}

/// The order carries over: from `a` to `b` and from `b` to `c`.
proof fn lemma_lex_le_transitive(a: Seq<char>, b: Seq<char>, c: Seq<char>)
    requires
        lex_le(a, b),
        lex_le(b, c),
    ensures
        lex_le(a, c),
    decreases a.len(),
{
    if a.len() > 0 && b.len() > 0 && c.len() > 0 && a[0] == b[0] && b[0] == c[0] {
        lemma_lex_le_transitive(a.drop_first(), b.drop_first(), c.drop_first());
    }
}

/// Of two texts one is at most the other.
proof fn lemma_lex_le_total(a: Seq<char>, b: Seq<char>)
    ensures
        lex_le(a, b) || lex_le(b, a),
    decreases a.len(),
{
    if a.len() > 0 && b.len() > 0 && a[0] == b[0] {
        lemma_lex_le_total(a.drop_first(), b.drop_first());
    }
}

/// The lexicographic order is a total order.
pub proof fn lemma_lex_order_is_total()
    ensures
        vstd::relations::total_ordering(lex_order()),
{
    let leq = lex_order();
    assert forall|x: Seq<char>| #[trigger] leq(x, x) by {
        lemma_lex_le_reflexive(x);
    }
    assert forall|x: Seq<char>, y: Seq<char>| #[trigger] leq(x, y) && #[trigger] leq(y, x) implies x
        == y by {
        lemma_lex_le_antisymmetric(x, y);
    }
    assert forall|x: Seq<char>, y: Seq<char>, z: Seq<char>| #[trigger]
        leq(x, y) && #[trigger] leq(y, z) implies leq(x, z) by {
        lemma_lex_le_transitive(x, y, z);
    }
    assert forall|x: Seq<char>, y: Seq<char>| #[trigger] leq(x, y) || #[trigger] leq(y, x) by {
        lemma_lex_le_total(x, y);
    }
}

/// The place of a word in a sorted list: behind the last word that is not
/// greater.
pub open spec fn sorted_position(sorted: Seq<Seq<char>>, w: Seq<char>) -> int
    decreases sorted.len(),
{
    if sorted.len() == 0 || lex_le(sorted.last(), w) {
        sorted.len() as int
    } else {
        sorted_position(sorted.drop_last(), w)
    }
}

/// Putting a word in its place is inserting it at [`sorted_position`].
proof fn lemma_insert_sorted_position(sorted: Seq<Seq<char>>, w: Seq<char>)
    ensures
        0 <= sorted_position(sorted, w) <= sorted.len(),
        sorted_position(sorted, w) > 0 ==> lex_le(sorted[sorted_position(sorted, w) - 1], w),
        forall|j: int| sorted_position(sorted, w) <= j < sorted.len() ==> !lex_le(sorted[j], w),
        insert_sorted(sorted, w) == sorted.insert(sorted_position(sorted, w), w),
    decreases sorted.len(),
{
    let pos = sorted_position(sorted, w);
    if sorted.len() == 0 || lex_le(sorted.last(), w) {
    } else {
        lemma_insert_sorted_position(sorted.drop_last(), w);
        assert(pos > 0 ==> sorted.drop_last()[pos - 1] == sorted[pos - 1]);
        assert forall|j: int| pos <= j < sorted.len() implies !lex_le(sorted[j], w) by {
            if j < sorted.len() - 1 {
                assert(sorted.drop_last()[j] == sorted[j]);
            }
        }
    }
    lemma_insert_sorted_at(sorted, w, pos);
}

/// A sorted list stays sorted, and gains exactly the word, when a word is
/// put in its place.
pub proof fn lemma_insert_sorted_sorted(sorted: Seq<Seq<char>>, w: Seq<char>)
    requires
        vstd::relations::sorted_by(sorted, lex_order()),
    ensures
        vstd::relations::sorted_by(insert_sorted(sorted, w), lex_order()),
        insert_sorted(sorted, w).to_multiset() == sorted.to_multiset().insert(w),
    decreases sorted.len(),
{
    broadcast use vstd::seq_lib::group_to_multiset_ensures;

    let leq = lex_order();
    lemma_insert_sorted_position(sorted, w);
    let pos = sorted_position(sorted, w);
    let out = sorted.insert(pos, w);
    assert forall|i: int, j: int| 0 <= i < j < out.len() implies #[trigger] leq(out[i], out[j]) by {
        if j < pos {
            assert(out[i] == sorted[i] && out[j] == sorted[j]);
            assert(leq(sorted[i], sorted[j]));
        } else if j == pos {
            assert(out[i] == sorted[i]);
            if i < pos - 1 {
                assert(leq(sorted[i], sorted[pos - 1]));
                lemma_lex_le_transitive(sorted[i], sorted[pos - 1], w);
            }
        } else if i < pos {
            assert(out[i] == sorted[i] && out[j] == sorted[j - 1]);
            assert(leq(sorted[i], sorted[j - 1]));
        } else if i == pos {
            assert(out[j] == sorted[j - 1]);
            lemma_lex_le_total(sorted[j - 1], w);
        } else {
            assert(out[i] == sorted[i - 1] && out[j] == sorted[j - 1]);
            assert(leq(sorted[i - 1], sorted[j - 1]));
        }
    }
    assert(out.remove(pos) =~= sorted);
    assert(out[pos] == w);
    assert(out.to_multiset().remove(w) =~= sorted.to_multiset());
    assert(out.to_multiset().count(w) > 0);
    assert(out.to_multiset() =~= sorted.to_multiset().insert(w));
}

/// Sorting gives a sorted list of the same words.
pub proof fn lemma_sorted_words_sorted(words: Seq<Seq<char>>)
    ensures
        vstd::relations::sorted_by(sorted_words(words), lex_order()),
        sorted_words(words).to_multiset() == words.to_multiset(),
    decreases words.len(),
{
    broadcast use vstd::seq_lib::group_to_multiset_ensures;

    if words.len() > 0 {
        lemma_sorted_words_sorted(words.drop_last());
        lemma_insert_sorted_sorted(sorted_words(words.drop_last()), words.last());
        assert(words =~= words.drop_last().push(words.last()));
    } else {
        assert(words =~= Seq::<Seq<char>>::empty());
    }
}

/// The order in which words come does not show once they are sorted: two
/// lists that hold the same words equally often sort to the same list.
pub proof fn lemma_sorting_ignores_order(words1: Seq<Seq<char>>, words2: Seq<Seq<char>>)
    requires
        words1.to_multiset() == words2.to_multiset(),
    ensures
        sorted_words(words1) == sorted_words(words2),
{
    lemma_sorted_words_sorted(words1);
    lemma_sorted_words_sorted(words2);
    lemma_lex_order_is_total();
    vstd::seq_lib::lemma_sorted_unique(sorted_words(words1), sorted_words(words2), lex_order());
}

/// Sorts words lexicographically.
pub fn sort_words(words: Vec<Vec<char>>) -> (sorted: Vec<Vec<char>>)
    ensures
        word_views(sorted@) == sorted_words(word_views(words@)),
{
    let ghost all = word_views(words@);
    let mut out: Vec<Vec<char>> = Vec::new();
    for w in it: words
        invariant
            it.seq() == words@,
            all == word_views(words@),
            word_views(out@) == sorted_words(all.take(it.index() as int)),
    {
        let ghost before = word_views(out@);
        let ghost next = all.take(it.index() + 1);
        proof {
            assert(next.drop_last() == all.take(it.index() as int));
            assert(next.last() == w@);
        }
        let mut pos: usize = out.len();
        while pos > 0 && !chars_le(&out[pos - 1], &w)
            invariant
                pos <= out@.len(),
                before == word_views(out@),
                forall|j: int| pos <= j < out@.len() ==> !lex_le(before[j], w@),
            decreases pos,
        {
            pos -= 1;
        }
        proof {
            lemma_insert_sorted_at(before, w@, pos as int);
        }
        out.insert(pos, w);
        assert(word_views(out@) == before.insert(pos as int, w@));
    }
    assert(all.take(all.len() as int) == all);
    out
}

/// Lower-cases a text, collapses each run of whitespace to one space and
/// removes whitespace at both ends.
pub fn normalize(s: &str) -> (norm: String)
    ensures
        norm@ == normalized(s@),
{
    if s.is_empty() {
        return String::new();
    }
    let lower = lowercase(s);
    let chars = chars_of(lower.as_str());
    let words = split_tokens(&chars);
    let joined = join_words(&words);
    string_of(&joined)
}

} // verus!
