//! Author names: surname, given names and initials, and the test that lets
//! "E. M. Adams" stand for "Ernest M. Adams".

use vstd::prelude::*;
use crate::similarity::{token_sort_ratio, token_sort_ratio_of, POINT};
use crate::text::{
    char_is_alphabetic, chars_of, is_alphabetic, lowercase, lowercase_of, split_tokens, string_of,
    tokens, word_views,
};

verus! {

/// The upper-case form of an ASCII letter; any other character is itself.
pub open spec fn ascii_upper(c: char) -> char {
    if 'a' <= c && c <= 'z' {
        ((c as u32) - 32) as char
    } else {
        c
    }
}

/// A name is nothing but periods; the empty name is.
pub open spec fn only_periods(name: Seq<char>) -> bool {
    forall|i: int| 0 <= i < name.len() ==> name[i] == '.'
}

/// The letter a name starts with, in upper case; a name that is nothing but
/// periods has none.
pub open spec fn initial_letter(name: Seq<char>) -> Option<char> {
    if only_periods(name) {
        None
    } else {
        Some(ascii_upper(name[0]))
    }
}

/// A name is a bare initial: one letter, with or without a period behind
/// it.
pub open spec fn is_initial_name(name: Seq<char>) -> bool {
    &&& name.len() == 1 || (name.len() == 2 && name[1] == '.')
    &&& is_alphabetic(name[0])
}

/// The given names of an author text: all its words but the last. A text of
/// one word has none.
pub open spec fn given_names(author: Seq<char>) -> Seq<Seq<char>> {
    let words = tokens(author);
    if words.len() < 2 {
        Seq::empty()
    } else {
        words.drop_last()
    }
}

/// The surname of an author text: its last word, or the empty text if it has
/// no word.
pub open spec fn surname_of(author: Seq<char>) -> Seq<char> {
    let words = tokens(author);
    if words.len() == 0 {
        Seq::empty()
    } else {
        words.last()
    }
}

/// How many of the names are bare initials.
pub open spec fn count_initials(names: Seq<Seq<char>>) -> nat
    decreases names.len(),
{
    if names.len() == 0 {
        0
    } else {
        count_initials(names.drop_last()) + if is_initial_name(names.last()) {
            1nat
        } else {
            0nat
        }
    }
}

/// At how many of the first `n` positions the two lists of names start with
/// the same letter.
pub open spec fn letter_matches(a: Seq<Seq<char>>, b: Seq<Seq<char>>, n: nat) -> nat
    decreases n,
{
    if n == 0 {
        0
    } else {
        letter_matches(a, b, (n - 1) as nat) + if initial_letter(a[n - 1]) == initial_letter(
            b[n - 1],
        ) {
            1nat
        } else {
            0nat
        }
    }
}

/// The length of the shorter of two lists.
pub open spec fn shorter_len(a: Seq<Seq<char>>, b: Seq<Seq<char>>) -> nat {
    if a.len() <= b.len() {
        a.len()
    } else {
        b.len()
    }
}

/// One author text gives initials where the other gives names:
/// the surnames start with the same letter and are at least 80 points
/// alike, the two texts differ in their number of bare initials, and the
/// given names, compared by first letter position by position as far as the
/// shorter list reaches, agree at least once and differ at most once.
pub open spec fn initials_match(author1: Seq<char>, author2: Seq<char>) -> bool {
    let given1 = given_names(author1);
    let given2 = given_names(author2);
    let surname1 = surname_of(author1);
    let surname2 = surname_of(author2);
    let compared = shorter_len(given1, given2);
    let agreeing = letter_matches(given1, given2, compared);
    &&& initial_letter(surname1) == initial_letter(surname2)
    &&& token_sort_ratio_of(lowercase_of(surname1), lowercase_of(surname2)) >= 80 * POINT
    &&& count_initials(given1) != count_initials(given2)
    &&& agreeing > 0
    &&& agreeing + 1 >= compared
}

/// The upper-case form of an ASCII letter; any other character is itself.
pub fn to_ascii_upper(c: char) -> (upper: char)
    ensures
        upper == ascii_upper(c),
{
    if c >= 'a' && c <= 'z' {
        let code: u8 = c as u8;
        (code - 32) as char
    } else {
        c
    }
}

/// The initial letter of a name that is given by its characters.
pub fn initial_letter_of(name: &Vec<char>) -> (letter: Option<char>)
    ensures
        letter == initial_letter(name@),
{
    let n = name.len();
    let mut i: usize = 0;
    while i < n
        invariant
            n == name@.len(),
            i <= n,
            forall|k: int| 0 <= k < i ==> name@[k] == '.',
        decreases n - i,
    {
        if name[i] != '.' {
            return Some(to_ascii_upper(name[0]));
        }
        i += 1;
    }
    None
}

/// Whether a name that is given by its characters is a bare initial.
pub fn is_initial_chars(name: &Vec<char>) -> (initial: bool)
    ensures
        initial == is_initial_name(name@),
{
    let n = name.len();
    if n == 1 {
        char_is_alphabetic(name[0])
    } else if n == 2 {
        name[1] == '.' && char_is_alphabetic(name[0])
    } else {
        false
    }
}

/// Whether a name part is a bare initial, such as "E." or "E".
pub fn is_initial(name: &str) -> (initial: bool)
    ensures
        initial == is_initial_name(name@),
{
    let chars = chars_of(name);
    is_initial_chars(&chars)
}

/// The upper-case initial letter of a name part.
pub fn get_initial_letter(name: &str) -> (letter: Option<char>)
    ensures
        letter == initial_letter(name@),
{
    let chars = chars_of(name);
    initial_letter_of(&chars)
}

/// Splits an author text into given names and surname: the last word is
/// the surname, the words before it are the given names.
pub fn extract_name_parts(author: &str) -> (parts: (Vec<Vec<char>>, Vec<char>))
    ensures
        word_views(parts.0@) == given_names(author@),
        parts.1@ == surname_of(author@),
{
    let chars = chars_of(author);
    let mut words = split_tokens(&chars);
    let ghost all = word_views(words@);
    match words.pop() {
        Some(surname) => {
            assert(word_views(words@) =~= all.drop_last());
            if words.len() == 0 {
                assert(word_views(words@) =~= Seq::<Seq<char>>::empty());
            }
            (words, surname)
        },
        None => {
            assert(word_views(words@) =~= Seq::<Seq<char>>::empty());
            (words, Vec::new())
        },
    }
}

/// Counts the bare initials among names.
fn count_initial_names(names: &Vec<Vec<char>>) -> (count: usize)
    ensures
        count == count_initials(word_views(names@)),
{
    let n = names.len();
    let ghost all = word_views(names@);
    let mut count: usize = 0;
    let mut i: usize = 0;
    while i < n
        invariant
            n == names@.len(),
            all == word_views(names@),
            i <= n,
            count <= i,
            count == count_initials(all.take(i as int)),
        decreases n - i,
    {
        proof {
            assert(all.take(i + 1).drop_last() == all.take(i as int));
            assert(all.take(i + 1).last() == names@[i as int]@);
        }
        if is_initial_chars(&names[i]) {
            count += 1;
        }
        i += 1;
    }
    assert(all.take(n as int) == all);
    count
}

/// Whether one author text uses initials that fit the other's full names,
/// as "E. M. Adams" fits "Ernest M. Adams" and "J. Smith" fits "John Smith".
pub fn check_initials_match(author1: &str, author2: &str) -> (fits: bool)
    ensures
        fits == initials_match(author1@, author2@),
{
    let (given1, surname1) = extract_name_parts(author1);
    let (given2, surname2) = extract_name_parts(author2);

    if initial_letter_of(&surname1) != initial_letter_of(&surname2) {
        return false;
    }
    let lower1 = lowercase(string_of(&surname1).as_str());
    let lower2 = lowercase(string_of(&surname2).as_str());
    let surname_score = token_sort_ratio(lower1.as_str(), lower2.as_str());
    if surname_score < 80 * POINT {
        return false;
    }
    if count_initial_names(&given1) == count_initial_names(&given2) {
        return false;
    }
    let compared = if given1.len() <= given2.len() {
        given1.len()
    } else {
        given2.len()
    };
    let ghost names1 = word_views(given1@);
    let ghost names2 = word_views(given2@);
    let mut agreeing: usize = 0;
    let mut i: usize = 0;
    while i < compared
        invariant
            compared == shorter_len(names1, names2),
            names1 == word_views(given1@),
            names2 == word_views(given2@),
            i <= compared,
            agreeing <= i,
            agreeing == letter_matches(names1, names2, i as nat),
        decreases compared - i,
    {
        if initial_letter_of(&given1[i]) == initial_letter_of(&given2[i]) {
            agreeing += 1;
        }
        i += 1;
    }
    agreeing > 0 && agreeing >= compared - 1
}

} // verus!
