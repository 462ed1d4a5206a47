//! The candidate filter: which candidates a subject is compared with.
//!
//! A subject is compared with every candidate that shares a title trigram
//! with it, or whose surname stands in its author text, or that was
//! published within five decades of it. A filter that finds nothing falls
//! back to the whole corpus, so blocking never empties the search.

use vstd::prelude::*;
use crate::index::{
    decade_of, filed_under, get_decade, index_of, lemma_index_decades, lemma_index_surnames,
    lemma_index_trigrams, lists_keys_of, names_key, record_has_decade, record_has_surname,
    record_has_trigram, BlockingIndex, IndexView,
};
use crate::record::{texts, BibRecord, MatchError, RecordView};
use crate::text::{
    chars_of, contains_chars, contains_text, lowercase, lowercase_of, string_of, word_views,
};
use crate::trigram::{extract_trigrams, trigrams_of};

verus! {

/// The record that the index files under the subject's DOI, if the subject
/// has a DOI and the index knows it.
pub open spec fn doi_hit(subject: RecordView, index: IndexView) -> Option<usize> {
    match subject.doi {
        Some(d) => if d.len() > 0 && index.doi.contains_key(d) {
            Some(index.doi[d])
        } else {
            None
        },
        None => None,
    }
}

/// The candidate is filed under a trigram of the subject's title.
pub open spec fn trigram_hit(subject: RecordView, index: IndexView, id: usize) -> bool {
    exists|t: Seq<char>|
        trigrams_of(subject.title).contains(t) && #[trigger] filed_under(index.trigrams, t, id)
}

/// The candidate is filed under a surname that stands in the subject's
/// author text, case set aside.
pub open spec fn surname_hit(subject: RecordView, index: IndexView, id: usize) -> bool {
    exists|k: Seq<char>|
        contains_text(lowercase_of(subject.author), k) && #[trigger] filed_under(
            index.surnames,
            k,
            id,
        )
}

/// The decade that lies `offset` decades from a year's decade.
pub open spec fn decade_near(year: i32, offset: int) -> i64 {
    (decade_of(year as int) + 10 * offset) as i64
}

/// The candidate is filed under a decade at most five decades from the
/// subject's.
pub open spec fn decade_hit(subject: RecordView, index: IndexView, id: usize) -> bool {
    subject.year matches Some(y) && exists|offset: int|
        -5 <= offset <= 5 && #[trigger] filed_under(index.decades, decade_near(y, offset), id)
}

/// The candidate shares a signal with the subject.
pub open spec fn is_hit(subject: RecordView, index: IndexView, id: usize) -> bool {
    trigram_hit(subject, index, id) || surname_hit(subject, index, id) || decade_hit(
        subject,
        index,
        id,
    )
}

/// The candidates that share a signal with the subject.
pub open spec fn hits(subject: RecordView, index: IndexView) -> Set<usize> {
    Set::new(|id: usize| is_hit(subject, index, id))
}

/// The members of a set that are below `n`, in ascending order.
pub open spec fn ids_below(members: Set<usize>, n: nat) -> Seq<usize>
    decreases n,
{
    if n == 0 {
        Seq::empty()
    } else {
        let rest = ids_below(members, (n - 1) as nat);
        if members.contains((n - 1) as usize) {
            rest.push((n - 1) as usize)
        } else {
            rest
        }
    }
}

/// Every position of a corpus of `n` records, in ascending order.
pub open spec fn all_ids(n: nat) -> Seq<usize> {
    Seq::new(n, |i: int| i as usize)
}

/// The content of what a filter hands back.
pub open spec fn filter_view(picked: Result<Vec<usize>, MatchError>) -> Result<
    Seq<usize>,
    MatchError,
> {
    match picked {
        Ok(ids) => Ok(ids@),
        Err(e) => Err(e),
    }
}

/// The candidates to compare a subject with, in ascending order.
///
/// A DOI that the index knows settles it: that one candidate. Otherwise
/// the candidates that share a signal with the subject, and the whole
/// corpus if there is none. A candidate that the index names and the
/// corpus does not have is an error.
pub open spec fn blocked_candidates(subject: RecordView, index: IndexView, n: nat) -> Result<
    Seq<usize>,
    MatchError,
> {
    match doi_hit(subject, index) {
        Some(id) => if id < n {
            Ok(seq![id])
        } else {
            Err(MatchError::CandidateOutOfRange)
        },
        None => if exists|id: usize| is_hit(subject, index, id) && id >= n {
            Err(MatchError::CandidateOutOfRange)
        } else if forall|id: usize| !is_hit(subject, index, id) {
            Ok(all_ids(n))
        } else {
            Ok(ids_below(hits(subject, index), n))
        },
    }
}

/// The members of `ids_below` are the members below `n`.
pub proof fn lemma_ids_below_members(members: Set<usize>, n: nat, id: usize)
    ensures
        ids_below(members, n).contains(id) <==> (members.contains(id) && id < n),
    decreases n,
{
    if n > 0 {
        let rest = ids_below(members, (n - 1) as nat);
        lemma_ids_below_members(members, (n - 1) as nat, id);
        if members.contains((n - 1) as usize) {
            let last = (n - 1) as usize;
            if rest.push(last).contains(id) {
                let p = choose|p: int| 0 <= p < rest.push(last).len() && rest.push(last)[p] == id;
                if p < rest.len() {
                    assert(rest[p] == id);
                }
            }
            if rest.contains(id) {
                let p = choose|p: int| 0 <= p < rest.len() && rest[p] == id;
                assert(rest.push(last)[p] == id);
            }
            if id == last {
                assert(rest.push(last)[rest.len() as int] == id);
            }
        }
    }
}

/// The two titles have a trigram in common.
pub open spec fn shares_trigram(subject: RecordView, candidate: RecordView) -> bool {
    exists|t: Seq<char>|
        trigrams_of(subject.title).contains(t) && #[trigger] trigrams_of(candidate.title).contains(
            t,
        )
}

/// A surname of the candidate stands in the subject's author text, case
/// set aside.
pub open spec fn shares_surname(subject: RecordView, candidate: RecordView) -> bool {
    exists|key: Seq<char>|
        contains_text(lowercase_of(subject.author), key) && #[trigger] names_key(
            candidate.surnames,
            key,
        )
}

/// Both records have a year, and the years are at most fifty apart.
pub open spec fn years_within_fifty(subject: RecordView, candidate: RecordView) -> bool {
    subject.year matches Some(y1) && candidate.year matches Some(y2) && -50 <= y1 - y2 <= 50
}

/// The candidate shares a title trigram, a surname or the period with the
/// subject.
pub open spec fn shares_signal(subject: RecordView, candidate: RecordView) -> bool {
    shares_trigram(subject, candidate) || shares_surname(subject, candidate) || years_within_fifty(
        subject,
        candidate,
    )
}

/// The index of a corpus files every record that shares a signal with a
/// subject under that signal.
pub proof fn lemma_shared_signal_is_hit(subject: RecordView, corpus: Seq<RecordView>, position: int)
    requires
        0 <= position < corpus.len(),
        shares_signal(subject, corpus[position]),
    ensures
        is_hit(subject, index_of(corpus), corpus[position].index),
{
    let candidate = corpus[position];
    let index = index_of(corpus);
    let id = candidate.index;
    if shares_trigram(subject, candidate) {
        let t = choose|t: Seq<char>|
            trigrams_of(subject.title).contains(t) && #[trigger] trigrams_of(
                candidate.title,
            ).contains(t);
        lemma_index_trigrams(corpus, t, id);
        assert(record_has_trigram(corpus[position], t, id));
        assert(filed_under(index.trigrams, t, id));
    } else if shares_surname(subject, candidate) {
        let key = choose|key: Seq<char>|
            contains_text(lowercase_of(subject.author), key) && #[trigger] names_key(
                candidate.surnames,
                key,
            );
        lemma_index_surnames(corpus, key, id);
        assert(record_has_surname(corpus[position], key, id));
        assert(filed_under(index.surnames, key, id));
    } else {
        let y1 = subject.year->Some_0;
        let y2 = candidate.year->Some_0;
        let offset = (decade_of(y2 as int) - decade_of(y1 as int)) / 10;
        let decade = decade_of(y2 as int) as i64;
        assert(-5 <= offset <= 5);
        assert(decade_near(y1, offset) == decade);
        lemma_index_decades(corpus, decade, id);
        assert(record_has_decade(corpus[position], decade, id));
        assert(filed_under(index.decades, decade_near(y1, offset), id));
        assert(decade_hit(subject, index, id));
    }
}

/// Every candidate that the index of a corpus files for a subject is a
/// record of the corpus.
pub proof fn lemma_hit_is_in_corpus(subject: RecordView, corpus: Seq<RecordView>, id: usize)
    requires
        is_hit(subject, index_of(corpus), id),
    ensures
        exists|i: int| 0 <= i < corpus.len() && (#[trigger] corpus[i]).index == id,
{
    let index = index_of(corpus);
    if trigram_hit(subject, index, id) {
        let t = choose|t: Seq<char>|
            trigrams_of(subject.title).contains(t) && #[trigger] filed_under(index.trigrams, t, id);
        lemma_index_trigrams(corpus, t, id);
        let i = choose|i: int| 0 <= i < corpus.len() && record_has_trigram(#[trigger] corpus[i], t, id);
        assert(corpus[i].index == id);
    } else if surname_hit(subject, index, id) {
        let key = choose|key: Seq<char>|
            contains_text(lowercase_of(subject.author), key) && #[trigger] filed_under(
                index.surnames,
                key,
                id,
            );
        lemma_index_surnames(corpus, key, id);
        let i = choose|i: int|
            0 <= i < corpus.len() && record_has_surname(#[trigger] corpus[i], key, id);
        assert(corpus[i].index == id);
    } else {
        let y = subject.year->Some_0;
        let offset = choose|offset: int|
            -5 <= offset <= 5 && #[trigger] filed_under(index.decades, decade_near(y, offset), id);
        lemma_index_decades(corpus, decade_near(y, offset), id);
        let i = choose|i: int|
            0 <= i < corpus.len() && record_has_decade(
                #[trigger] corpus[i],
                decade_near(y, offset),
                id,
            );
        assert(corpus[i].index == id);
    }
}

/// Blocking never drops a match: where the index of a corpus does not
/// settle a subject by its DOI, every record of the corpus that shares a
/// title trigram or a surname with the subject, or lies within fifty years
/// of it, is among the candidates that the filter picks.
pub proof fn lemma_blocking_keeps_match(
    subject: RecordView,
    corpus: Seq<RecordView>,
    position: int,
)
    requires
        0 <= position < corpus.len(),
        shares_signal(subject, corpus[position]),
        doi_hit(subject, index_of(corpus)) is None,
    ensures
        blocked_candidates(subject, index_of(corpus), corpus.len()) matches Ok(ids)
            ==> ids.contains(corpus[position].index),
{
    let index = index_of(corpus);
    let id = corpus[position].index;
    lemma_shared_signal_is_hit(subject, corpus, position);
    if blocked_candidates(subject, index, corpus.len()) is Ok {
        assert(id < corpus.len());
        lemma_ids_below_members(hits(subject, index), corpus.len(), id);
    }
}

/// In a corpus whose records are identified by their positions the filter
/// refuses nothing.
pub proof fn lemma_blocking_accepts_positions(subject: RecordView, corpus: Seq<RecordView>)
    requires
        corpus.len() <= usize::MAX,
        forall|i: int| 0 <= i < corpus.len() ==> (#[trigger] corpus[i]).index == i,
        doi_hit(subject, index_of(corpus)) is None,
    ensures
        blocked_candidates(subject, index_of(corpus), corpus.len()) is Ok,
{
    let index = index_of(corpus);
    assert forall|id: usize| is_hit(subject, index, id) implies id < corpus.len() by {
        lemma_hit_is_in_corpus(subject, corpus, id);
    }
}

/// The candidates that a filter picks are in the corpus.
pub proof fn lemma_blocked_in_range(subject: RecordView, index: IndexView, n: nat)
    ensures
        blocked_candidates(subject, index, n) matches Ok(ids) ==> forall|i: int|
            0 <= i < ids.len() ==> ids[i] < n,
        blocked_candidates(subject, index, n) matches Err(e) ==> e
            == MatchError::CandidateOutOfRange,
{
    match blocked_candidates(subject, index, n) {
        Ok(ids) => {
            assert forall|i: int| 0 <= i < ids.len() implies ids[i] < n by {
                if doi_hit(subject, index) is None && !(forall|id: usize|
                    !is_hit(subject, index, id)) {
                    assert(ids.contains(ids[i]));
                    lemma_ids_below_members(hits(subject, index), n, ids[i]);
                }
            }
        },
        Err(e) => {},
    }
}

/// Marks the candidates of one posting list. Says whether all of them are
/// in the corpus; the marks mean nothing if not.
fn mark_postings(marks: &mut Vec<bool>, ids: &Vec<usize>) -> (ok: bool)
    ensures
        final(marks)@.len() == old(marks)@.len(),
        ok <==> (forall|j: int| 0 <= j < ids@.len() ==> ids@[j] < old(marks)@.len()),
        ok ==> (forall|i: int|
            0 <= i < old(marks)@.len() ==> (final(marks)@[i] <==> (old(marks)@[i]
                || ids@.contains(i as usize)))),
{
    let n = marks.len();
    let m = ids.len();
    let mut j: usize = 0;
    while j < m
        invariant
            m == ids@.len(),
            n == marks@.len(),
            n == old(marks)@.len(),
            j <= m,
            forall|p: int| 0 <= p < j ==> ids@[p] < n,
            forall|i: int|
                0 <= i < n ==> (marks@[i] <==> (old(marks)@[i] || exists|p: int|
                    0 <= p < j && ids@[p] == i)),
        decreases m - j,
    {
        let id = ids[j];
        if id >= n {
            return false;
        }
        marks.set(id, true);
        j += 1;
    }
    assert forall|i: int| 0 <= i < n implies (marks@[i] <==> (old(marks)@[i] || ids@.contains(
        i as usize,
    ))) by {
        if ids@.contains(i as usize) {
            let p = choose|p: int| 0 <= p < ids@.len() && ids@[p] == i as usize;
            assert(0 <= p < j && ids@[p] == i);
        }
    }
    true
}

/// The subject's trigrams up to position `k` file the candidate.
spec fn trigram_hit_before(
    trigrams: Seq<Seq<char>>,
    k: int,
    index: IndexView,
    id: usize,
) -> bool {
    exists|p: int| 0 <= p < k && #[trigger] filed_under(index.trigrams, trigrams[p], id)
}

/// The indexed surnames up to position `k` that stand in the author text
/// file the candidate.
spec fn surname_hit_before(
    keys: Seq<Seq<char>>,
    k: int,
    author: Seq<char>,
    index: IndexView,
    id: usize,
) -> bool {
    exists|p: int|
        0 <= p < k && contains_text(author, keys[p]) && #[trigger] filed_under(
            index.surnames,
            keys[p],
            id,
        )
}

/// The decades from five below the subject's up to offset `k` file the
/// candidate.
spec fn decade_hit_before(year: i32, k: int, index: IndexView, id: usize) -> bool {
    exists|offset: int|
        -5 <= offset < k && #[trigger] filed_under(index.decades, decade_near(year, offset), id)
}

/// The candidates to compare a subject with: see [`blocked_candidates`].
///
/// `num_candidates` is the size of the corpus that the index was built
/// from.
#[verifier::loop_isolation(false)]
pub fn get_candidate_indices(
    subject: &BibRecord,
    index: &BlockingIndex,
    num_candidates: usize,
) -> (candidates: Result<Vec<usize>, MatchError>)
    ensures
        filter_view(candidates) == blocked_candidates(subject@, index@, num_candidates as nat),
{
    let n = num_candidates;
    let ghost s = subject@;
    let ghost ix = index@;

    match &subject.doi {
        Some(doi) => {
            if !doi.as_str().is_empty() {
                match index.doi_lookup(doi.as_str()) {
                    Some(id) => {
                        if id < n {
                            let mut only: Vec<usize> = Vec::new();
                            only.push(id);
                            assert(only@ =~= seq![id]);
                            return Ok(only);
                        } else {
                            return Err(MatchError::CandidateOutOfRange);
                        }
                    },
                    None => {},
                }
            }
        },
        None => {},
    }
    assert(doi_hit(s, ix) is None);

    let mut marks: Vec<bool> = vec![false; n];

    // Title trigrams.
    let trigrams = extract_trigrams(subject.title.as_str());
    let ghost keys = texts(trigrams@);
    let count = trigrams.len();
    let mut k: usize = 0;
    while k < count
        invariant
            count == trigrams@.len(),
            keys == texts(trigrams@),
            keys.to_set() == trigrams_of(s.title),
            k <= count,
            n == marks@.len(),
            forall|id: usize| trigram_hit_before(keys, k as int, ix, id) ==> id < n,
            forall|i: int|
                0 <= i < n ==> (marks@[i] <==> trigram_hit_before(keys, k as int, ix, i as usize)),
            ix == index@,
        decreases count - k,
    {
        let ghost next: int = k + 1;
        match index.trigram_postings(trigrams[k].as_str()) {
            Some(ids) => {
                let ghost before = marks@;
                let ok = mark_postings(&mut marks, ids);
                if !ok {
                    proof {
                        let j = choose|j: int| 0 <= j < ids@.len() && ids@[j] >= n;
                        let id = ids@[j];
                        assert(keys.to_set().contains(keys[k as int]));
                        assert(filed_under(ix.trigrams, keys[k as int], id));
                        assert(is_hit(s, ix, id) && id >= n);
                    }
                    return Err(MatchError::CandidateOutOfRange);
                }
                proof {
                    assert forall|id: usize| trigram_hit_before(keys, next, ix, id) implies id
                        < n by {
                        let p = choose|p: int|
                            0 <= p < next && #[trigger] filed_under(ix.trigrams, keys[p], id);
                        if p < k {
                            assert(trigram_hit_before(keys, k as int, ix, id));
                        } else {
                            let j = choose|j: int| 0 <= j < ids@.len() && ids@[j] == id;
                        }
                    }
                    assert forall|i: int| 0 <= i < n implies (marks@[i] <==> trigram_hit_before(
                        keys,
                        next,
                        ix,
                        i as usize,
                    )) by {
                        let id = i as usize;
                        if trigram_hit_before(keys, next, ix, id) {
                            let p = choose|p: int|
                                0 <= p < next && #[trigger] filed_under(ix.trigrams, keys[p], id);
                            if p < k {
                                assert(trigram_hit_before(keys, k as int, ix, id));
                            }
                        }
                        if before[i] {
                            let p = choose|p: int|
                                0 <= p < k && #[trigger] filed_under(ix.trigrams, keys[p], id);
                            assert(filed_under(ix.trigrams, keys[p], id));
                        }
                        if ids@.contains(id) {
                            assert(filed_under(ix.trigrams, keys[k as int], id));
                        }
                    }
                }
            },
            None => {
                proof {
                    assert forall|id: usize|
                        trigram_hit_before(keys, next, ix, id) <==> trigram_hit_before(
                            keys,
                            k as int,
                            ix,
                            id,
                        ) by {
                        if trigram_hit_before(keys, next, ix, id) {
                            let p = choose|p: int|
                                0 <= p < next && #[trigger] filed_under(ix.trigrams, keys[p], id);
                            assert(p < k);
                        }
                        if trigram_hit_before(keys, k as int, ix, id) {
                            let p = choose|p: int|
                                0 <= p < k && #[trigger] filed_under(ix.trigrams, keys[p], id);
                            assert(filed_under(ix.trigrams, keys[p], id));
                        }
                    }
                }
            },
        }
        k += 1;
    }
    proof {
        assert forall|id: usize| trigram_hit_before(keys, count as int, ix, id) <==> trigram_hit(
            s,
            ix,
            id,
        ) by {
            if trigram_hit_before(keys, count as int, ix, id) {
                let p = choose|p: int|
                    0 <= p < count && #[trigger] filed_under(ix.trigrams, keys[p], id);
                assert(keys.to_set().contains(keys[p]));
            }
            if trigram_hit(s, ix, id) {
                let t = choose|t: Seq<char>|
                    trigrams_of(s.title).contains(t) && #[trigger] filed_under(ix.trigrams, t, id);
                assert(keys.to_set().contains(t));
                let p = choose|p: int| 0 <= p < keys.len() && keys[p] == t;
                assert(filed_under(ix.trigrams, keys[p], id));
            }
        }
    }

    // Surnames that stand in the author text.
    let author_lower = lowercase(subject.author.as_str());
    let author = chars_of(author_lower.as_str());
    let surnames = index.surname_keys();
    let ghost names = word_views(surnames@);
    let surname_count = surnames.len();
    let mut k: usize = 0;
    while k < surname_count
        invariant
            surname_count == surnames@.len(),
            names == word_views(surnames@),
            author@ == lowercase_of(s.author),
            k <= surname_count,
            n == marks@.len(),
            forall|id: usize| trigram_hit(s, ix, id) ==> id < n,
            forall|id: usize| surname_hit_before(names, k as int, author@, ix, id) ==> id < n,
            forall|i: int|
                0 <= i < n ==> (marks@[i] <==> (trigram_hit(s, ix, i as usize)
                    || surname_hit_before(names, k as int, author@, ix, i as usize))),
            ix == index@,
        decreases surname_count - k,
    {
        let ghost next: int = k + 1;
        let ghost mut marked = false;
        let ghost mut listed: Seq<usize> = Seq::empty();
        if contains_chars(&author, &surnames[k]) {
            let key = string_of(&surnames[k]);
            match index.surname_postings(key.as_str()) {
                Some(ids) => {
                    let ok = mark_postings(&mut marks, ids);
                    if !ok {
                        proof {
                            let j = choose|j: int| 0 <= j < ids@.len() && ids@[j] >= n;
                            let id = ids@[j];
                            assert(filed_under(ix.surnames, names[k as int], id));
                            assert(surname_hit(s, ix, id));
                            assert(is_hit(s, ix, id) && id >= n);
                        }
                        return Err(MatchError::CandidateOutOfRange);
                    }
                    proof {
                        marked = true;
                        listed = ids@;
                        assert(forall|j: int| 0 <= j < listed.len() ==> listed[j] < n);
                    }
                },
                None => {},
            }
        }
        proof {
            let here = names[k as int];
            assert(marked ==> contains_text(author@, here) && ix.surnames.contains_key(here)
                && ix.surnames[here] == listed);
            assert(!marked ==> !contains_text(author@, here) || !ix.surnames.contains_key(here));
            assert forall|id: usize|
                surname_hit_before(names, next, author@, ix, id) <==> (surname_hit_before(
                    names,
                    k as int,
                    author@,
                    ix,
                    id,
                ) || (marked && listed.contains(id))) by {
                if surname_hit_before(names, next, author@, ix, id) {
                    let p = choose|p: int|
                        0 <= p < next && contains_text(author@, names[p]) && #[trigger] filed_under(
                            ix.surnames,
                            names[p],
                            id,
                        );
                    if p < k {
                        assert(surname_hit_before(names, k as int, author@, ix, id));
                    }
                }
                if surname_hit_before(names, k as int, author@, ix, id) {
                    let p = choose|p: int|
                        0 <= p < k && contains_text(author@, names[p]) && #[trigger] filed_under(
                            ix.surnames,
                            names[p],
                            id,
                        );
                    assert(filed_under(ix.surnames, names[p], id));
                }
                if marked && listed.contains(id) {
                    assert(filed_under(ix.surnames, names[k as int], id));
                }
            }
            assert forall|id: usize|
                surname_hit_before(names, next, author@, ix, id) implies id < n by {
                if surname_hit_before(names, k as int, author@, ix, id) {
                } else {
                    assert(marked && listed.contains(id));
                    let j = choose|j: int| 0 <= j < listed.len() && listed[j] == id;
                    assert(listed[j] < n);
                }
            }
        }
        k += 1;
    }
    proof {
        assert(lists_keys_of(names, ix.surnames));
        assert forall|id: usize|
            surname_hit_before(names, surname_count as int, author@, ix, id) <==> surname_hit(
                s,
                ix,
                id,
            ) by {
            if surname_hit_before(names, surname_count as int, author@, ix, id) {
                let p = choose|p: int|
                    0 <= p < surname_count && contains_text(author@, names[p])
                        && #[trigger] filed_under(ix.surnames, names[p], id);
                assert(filed_under(ix.surnames, names[p], id));
            }
            if surname_hit(s, ix, id) {
                let key = choose|key: Seq<char>|
                    contains_text(lowercase_of(s.author), key) && #[trigger] filed_under(
                        ix.surnames,
                        key,
                        id,
                    );
                assert(names.contains(key));
                let p = choose|p: int| 0 <= p < names.len() && names[p] == key;
                assert(filed_under(ix.surnames, names[p], id));
            }
        }
    }

    // Decades within five of the subject's.
    match subject.year {
        Some(year) => {
            let decade = get_decade(subject.year).unwrap();
            let mut offset: i64 = -5;
            while offset <= 5
                invariant
                    -5 <= offset <= 6,
                    s.year == Some(year),
                    decade == decade_of(year as int),
                    decade_of(year as int) <= year < decade_of(year as int) + 10,
                    n == marks@.len(),
                    forall|id: usize| trigram_hit(s, ix, id) ==> id < n,
                    forall|id: usize| surname_hit(s, ix, id) ==> id < n,
                    forall|id: usize| decade_hit_before(year, offset as int, ix, id) ==> id < n,
                    forall|i: int|
                        0 <= i < n ==> (marks@[i] <==> (trigram_hit(s, ix, i as usize)
                            || surname_hit(s, ix, i as usize) || decade_hit_before(
                            year,
                            offset as int,
                            ix,
                            i as usize,
                        ))),
                    ix == index@,
                decreases 6 - offset,
            {
                let ghost next: int = offset + 1;
                let near: i64 = decade + 10 * offset;
                assert(near == decade_near(year, offset as int));
                let ghost mut marked = false;
                let ghost mut listed: Seq<usize> = Seq::empty();
                match index.decade_postings(near) {
                    Some(ids) => {
                        let ok = mark_postings(&mut marks, ids);
                        if !ok {
                            proof {
                                let j = choose|j: int| 0 <= j < ids@.len() && ids@[j] >= n;
                                let id = ids@[j];
                                assert(filed_under(
                                    ix.decades,
                                    decade_near(year, offset as int),
                                    id,
                                ));
                                assert(decade_hit(s, ix, id));
                                assert(is_hit(s, ix, id) && id >= n);
                            }
                            return Err(MatchError::CandidateOutOfRange);
                        }
                        proof {
                            marked = true;
                            listed = ids@;
                            assert(forall|j: int| 0 <= j < listed.len() ==> listed[j] < n);
                        }
                    },
                    None => {},
                }
                proof {
                    assert forall|id: usize|
                        decade_hit_before(year, next, ix, id) <==> (decade_hit_before(
                            year,
                            offset as int,
                            ix,
                            id,
                        ) || (marked && listed.contains(id))) by {
                        if decade_hit_before(year, next, ix, id) {
                            let o = choose|o: int|
                                -5 <= o < next && #[trigger] filed_under(
                                    ix.decades,
                                    decade_near(year, o),
                                    id,
                                );
                            if o < offset {
                                assert(decade_hit_before(year, offset as int, ix, id));
                            }
                        }
                        if decade_hit_before(year, offset as int, ix, id) {
                            let o = choose|o: int|
                                -5 <= o < offset && #[trigger] filed_under(
                                    ix.decades,
                                    decade_near(year, o),
                                    id,
                                );
                            assert(filed_under(ix.decades, decade_near(year, o), id));
                        }
                        if marked && listed.contains(id) {
                            assert(filed_under(ix.decades, decade_near(year, offset as int), id));
                        }
                    }
                    assert forall|id: usize| decade_hit_before(year, next, ix, id) implies id
                        < n by {
                        if decade_hit_before(year, offset as int, ix, id) {
                        } else {
                            assert(marked && listed.contains(id));
                            let j = choose|j: int| 0 <= j < listed.len() && listed[j] == id;
                            assert(listed[j] < n);
                        }
                    }
                }
                offset += 1;
            }
            proof {
                assert forall|id: usize| decade_hit_before(year, 6, ix, id) <==> decade_hit(
                    s,
                    ix,
                    id,
                ) by {
                    if decade_hit_before(year, 6, ix, id) {
                        let o = choose|o: int|
                            -5 <= o < 6 && #[trigger] filed_under(
                                ix.decades,
                                decade_near(year, o),
                                id,
                            );
                        assert(filed_under(ix.decades, decade_near(year, o), id));
                    }
                    if decade_hit(s, ix, id) {
                        let o = choose|o: int|
                            -5 <= o <= 5 && #[trigger] filed_under(
                                ix.decades,
                                decade_near(year, o),
                                id,
                            );
                        assert(filed_under(ix.decades, decade_near(year, o), id));
                    }
                }
            }
        },
        None => {},
    }
    assert forall|id: usize| is_hit(s, ix, id) implies id < n by {
        if decade_hit(s, ix, id) {
            assert(s.year is Some);
        }
    }
    assert(forall|i: int| 0 <= i < n ==> (marks@[i] <==> is_hit(s, ix, i as usize)));

    // The marked candidates in ascending order, or all of them.
    let mut found: Vec<usize> = Vec::new();
    let mut i: usize = 0;
    while i < n
        invariant
            i <= n,
            n == marks@.len(),
            forall|p: int| 0 <= p < n ==> (marks@[p] <==> is_hit(s, ix, p as usize)),
            found@ == ids_below(hits(s, ix), i as nat),
        decreases n - i,
    {
        if marks[i] {
            found.push(i);
        }
        i += 1;
    }
    if found.len() == 0 {
        proof {
            assert forall|id: usize| !is_hit(s, ix, id) by {
                lemma_ids_below_members(hits(s, ix), n as nat, id);
            }
        }
        let mut all: Vec<usize> = Vec::new();
        let mut i: usize = 0;
        while i < n
            invariant
                i <= n,
                all@ == all_ids(i as nat),
            decreases n - i,
        {
            all.push(i);
            assert(all@ =~= all_ids((i + 1) as nat));
            i += 1;
        }
        Ok(all)
    } else {
        proof {
            let id = found@[0];
            lemma_ids_below_members(hits(s, ix), n as nat, id);
            assert(is_hit(s, ix, id));
        }
        Ok(found)
    }
}

} // verus!
