//! Matching whole batches: every subject against the corpus, or against the
//! candidates that a blocking index picks for it.
//!
//! A subject whose DOI a candidate carries is settled at once: that
//! candidate is its only match. Every other subject has its candidates
//! scored and the best of them ranked.

use vstd::prelude::*;
use std::collections::HashMap;
use crate::blocking::{
    all_ids, blocked_candidates, get_candidate_indices, lemma_blocked_in_range,
};
use crate::index::{
    doi_entries, doi_map_get, doi_map_insert, doi_map_new, index_of, BlockingIndex, IndexView,
};
use crate::rank::{lemma_ranked_is_ranked, lemma_truncated_insert, ranked, top_matches, Ranking};
use crate::record::{
    opt_text, record_views, result_views, BibRecord, MatchError, MatchResult, RecordView,
    SubjectMatchResult, SubjectMatches, Weights,
};
use crate::score::{
    candidate_score, score_candidate, score_candidate_precomputed, PrecomputedSubject,
};
use crate::similarity::Score;

verus! {

broadcast use vstd::std_specs::hash::group_hash_axioms;

/// For each DOI of a corpus, the position of the last candidate that
/// carries it. An absent or empty DOI is no DOI.
pub open spec fn doi_positions(candidates: Seq<RecordView>) -> Map<Seq<char>, usize>
    decreases candidates.len(),
{
    if candidates.len() == 0 {
        Map::empty()
    } else {
        let before = doi_positions(candidates.drop_last());
        match candidates.last().doi {
            Some(d) => if d.len() > 0 {
                before.insert(d, (candidates.len() - 1) as usize)
            } else {
                before
            },
            None => before,
        }
    }
}

/// The candidate that the subject's DOI leads to, if the subject has a DOI
/// and the map knows it.
pub open spec fn doi_match(subject: RecordView, dois: Map<Seq<char>, usize>) -> Option<usize> {
    match subject.doi {
        Some(d) => if d.len() > 0 && dois.contains_key(d) {
            Some(dois[d])
        } else {
            None
        },
        None => None,
    }
}

/// The scores of the candidates at the given positions, in that order.
pub open spec fn scores_of(
    subject: RecordView,
    candidates: Seq<RecordView>,
    ids: Seq<usize>,
    weights: Weights,
) -> Seq<MatchResult> {
    Seq::new(ids.len(), |i: int| candidate_score(subject, candidates[ids[i] as int], weights))
}

/// The outcome for a subject whose candidates were all scored: the best of
/// them, and how many there were.
pub open spec fn ranked_matches(
    subject: RecordView,
    candidates: Seq<RecordView>,
    ids: Seq<usize>,
    top_n: usize,
    min_score: Score,
    weights: Weights,
) -> SubjectMatches {
    SubjectMatches {
        subject_index: subject.index,
        matches: top_matches(scores_of(subject, candidates, ids, weights), top_n as nat, min_score),
        candidates_searched: ids.len(),
    }
}

/// The outcome for a subject that a DOI settles: the one candidate with its
/// score, whatever the score is.
pub open spec fn sole_match(subject: RecordView, candidate: RecordView, weights: Weights) -> SubjectMatches {
    SubjectMatches {
        subject_index: subject.index,
        matches: seq![candidate_score(subject, candidate, weights)],
        candidates_searched: 1,
    }
}

/// The outcome for a subject against a whole corpus.
pub open spec fn matches_of(
    subject: RecordView,
    candidates: Seq<RecordView>,
    top_n: usize,
    min_score: Score,
    weights: Weights,
) -> SubjectMatches {
    match doi_match(subject, doi_positions(candidates)) {
        Some(p) => sole_match(subject, candidates[p as int], weights),
        None => ranked_matches(
            subject,
            candidates,
            all_ids(candidates.len()),
            top_n,
            min_score,
            weights,
        ),
    }
}

/// The outcome for a subject against given candidates of a corpus, with a
/// given DOI map. A position beyond the corpus, from the map or among the
/// candidates, is an error.
pub open spec fn selection_of(
    subject: RecordView,
    candidates: Seq<RecordView>,
    ids: Seq<usize>,
    dois: Map<Seq<char>, usize>,
    top_n: usize,
    min_score: Score,
    weights: Weights,
) -> Result<SubjectMatches, MatchError> {
    match doi_match(subject, dois) {
        Some(p) => if p < candidates.len() {
            Ok(sole_match(subject, candidates[p as int], weights))
        } else {
            Err(MatchError::CandidateOutOfRange)
        },
        None => if exists|i: int| 0 <= i < ids.len() && ids[i] >= candidates.len() {
            Err(MatchError::CandidateOutOfRange)
        } else {
            Ok(ranked_matches(subject, candidates, ids, top_n, min_score, weights))
        },
    }
}

/// The outcome for a subject against the candidates that a blocking index
/// picks for it.
pub open spec fn indexed_matches_of(
    subject: RecordView,
    candidates: Seq<RecordView>,
    index: IndexView,
    dois: Map<Seq<char>, usize>,
    top_n: usize,
    min_score: Score,
    weights: Weights,
) -> Result<SubjectMatches, MatchError> {
    match doi_match(subject, dois) {
        Some(p) => if p < candidates.len() {
            Ok(sole_match(subject, candidates[p as int], weights))
        } else {
            Err(MatchError::CandidateOutOfRange)
        },
        None => match blocked_candidates(subject, index, candidates.len()) {
            Ok(ids) => Ok(ranked_matches(subject, candidates, ids, top_n, min_score, weights)),
            Err(e) => Err(e),
        },
    }
}

/// Two subjects carry the same identifier and differ in content.
pub open spec fn has_conflict(subjects: Seq<RecordView>) -> bool {
    exists|i: int, j: int|
        0 <= i < j < subjects.len() && subjects[i].index == subjects[j].index && subjects[i]
            != subjects[j]
}

/// The outcome of a batch against a whole corpus: one entry for each
/// subject, in the order of the subjects.
pub open spec fn batch_matches(
    subjects: Seq<RecordView>,
    candidates: Seq<RecordView>,
    top_n: usize,
    min_score: Score,
    weights: Weights,
) -> Result<Seq<SubjectMatches>, MatchError> {
    if has_conflict(subjects) {
        Err(MatchError::DuplicateSubject)
    } else {
        Ok(
            Seq::new(
                subjects.len(),
                |i: int| matches_of(subjects[i], candidates, top_n, min_score, weights),
            ),
        )
    }
}

/// The outcome of a batch through a blocking index: one entry for each
/// subject, in the order of the subjects, unless the subjects conflict or
/// the index names a candidate that the corpus does not have.
pub open spec fn indexed_batch_matches(
    subjects: Seq<RecordView>,
    candidates: Seq<RecordView>,
    index: IndexView,
    top_n: usize,
    min_score: Score,
    weights: Weights,
) -> Result<Seq<SubjectMatches>, MatchError> {
    let dois = doi_positions(candidates);
    if has_conflict(subjects) {
        Err(MatchError::DuplicateSubject)
    } else if exists|i: int|
        0 <= i < subjects.len() && indexed_matches_of(
            subjects[i],
            candidates,
            index,
            dois,
            top_n,
            min_score,
            weights,
        ) is Err {
        Err(MatchError::CandidateOutOfRange)
    } else {
        Ok(
            Seq::new(
                subjects.len(),
                |i: int|
                    indexed_matches_of(
                        subjects[i],
                        candidates,
                        index,
                        dois,
                        top_n,
                        min_score,
                        weights,
                    )->Ok_0,
            ),
        )
    }
}

/// The content of what a matching function hands back for one subject.
pub open spec fn outcome_view(outcome: Result<SubjectMatchResult, MatchError>) -> Result<
    SubjectMatches,
    MatchError,
> {
    match outcome {
        Ok(result) => Ok(result@),
        Err(e) => Err(e),
    }
}

/// The content of what a selection hands back: matches and how many
/// candidates were scored.
pub open spec fn selection_view(
    subject: RecordView,
    outcome: Result<(Vec<MatchResult>, usize), MatchError>,
) -> Result<SubjectMatches, MatchError> {
    match outcome {
        Ok(found) => Ok(
            SubjectMatches {
                subject_index: subject.index,
                matches: found.0@,
                candidates_searched: found.1 as nat,
            },
        ),
        Err(e) => Err(e),
    }
}

/// The content of what a batch hands back.
pub open spec fn batch_view(outcome: Result<Vec<SubjectMatchResult>, MatchError>) -> Result<
    Seq<SubjectMatches>,
    MatchError,
> {
    match outcome {
        Ok(results) => Ok(result_views(results@)),
        Err(e) => Err(e),
    }
}

/// What the DOI map of a corpus knows: the DOIs that candidates carry, each
/// leading to the last candidate that carries it.
pub proof fn lemma_doi_positions(candidates: Seq<RecordView>, d: Seq<char>)
    requires
        candidates.len() <= usize::MAX,
    ensures
        doi_positions(candidates).contains_key(d) <==> (d.len() > 0 && exists|i: int|
            0 <= i < candidates.len() && candidates[i].doi == Some(d)),
        doi_positions(candidates).contains_key(d) ==> ({
            let p = doi_positions(candidates)[d];
            &&& p < candidates.len()
            &&& candidates[p as int].doi == Some(d)
            &&& forall|j: int| p < j < candidates.len() ==> candidates[j].doi != Some(d)
        }),
    decreases candidates.len(),
{
    if candidates.len() > 0 {
        let before = candidates.drop_last();
        let last = candidates.last();
        lemma_doi_positions(before, d);
        if before.len() > 0 && doi_positions(before).contains_key(d) {
            let p = doi_positions(before)[d];
            assert(before[p as int] == candidates[p as int]);
            assert forall|j: int| p < j < before.len() implies candidates[j].doi != Some(d) by {
                assert(before[j] == candidates[j]);
            }
        }
        if d.len() > 0 && exists|i: int| 0 <= i < before.len() && before[i].doi == Some(d) {
            let i = choose|i: int| 0 <= i < before.len() && before[i].doi == Some(d);
            assert(candidates[i].doi == Some(d));
        }
        if d.len() > 0 && exists|i: int| 0 <= i < candidates.len() && candidates[i].doi == Some(d) {
            let i = choose|i: int| 0 <= i < candidates.len() && candidates[i].doi == Some(d);
            if i < before.len() {
                assert(before[i].doi == Some(d));
            }
        }
    }
}

/// Whether an optional DOI is this DOI.
fn is_doi(field: &Option<String>, doi: &String) -> (same: bool)
    ensures
        same == (opt_text(*field) == Some(doi@)),
{
    match field {
        Some(d) => *d == *doi,
        None => false,
    }
}

/// The position of the last candidate that carries a DOI.
fn last_with_doi(candidates: &Vec<BibRecord>, doi: &String) -> (found: Option<usize>)
    requires
        doi@.len() > 0,
    ensures
        found == (if doi_positions(record_views(candidates@)).contains_key(doi@) {
            Some(doi_positions(record_views(candidates@))[doi@])
        } else {
            None
        }),
        found matches Some(p) ==> p < candidates@.len(),
{
    let ghost corpus = record_views(candidates@);
    let n = candidates.len();
    let mut i: usize = n;
    while i > 0
        invariant
            i <= n,
            n == candidates@.len(),
            doi@.len() > 0,
            corpus == record_views(candidates@),
            forall|j: int| i <= j < corpus.len() ==> corpus[j].doi != Some(doi@),
        decreases i,
    {
        i -= 1;
        if is_doi(&candidates[i].doi, doi) {
            proof {
                assert(corpus[i as int].doi == Some(doi@));
                lemma_doi_positions(corpus, doi@);
                let p = doi_positions(corpus)[doi@];
                if p < i {
                    assert(corpus[i as int].doi != Some(doi@));
                }
                if p > i {
                    assert(corpus[p as int].doi != Some(doi@));
                }
            }
            return Some(i);
        }
    }
    proof {
        lemma_doi_positions(corpus, doi@);
    }
    None
}

/// The best matches of a subject in a corpus, and how many candidates were
/// scored to find them.
///
/// If a candidate carries the subject's DOI, the last such candidate is the
/// only match and the only one scored, whatever its score. Otherwise every
/// candidate is scored, and the `top_n` best of those that reach
/// `min_score` are handed back, best first.
pub fn find_top_matches(
    subject: &BibRecord,
    candidates: &Vec<BibRecord>,
    top_n: usize,
    min_score: Score,
    weights: &Weights,
) -> (found: (Vec<MatchResult>, usize))
    ensures
        found.0@ == matches_of(
            subject@,
            record_views(candidates@),
            top_n,
            min_score,
            *weights,
        ).matches,
        found.1 == matches_of(
            subject@,
            record_views(candidates@),
            top_n,
            min_score,
            *weights,
        ).candidates_searched,
{
    let ghost s = subject@;
    let ghost corpus = record_views(candidates@);
    match &subject.doi {
        Some(doi) => {
            if !doi.as_str().is_empty() {
                match last_with_doi(candidates, doi) {
                    Some(p) => {
                        let mut only: Vec<MatchResult> = Vec::new();
                        only.push(score_candidate(subject, &candidates[p], weights));
                        assert(only@ =~= sole_match(s, corpus[p as int], *weights).matches);
                        return (only, 1);
                    },
                    None => {},
                }
            }
        },
        None => {},
    }
    assert(doi_match(s, doi_positions(corpus)) is None);

    let n = candidates.len();
    let ghost ids = all_ids(n as nat);
    let ghost scored = scores_of(s, corpus, ids, *weights);
    let mut ranking = Ranking::new(top_n);
    let mut i: usize = 0;
    while i < n
        invariant
            n == candidates@.len(),
            i <= n,
            s == subject@,
            corpus == record_views(candidates@),
            scored == scores_of(s, corpus, all_ids(n as nat), *weights),
            ranking.limit() == top_n,
            ranking@ == top_matches(scored.take(i as int), top_n as nat, min_score),
        decreases n - i,
    {
        let result = score_candidate(subject, &candidates[i], weights);
        proof {
            assert(scored.take(i + 1).drop_last() == scored.take(i as int));
            assert(scored.take(i + 1).last() == result);
            lemma_ranked_is_ranked(scored.take(i as int), min_score);
            lemma_truncated_insert(ranked(scored.take(i as int), min_score), result, top_n as nat);
        }
        if result.total_score >= min_score {
            ranking = ranking.offer(result);
        }
        i += 1;
    }
    assert(scored.take(n as int) == scored);
    (ranking.into_matches(), n)
}

/// The best matches of a subject among given candidates of a corpus, and
/// how many candidates were scored to find them.
///
/// If the DOI map knows the subject's DOI, the candidate that it leads to
/// is the only match and the only one scored. Otherwise the candidates at
/// the given positions are scored, and the `top_n` best of those that reach
/// `min_score` are handed back, best first. A position beyond the corpus is
/// refused.
pub fn find_top_matches_indexed(
    subject: &PrecomputedSubject,
    candidates: &Vec<BibRecord>,
    candidate_indices: &Vec<usize>,
    doi_map: &ahash::AHashMap<String, usize>,
    top_n: usize,
    min_score: Score,
    weights: &Weights,
) -> (found: Result<(Vec<MatchResult>, usize), MatchError>)
    ensures
        selection_view(subject.record()@, found) == selection_of(
            subject.record()@,
            record_views(candidates@),
            candidate_indices@,
            doi_entries(*doi_map),
            top_n,
            min_score,
            *weights,
        ),
{
    let ghost s = subject.record()@;
    let ghost corpus = record_views(candidates@);
    let n = candidates.len();
    match &subject.data().doi {
        Some(doi) => {
            if !doi.as_str().is_empty() {
                match doi_map_get(doi_map, doi.as_str()) {
                    Some(p) => {
                        if p >= n {
                            return Err(MatchError::CandidateOutOfRange);
                        }
                        let mut only: Vec<MatchResult> = Vec::new();
                        only.push(score_candidate_precomputed(subject, &candidates[p], weights));
                        assert(only@ =~= sole_match(s, corpus[p as int], *weights).matches);
                        return Ok((only, 1));
                    },
                    None => {},
                }
            }
        },
        None => {},
    }
    assert(doi_match(s, doi_entries(*doi_map)) is None);

    let count = candidate_indices.len();
    let ghost ids = candidate_indices@;
    let ghost scored = scores_of(s, corpus, ids, *weights);
    let mut ranking = Ranking::new(top_n);
    let mut i: usize = 0;
    while i < count
        invariant
            count == candidate_indices@.len(),
            n == candidates@.len(),
            i <= count,
            ids == candidate_indices@,
            s == subject.record()@,
            corpus == record_views(candidates@),
            scored == scores_of(s, corpus, ids, *weights),
            doi_match(s, doi_entries(*doi_map)) is None,
            forall|k: int| 0 <= k < i ==> ids[k] < n,
            ranking.limit() == top_n,
            ranking@ == top_matches(scored.take(i as int), top_n as nat, min_score),
        decreases count - i,
    {
        let position = candidate_indices[i];
        if position >= n {
            assert(0 <= i < ids.len() && ids[i as int] >= corpus.len());
            return Err(MatchError::CandidateOutOfRange);
        }
        let result = score_candidate_precomputed(subject, &candidates[position], weights);
        proof {
            assert(scored.take(i + 1).drop_last() == scored.take(i as int));
            assert(scored.take(i + 1).last() == result);
            lemma_ranked_is_ranked(scored.take(i as int), min_score);
            lemma_truncated_insert(ranked(scored.take(i as int), min_score), result, top_n as nat);
        }
        if result.total_score >= min_score {
            ranking = ranking.offer(result);
        }
        i += 1;
    }
    assert(scored.take(count as int) == scored);
    Ok((ranking.into_matches(), count))
}

/// The DOI map of a corpus: each DOI leads to the last candidate that
/// carries it.
pub fn build_doi_map(candidates: &Vec<BibRecord>) -> (map: ahash::AHashMap<String, usize>)
    ensures
        doi_entries(map) == doi_positions(record_views(candidates@)),
{
    let ghost corpus = record_views(candidates@);
    let mut map = doi_map_new();
    let n = candidates.len();
    let mut i: usize = 0;
    while i < n
        invariant
            n == candidates@.len(),
            i <= n,
            corpus == record_views(candidates@),
            doi_entries(map) == doi_positions(corpus.take(i as int)),
        decreases n - i,
    {
        proof {
            assert(corpus.take(i + 1).drop_last() == corpus.take(i as int));
            assert(corpus.take(i + 1).last() == candidates@[i as int]@);
        }
        match &candidates[i].doi {
            Some(doi) => {
                if !doi.as_str().is_empty() {
                    doi_map_insert(&mut map, doi.clone(), i);
                }
            },
            None => {},
        }
        i += 1;
    }
    assert(corpus.take(n as int) == corpus);
    map
}

/// Refuses subjects of which two carry the same identifier and differ in
/// content.
pub fn check_subjects(subjects: &Vec<BibRecord>) -> (checked: Result<(), MatchError>)
    ensures
        checked is Err <==> has_conflict(record_views(subjects@)),
        checked matches Err(e) ==> e == MatchError::DuplicateSubject,
{
    let ghost all = record_views(subjects@);
    let mut first: HashMap<usize, usize> = HashMap::new();
    let n = subjects.len();
    let mut j: usize = 0;
    while j < n
        invariant
            n == subjects@.len(),
            j <= n,
            all == record_views(subjects@),
            forall|id: usize| #[trigger]
                first@.contains_key(id) ==> first@[id] < j && all[first@[id] as int].index == id,
            forall|k: int|
                0 <= k < j ==> first@.contains_key(#[trigger] all[k].index) && all[k]
                    == all[first@[all[k].index] as int],
        decreases n - j,
    {
        let id = subjects[j].index;
        let seen = first.get(&id);
        match seen {
            Some(position) => {
                let i = *position;
                if !subjects[i].same_content(&subjects[j]) {
                    assert(0 <= i < j < all.len() && all[i as int].index == all[j as int].index
                        && all[i as int] != all[j as int]);
                    return Err(MatchError::DuplicateSubject);
                }
            },
            None => {
                first.insert(id, j);
            },
        }
        j += 1;
    }
    proof {
        assert forall|i: int, k: int| 0 <= i < k < all.len() && all[i].index
            == all[k].index implies all[i] == all[k] by {
            assert(all[i] == all[first@[all[i].index] as int]);
            assert(all[k] == all[first@[all[k].index] as int]);
        }
    }
    Ok(())
}

/// Matches one subject against a whole corpus.
pub fn match_subject(
    subject: &BibRecord,
    candidates: &Vec<BibRecord>,
    top_n: usize,
    min_score: Score,
    weights: &Weights,
) -> (result: SubjectMatchResult)
    ensures
        result@ == matches_of(subject@, record_views(candidates@), top_n, min_score, *weights),
{
    let (matches, searched) = find_top_matches(subject, candidates, top_n, min_score, weights);
    SubjectMatchResult {
        subject_index: subject.index,
        matches,
        candidates_searched: searched,
    }
}

/// Matches one subject against the candidates that the blocking index picks
/// for it. `doi_map` is the DOI map of the corpus, from [`build_doi_map`].
pub fn match_subject_indexed(
    subject: &BibRecord,
    candidates: &Vec<BibRecord>,
    index: &BlockingIndex,
    doi_map: &ahash::AHashMap<String, usize>,
    top_n: usize,
    min_score: Score,
    weights: &Weights,
) -> (result: Result<SubjectMatchResult, MatchError>)
    ensures
        outcome_view(result) == indexed_matches_of(
            subject@,
            record_views(candidates@),
            index@,
            doi_entries(*doi_map),
            top_n,
            min_score,
            *weights,
        ),
{
    let precomputed = PrecomputedSubject::new(subject);
    let settled = match &subject.doi {
        Some(doi) => !doi.as_str().is_empty() && doi_map_get(doi_map, doi.as_str()).is_some(),
        None => false,
    };
    assert(settled == (doi_match(subject@, doi_entries(*doi_map)) is Some));
    let candidate_indices = if settled {
        Vec::new()
    } else {
        match get_candidate_indices(subject, index, candidates.len()) {
            Ok(ids) => ids,
            Err(e) => {
                return Err(e);
            },
        }
    };
    proof {
        if !settled {
            lemma_blocked_in_range(subject@, index@, candidates@.len());
        }
    }
    match find_top_matches_indexed(
        &precomputed,
        candidates,
        &candidate_indices,
        doi_map,
        top_n,
        min_score,
        weights,
    ) {
        Ok((matches, searched)) => Ok(
            SubjectMatchResult {
                subject_index: subject.index,
                matches,
                candidates_searched: searched,
            },
        ),
        Err(e) => Err(e),
    }
}

/// Matches every subject against the whole corpus. The outcome has one
/// entry for each subject, in the order of the subjects.
pub fn score_batch(
    subjects: &Vec<BibRecord>,
    candidates: &Vec<BibRecord>,
    top_n: usize,
    min_score: Score,
    weights: &Weights,
) -> (outcome: Result<Vec<SubjectMatchResult>, MatchError>)
    ensures
        batch_view(outcome) == batch_matches(
            record_views(subjects@),
            record_views(candidates@),
            top_n,
            min_score,
            *weights,
        ),
{
    match check_subjects(subjects) {
        Ok(_) => {},
        Err(e) => {
            return Err(e);
        },
    }
    let ghost all = record_views(subjects@);
    let ghost corpus = record_views(candidates@);
    let mut results: Vec<SubjectMatchResult> = Vec::new();
    let n = subjects.len();
    let mut i: usize = 0;
    while i < n
        invariant
            n == subjects@.len(),
            i <= n,
            all == record_views(subjects@),
            corpus == record_views(candidates@),
            results@.len() == i,
            forall|k: int|
                0 <= k < i ==> (#[trigger] results@[k])@ == matches_of(
                    all[k],
                    corpus,
                    top_n,
                    min_score,
                    *weights,
                ),
        decreases n - i,
    {
        let result = match_subject(&subjects[i], candidates, top_n, min_score, weights);
        results.push(result);
        i += 1;
    }
    assert(result_views(results@) =~= Seq::new(
        all.len(),
        |i: int| matches_of(all[i], corpus, top_n, min_score, *weights),
    ));
    Ok(results)
}

/// Matches every subject against the candidates that the blocking index
/// picks for it. The outcome has one entry for each subject, in the order
/// of the subjects.
pub fn score_batch_indexed(
    subjects: &Vec<BibRecord>,
    candidates: &Vec<BibRecord>,
    index: &BlockingIndex,
    top_n: usize,
    min_score: Score,
    weights: &Weights,
) -> (outcome: Result<Vec<SubjectMatchResult>, MatchError>)
    ensures
        batch_view(outcome) == indexed_batch_matches(
            record_views(subjects@),
            record_views(candidates@),
            index@,
            top_n,
            min_score,
            *weights,
        ),
{
    match check_subjects(subjects) {
        Ok(_) => {},
        Err(e) => {
            return Err(e);
        },
    }
    let doi_map = build_doi_map(candidates);
    let ghost all = record_views(subjects@);
    let ghost corpus = record_views(candidates@);
    let ghost dois = doi_positions(corpus);
    let mut results: Vec<SubjectMatchResult> = Vec::new();
    let n = subjects.len();
    let mut i: usize = 0;
    while i < n
        invariant
            n == subjects@.len(),
            i <= n,
            all == record_views(subjects@),
            corpus == record_views(candidates@),
            dois == doi_positions(corpus),
            doi_entries(doi_map) == dois,
            !has_conflict(all),
            results@.len() == i,
            forall|k: int|
                0 <= k < i ==> indexed_matches_of(
                    #[trigger] all[k],
                    corpus,
                    index@,
                    dois,
                    top_n,
                    min_score,
                    *weights,
                ) == Ok::<SubjectMatches, MatchError>(results@[k]@),
        decreases n - i,
    {
        match match_subject_indexed(
            &subjects[i],
            candidates,
            index,
            &doi_map,
            top_n,
            min_score,
            weights,
        ) {
            Ok(result) => {
                results.push(result);
            },
            Err(e) => {
                proof {
                    lemma_blocked_in_range(all[i as int], index@, corpus.len());
                    assert(indexed_matches_of(
                        all[i as int],
                        corpus,
                        index@,
                        dois,
                        top_n,
                        min_score,
                        *weights,
                    ) is Err);
                }
                return Err(e);
            },
        }
        i += 1;
    }
    proof {
        assert forall|k: int| 0 <= k < all.len() implies !(indexed_matches_of(
            all[k],
            corpus,
            index@,
            dois,
            top_n,
            min_score,
            *weights,
        ) is Err) by {
            assert(all[k] == all[k]);
        }
        assert(result_views(results@) =~= Seq::new(
            all.len(),
            |i: int|
                indexed_matches_of(all[i], corpus, index@, dois, top_n, min_score, *weights)->Ok_0,
        ));
    }
    Ok(results)
}

/// A subject whose DOI a candidate carries has one match, a candidate with
/// that DOI, and one candidate searched, whatever the number of matches
/// asked for, the minimum score and the weights.
pub proof fn lemma_doi_settles_match(
    subject: RecordView,
    candidates: Seq<RecordView>,
    position: int,
    top_n: usize,
    min_score: Score,
    weights: Weights,
)
    requires
        candidates.len() <= usize::MAX,
        0 <= position < candidates.len(),
        subject.doi matches Some(d) && d.len() > 0 && candidates[position].doi == Some(d),
    ensures
        ({
            let found = matches_of(subject, candidates, top_n, min_score, weights);
            &&& found.candidates_searched == 1
            &&& found.matches.len() == 1
            &&& exists|p: int|
                0 <= p < candidates.len() && candidates[p].doi == subject.doi && found.matches[0]
                    == candidate_score(subject, candidates[p], weights)
        }),
{
    let d = subject.doi->Some_0;
    lemma_doi_positions(candidates, d);
    let p = doi_positions(candidates)[d];
    assert(candidates[p as int].doi == subject.doi);
}

/// The same holds when the candidates are picked by a blocking index,
/// whatever the index holds.
pub proof fn lemma_doi_settles_indexed_match(
    subject: RecordView,
    candidates: Seq<RecordView>,
    index: IndexView,
    position: int,
    top_n: usize,
    min_score: Score,
    weights: Weights,
)
    requires
        candidates.len() <= usize::MAX,
        0 <= position < candidates.len(),
        subject.doi matches Some(d) && d.len() > 0 && candidates[position].doi == Some(d),
    ensures
        indexed_matches_of(
            subject,
            candidates,
            index,
            doi_positions(candidates),
            top_n,
            min_score,
            weights,
        ) == Ok::<SubjectMatches, MatchError>(
            matches_of(subject, candidates, top_n, min_score, weights),
        ),
        matches_of(subject, candidates, top_n, min_score, weights).candidates_searched == 1,
        matches_of(subject, candidates, top_n, min_score, weights).matches.len() == 1,
{
    let d = subject.doi->Some_0;
    lemma_doi_positions(candidates, d);
}

/// Two indexes built from the same corpus give the same outcome for every
/// batch: building the index again changes nothing.
pub proof fn lemma_rebuilt_index_same_outcome(
    first: BlockingIndex,
    second: BlockingIndex,
    corpus: Seq<RecordView>,
    subjects: Seq<RecordView>,
    candidates: Seq<RecordView>,
    top_n: usize,
    min_score: Score,
    weights: Weights,
)
    requires
        first@ == index_of(corpus),
        second@ == index_of(corpus),
    ensures
        indexed_batch_matches(subjects, candidates, first@, top_n, min_score, weights)
            == indexed_batch_matches(subjects, candidates, second@, top_n, min_score, weights),
{
}

} // verus!
