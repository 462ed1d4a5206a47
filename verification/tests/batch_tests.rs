use bibmatch::batch::{
    build_doi_map, check_subjects, find_top_matches, find_top_matches_indexed, match_subject,
    match_subject_indexed, score_batch, score_batch_indexed,
};
use bibmatch::index::build_index;
use bibmatch::rank::{select_top, Ranking};
use bibmatch::record::{BibRecord, MatchError, MatchResult, SubjectMatchResult, Weights};
use bibmatch::score::{score_candidate, PrecomputedSubject};
use bibmatch::similarity::POINT;

fn entry(index: usize, title: &str, author: &str, year: Option<i32>) -> BibRecord {
    BibRecord {
        index,
        doi: None,
        title: title.to_string(),
        author: author.to_string(),
        author_surnames: author
            .split_whitespace()
            .last()
            .map(|s| vec![s.to_string()])
            .unwrap_or_default(),
        year,
        journal: None,
        volume: None,
        number: None,
        pages: None,
        publisher: None,
    }
}

fn scored(candidate_index: usize, total_score: u64) -> MatchResult {
    MatchResult {
        candidate_index,
        total_score,
        title_score: total_score,
        author_score: 0,
        date_score: 0,
        bonus_score: 0,
    }
}

fn ids(results: &[MatchResult]) -> Vec<usize> {
    results.iter().map(|r| r.candidate_index).collect()
}

fn same(a: &[SubjectMatchResult], b: &[SubjectMatchResult]) -> bool {
    a.len() == b.len()
        && a.iter().zip(b).all(|(x, y)| {
            x.subject_index == y.subject_index
                && x.matches == y.matches
                && x.candidates_searched == y.candidates_searched
        })
}

const EVEN: Weights = Weights { title: 1, author: 1, date: 1, bonus: 1 };

fn library() -> Vec<BibRecord> {
    let mut a = entry(0, "Knowledge and Belief", "Ernest Adams", Some(1995));
    a.doi = Some("10.1/X".to_string());
    let b = entry(1, "Belief and Knowledge Revisited", "E. Adams", Some(1997));
    let c = entry(2, "The Logic of Conditionals", "Ernest Adams", Some(1965));
    let mut d = entry(3, "Reply to Adams on Knowledge and Belief", "John Smith", Some(1996));
    d.doi = Some("10.1/Y".to_string());
    let e = entry(4, "Cooking for Beginners", "Mary Jones", Some(2015));
    vec![a, b, c, d, e]
}

#[test]
fn select_top_ranks_by_total_score() {
    let results = vec![scored(0, 5), scored(1, 9), scored(2, 1), scored(3, 7)];
    assert_eq!(ids(&select_top(&results, 10, 0)), vec![1, 3, 0, 2]);
    assert_eq!(ids(&select_top(&results, 2, 0)), vec![1, 3]);
    assert_eq!(ids(&select_top(&results, 4, 0)), vec![1, 3, 0, 2]);
    assert_eq!(ids(&select_top(&results, 0, 0)), Vec::<usize>::new());
    assert_eq!(ids(&select_top(&vec![], 3, 0)), Vec::<usize>::new());
}

#[test]
fn select_top_drops_what_is_below_the_minimum() {
    let results = vec![scored(0, 5), scored(1, 9), scored(2, 1), scored(3, 7)];
    assert_eq!(ids(&select_top(&results, 10, 5)), vec![1, 3, 0]);
    assert_eq!(ids(&select_top(&results, 10, 6)), vec![1, 3]);
    assert_eq!(ids(&select_top(&results, 1, 6)), vec![1]);
    assert_eq!(ids(&select_top(&results, 10, 10)), Vec::<usize>::new());
}

#[test]
fn select_top_keeps_equal_scores_in_the_order_given() {
    let results = vec![scored(4, 5), scored(2, 5), scored(9, 7), scored(1, 5), scored(3, 7)];
    assert_eq!(ids(&select_top(&results, 10, 0)), vec![9, 3, 4, 2, 1]);
    assert_eq!(ids(&select_top(&results, 3, 0)), vec![9, 3, 4]);
    assert_eq!(ids(&select_top(&results, 4, 0)), vec![9, 3, 4, 2]);
}

#[test]
fn ranking_keeps_the_best_it_was_offered() {
    let mut ranking = Ranking::new(2);
    for (i, score) in [3u64, 1, 4, 1, 5, 9, 2, 6].iter().enumerate() {
        ranking = ranking.offer(scored(i, *score));
    }
    let kept = ranking.into_matches();
    assert_eq!(ids(&kept), vec![5, 7]);
    assert_eq!(Ranking::new(0).offer(scored(0, 1)).into_matches(), vec![]);
    assert_eq!(Ranking::new(3).into_matches(), vec![]);
}

#[test]
fn doi_match_is_the_sole_match_whatever_is_asked() {
    let candidates = library();
    let mut subject = entry(0, "Something Else Entirely", "Nobody", None);
    subject.doi = Some("10.1/X".to_string());
    let expected = score_candidate(&subject, &candidates[0], &EVEN);
    for top_n in [0usize, 1, 5] {
        for min_score in [0u64, 1, u64::MAX] {
            let (matches, searched) =
                find_top_matches(&subject, &candidates, top_n, min_score, &EVEN);
            assert_eq!(matches, vec![expected]);
            assert_eq!(searched, 1);
        }
    }
    let zero = Weights { title: 0, author: 0, date: 0, bonus: 0 };
    let (matches, searched) = find_top_matches(&subject, &candidates, 3, 50, &zero);
    assert_eq!(ids(&matches), vec![0]);
    assert_eq!(matches[0].total_score, 0);
    assert_eq!(searched, 1);
}

#[test]
fn doi_match_settles_a_batch_in_both_modes() {
    let candidates = library();
    let index = build_index(&candidates);
    let mut subject = entry(7, "Knowledge and Belief", "Ernest Adams", Some(1995));
    subject.doi = Some("10.1/X".to_string());
    let subjects = vec![subject];
    let heavy = Weights { title: 3, author: 2, date: 1, bonus: 5 };
    let plain = score_batch(&subjects, &candidates, 5, 1_000 * POINT * 1_000, &heavy).unwrap();
    let indexed =
        score_batch_indexed(&subjects, &candidates, &index, 5, 1_000 * POINT * 1_000, &heavy)
            .unwrap();
    for outcome in [&plain, &indexed] {
        assert_eq!(outcome.len(), 1);
        assert_eq!(outcome[0].subject_index, 7);
        assert_eq!(outcome[0].candidates_searched, 1);
        assert_eq!(ids(&outcome[0].matches), vec![0]);
        assert_eq!(
            outcome[0].matches[0],
            score_candidate(&subjects[0], &candidates[0], &heavy)
        );
    }
}

#[test]
fn doi_carried_twice_leads_to_the_last_candidate() {
    let mut candidates = library();
    candidates[4].doi = Some("10.1/X".to_string());
    let index = build_index(&candidates);
    let map = build_doi_map(&candidates);
    assert_eq!(map.get("10.1/X"), Some(&4));
    assert_eq!(map.get("10.1/Y"), Some(&3));
    assert_eq!(map.len(), 2);
    let mut subject = entry(0, "Knowledge and Belief", "Ernest Adams", Some(1995));
    subject.doi = Some("10.1/X".to_string());
    let (matches, _) = find_top_matches(&subject, &candidates, 3, 0, &EVEN);
    assert_eq!(ids(&matches), vec![4]);
    let found = match_subject_indexed(&subject, &candidates, &index, &map, 3, 0, &EVEN).unwrap();
    assert_eq!(ids(&found.matches), vec![4]);
    assert_eq!(found.candidates_searched, 1);
}

#[test]
fn empty_doi_settles_nothing() {
    let mut candidates = library();
    candidates[2].doi = Some("".to_string());
    let mut subject = entry(0, "Knowledge and Belief", "Ernest Adams", Some(1995));
    subject.doi = Some("".to_string());
    let (matches, searched) = find_top_matches(&subject, &candidates, 10, 0, &EVEN);
    assert_eq!(matches.len(), 5);
    assert_eq!(searched, 5);
    assert!(build_doi_map(&candidates).get("").is_none());
}

#[test]
fn find_top_matches_scores_every_candidate_and_ranks_the_best() {
    let candidates = library();
    let subject = entry(0, "Knowledge and Belief", "Ernest Adams", Some(1995));
    let all: Vec<MatchResult> = candidates
        .iter()
        .map(|c| score_candidate(&subject, c, &EVEN))
        .collect();
    let (matches, searched) = find_top_matches(&subject, &candidates, 3, 0, &EVEN);
    assert_eq!(searched, 5);
    assert_eq!(matches, select_top(&all, 3, 0));
    assert_eq!(matches.len(), 3);
    assert_eq!(matches[0].candidate_index, 0);
    assert!(matches[0].total_score >= matches[1].total_score);
    assert!(matches[1].total_score >= matches[2].total_score);
    // The commentary on the same work is no match at all.
    assert_eq!(all[3].total_score, 0);
    assert!(!ids(&matches).contains(&3));

    let (matches, searched) = find_top_matches(&subject, &candidates, 10, 350 * POINT, &EVEN);
    assert_eq!(searched, 5);
    assert_eq!(matches, select_top(&all, 10, 350 * POINT));
    assert!(matches.iter().all(|m| m.total_score >= 350 * POINT));
    assert!(ids(&matches).contains(&0));

    let (matches, searched) = find_top_matches(&subject, &vec![], 10, 0, &EVEN);
    assert!(matches.is_empty());
    assert_eq!(searched, 0);
}

#[test]
fn find_top_matches_indexed_scores_the_given_candidates() {
    let candidates = library();
    let map = build_doi_map(&candidates);
    let subject = entry(0, "Knowledge and Belief", "Ernest Adams", Some(1995));
    let pre = PrecomputedSubject::new(&subject);
    let picked = vec![4, 1, 2];
    let all: Vec<MatchResult> = picked
        .iter()
        .map(|p| score_candidate(&subject, &candidates[*p], &EVEN))
        .collect();
    let (matches, searched) =
        find_top_matches_indexed(&pre, &candidates, &picked, &map, 2, 0, &EVEN).unwrap();
    assert_eq!(searched, 3);
    assert_eq!(matches, select_top(&all, 2, 0));

    let (matches, searched) =
        find_top_matches_indexed(&pre, &candidates, &vec![], &map, 2, 0, &EVEN).unwrap();
    assert!(matches.is_empty());
    assert_eq!(searched, 0);
}

#[test]
fn find_top_matches_indexed_refuses_a_position_beyond_the_corpus() {
    let candidates = library();
    let map = build_doi_map(&candidates);
    let subject = entry(0, "Knowledge and Belief", "Ernest Adams", Some(1995));
    let pre = PrecomputedSubject::new(&subject);
    assert_eq!(
        find_top_matches_indexed(&pre, &candidates, &vec![1, 5], &map, 2, 0, &EVEN),
        Err(MatchError::CandidateOutOfRange)
    );
    assert_eq!(
        find_top_matches_indexed(&pre, &candidates, &vec![usize::MAX], &map, 0, 0, &EVEN),
        Err(MatchError::CandidateOutOfRange)
    );
    // A DOI map that leads beyond the corpus is refused as well.
    let mut with_doi = subject.clone();
    with_doi.doi = Some("10.1/Y".to_string());
    let pre = PrecomputedSubject::new(&with_doi);
    let short: Vec<BibRecord> = candidates[..3].to_vec();
    assert_eq!(
        find_top_matches_indexed(&pre, &short, &vec![0], &map, 2, 0, &EVEN),
        Err(MatchError::CandidateOutOfRange)
    );
}

#[test]
fn batch_has_one_entry_for_each_subject_in_order() {
    let candidates = library();
    let subjects = vec![
        entry(30, "Cooking for Beginners", "Mary Jones", Some(2015)),
        entry(10, "Knowledge and Belief", "Ernest Adams", Some(1995)),
        entry(20, "The Logic of Conditionals", "E. Adams", Some(1966)),
    ];
    let outcome = score_batch(&subjects, &candidates, 1, 0, &EVEN).unwrap();
    assert_eq!(outcome.len(), 3);
    assert_eq!(
        outcome.iter().map(|r| r.subject_index).collect::<Vec<_>>(),
        vec![30, 10, 20]
    );
    assert_eq!(
        outcome.iter().map(|r| ids(&r.matches)).collect::<Vec<_>>(),
        vec![vec![4], vec![0], vec![2]]
    );
    assert!(outcome.iter().all(|r| r.candidates_searched == 5));
    for (subject, result) in subjects.iter().zip(&outcome) {
        let alone = match_subject(subject, &candidates, 1, 0, &EVEN);
        assert_eq!(alone.subject_index, result.subject_index);
        assert_eq!(alone.matches, result.matches);
        assert_eq!(alone.candidates_searched, result.candidates_searched);
    }
    assert!(score_batch(&vec![], &candidates, 1, 0, &EVEN).unwrap().is_empty());
}

#[test]
fn indexed_batch_scores_as_the_plain_batch_does() {
    let candidates = library();
    let index = build_index(&candidates);
    let subjects = vec![
        entry(0, "Cooking for Beginners", "Mary Jones", Some(2015)),
        entry(1, "Knowledge and Belief", "Ernest Adams", Some(1995)),
        entry(2, "The Logic of Conditionals", "E. Adams", Some(1966)),
        entry(3, "", "", None),
    ];
    let weights = Weights { title: 4, author: 3, date: 2, bonus: 1 };
    let plain = score_batch(&subjects, &candidates, 5, 0, &weights).unwrap();
    let indexed = score_batch_indexed(&subjects, &candidates, &index, 5, 0, &weights).unwrap();
    assert_eq!(indexed.len(), 4);
    for (p, i) in plain.iter().zip(&indexed) {
        assert_eq!(p.subject_index, i.subject_index);
        assert!(i.candidates_searched <= p.candidates_searched);
        // Every match found through the index has the score of the plain batch.
        for m in &i.matches {
            let subject = &subjects[i.subject_index];
            assert_eq!(*m, score_candidate(subject, &candidates[m.candidate_index], &weights));
        }
        assert_eq!(p.matches[0], i.matches[0]);
    }
    // The subject without any signal is compared with the whole corpus.
    assert_eq!(indexed[3].candidates_searched, 5);
    assert!(same(&plain[3..], &indexed[3..]));
}

#[test]
fn indexed_batch_counts_the_candidates_that_the_filter_picked() {
    let candidates = library();
    let index = build_index(&candidates);
    let subjects = vec![entry(0, "Cooking", "", None), entry(1, "", "adams", None)];
    let outcome = score_batch_indexed(&subjects, &candidates, &index, 5, 0, &EVEN).unwrap();
    assert_eq!(outcome[0].candidates_searched, 1);
    assert_eq!(ids(&outcome[0].matches), vec![4]);
    assert_eq!(outcome[1].candidates_searched, 3);
    assert_eq!(outcome[1].matches.len(), 3);
}

#[test]
fn rebuilding_the_index_changes_nothing() {
    let candidates = library();
    let subjects = vec![
        entry(0, "Knowledge and Belief", "Ernest Adams", Some(1995)),
        entry(1, "Belief", "Adams", None),
        entry(2, "cooking", "jones", Some(2010)),
        entry(3, "", "", None),
    ];
    let weights = Weights { title: 4, author: 3, date: 2, bonus: 1 };
    let first = build_index(&candidates);
    let one = score_batch_indexed(&subjects, &candidates, &first, 3, 10 * POINT, &weights).unwrap();
    let second = build_index(&candidates);
    let two = score_batch_indexed(&subjects, &candidates, &second, 3, 10 * POINT, &weights).unwrap();
    let again = score_batch_indexed(&subjects, &candidates, &first, 3, 10 * POINT, &weights).unwrap();
    assert!(same(&one, &two));
    assert!(same(&one, &again));
    assert_eq!(first.surname_keys(), second.surname_keys());
}

#[test]
fn subjects_that_share_an_identifier_and_differ_are_refused() {
    let candidates = library();
    let index = build_index(&candidates);
    let subjects = vec![
        entry(1, "Knowledge and Belief", "Ernest Adams", Some(1995)),
        entry(2, "Other", "Other", None),
        entry(1, "Knowledge and Belief", "Ernest Adams", Some(1996)),
    ];
    assert_eq!(check_subjects(&subjects), Err(MatchError::DuplicateSubject));
    assert_eq!(
        score_batch(&subjects, &candidates, 3, 0, &EVEN).err(),
        Some(MatchError::DuplicateSubject)
    );
    assert_eq!(
        score_batch_indexed(&subjects, &candidates, &index, 3, 0, &EVEN).err(),
        Some(MatchError::DuplicateSubject)
    );
}

#[test]
fn subjects_that_share_an_identifier_and_agree_are_accepted() {
    let candidates = library();
    let subjects = vec![
        entry(1, "Knowledge and Belief", "Ernest Adams", Some(1995)),
        entry(2, "Other", "Other", None),
        entry(1, "Knowledge and Belief", "Ernest Adams", Some(1995)),
        entry(1, "Knowledge and Belief", "Ernest Adams", Some(1995)),
    ];
    assert_eq!(check_subjects(&subjects), Ok(()));
    assert_eq!(check_subjects(&vec![]), Ok(()));
    let outcome = score_batch(&subjects, &candidates, 3, 0, &EVEN).unwrap();
    assert_eq!(outcome.len(), 4);
    assert_eq!(outcome[0].matches, outcome[2].matches);
    assert_eq!(outcome[0].matches, outcome[3].matches);
}

#[test]
fn every_field_counts_for_the_content_of_a_subject() {
    let base = entry(1, "T", "A B", Some(1995));
    let mut variants: Vec<BibRecord> = Vec::new();
    let mut v = base.clone();
    v.doi = Some("d".to_string());
    variants.push(v);
    let mut v = base.clone();
    v.title = "U".to_string();
    variants.push(v);
    let mut v = base.clone();
    v.author = "A  B".to_string();
    variants.push(v);
    let mut v = base.clone();
    v.author_surnames = vec!["B".to_string(), "C".to_string()];
    variants.push(v);
    let mut v = base.clone();
    v.year = None;
    variants.push(v);
    let mut v = base.clone();
    v.journal = Some("".to_string());
    variants.push(v);
    let mut v = base.clone();
    v.volume = Some("1".to_string());
    variants.push(v);
    let mut v = base.clone();
    v.number = Some("1".to_string());
    variants.push(v);
    let mut v = base.clone();
    v.pages = Some("1".to_string());
    variants.push(v);
    let mut v = base.clone();
    v.publisher = Some("P".to_string());
    variants.push(v);
    for variant in variants {
        assert!(!base.same_content(&variant));
        assert_eq!(
            check_subjects(&vec![base.clone(), variant]),
            Err(MatchError::DuplicateSubject)
        );
    }
    assert!(base.same_content(&base.clone()));
    let mut other_id = base.clone();
    other_id.index = 2;
    assert!(!base.same_content(&other_id));
    assert_eq!(check_subjects(&vec![base, other_id]), Ok(()));
}

#[test]
fn index_that_names_a_missing_candidate_is_refused() {
    let candidates = library();
    let index = build_index(&candidates);
    let short: Vec<BibRecord> = candidates[..2].to_vec();
    let subjects = vec![
        entry(0, "Knowledge and Belief", "", None),
        entry(1, "Cooking for Beginners", "", None),
    ];
    assert_eq!(
        score_batch_indexed(&subjects, &short, &index, 3, 0, &EVEN).err(),
        Some(MatchError::CandidateOutOfRange)
    );
    // A subject that a DOI settles never asks the index.
    let mut settled = entry(0, "Cooking for Beginners", "", None);
    settled.doi = Some("10.1/X".to_string());
    let outcome = score_batch_indexed(&vec![settled], &short, &index, 3, 0, &EVEN).unwrap();
    assert_eq!(ids(&outcome[0].matches), vec![0]);
    assert_eq!(outcome[0].candidates_searched, 1);
}
