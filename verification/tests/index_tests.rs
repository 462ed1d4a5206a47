use bibmatch::blocking::get_candidate_indices;
use bibmatch::index::{build_index, get_decade};
use bibmatch::record::{BibRecord, MatchError};

fn item(index: usize, title: &str, author: &str) -> BibRecord {
    BibRecord {
        index,
        doi: None,
        title: title.to_string(),
        author: author.to_string(),
        author_surnames: vec![],
        year: None,
        journal: None,
        volume: None,
        number: None,
        pages: None,
        publisher: None,
    }
}

fn with_surnames(mut r: BibRecord, names: &[&str]) -> BibRecord {
    r.author_surnames = names.iter().map(|n| n.to_string()).collect();
    r
}

fn strings(keys: &[Vec<char>]) -> Vec<String> {
    keys.iter().map(|k| k.iter().collect()).collect()
}

#[test]
fn test_get_decade() {
    assert_eq!(get_decade(Some(1995)), Some(1990));
    assert_eq!(get_decade(Some(2000)), Some(2000));
    assert_eq!(get_decade(Some(2025)), Some(2020));
    assert_eq!(get_decade(None), None);
}

#[test]
fn get_decade_rounds_down_below_zero_too() {
    assert_eq!(get_decade(Some(0)), Some(0));
    assert_eq!(get_decade(Some(9)), Some(0));
    assert_eq!(get_decade(Some(-1)), Some(-10));
    assert_eq!(get_decade(Some(-10)), Some(-10));
    assert_eq!(get_decade(Some(-11)), Some(-20));
    assert_eq!(get_decade(Some(i32::MAX)), Some(2147483640));
    assert_eq!(get_decade(Some(i32::MIN)), Some(-2147483650));
}

#[test]
fn index_of_nothing_is_empty() {
    let index = build_index(&vec![]);
    assert_eq!(index.doi_lookup("10.1/X"), None);
    assert_eq!(index.trigram_postings("abc"), None);
    assert_eq!(index.surname_postings("adams"), None);
    assert_eq!(index.decade_postings(1990), None);
    assert_eq!(index.journal_postings("mind"), None);
    assert!(index.surname_keys().is_empty());
    assert!(index.doi_map().is_empty());
    assert!(index.trigram_map().is_empty());
    assert!(index.surname_map().is_empty());
    assert!(index.decade_map().is_empty());
    assert!(index.journal_map().is_empty());
}

#[test]
fn doi_index_keeps_the_last_record_of_a_doi() {
    let mut a = item(0, "first", "");
    a.doi = Some("10.1/X".to_string());
    let mut b = item(1, "second", "");
    b.doi = Some("10.1/Y".to_string());
    let mut c = item(2, "third", "");
    c.doi = Some("10.1/X".to_string());
    let mut d = item(3, "fourth", "");
    d.doi = Some("".to_string());
    let index = build_index(&vec![a, b, c, d]);
    assert_eq!(index.doi_lookup("10.1/X"), Some(2));
    assert_eq!(index.doi_lookup("10.1/Y"), Some(1));
    assert_eq!(index.doi_lookup("10.1/x"), None);
    assert_eq!(index.doi_lookup(""), None);
    assert_eq!(index.doi_map().len(), 2);
}

#[test]
fn trigram_index_files_each_record_once_under_each_trigram() {
    let records = vec![item(0, "Hello", ""), item(1, "hellllo", ""), item(2, "he", "")];
    let index = build_index(&records);
    assert_eq!(index.trigram_postings("hel"), Some(&vec![0, 1]));
    assert_eq!(index.trigram_postings("ell"), Some(&vec![0, 1]));
    assert_eq!(index.trigram_postings("llo"), Some(&vec![0, 1]));
    assert_eq!(index.trigram_postings("lll"), Some(&vec![1]));
    assert_eq!(index.trigram_postings("Hel"), None);
    assert_eq!(index.trigram_postings("he"), None);
    assert_eq!(index.trigram_map().len(), 4);
}

#[test]
fn surname_index_files_normalized_surnames_and_skips_empty_ones() {
    let records = vec![
        with_surnames(item(0, "", ""), &["Adams", "  van   der BERG "]),
        with_surnames(item(1, "", ""), &["", "   ", "adams"]),
        with_surnames(item(2, "", ""), &["Smith", "Smith"]),
    ];
    let index = build_index(&records);
    assert_eq!(index.surname_postings("adams"), Some(&vec![0, 1]));
    assert_eq!(index.surname_postings("van der berg"), Some(&vec![0]));
    assert_eq!(index.surname_postings("smith"), Some(&vec![2, 2]));
    assert_eq!(index.surname_postings(""), None);
    assert_eq!(index.surname_postings("Adams"), None);
    assert_eq!(
        strings(index.surname_keys()),
        vec!["adams", "van der berg", "smith"]
    );
    assert_eq!(index.surname_map().len(), 3);
}

#[test]
fn decade_index_leaves_out_records_without_a_year() {
    let mut a = item(0, "", "");
    a.year = Some(1995);
    let mut b = item(1, "", "");
    b.year = Some(1990);
    let c = item(2, "", "");
    let mut d = item(3, "", "");
    d.year = Some(2001);
    let index = build_index(&vec![a, b, c, d]);
    assert_eq!(index.decade_postings(1990), Some(&vec![0, 1]));
    assert_eq!(index.decade_postings(2000), Some(&vec![3]));
    assert_eq!(index.decade_postings(1980), None);
    assert_eq!(index.decade_map().len(), 2);
}

#[test]
fn journal_index_files_normalized_names_and_skips_empty_ones() {
    let mut a = item(0, "", "");
    a.journal = Some("Journal of  Philosophy".to_string());
    let mut b = item(1, "", "");
    b.journal = Some(" journal of philosophy ".to_string());
    let mut c = item(2, "", "");
    c.journal = Some("   ".to_string());
    let mut d = item(3, "", "");
    d.journal = Some("Mind".to_string());
    let index = build_index(&vec![a, b, c, d]);
    assert_eq!(index.journal_postings("journal of philosophy"), Some(&vec![0, 1]));
    assert_eq!(index.journal_postings("mind"), Some(&vec![3]));
    assert_eq!(index.journal_postings(""), None);
    assert_eq!(index.journal_map().len(), 2);
}

#[test]
fn index_files_records_under_their_own_identifiers() {
    let mut a = item(40, "Hello", "");
    a.year = Some(2001);
    let index = build_index(&vec![a]);
    assert_eq!(index.trigram_postings("hel"), Some(&vec![40]));
    assert_eq!(index.decade_postings(2000), Some(&vec![40]));
}

fn corpus() -> Vec<BibRecord> {
    let mut a = with_surnames(item(0, "Knowledge and Belief", "Ernest Adams"), &["Adams"]);
    a.year = Some(1850);
    a.doi = Some("10.1/A".to_string());
    let mut b = with_surnames(item(1, "Zzyzx", "John Smith"), &["Smith"]);
    b.year = Some(1700);
    let mut c = with_surnames(item(2, "Quux", "Mary Jones"), &["Jones"]);
    c.year = Some(2020);
    let d = with_surnames(item(3, "Xyzzy", "P. van der Berg"), &["van der Berg"]);
    vec![a, b, c, d]
}

#[test]
fn filter_answers_a_known_doi_with_that_candidate() {
    let records = corpus();
    let index = build_index(&records);
    let mut subject = item(9, "Quux", "Mary Jones");
    subject.year = Some(2020);
    subject.doi = Some("10.1/A".to_string());
    assert_eq!(get_candidate_indices(&subject, &index, 4), Ok(vec![0]));
}

#[test]
fn filter_ignores_an_unknown_or_empty_doi() {
    let records = corpus();
    let index = build_index(&records);
    let mut subject = item(9, "Quux", "");
    subject.doi = Some("10.1/unknown".to_string());
    assert_eq!(get_candidate_indices(&subject, &index, 4), Ok(vec![2]));
    subject.doi = Some("".to_string());
    assert_eq!(get_candidate_indices(&subject, &index, 4), Ok(vec![2]));
}

#[test]
fn filter_finds_candidates_by_title_trigram() {
    let records = corpus();
    let index = build_index(&records);
    let subject = item(9, "on BELIEF", "");
    assert_eq!(get_candidate_indices(&subject, &index, 4), Ok(vec![0]));
}

#[test]
fn filter_finds_candidates_by_surname_in_the_author_text() {
    let records = corpus();
    let index = build_index(&records);
    let subject = item(9, "", "SMITH, J. and Jones, M.");
    assert_eq!(get_candidate_indices(&subject, &index, 4), Ok(vec![1, 2]));
    let subject = item(9, "", "Pieter Van Der Berg");
    assert_eq!(get_candidate_indices(&subject, &index, 4), Ok(vec![3]));
    // A surname inside a longer word counts too.
    let subject = item(9, "", "Blacksmith");
    assert_eq!(get_candidate_indices(&subject, &index, 4), Ok(vec![1]));
}

#[test]
fn filter_finds_candidates_within_five_decades() {
    let records = corpus();
    let index = build_index(&records);
    let mut subject = item(9, "", "");
    subject.year = Some(1809);
    assert_eq!(get_candidate_indices(&subject, &index, 4), Ok(vec![0]));
    subject.year = Some(1799);
    // 1790 + 50 = 1840: the candidate of 1850 is out of reach, 1700 is not in reach either.
    assert_eq!(get_candidate_indices(&subject, &index, 4), Ok(vec![0, 1, 2, 3]));
    subject.year = Some(1750);
    assert_eq!(get_candidate_indices(&subject, &index, 4), Ok(vec![1]));
    subject.year = Some(1900);
    assert_eq!(get_candidate_indices(&subject, &index, 4), Ok(vec![0]));
    subject.year = Some(1909);
    assert_eq!(get_candidate_indices(&subject, &index, 4), Ok(vec![0]));
    subject.year = Some(1910);
    assert_eq!(get_candidate_indices(&subject, &index, 4), Ok(vec![0, 1, 2, 3]));
    subject.year = Some(1975);
    assert_eq!(get_candidate_indices(&subject, &index, 4), Ok(vec![2]));
}

#[test]
fn filter_unites_the_signals_in_ascending_order() {
    let records = corpus();
    let index = build_index(&records);
    let mut subject = item(9, "xyzzy quux", "jones");
    subject.year = Some(1720);
    assert_eq!(get_candidate_indices(&subject, &index, 4), Ok(vec![1, 2, 3]));
}

#[test]
fn filter_falls_back_to_the_whole_corpus() {
    let records = corpus();
    let index = build_index(&records);
    let subject = item(9, "", "");
    assert_eq!(get_candidate_indices(&subject, &index, 4), Ok(vec![0, 1, 2, 3]));
    let subject = item(9, "no shared trigram? none!", "Nobody");
    assert_eq!(get_candidate_indices(&subject, &index, 4), Ok(vec![0, 1, 2, 3]));
    assert_eq!(get_candidate_indices(&subject, &index, 0), Ok(vec![]));
    let empty = build_index(&vec![]);
    assert_eq!(get_candidate_indices(&subject, &empty, 3), Ok(vec![0, 1, 2]));
}

#[test]
fn filter_refuses_a_candidate_beyond_the_corpus() {
    let records = corpus();
    let index = build_index(&records);
    // "xyzzy" shares the trigram "zzy" with "zzyzx".
    let subject = item(9, "Xyzzy", "");
    assert_eq!(get_candidate_indices(&subject, &index, 4), Ok(vec![1, 3]));
    assert_eq!(
        get_candidate_indices(&subject, &index, 3),
        Err(MatchError::CandidateOutOfRange)
    );
    let subject = item(9, "", "van der berg");
    assert_eq!(
        get_candidate_indices(&subject, &index, 3),
        Err(MatchError::CandidateOutOfRange)
    );
    let mut subject = item(9, "", "");
    subject.year = Some(2020);
    assert_eq!(
        get_candidate_indices(&subject, &index, 2),
        Err(MatchError::CandidateOutOfRange)
    );
    let mut subject = item(9, "", "");
    subject.doi = Some("10.1/A".to_string());
    assert_eq!(
        get_candidate_indices(&subject, &index, 0),
        Err(MatchError::CandidateOutOfRange)
    );
}

#[test]
fn filter_keeps_every_candidate_that_shares_a_signal() {
    let records = corpus();
    let index = build_index(&records);
    let mut subjects = vec![
        item(0, "Belief", ""),
        item(1, "", "j. smith"),
        item(2, "completely different", "jones"),
    ];
    let mut dated = item(3, "", "");
    dated.year = Some(1990);
    subjects.push(dated);
    let expected: [&[usize]; 4] = [&[0], &[1], &[2], &[2]];
    for (subject, must_have) in subjects.iter().zip(expected) {
        let found = get_candidate_indices(subject, &index, records.len()).unwrap();
        for id in must_have {
            assert!(found.contains(id));
        }
    }
}
