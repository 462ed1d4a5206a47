use bibmatch::names::check_initials_match;
use bibmatch::record::{BibRecord, MatchResult, Weights};
use bibmatch::score::{
    has_academic_prefix, score_author, score_bonus, score_bonus_precomputed, score_candidate,
    score_candidate_precomputed, score_date, score_title, score_title_prenorm,
    PrecomputedSubject,
};
use bibmatch::similarity::{ratio_from_bits, token_sort_ratio, POINT};
use bibmatch::text::normalize;

fn as_points(score: u64) -> f64 {
    score as f64 / POINT as f64
}

fn jw(a: &str, b: &str) -> u64 {
    ratio_from_bits(strsim::jaro_winkler(a, b).to_bits())
}

fn rec(index: usize, title: &str, author: &str) -> BibRecord {
    BibRecord {
        index,
        doi: None,
        title: title.to_string(),
        author: author.to_string(),
        author_surnames: vec![],
        year: None,
        journal: None,
        volume: None,
        number: None,
        pages: None,
        publisher: None,
    }
}

fn some(s: &str) -> Option<String> {
    Some(s.to_string())
}

const UNIT: Weights = Weights { title: 1, author: 1, date: 1, bonus: 1 };

#[test]
fn test_score_date_exact() {
    let score = as_points(score_date(Some(2020), Some(2020), 1));
    assert!((score - 100.0).abs() < 0.001);
}

#[test]
fn test_score_date_close() {
    // ±1 year = 95 (updated for wider tolerance)
    let score = as_points(score_date(Some(2020), Some(2021), 1));
    assert!((score - 95.0).abs() < 0.001);
}

#[test]
fn test_score_date_wider_tolerance() {
    // ±2 = 90, ±3 = 85, ±4 = 75, ±5 = 65
    assert!((as_points(score_date(Some(2020), Some(2022), 1)) - 90.0).abs() < 0.001);
    assert!((as_points(score_date(Some(2020), Some(2023), 1)) - 85.0).abs() < 0.001);
    assert!((as_points(score_date(Some(2020), Some(2024), 1)) - 75.0).abs() < 0.001);
    assert!((as_points(score_date(Some(2020), Some(2025), 1)) - 65.0).abs() < 0.001);
}

#[test]
fn test_score_date_same_decade() {
    // > 5 years but same decade = 40
    let score = as_points(score_date(Some(2020), Some(2028), 1));
    assert!((score - 40.0).abs() < 0.001);
}

#[test]
fn score_date_table_is_exact_in_both_directions() {
    let table = [(0, 100), (1, 95), (2, 90), (3, 85), (4, 75), (5, 65)];
    for (gap, points) in table {
        assert_eq!(score_date(Some(2010), Some(2010 + gap), 1), points * POINT);
        assert_eq!(score_date(Some(2010 + gap), Some(2010), 1), points * POINT);
    }
    assert_eq!(score_date(Some(2020), Some(2026), 1), 40 * POINT);
    assert_eq!(score_date(Some(2029), Some(2020), 1), 40 * POINT);
}

#[test]
fn score_date_across_decades_is_zero() {
    assert_eq!(score_date(Some(2019), Some(2025), 1), 0);
    assert_eq!(score_date(Some(1995), Some(2001), 1), 0);
    assert_eq!(score_date(Some(1900), Some(2000), 1), 0);
    assert_eq!(score_date(Some(-5), Some(5), 1), 0);
    assert_eq!(score_date(Some(-9), Some(-1), 1), 40 * POINT);
    assert_eq!(score_date(Some(i32::MIN), Some(i32::MAX), 1), 0);
}

#[test]
fn score_date_without_a_year_is_zero() {
    assert_eq!(score_date(None, Some(2020), 1), 0);
    assert_eq!(score_date(Some(2020), None, 1), 0);
    assert_eq!(score_date(None, None, 1), 0);
}

#[test]
fn score_date_is_multiplied_by_the_weight() {
    assert_eq!(score_date(Some(2020), Some(2021), 3), 285 * POINT);
    assert_eq!(score_date(Some(2020), Some(2020), 0), 0);
    assert_eq!(
        score_date(Some(2020), Some(2020), u32::MAX),
        100 * POINT * u32::MAX as u64
    );
}

#[test]
fn test_has_academic_prefix() {
    assert!(has_academic_prefix("Reply to Smith on Knowledge"));
    assert!(has_academic_prefix("reply to smith")); // case insensitive
    assert!(has_academic_prefix("Comments on the Paper"));
    assert!(has_academic_prefix("Review of Recent Work"));
    assert!(!has_academic_prefix("On the Nature of Knowledge"));
    assert!(!has_academic_prefix("Knowledge and Belief"));
}

#[test]
fn every_academic_prefix_is_recognised() {
    for opening in [
        "reply to",
        "comments on",
        "précis of",
        "precis of",
        "review of",
        "critical notice",
        "symposium on",
        "discussion of",
        "response to",
        "a reply to",
        "responses to",
    ] {
        assert!(has_academic_prefix(&format!("{} something", opening)));
        assert!(has_academic_prefix(&format!("  {}", opening.to_uppercase())));
    }
    assert!(!has_academic_prefix(""));
    assert!(!has_academic_prefix("reply t"));
    assert!(!has_academic_prefix("in reply to"));
    assert!(!has_academic_prefix("reply  to smith"));
}

#[test]
fn test_score_author_with_initials() {
    // With initials matching, should get +50 bonus even if fuzzy is < 85
    let score_with_initials = as_points(score_author("E. M. Adams", "Ernest M. Adams", 1));
    let score_without_match = as_points(score_author("E. M. Adams", "John Smith", 1));
    assert!(score_with_initials > score_without_match);
    // The initials bonus is +50
    assert!(score_with_initials >= 50.0);
}

#[test]
fn score_author_adds_the_award_that_applies() {
    // A near match: ratio plus 100 points.
    assert_eq!(score_author("John Smith", "Smith John", 1), 200 * POINT);
    assert_eq!(score_author("John Smith", "smith  JOHN", 2), 400 * POINT);

    // Initials that fit: ratio plus 50 points.
    let raw = token_sort_ratio("J. Q. Smithson", "John Quincy Smithson");
    assert!(raw <= 85 * POINT);
    assert!(check_initials_match("J. Q. Smithson", "John Quincy Smithson"));
    assert_eq!(
        score_author("J. Q. Smithson", "John Quincy Smithson", 1),
        raw + 50 * POINT
    );

    // Neither: the ratio alone.
    let raw = token_sort_ratio("E. M. Adams", "John Smith");
    assert_eq!(score_author("E. M. Adams", "John Smith", 1), raw);
    assert_eq!(score_author("E. M. Adams", "John Smith", 7), raw * 7);
}

#[test]
fn score_author_of_equal_full_names_is_the_fuzzy_score() {
    assert!(!check_initials_match("Ernest Adams", "Ernest Adams"));
    assert_eq!(score_author("Ernest Adams", "Ernest Adams", 1), 200 * POINT);
}

#[test]
fn score_author_without_an_author_is_zero() {
    assert_eq!(score_author("", "John Smith", 1), 0);
    assert_eq!(score_author("John Smith", "", 1), 0);
    assert_eq!(score_author("", "", 1), 0);
}

#[test]
fn score_title_awards_a_near_match() {
    assert_eq!(score_title("Hello World", "hello   world", 1), 200 * POINT);
    assert_eq!(score_title("Hello World", "World Hello", 3), 600 * POINT);
}

#[test]
fn score_title_awards_a_contained_title() {
    let long = "knowledge and belief an introduction to the logic of the two notions";
    let short = "knowledge and belief";
    let raw = jw(
        "an and belief introduction knowledge logic notions of the the to two",
        "and belief knowledge",
    );
    assert!(raw <= 85 * POINT);
    assert_eq!(score_title(long, short, 1), raw + 100 * POINT);
    assert_eq!(score_title(short, long, 1), raw + 100 * POINT);
}

#[test]
fn score_title_without_award_is_the_ratio() {
    let raw = jw("hello world", "goodbye moon");
    assert_eq!(score_title("hello world", "moon goodbye", 1), raw);
    assert_eq!(score_title("hello world", "moon goodbye", 5), 5 * raw);
}

#[test]
fn score_title_charges_fifty_points_for_each_keyword_in_one_title_only() {
    // One keyword: the near match is not awarded, 50 points are taken.
    let raw = jw("bar errata foo", "bar foo");
    assert!(raw >= 50 * POINT);
    assert_eq!(score_title("Errata Foo Bar", "Foo Bar", 1), raw - 50 * POINT);
    assert_eq!(score_title("Foo Bar", "Errata Foo Bar", 1), raw - 50 * POINT);

    // Both keywords: 100 points are taken, and the score stops at zero.
    let raw = jw("a errata of review", "a");
    assert!(raw < 100 * POINT);
    assert_eq!(score_title("review of a errata", "a", 1), 0);

    // A keyword in both titles is no disagreement.
    assert_eq!(score_title("book review", "Review Book", 1), 200 * POINT);
}

#[test]
fn score_title_never_goes_below_zero() {
    let raw = jw("errata", "zzz");
    assert!(raw < 50 * POINT);
    assert_eq!(score_title("errata", "zzz", 1), 0);
}

#[test]
fn score_title_without_a_title_is_zero() {
    assert_eq!(score_title("", "hello", 1), 0);
    assert_eq!(score_title("hello", "", 1), 0);
    assert_eq!(score_title_prenorm("", "hello", 1), 0);
    assert_eq!(score_title_prenorm("hello", "", 1), 0);
}

#[test]
fn score_title_prenorm_agrees_with_score_title() {
    let pairs = [
        ("Hello World", "hello world"),
        ("Errata Foo Bar", "Foo Bar"),
        ("Knowledge and Belief", "Belief and Knowledge: a Review"),
        ("  spaced   out  ", "Spaced Out"),
        ("x", "y"),
    ];
    for (a, b) in pairs {
        assert_eq!(
            score_title_prenorm(&normalize(a), b, 3),
            score_title(a, b, 3)
        );
    }
}

fn full_record(index: usize) -> BibRecord {
    BibRecord {
        index,
        doi: some("10.1/X"),
        title: "Knowledge and Belief".to_string(),
        author: "Ernest Adams".to_string(),
        author_surnames: vec!["Adams".to_string()],
        year: Some(1995),
        journal: some("Journal of  Philosophy"),
        volume: some("12"),
        number: some("3"),
        pages: some("1-20"),
        publisher: some("Oxford University Press"),
    }
}

#[test]
fn score_bonus_sums_the_four_awards() {
    let a = full_record(0);
    let mut b = full_record(1);
    b.journal = some("journal of philosophy");
    b.publisher = some("Press Oxford University");
    assert_eq!(score_bonus(&a, &b, 1), 180 * POINT);
    assert_eq!(score_bonus(&a, &b, 2), 360 * POINT);
    assert_eq!(score_bonus(&a, &b, 0), 0);
}

#[test]
fn score_bonus_gives_each_award_on_its_own() {
    let a = full_record(0);

    let mut b = rec(1, "t", "a");
    b.doi = some("10.1/X");
    assert_eq!(score_bonus(&a, &b, 1), 100 * POINT);

    let mut b = rec(1, "t", "a");
    b.journal = some("JOURNAL OF PHILOSOPHY");
    b.volume = some("12");
    b.number = some("3");
    assert_eq!(score_bonus(&a, &b, 1), 50 * POINT);

    let mut b = rec(1, "t", "a");
    b.pages = some("1-20");
    assert_eq!(score_bonus(&a, &b, 1), 20 * POINT);

    let mut b = rec(1, "t", "a");
    b.publisher = some("oxford university press");
    assert_eq!(score_bonus(&a, &b, 1), 10 * POINT);

    assert_eq!(score_bonus(&a, &rec(1, "t", "a"), 1), 0);
}

#[test]
fn score_bonus_wants_journal_volume_and_issue_together() {
    let a = full_record(0);

    let mut b = rec(1, "t", "a");
    b.journal = some("Journal of Philosophy");
    b.volume = some("12");
    assert_eq!(score_bonus(&a, &b, 1), 0);

    b.number = some("4");
    assert_eq!(score_bonus(&a, &b, 1), 0);

    b.number = some("3");
    b.volume = some("13");
    assert_eq!(score_bonus(&a, &b, 1), 0);

    b.volume = some("12");
    b.journal = some("Journal of Philology");
    assert_eq!(score_bonus(&a, &b, 1), 0);
}

#[test]
fn score_bonus_takes_an_empty_field_for_none() {
    let mut a = rec(0, "t", "a");
    let mut b = rec(1, "t", "a");
    a.doi = some("");
    b.doi = some("");
    a.pages = some("");
    b.pages = some("");
    a.journal = some("  ");
    b.journal = some("  ");
    a.volume = some("");
    b.volume = some("");
    a.number = some("");
    b.number = some("");
    a.publisher = some("");
    b.publisher = some("");
    assert_eq!(score_bonus(&a, &b, 1), 0);
    let pre = PrecomputedSubject::new(&a);
    assert_eq!(score_bonus_precomputed(&pre, &b, 1), 0);
}

#[test]
fn score_bonus_compares_dois_and_pages_as_they_are_written() {
    let mut a = rec(0, "t", "a");
    let mut b = rec(1, "t", "a");
    a.doi = some("10.1/X");
    b.doi = some("10.1/x");
    a.pages = some("1-20");
    b.pages = some("1 - 20");
    assert_eq!(score_bonus(&a, &b, 1), 0);
}

#[test]
fn commentary_and_plain_title_score_zero() {
    let mut subject = full_record(0);
    let mut candidate = full_record(1);
    subject.title = "Reply to Smith on Knowledge".to_string();
    candidate.title = "Smith on Knowledge".to_string();
    let heavy = Weights { title: 9, author: 9, date: 9, bonus: 9 };
    let expected = MatchResult {
        candidate_index: 1,
        total_score: 0,
        title_score: 0,
        author_score: 0,
        date_score: 0,
        bonus_score: 0,
    };
    assert_eq!(score_candidate(&subject, &candidate, &heavy), expected);
    let mut swapped = expected;
    swapped.candidate_index = 0;
    assert_eq!(score_candidate(&candidate, &subject, &heavy), swapped);
    let pre = PrecomputedSubject::new(&subject);
    assert_eq!(score_candidate_precomputed(&pre, &candidate, &heavy), expected);
}

#[test]
fn two_commentaries_are_scored_as_usual() {
    let mut subject = full_record(0);
    let mut candidate = full_record(1);
    subject.title = "Reply to Smith".to_string();
    candidate.title = "reply to smith".to_string();
    let result = score_candidate(&subject, &candidate, &UNIT);
    assert_eq!(result.title_score, 200 * POINT);
    assert!(result.total_score > 0);
}

#[test]
fn score_candidate_adds_the_weighted_components() {
    let subject = full_record(7);
    let candidate = full_record(3);
    let weights = Weights { title: 4, author: 3, date: 2, bonus: 1 };
    let result = score_candidate(&subject, &candidate, &weights);
    assert_eq!(result.candidate_index, 3);
    assert_eq!(result.title_score, 4 * 200 * POINT);
    assert_eq!(result.author_score, 3 * 200 * POINT);
    assert_eq!(result.date_score, 2 * 100 * POINT);
    assert_eq!(result.bonus_score, 180 * POINT);
    assert_eq!(result.total_score, (800 + 600 + 200 + 180) * POINT);
}

#[test]
fn score_candidate_stands_the_greatest_weights() {
    let subject = full_record(7);
    let candidate = full_record(3);
    let weights = Weights { title: u32::MAX, author: u32::MAX, date: u32::MAX, bonus: u32::MAX };
    let result = score_candidate(&subject, &candidate, &weights);
    assert_eq!(result.total_score, 680 * POINT * u32::MAX as u64);
}

#[test]
fn precomputed_scores_are_the_plain_scores() {
    let mut subjects = vec![full_record(0), rec(1, "Reply to Adams", "J. Smith")];
    subjects.push(rec(2, "", ""));
    let mut odd = full_record(3);
    odd.title = "  Knowledge   AND belief: errata ".to_string();
    odd.journal = some("   ");
    odd.publisher = some(" ");
    subjects.push(odd);
    let mut candidates = vec![full_record(0), rec(1, "A reply to Adams", "John Smith")];
    let mut other = full_record(2);
    other.journal = some("journal of philosophy");
    other.publisher = some("oxford univ. press");
    other.year = Some(1999);
    other.doi = None;
    candidates.push(other);
    candidates.push(rec(3, "   ", "   "));
    let weights = Weights { title: 5, author: 3, date: 2, bonus: 1 };
    for subject in &subjects {
        let pre = PrecomputedSubject::new(subject);
        assert_eq!(pre.data().index, subject.index);
        for candidate in &candidates {
            assert_eq!(
                score_candidate_precomputed(&pre, candidate, &weights),
                score_candidate(subject, candidate, &weights)
            );
            assert_eq!(
                score_bonus_precomputed(&pre, candidate, 4),
                score_bonus(subject, candidate, 4)
            );
        }
    }
}
