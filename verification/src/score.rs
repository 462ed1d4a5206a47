//! The scorer: four weighted components for one subject and one candidate,
//! and the rule that a commentary never matches the work it comments on.
//!
//! Every rule is stated twice: as a spec function over the records'
//! contents, and as the executable function whose contract says that it
//! computes exactly that.

use vstd::prelude::*;
use crate::index::{decade_of, get_decade};
use crate::names::{check_initials_match, initials_match};
use crate::record::{opt_text, BibRecord, MatchResult, RecordView, Weights};
use crate::similarity::{
    prenormalized_ratio, token_sort_ratio, token_sort_ratio_of, token_sort_ratio_prenormalized,
    Score, POINT,
};
use crate::text::{
    chars_of, contains_chars, contains_text, lowercase, lowercase_of, normalize, normalized,
    starts_with, trim_chars, trimmed,
};

verus! {

/// The openings that mark a title as a commentary on another work.
pub open spec fn academic_prefixes() -> Seq<Seq<char>> {
    seq![
        "reply to"@,
        "comments on"@,
        "précis of"@,
        "precis of"@,
        "review of"@,
        "critical notice"@,
        "symposium on"@,
        "discussion of"@,
        "response to"@,
        "a reply to"@,
        "responses to"@,
    ]
}

/// A text begins with one of the prefixes.
pub open spec fn starts_with_any(text: Seq<char>, prefixes: Seq<Seq<char>>) -> bool {
    exists|i: int| 0 <= i < prefixes.len() && starts_with(text, prefixes[i])
}

/// A title, in lower case and without whitespace at its ends, begins with
/// one of the [`academic_prefixes`].
pub open spec fn is_commentary(title: Seq<char>) -> bool {
    starts_with_any(trimmed(lowercase_of(title)), academic_prefixes())
}

/// Exactly one of the two normalized titles holds the keyword.
pub open spec fn keyword_differs(norm1: Seq<char>, norm2: Seq<char>, keyword: Seq<char>) -> bool {
    contains_text(norm1, keyword) != contains_text(norm2, keyword)
}

/// On how many of the keywords "errata" and "review" the two normalized
/// titles disagree.
pub open spec fn keyword_mismatches(norm1: Seq<char>, norm2: Seq<char>) -> nat {
    (if keyword_differs(norm1, norm2, "errata"@) {
        1nat
    } else {
        0nat
    }) + (if keyword_differs(norm1, norm2, "review"@) {
        1nat
    } else {
        0nat
    })
}

/// The title component before weighting, for a subject title that is
/// already normalized.
///
/// The token-sort ratio of the two normalized titles; plus 100 points if
/// the titles agree on both keywords and either are more than 85 points
/// alike or one holds the other; minus 50 points for each keyword they
/// disagree on, but never below zero.
pub open spec fn title_points(norm_subject: Seq<char>, title: Seq<char>) -> int {
    if norm_subject.len() == 0 || title.len() == 0 {
        0
    } else {
        let norm = normalized(title);
        let raw = prenormalized_ratio(norm_subject, norm) as int;
        let mismatches = keyword_mismatches(norm_subject, norm);
        if mismatches == 0 {
            if raw > 85 * POINT || contains_text(norm_subject, norm) || contains_text(
                norm,
                norm_subject,
            ) {
                raw + 100 * POINT
            } else {
                raw
            }
        } else if raw >= mismatches * 50 * POINT {
            raw - mismatches * 50 * POINT
        } else {
            0
        }
    }
}

/// The weighted title component.
pub open spec fn title_score_of(title1: Seq<char>, title2: Seq<char>, weight: u32) -> int {
    if title1.len() == 0 || title2.len() == 0 {
        0
    } else {
        title_points(normalized(title1), title2) * weight
    }
}

/// The author component before weighting: the token-sort ratio of the two
/// author texts; plus 100 points if it is above 85 points, else plus 50
/// points if one text gives initials where the other gives names.
pub open spec fn author_points(author1: Seq<char>, author2: Seq<char>) -> int {
    if author1.len() == 0 || author2.len() == 0 {
        0
    } else {
        let raw = token_sort_ratio_of(author1, author2) as int;
        if raw > 85 * POINT {
            raw + 100 * POINT
        } else if initials_match(author1, author2) {
            raw + 50 * POINT
        } else {
            raw
        }
    }
}

/// The weighted author component.
pub open spec fn author_score_of(author1: Seq<char>, author2: Seq<char>, weight: u32) -> int {
    author_points(author1, author2) * weight
}

/// How far two years are apart.
pub open spec fn year_gap(year1: i32, year2: i32) -> nat {
    if year1 >= year2 {
        (year1 - year2) as nat
    } else {
        (year2 - year1) as nat
    }
}

/// The date component before weighting, in whole points: nothing without
/// both years; 100, 95, 90, 85, 75, 65 for years that are 0 to 5 apart;
/// beyond that 40 within one decade and nothing across decades.
pub open spec fn date_points(year1: Option<i32>, year2: Option<i32>) -> nat {
    match (year1, year2) {
        (Some(y1), Some(y2)) => {
            let gap = year_gap(y1, y2);
            if gap == 0 {
                100
            } else if gap == 1 {
                95
            } else if gap == 2 {
                90
            } else if gap == 3 {
                85
            } else if gap == 4 {
                75
            } else if gap == 5 {
                65
            } else if decade_of(y1 as int) == decade_of(y2 as int) {
                40
            } else {
                0
            }
        },
        _ => 0,
    }
}

/// The weighted date component.
pub open spec fn date_score_of(year1: Option<i32>, year2: Option<i32>, weight: u32) -> int {
    date_points(year1, year2) * POINT * weight
}

/// Both fields are present, not empty, and hold the same text.
pub open spec fn same_signal(a: Option<Seq<char>>, b: Option<Seq<char>>) -> bool {
    a matches Some(x) && b matches Some(y) && x.len() > 0 && x == y
}

/// Both records name the same journal, by normal form, and the same volume
/// and issue.
pub open spec fn same_issue(subject: RecordView, candidate: RecordView) -> bool {
    &&& subject.journal matches Some(j1)
    &&& candidate.journal matches Some(j2)
    &&& normalized(j1).len() > 0
    &&& normalized(j1) == normalized(j2)
    &&& same_signal(subject.volume, candidate.volume)
    &&& same_signal(subject.number, candidate.number)
}

/// Both records name a publisher, and the two names are more than 85 points
/// alike.
pub open spec fn same_publisher(subject: RecordView, candidate: RecordView) -> bool {
    &&& subject.publisher matches Some(p1)
    &&& candidate.publisher matches Some(p2)
    &&& p1.len() > 0
    &&& p2.len() > 0
    &&& token_sort_ratio_of(p1, p2) > 85 * POINT
}

/// The bonus component before weighting, in whole points: 100 for the same
/// DOI, 50 for the same journal issue, 20 for the same pages, 10 for the
/// same publisher.
pub open spec fn bonus_points(subject: RecordView, candidate: RecordView) -> nat {
    (if same_signal(subject.doi, candidate.doi) {
        100nat
    } else {
        0nat
    }) + (if same_issue(subject, candidate) {
        50nat
    } else {
        0nat
    }) + (if same_signal(subject.pages, candidate.pages) {
        20nat
    } else {
        0nat
    }) + (if same_publisher(subject, candidate) {
        10nat
    } else {
        0nat
    })
}

/// The weighted bonus component.
pub open spec fn bonus_score_of(subject: RecordView, candidate: RecordView, weight: u32) -> int {
    bonus_points(subject, candidate) * POINT * weight
}

/// Exactly one of the two titles is a commentary. Such a pair is no match,
/// whatever else the records share.
pub open spec fn commentary_mismatch(subject: RecordView, candidate: RecordView) -> bool {
    is_commentary(subject.title) != is_commentary(candidate.title)
}

/// The score of a candidate against a subject: all zero if exactly one of
/// the two is a commentary, else the four weighted components and their sum.
pub open spec fn candidate_score(subject: RecordView, candidate: RecordView, weights: Weights) -> MatchResult {
    if commentary_mismatch(subject, candidate) {
        MatchResult {
            candidate_index: candidate.index,
            total_score: 0,
            title_score: 0,
            author_score: 0,
            date_score: 0,
            bonus_score: 0,
        }
    } else {
        let title = title_score_of(subject.title, candidate.title, weights.title);
        let author = author_score_of(subject.author, candidate.author, weights.author);
        let date = date_score_of(subject.year, candidate.year, weights.date);
        let bonus = bonus_score_of(subject, candidate, weights.bonus);
        MatchResult {
            candidate_index: candidate.index,
            total_score: (title + author + date + bonus) as Score,
            title_score: title as Score,
            author_score: author as Score,
            date_score: date as Score,
            bonus_score: bonus as Score,
        }
    }
}

/// A commentary never matches the work it comments on: where exactly one
/// of the two titles is a commentary, the total and every component are
/// zero, whatever else the records share and whatever the weights.
pub proof fn lemma_commentary_mismatch_scores_zero(
    subject: RecordView,
    candidate: RecordView,
    weights: Weights,
)
    requires
        commentary_mismatch(subject, candidate),
    ensures
        candidate_score(subject, candidate, weights).total_score == 0,
        candidate_score(subject, candidate, weights).title_score == 0,
        candidate_score(subject, candidate, weights).author_score == 0,
        candidate_score(subject, candidate, weights).date_score == 0,
        candidate_score(subject, candidate, weights).bonus_score == 0,
{
}

/// The greatest points that a component can reach before weighting.
pub const MAX_POINTS: u64 = 200_000_000;

/// The greatest value of a weighted component.
pub const MAX_COMPONENT: u64 = 858_993_459_000_000_000;

/// Multiplies a component's points by its weight.
fn weighted(points: u64, weight: u32) -> (score: Score)
    requires
        points <= MAX_POINTS,
    ensures
        score == points * weight,
        score <= MAX_COMPONENT,
{
    assert(points * weight <= MAX_POINTS * 0xffff_ffff) by (nonlinear_arith)
        requires
            0 <= points <= MAX_POINTS,
            0 <= weight <= 0xffff_ffff,
    ;
    points * (weight as u64)
}

/// Whether a text begins with a given prefix.
fn begins_with(text: &Vec<char>, prefix: &str) -> (begins: bool)
    ensures
        begins == starts_with(text@, prefix@),
{
    let chars = chars_of(prefix);
    crate::text::matches_at(text, &chars, 0)
}

/// Whether a title starts with one of the openings of a commentary, such
/// as "Reply to" or "Review of". Case and surrounding whitespace do not
/// count.
pub fn has_academic_prefix(title: &str) -> (commentary: bool)
    ensures
        commentary == is_commentary(title@),
{
    let lower = lowercase(title);
    let chars = chars_of(lower.as_str());
    let text = trim_chars(&chars);
    let found = begins_with(&text, "reply to") || begins_with(&text, "comments on") || begins_with(
        &text,
        "précis of",
    ) || begins_with(&text, "precis of") || begins_with(&text, "review of") || begins_with(
        &text,
        "critical notice",
    ) || begins_with(&text, "symposium on") || begins_with(&text, "discussion of") || begins_with(
        &text,
        "response to",
    ) || begins_with(&text, "a reply to") || begins_with(&text, "responses to");
    proof {
        let prefixes = academic_prefixes();
        if found {
            let i = if starts_with(text@, prefixes[0]) {
                0int
            } else if starts_with(text@, prefixes[1]) {
                1int
            } else if starts_with(text@, prefixes[2]) {
                2int
            } else if starts_with(text@, prefixes[3]) {
                3int
            } else if starts_with(text@, prefixes[4]) {
                4int
            } else if starts_with(text@, prefixes[5]) {
                5int
            } else if starts_with(text@, prefixes[6]) {
                6int
            } else if starts_with(text@, prefixes[7]) {
                7int
            } else if starts_with(text@, prefixes[8]) {
                8int
            } else if starts_with(text@, prefixes[9]) {
                9int
            } else {
                10int
            };
            assert(0 <= i < prefixes.len() && starts_with(text@, prefixes[i]));
        }
    }
    found
}

/// The title component for a subject title that is already normalized.
pub fn score_title_prenorm(norm_subject: &str, title2: &str, weight: u32) -> (score: Score)
    ensures
        score == title_points(norm_subject@, title2@) * weight,
        title_points(norm_subject@, title2@) <= MAX_POINTS,
        score <= MAX_COMPONENT,
{
    if norm_subject.is_empty() || title2.is_empty() {
        return 0;
    }
    let norm2 = normalize(title2);
    let raw = token_sort_ratio_prenormalized(norm_subject, norm2.as_str());

    let subject_chars = chars_of(norm_subject);
    let other_chars = chars_of(norm2.as_str());
    let one_contains_other = contains_chars(&subject_chars, &other_chars) || contains_chars(
        &other_chars,
        &subject_chars,
    );

    let errata = chars_of("errata");
    let review = chars_of("review");
    let errata_differs = contains_chars(&subject_chars, &errata) != contains_chars(
        &other_chars,
        &errata,
    );
    let review_differs = contains_chars(&subject_chars, &review) != contains_chars(
        &other_chars,
        &review,
    );

    let points: u64 = if !errata_differs && !review_differs {
        if raw > 85 * POINT || one_contains_other {
            raw + 100 * POINT
        } else {
            raw
        }
    } else {
        let penalty: u64 = if errata_differs && review_differs {
            100 * POINT
        } else {
            50 * POINT
        };
        if raw >= penalty {
            raw - penalty
        } else {
            0
        }
    };
    weighted(points, weight)
}

/// The title component: how alike two titles are, raised for a near or
/// containing match, lowered where the titles disagree on being an errata
/// or a review.
pub fn score_title(title1: &str, title2: &str, weight: u32) -> (score: Score)
    ensures
        score == title_score_of(title1@, title2@, weight),
        score <= MAX_COMPONENT,
{
    if title1.is_empty() || title2.is_empty() {
        return 0;
    }
    let norm1 = normalize(title1);
    score_title_prenorm(norm1.as_str(), title2, weight)
}

/// The author component: how alike two author texts are, raised for a near
/// match or for initials that fit full names.
pub fn score_author(author1: &str, author2: &str, weight: u32) -> (score: Score)
    ensures
        score == author_score_of(author1@, author2@, weight),
        score <= MAX_COMPONENT,
{
    if author1.is_empty() || author2.is_empty() {
        return 0;
    }
    let raw = token_sort_ratio(author1, author2);
    let points: u64 = if raw > 85 * POINT {
        raw + 100 * POINT
    } else if check_initials_match(author1, author2) {
        raw + 50 * POINT
    } else {
        raw
    };
    weighted(points, weight)
}

/// The date component, by the table of [`date_points`].
pub fn score_date(year1: Option<i32>, year2: Option<i32>, weight: u32) -> (score: Score)
    ensures
        score == date_score_of(year1, year2, weight),
        score <= MAX_COMPONENT,
{
    let points: u64 = match (year1, year2) {
        (Some(y1), Some(y2)) => {
            let a: i64 = y1 as i64;
            let b: i64 = y2 as i64;
            let gap: i64 = if a >= b {
                a - b
            } else {
                b - a
            };
            if gap == 0 {
                100
            } else if gap == 1 {
                95
            } else if gap == 2 {
                90
            } else if gap == 3 {
                85
            } else if gap == 4 {
                75
            } else if gap == 5 {
                65
            } else if get_decade(year1) == get_decade(year2) {
                40
            } else {
                0
            }
        },
        _ => 0,
    };
    assert(points == date_points(year1, year2));
    weighted(points * POINT, weight)
}

/// Whether two optional fields are both present, not empty, and equal.
fn fields_match(a: &Option<String>, b: &Option<String>) -> (same: bool)
    ensures
        same == same_signal(opt_text(*a), opt_text(*b)),
{
    match (a, b) {
        (Some(x), Some(y)) => !x.as_str().is_empty() && *x == *y,
        _ => false,
    }
}

/// The bonus component: flat awards for the same DOI, the same journal
/// issue, the same pages and the same publisher.
pub fn score_bonus(subject: &BibRecord, candidate: &BibRecord, weight: u32) -> (score: Score)
    ensures
        score == bonus_score_of(subject@, candidate@, weight),
        score <= MAX_COMPONENT,
{
    let mut bonus: u64 = 0;

    if fields_match(&subject.doi, &candidate.doi) {
        bonus += 100;
    }
    match (&subject.journal, &candidate.journal) {
        (Some(j1), Some(j2)) => {
            let norm_j1 = normalize(j1.as_str());
            let norm_j2 = normalize(j2.as_str());
            if !norm_j1.as_str().is_empty() && norm_j1 == norm_j2 {
                if fields_match(&subject.volume, &candidate.volume) && fields_match(
                    &subject.number,
                    &candidate.number,
                ) {
                    bonus += 50;
                }
            }
        },
        _ => {},
    }
    if fields_match(&subject.pages, &candidate.pages) {
        bonus += 20;
    }
    match (&subject.publisher, &candidate.publisher) {
        (Some(pub1), Some(pub2)) => {
            if !pub1.as_str().is_empty() && !pub2.as_str().is_empty() {
                let pub_score = token_sort_ratio(pub1.as_str(), pub2.as_str());
                if pub_score > 85 * POINT {
                    bonus += 10;
                }
            }
        },
        _ => {},
    }
    assert(bonus == bonus_points(subject@, candidate@));
    weighted(bonus * POINT, weight)
}

/// What is worked out once for a subject and then used against every
/// candidate: whether its title is a commentary, and the normal forms of its
/// title, journal and publisher.
pub struct PrecomputedSubject<'a> {
    data: &'a BibRecord,
    has_academic_prefix: bool,
    normalized_title: String,
    normalized_journal: Option<String>,
    normalized_publisher: Option<String>,
}

/// The normal form of an optional text.
pub open spec fn opt_normalized(field: Option<Seq<char>>) -> Option<Seq<char>> {
    match field {
        Some(s) => Some(normalized(s)),
        None => None,
    }
}

/// The normal form of an optional field.
fn normalize_field(field: &Option<String>) -> (norm: Option<String>)
    ensures
        opt_text(norm) == opt_normalized(opt_text(*field)),
{
    match field {
        Some(s) => Some(normalize(s.as_str())),
        None => None,
    }
}

impl<'a> PrecomputedSubject<'a> {
    /// What is stored is what the scorer would work out from the subject.
    #[verifier::type_invariant]
    spec fn well_formed(self) -> bool {
        &&& self.has_academic_prefix == is_commentary(self.data.title@)
        &&& self.normalized_title@ == normalized(self.data.title@)
        &&& opt_text(self.normalized_journal) == opt_normalized(opt_text(self.data.journal))
        &&& opt_text(self.normalized_publisher) == opt_normalized(opt_text(self.data.publisher))
    }

    /// The subject that this was worked out for.
    pub closed spec fn record(self) -> BibRecord {
        *self.data
    }

    /// Works out what the scorer reuses for a subject.
    pub fn new(data: &'a BibRecord) -> (subject: Self)
        ensures
            subject.record() == *data,
    {
        PrecomputedSubject {
            data,
            has_academic_prefix: has_academic_prefix(data.title.as_str()),
            normalized_title: normalize(data.title.as_str()),
            normalized_journal: normalize_field(&data.journal),
            normalized_publisher: normalize_field(&data.publisher),
        }
    }

    /// The subject that this was worked out for.
    pub fn data(&self) -> (data: &'a BibRecord)
        ensures
            *data == self.record(),
    {
        self.data
    }
}

/// The bonus component, computed from what is already worked out for the
/// subject. The result is that of [`score_bonus`].
pub fn score_bonus_precomputed(
    subject: &PrecomputedSubject,
    candidate: &BibRecord,
    weight: u32,
) -> (score: Score)
    ensures
        score == bonus_score_of(subject.record()@, candidate@, weight),
        score <= MAX_COMPONENT,
{
    proof {
        use_type_invariant(subject);
    }
    let mut bonus: u64 = 0;

    if fields_match(&subject.data.doi, &candidate.doi) {
        bonus += 100;
    }
    match (&subject.normalized_journal, &candidate.journal) {
        (Some(norm_j1), Some(j2)) => {
            let norm_j2 = normalize(j2.as_str());
            if !norm_j1.as_str().is_empty() && *norm_j1 == norm_j2 {
                if fields_match(&subject.data.volume, &candidate.volume) && fields_match(
                    &subject.data.number,
                    &candidate.number,
                ) {
                    bonus += 50;
                }
            }
        },
        _ => {},
    }
    if fields_match(&subject.data.pages, &candidate.pages) {
        bonus += 20;
    }
    match (&subject.normalized_publisher, &candidate.publisher) {
        (Some(norm_pub1), Some(pub2)) => {
            if !norm_pub1.as_str().is_empty() && !pub2.as_str().is_empty() {
                let norm_pub2 = normalize(pub2.as_str());
                let pub_score = token_sort_ratio_prenormalized(
                    norm_pub1.as_str(),
                    norm_pub2.as_str(),
                );
                if pub_score > 85 * POINT {
                    bonus += 10;
                }
            }
        },
        _ => {},
    }
    assert(bonus == bonus_points(subject.record()@, candidate@));
    weighted(bonus * POINT, weight)
}

/// Scores one candidate against one subject.
pub fn score_candidate(subject: &BibRecord, candidate: &BibRecord, weights: &Weights) -> (result:
    MatchResult)
    ensures
        result == candidate_score(subject@, candidate@, *weights),
{
    let subject_has_prefix = has_academic_prefix(subject.title.as_str());
    let candidate_has_prefix = has_academic_prefix(candidate.title.as_str());
    if subject_has_prefix != candidate_has_prefix {
        return MatchResult {
            candidate_index: candidate.index,
            total_score: 0,
            title_score: 0,
            author_score: 0,
            date_score: 0,
            bonus_score: 0,
        };
    }
    let title_score = score_title(subject.title.as_str(), candidate.title.as_str(), weights.title);
    let author_score = score_author(
        subject.author.as_str(),
        candidate.author.as_str(),
        weights.author,
    );
    let date_score = score_date(subject.year, candidate.year, weights.date);
    let bonus_score = score_bonus(subject, candidate, weights.bonus);

    let total_score = title_score + author_score + date_score + bonus_score;

    MatchResult {
        candidate_index: candidate.index,
        total_score,
        title_score,
        author_score,
        date_score,
        bonus_score,
    }
}

/// Scores one candidate against a subject for which the reusable parts are
/// already worked out. The result is that of [`score_candidate`].
pub fn score_candidate_precomputed(
    subject: &PrecomputedSubject,
    candidate: &BibRecord,
    weights: &Weights,
) -> (result: MatchResult)
    ensures
        result == candidate_score(subject.record()@, candidate@, *weights),
{
    proof {
        use_type_invariant(subject);
    }
    let candidate_has_prefix = has_academic_prefix(candidate.title.as_str());
    if subject.has_academic_prefix != candidate_has_prefix {
        return MatchResult {
            candidate_index: candidate.index,
            total_score: 0,
            title_score: 0,
            author_score: 0,
            date_score: 0,
            bonus_score: 0,
        };
    }
    let title_score = score_title_prenorm(
        subject.normalized_title.as_str(),
        candidate.title.as_str(),
        weights.title,
    );
    let author_score = score_author(
        subject.data.author.as_str(),
        candidate.author.as_str(),
        weights.author,
    );
    let date_score = score_date(subject.data.year, candidate.year, weights.date);
    let bonus_score = score_bonus_precomputed(subject, candidate, weights.bonus);

    let total_score = title_score + author_score + date_score + bonus_score;

    MatchResult {
        candidate_index: candidate.index,
        total_score,
        title_score,
        author_score,
        date_score,
        bonus_score,
    }
}

} // verus!
