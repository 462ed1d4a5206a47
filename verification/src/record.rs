//! The data that goes in and comes out: bibliographic records, weights,
//! match results and the errors of a batch.

use vstd::prelude::*;
use crate::similarity::Score;

verus! {

/// One bibliographic record. A field that is absent and a field that is
/// empty both carry no signal.
#[derive(Clone, Debug)]
pub struct BibRecord {
    /// The record's identifier, assigned by the caller. In a candidate
    /// corpus that is searched through a blocking index it is the record's
    /// position in the corpus.
    pub index: usize,
    pub doi: Option<String>,
    pub title: String,
    /// The authors as one free-form text; the scorer reads it.
    pub author: String,
    /// The authors' surnames; the index reads them.
    pub author_surnames: Vec<String>,
    pub year: Option<i32>,
    pub journal: Option<String>,
    pub volume: Option<String>,
    pub number: Option<String>,
    pub pages: Option<String>,
    pub publisher: Option<String>,
}

/// The mathematical content of a [`BibRecord`].
pub struct RecordView {
    pub index: usize,
    pub doi: Option<Seq<char>>,
    pub title: Seq<char>,
    pub author: Seq<char>,
    pub surnames: Seq<Seq<char>>,
    pub year: Option<i32>,
    pub journal: Option<Seq<char>>,
    pub volume: Option<Seq<char>>,
    pub number: Option<Seq<char>>,
    pub pages: Option<Seq<char>>,
    pub publisher: Option<Seq<char>>,
}

/// The text of an optional string.
pub open spec fn opt_text(field: Option<String>) -> Option<Seq<char>> {
    match field {
        Some(s) => Some(s@),
        None => None,
    }
}

/// The texts of a list of strings.
pub open spec fn texts(strings: Seq<String>) -> Seq<Seq<char>> {
    Seq::new(strings.len(), |i: int| strings[i]@)
}

impl View for BibRecord {
    type V = RecordView;

    open spec fn view(&self) -> RecordView {
        RecordView {
            index: self.index,
            doi: opt_text(self.doi),
            title: self.title@,
            author: self.author@,
            surnames: texts(self.author_surnames@),
            year: self.year,
            journal: opt_text(self.journal),
            volume: opt_text(self.volume),
            number: opt_text(self.number),
            pages: opt_text(self.pages),
            publisher: opt_text(self.publisher),
        }
    }
}

/// The contents of a list of records.
pub open spec fn record_views(records: Seq<BibRecord>) -> Seq<RecordView> {
    Seq::new(records.len(), |i: int| records[i]@)
}

/// The multipliers of the four score components. A weight of one leaves a
/// component at its points; callers that think in fractions pick a common
/// scale for the four weights and for the score threshold.
#[derive(Clone, Copy, Debug, PartialEq, Eq, Structural)]
pub struct Weights {
    pub title: u32,
    pub author: u32,
    pub date: u32,
    pub bonus: u32,
}

/// The score of one candidate against one subject, with the four weighted
/// components that add up to the total.
#[derive(Clone, Copy, Debug, PartialEq, Eq, Structural)]
pub struct MatchResult {
    pub candidate_index: usize,
    pub total_score: Score,
    pub title_score: Score,
    pub author_score: Score,
    pub date_score: Score,
    pub bonus_score: Score,
}

/// The best candidates of one subject, best first, and how many candidates
/// were scored to find them.
#[derive(Clone, Debug)]
pub struct SubjectMatchResult {
    pub subject_index: usize,
    pub matches: Vec<MatchResult>,
    pub candidates_searched: usize,
}

/// The mathematical content of a [`SubjectMatchResult`].
pub struct SubjectMatches {
    pub subject_index: usize,
    pub matches: Seq<MatchResult>,
    pub candidates_searched: nat,
}

impl View for SubjectMatchResult {
    type V = SubjectMatches;

    open spec fn view(&self) -> SubjectMatches {
        SubjectMatches {
            subject_index: self.subject_index,
            matches: self.matches@,
            candidates_searched: self.candidates_searched as nat,
        }
    }
}

/// The contents of a list of subject results.
pub open spec fn result_views(results: Seq<SubjectMatchResult>) -> Seq<SubjectMatches> {
    Seq::new(results.len(), |i: int| results[i]@)
}

/// Why a batch was rejected.
#[derive(Clone, Copy, Debug, PartialEq, Eq, Structural)]
pub enum MatchError {
    /// Two subjects carry the same identifier and differ in content.
    DuplicateSubject,
    /// The blocking index named a candidate that is not in the corpus.
    CandidateOutOfRange,
}

/// Whether two optional strings hold the same text, or are both absent.
pub fn same_opt_text(a: &Option<String>, b: &Option<String>) -> (same: bool)
    ensures
        same == (opt_text(*a) == opt_text(*b)),
{
    match (a, b) {
        (Some(x), Some(y)) => *x == *y,
        (None, None) => true,
        _ => false,
    }
}

/// Whether two lists of strings hold the same texts in the same order.
pub fn same_texts(a: &Vec<String>, b: &Vec<String>) -> (same: bool)
    ensures
        same == (texts(a@) == texts(b@)),
{
    if a.len() != b.len() {
        assert(texts(a@).len() != texts(b@).len());
        return false;
    }
    let n = a.len();
    let mut i: usize = 0;
    while i < n
        invariant
            n == a@.len(),
            n == b@.len(),
            i <= n,
            forall|k: int| 0 <= k < i ==> a@[k]@ == b@[k]@,
        decreases n - i,
    {
        if a[i] != b[i] {
            assert(texts(a@)[i as int] != texts(b@)[i as int]);
            return false;
        }
        i += 1;
    }
    assert(texts(a@) =~= texts(b@));
    true
}

impl BibRecord {
    /// Whether two records have the same content, field by field.
    pub fn same_content(&self, other: &BibRecord) -> (same: bool)
        ensures
            same == (self@ == other@),
    {
        self.index == other.index && same_opt_text(&self.doi, &other.doi) && self.title
            == other.title && self.author == other.author && same_texts(
            &self.author_surnames,
            &other.author_surnames,
        ) && self.year == other.year && same_opt_text(&self.journal, &other.journal)
            && same_opt_text(&self.volume, &other.volume) && same_opt_text(
            &self.number,
            &other.number,
        ) && same_opt_text(&self.pages, &other.pages) && same_opt_text(
            &self.publisher,
            &other.publisher,
        )
    }
}

} // verus!
