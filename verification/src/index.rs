//! The blocking index: five lookup structures over a candidate corpus, built
//! in one pass and read-only afterwards.
//!
//! The string-keyed structures are `ahash` maps. Verus does not look inside
//! them: what a map holds is named by [`doi_entries`] and
//! [`posting_entries`], and the few calls into `ahash` stand behind wrappers
//! whose contracts restate the documented behaviour of a hash map.

use vstd::prelude::*;
use std::collections::HashMap;
use crate::record::{record_views, texts, BibRecord, RecordView};
use crate::text::{chars_of, normalize, normalized, word_views};
use crate::trigram::{extract_trigrams, trigrams_of};

verus! {

broadcast use vstd::std_specs::hash::group_hash_axioms;

/// Makes `ahash::AHashMap` known to Verus, as a type whose inside it does
/// not see.
#[verifier::external_type_specification]
#[verifier::external_body]
#[verifier::reject_recursive_types(K)]
#[verifier::reject_recursive_types(V)]
#[verifier::reject_recursive_types(S)]
pub struct ExAHashMap<K, V, S>(ahash::AHashMap<K, V, S>);

/// Makes `ahash::RandomState`, the hasher of an `AHashMap`, known to Verus
/// in the same way.
#[verifier::external_type_specification]
#[verifier::external_body]
pub struct ExAHashState(ahash::RandomState);

/// What a DOI map holds: for each DOI, by its text, the record it leads to.
pub uninterp spec fn doi_entries(m: ahash::AHashMap<String, usize>) -> Map<Seq<char>, usize>;

/// What a posting map holds: for each key, by its text, the records filed
/// under it, in the order in which they were filed.
pub uninterp spec fn posting_entries(m: ahash::AHashMap<String, Vec<usize>>) -> Map<
    Seq<char>,
    Seq<usize>,
>;

/// A DOI map without entries.
pub open spec fn no_dois() -> Map<Seq<char>, usize> {
    Map::empty()
}

/// A posting map without entries.
pub open spec fn no_postings() -> Map<Seq<char>, Seq<usize>> {
    Map::empty()
}

/// Calls `AHashMap::new`. Trusted: the new map is empty.
#[verifier::external_body]
pub(crate) fn doi_map_new() -> (map: ahash::AHashMap<String, usize>)
    ensures
        doi_entries(map) == no_dois(),
{
    ahash::AHashMap::new()
}

/// Calls `AHashMap::insert`. Trusted: afterwards the key leads to the new
/// value, and every other key to what it led to before.
#[verifier::external_body]
pub(crate) fn doi_map_insert(map: &mut ahash::AHashMap<String, usize>, key: String, value: usize)
    ensures
        doi_entries(*final(map)) == doi_entries(*old(map)).insert(key@, value),
{
    map.insert(key, value);
}

/// Calls `AHashMap::get`. Trusted: the value under the key, if the map has
/// the key.
#[verifier::external_body]
pub(crate) fn doi_map_get(map: &ahash::AHashMap<String, usize>, key: &str) -> (value: Option<usize>)
    ensures
        value == (if doi_entries(*map).contains_key(key@) {
            Some(doi_entries(*map)[key@])
        } else {
            None
        }),
{
    map.get(key).copied()
}

/// Calls `AHashMap::new`. Trusted: the new map is empty.
#[verifier::external_body]
pub(crate) fn posting_map_new() -> (map: ahash::AHashMap<String, Vec<usize>>)
    ensures
        posting_entries(map) == no_postings(),
{
    ahash::AHashMap::new()
}

/// Calls `AHashMap::get`. Trusted: the list under the key, if the map has
/// the key.
#[verifier::external_body]
pub(crate) fn posting_map_get<'a>(
    map: &'a ahash::AHashMap<String, Vec<usize>>,
    key: &str,
) -> (ids: Option<&'a Vec<usize>>)
    ensures
        match ids {
            Some(list) => posting_entries(*map).contains_key(key@) && list@ == posting_entries(
                *map,
            )[key@],
            None => !posting_entries(*map).contains_key(key@),
        },
{
    map.get(key)
}

/// Calls `AHashMap::remove`. Trusted: the key is gone afterwards, every
/// other key is as before, and the list that stood under the key is handed
/// back.
#[verifier::external_body]
pub(crate) fn posting_map_remove(map: &mut ahash::AHashMap<String, Vec<usize>>, key: &str) -> (ids:
    Option<Vec<usize>>)
    ensures
        posting_entries(*final(map)) == posting_entries(*old(map)).remove(key@),
        match ids {
            Some(list) => posting_entries(*old(map)).contains_key(key@) && list@
                == posting_entries(*old(map))[key@],
            None => !posting_entries(*old(map)).contains_key(key@),
        },
{
    map.remove(key)
}

/// Calls `AHashMap::insert`. Trusted: afterwards the key leads to the new
/// list, and every other key to what it led to before.
#[verifier::external_body]
pub(crate) fn posting_map_insert(
    map: &mut ahash::AHashMap<String, Vec<usize>>,
    key: String,
    ids: Vec<usize>,
)
    ensures
        posting_entries(*final(map)) == posting_entries(*old(map)).insert(key@, ids@),
{
    map.insert(key, ids);
}

/// The decade bucket of a year: the year rounded down to a multiple of ten.
pub open spec fn decade_of(year: int) -> int {
    (year / 10) * 10
}

/// The decade bucket of an optional year.
pub open spec fn decade_of_year(year: Option<i32>) -> Option<i64> {
    match year {
        Some(y) => Some(decade_of(y as int) as i64),
        None => None,
    }
}

/// Decade bucket of an optional publication year; a missing year has none.
pub fn get_decade(year: Option<i32>) -> (decade: Option<i64>)
    ensures
        decade == decade_of_year(year),
        year matches Some(y) ==> decade == Some(decade_of(y as int) as i64) && decade_of(y as int)
            <= y < decade_of(y as int) + 10,
{
    match year {
        Some(y) => {
            let wide: i64 = y as i64;
            if wide >= 0 {
                Some((wide / 10) * 10)
            } else {
                let up: i64 = (9 - wide) / 10;
                Some(-(up * 10))
            }
        },
        None => None,
    }
}

/// What a map of postings holds once `id` has been filed under `key`.
pub open spec fn add_posting<K>(m: Map<K, Seq<usize>>, key: K, id: usize) -> Map<K, Seq<usize>> {
    m.insert(
        key,
        if m.contains_key(key) {
            m[key].push(id)
        } else {
            seq![id]
        },
    )
}

/// What a map of postings holds once `id` has been filed once under each of
/// `keys`.
pub open spec fn add_postings(m: Map<Seq<char>, Seq<usize>>, keys: Set<Seq<char>>, id: usize) -> Map<
    Seq<char>,
    Seq<usize>,
> {
    Map::new(
        |k: Seq<char>| m.contains_key(k) || keys.contains(k),
        |k: Seq<char>|
            if keys.contains(k) {
                if m.contains_key(k) {
                    m[k].push(id)
                } else {
                    seq![id]
                }
            } else {
                m[k]
            },
    )
}

/// The DOI map with a record's DOI: an absent or empty DOI adds nothing, a
/// later record takes a DOI over from an earlier one.
pub open spec fn with_doi(m: Map<Seq<char>, usize>, r: RecordView) -> Map<Seq<char>, usize> {
    match r.doi {
        Some(d) => if d.len() > 0 {
            m.insert(d, r.index)
        } else {
            m
        },
        None => m,
    }
}

/// The surname postings with a record's surnames, each under its normal
/// form; a surname whose normal form is empty adds nothing.
pub open spec fn with_surnames(m: Map<Seq<char>, Seq<usize>>, surnames: Seq<Seq<char>>, id: usize) -> Map<
    Seq<char>,
    Seq<usize>,
>
    decreases surnames.len(),
{
    if surnames.len() == 0 {
        m
    } else {
        let before = with_surnames(m, surnames.drop_last(), id);
        let key = normalized(surnames.last());
        if key.len() > 0 {
            add_posting(before, key, id)
        } else {
            before
        }
    }
}

/// The decade postings with a record's year; a record without a year adds
/// nothing.
pub open spec fn with_decade(m: Map<i64, Seq<usize>>, r: RecordView) -> Map<i64, Seq<usize>> {
    match decade_of_year(r.year) {
        Some(d) => add_posting(m, d, r.index),
        None => m,
    }
}

/// The journal postings with a record's journal under its normal form; an
/// absent journal, or one whose normal form is empty, adds nothing.
pub open spec fn with_journal(m: Map<Seq<char>, Seq<usize>>, r: RecordView) -> Map<
    Seq<char>,
    Seq<usize>,
> {
    match r.journal {
        Some(j) => if normalized(j).len() > 0 {
            add_posting(m, normalized(j), r.index)
        } else {
            m
        },
        None => m,
    }
}

/// The five lookup structures as mathematical maps.
pub struct IndexView {
    /// DOI to record.
    pub doi: Map<Seq<char>, usize>,
    /// Title trigram to the records whose titles hold it.
    pub trigrams: Map<Seq<char>, Seq<usize>>,
    /// Normalized surname to the records that list it.
    pub surnames: Map<Seq<char>, Seq<usize>>,
    /// Decade to the records published in it.
    pub decades: Map<i64, Seq<usize>>,
    /// Normalized journal name to the records that appeared in it.
    pub journals: Map<Seq<char>, Seq<usize>>,
}

/// The index of an empty corpus.
pub open spec fn empty_index() -> IndexView {
    IndexView {
        doi: Map::empty(),
        trigrams: Map::empty(),
        surnames: Map::empty(),
        decades: Map::empty(),
        journals: Map::empty(),
    }
}

/// An index with one more record.
pub open spec fn with_record(index: IndexView, r: RecordView) -> IndexView {
    IndexView {
        doi: with_doi(index.doi, r),
        trigrams: add_postings(index.trigrams, trigrams_of(r.title), r.index),
        surnames: with_surnames(index.surnames, r.surnames, r.index),
        decades: with_decade(index.decades, r),
        journals: with_journal(index.journals, r),
    }
}

/// The index of a corpus: its records added one by one, in order.
pub open spec fn index_of(corpus: Seq<RecordView>) -> IndexView
    decreases corpus.len(),
{
    if corpus.len() == 0 {
        empty_index()
    } else {
        with_record(index_of(corpus.drop_last()), corpus.last())
    }
}

/// What a decade map holds, as sequences.
pub open spec fn decade_entries(m: Map<i64, Vec<usize>>) -> Map<i64, Seq<usize>> {
    Map::new(|d: i64| m.contains_key(d), |d: i64| m[d]@)
}

/// Files `id` under `key`, behind what is filed there already. Says
/// whether the key is new to the map.
pub(crate) fn push_posting(map: &mut ahash::AHashMap<String, Vec<usize>>, key: String, id: usize) -> (is_new:
    bool)
    ensures
        posting_entries(*final(map)) == add_posting(posting_entries(*old(map)), key@, id),
        is_new == !posting_entries(*old(map)).contains_key(key@),
{
    let ghost before = posting_entries(*map);
    let found = posting_map_remove(map, key.as_str());
    let ghost key_text = key@;
    match found {
        Some(list) => {
            let mut ids = list;
            ids.push(id);
            posting_map_insert(map, key, ids);
            assert(posting_entries(*map) =~= add_posting(before, key_text, id));
            false
        },
        None => {
            let mut ids: Vec<usize> = Vec::new();
            ids.push(id);
            posting_map_insert(map, key, ids);
            assert(ids@ =~= seq![id]);
            assert(posting_entries(*map) =~= add_posting(before, key_text, id));
            true
        },
    }
}

/// Files `id` under a decade, behind what is filed there already.
fn push_decade(map: &mut HashMap<i64, Vec<usize>>, decade: i64, id: usize)
    ensures
        decade_entries(final(map)@) == add_posting(decade_entries(old(map)@), decade, id),
{
    let ghost before = decade_entries(map@);
    let found = map.remove(&decade);
    match found {
        Some(list) => {
            let mut ids = list;
            ids.push(id);
            map.insert(decade, ids);
        },
        None => {
            let mut ids: Vec<usize> = Vec::new();
            ids.push(id);
            assert(ids@ =~= seq![id]);
            map.insert(decade, ids);
        },
    }
    assert(decade_entries(map@) =~= add_posting(before, decade, id));
}

/// Filing under one more key, when nothing was filed under it yet.
proof fn lemma_add_postings_step(
    m: Map<Seq<char>, Seq<usize>>,
    keys: Set<Seq<char>>,
    key: Seq<char>,
    id: usize,
)
    requires
        !keys.contains(key),
    ensures
        add_posting(add_postings(m, keys, id), key, id) == add_postings(m, keys.insert(key), id),
{
    assert(add_posting(add_postings(m, keys, id), key, id) =~= add_postings(
        m,
        keys.insert(key),
        id,
    ));
}

/// `id` is filed under `key`.
pub open spec fn filed_under<K>(m: Map<K, Seq<usize>>, key: K, id: usize) -> bool {
    m.contains_key(key) && m[key].contains(id)
}

/// What a list holds once one more element stands at its end.
proof fn lemma_push_contains(s: Seq<usize>, a: usize, x: usize)
    ensures
        s.push(a).contains(x) <==> (s.contains(x) || x == a),
{
    if s.push(a).contains(x) {
        let p = choose|p: int| 0 <= p < s.push(a).len() && s.push(a)[p] == x;
        if p < s.len() {
            assert(s[p] == x);
        }
    }
    if s.contains(x) {
        let p = choose|p: int| 0 <= p < s.len() && s[p] == x;
        assert(s.push(a)[p] == x);
    }
    if x == a {
        assert(s.push(a)[s.len() as int] == x);
    }
}

/// Filing a record under a key files it there, keeps what was filed, and
/// files nothing else.
pub proof fn lemma_add_posting_files<K>(
    m: Map<K, Seq<usize>>,
    key: K,
    id: usize,
    other_key: K,
    other_id: usize,
)
    ensures
        filed_under(add_posting(m, key, id), key, id),
        filed_under(add_posting(m, key, id), other_key, other_id) <==> (filed_under(
            m,
            other_key,
            other_id,
        ) || (other_key == key && other_id == id)),
{
    if m.contains_key(key) {
        lemma_push_contains(m[key], id, id);
        lemma_push_contains(m[key], id, other_id);
    } else {
        assert(seq![id][0] == id);
    }
}

/// Filing a record under a set of keys files it under each of them, keeps
/// what was filed, and files nothing else.
pub proof fn lemma_add_postings_files(
    m: Map<Seq<char>, Seq<usize>>,
    keys: Set<Seq<char>>,
    id: usize,
    other_key: Seq<char>,
    other_id: usize,
)
    ensures
        filed_under(add_postings(m, keys, id), other_key, other_id) <==> (filed_under(
            m,
            other_key,
            other_id,
        ) || (keys.contains(other_key) && other_id == id)),
{
    if keys.contains(other_key) {
        if m.contains_key(other_key) {
            lemma_push_contains(m[other_key], id, other_id);
        } else {
            assert(seq![id][0] == id);
        }
    }
}

/// One of the surnames has this normal form, which is not empty.
pub open spec fn names_key(surnames: Seq<Seq<char>>, key: Seq<char>) -> bool {
    exists|i: int| 0 <= i < surnames.len() && key.len() > 0 && normalized(surnames[i]) == key
}

/// Filing a record under its surnames files it under the normal form of
/// each, keeps what was filed, and files nothing else.
pub proof fn lemma_with_surnames_files(
    m: Map<Seq<char>, Seq<usize>>,
    surnames: Seq<Seq<char>>,
    id: usize,
    other_key: Seq<char>,
    other_id: usize,
)
    ensures
        filed_under(with_surnames(m, surnames, id), other_key, other_id) <==> (filed_under(
            m,
            other_key,
            other_id,
        ) || (names_key(surnames, other_key) && other_id == id)),
    decreases surnames.len(),
{
    if surnames.len() > 0 {
        let rest = surnames.drop_last();
        let before = with_surnames(m, rest, id);
        let key = normalized(surnames.last());
        lemma_with_surnames_files(m, rest, id, other_key, other_id);
        if key.len() > 0 {
            lemma_add_posting_files(before, key, id, other_key, other_id);
        }
        if names_key(rest, other_key) {
            let i = choose|i: int|
                0 <= i < rest.len() && other_key.len() > 0 && normalized(rest[i]) == other_key;
            assert(normalized(surnames[i]) == other_key);
        }
        if names_key(surnames, other_key) {
            let i = choose|i: int|
                0 <= i < surnames.len() && other_key.len() > 0 && normalized(surnames[i])
                    == other_key;
            if i < rest.len() {
                assert(normalized(rest[i]) == other_key);
            }
        }
        if key.len() > 0 && other_key == key {
            assert(normalized(surnames[surnames.len() - 1]) == other_key);
        }
    }
}

/// The record is one for which the index files `id` under the trigram.
pub open spec fn record_has_trigram(r: RecordView, t: Seq<char>, id: usize) -> bool {
    r.index == id && trigrams_of(r.title).contains(t)
}

/// The record is one for which the index files `id` under the surname.
pub open spec fn record_has_surname(r: RecordView, key: Seq<char>, id: usize) -> bool {
    r.index == id && names_key(r.surnames, key)
}

/// The record is one for which the index files `id` under the decade.
pub open spec fn record_has_decade(r: RecordView, decade: i64, id: usize) -> bool {
    r.index == id && decade_of_year(r.year) == Some(decade)
}

/// The record is one for which the index files `id` under the journal.
pub open spec fn record_has_journal(r: RecordView, key: Seq<char>, id: usize) -> bool {
    &&& r.index == id
    &&& key.len() > 0
    &&& r.journal matches Some(j)
    &&& normalized(j) == key
}

/// The trigram index files a record under a trigram exactly if the corpus
/// has a record with that identifier and that trigram in its title.
pub proof fn lemma_index_trigrams(corpus: Seq<RecordView>, t: Seq<char>, id: usize)
    ensures
        filed_under(index_of(corpus).trigrams, t, id) <==> exists|i: int|
            0 <= i < corpus.len() && record_has_trigram(#[trigger] corpus[i], t, id),
    decreases corpus.len(),
{
    if corpus.len() > 0 {
        let rest = corpus.drop_last();
        let last = corpus.last();
        lemma_index_trigrams(rest, t, id);
        lemma_add_postings_files(
            index_of(rest).trigrams,
            trigrams_of(last.title),
            last.index,
            t,
            id,
        );
        if exists|i: int| 0 <= i < rest.len() && record_has_trigram(#[trigger] rest[i], t, id) {
            let i = choose|i: int|
                0 <= i < rest.len() && record_has_trigram(#[trigger] rest[i], t, id);
            assert(record_has_trigram(corpus[i], t, id));
        }
        if exists|i: int| 0 <= i < corpus.len() && record_has_trigram(#[trigger] corpus[i], t, id) {
            let i = choose|i: int|
                0 <= i < corpus.len() && record_has_trigram(#[trigger] corpus[i], t, id);
            if i < rest.len() {
                assert(record_has_trigram(rest[i], t, id));
            }
        }
        if record_has_trigram(last, t, id) {
            assert(record_has_trigram(corpus[corpus.len() - 1], t, id));
        }
    }
}

/// The surname index files a record under a surname exactly if the corpus
/// has a record with that identifier that lists the surname.
pub proof fn lemma_index_surnames(corpus: Seq<RecordView>, key: Seq<char>, id: usize)
    ensures
        filed_under(index_of(corpus).surnames, key, id) <==> exists|i: int|
            0 <= i < corpus.len() && record_has_surname(#[trigger] corpus[i], key, id),
    decreases corpus.len(),
{
    if corpus.len() > 0 {
        let rest = corpus.drop_last();
        let last = corpus.last();
        lemma_index_surnames(rest, key, id);
        lemma_with_surnames_files(index_of(rest).surnames, last.surnames, last.index, key, id);
        if exists|i: int| 0 <= i < rest.len() && record_has_surname(#[trigger] rest[i], key, id) {
            let i = choose|i: int|
                0 <= i < rest.len() && record_has_surname(#[trigger] rest[i], key, id);
            assert(record_has_surname(corpus[i], key, id));
        }
        if exists|i: int| 0 <= i < corpus.len() && record_has_surname(#[trigger] corpus[i], key, id) {
            let i = choose|i: int|
                0 <= i < corpus.len() && record_has_surname(#[trigger] corpus[i], key, id);
            if i < rest.len() {
                assert(record_has_surname(rest[i], key, id));
            }
        }
        if record_has_surname(last, key, id) {
            assert(record_has_surname(corpus[corpus.len() - 1], key, id));
        }
    }
}

/// The decade index files a record under a decade exactly if the corpus
/// has a record with that identifier and a year in that decade.
pub proof fn lemma_index_decades(corpus: Seq<RecordView>, decade: i64, id: usize)
    ensures
        filed_under(index_of(corpus).decades, decade, id) <==> exists|i: int|
            0 <= i < corpus.len() && record_has_decade(#[trigger] corpus[i], decade, id),
    decreases corpus.len(),
{
    if corpus.len() > 0 {
        let rest = corpus.drop_last();
        let last = corpus.last();
        lemma_index_decades(rest, decade, id);
        match decade_of_year(last.year) {
            Some(d) => {
                lemma_add_posting_files(index_of(rest).decades, d, last.index, decade, id);
            },
            None => {},
        }
        if exists|i: int| 0 <= i < rest.len() && record_has_decade(#[trigger] rest[i], decade, id) {
            let i = choose|i: int|
                0 <= i < rest.len() && record_has_decade(#[trigger] rest[i], decade, id);
            assert(record_has_decade(corpus[i], decade, id));
        }
        if exists|i: int|
            0 <= i < corpus.len() && record_has_decade(#[trigger] corpus[i], decade, id) {
            let i = choose|i: int|
                0 <= i < corpus.len() && record_has_decade(#[trigger] corpus[i], decade, id);
            if i < rest.len() {
                assert(record_has_decade(rest[i], decade, id));
            }
        }
        if record_has_decade(last, decade, id) {
            assert(record_has_decade(corpus[corpus.len() - 1], decade, id));
        }
    }
}

/// The journal index files a record under a journal exactly if the corpus
/// has a record with that identifier that appeared in the journal.
pub proof fn lemma_index_journals(corpus: Seq<RecordView>, key: Seq<char>, id: usize)
    ensures
        filed_under(index_of(corpus).journals, key, id) <==> exists|i: int|
            0 <= i < corpus.len() && record_has_journal(#[trigger] corpus[i], key, id),
    decreases corpus.len(),
{
    if corpus.len() > 0 {
        let rest = corpus.drop_last();
        let last = corpus.last();
        lemma_index_journals(rest, key, id);
        match last.journal {
            Some(j) => {
                if normalized(j).len() > 0 {
                    lemma_add_posting_files(
                        index_of(rest).journals,
                        normalized(j),
                        last.index,
                        key,
                        id,
                    );
                }
            },
            None => {},
        }
        if exists|i: int| 0 <= i < rest.len() && record_has_journal(#[trigger] rest[i], key, id) {
            let i = choose|i: int|
                0 <= i < rest.len() && record_has_journal(#[trigger] rest[i], key, id);
            assert(record_has_journal(corpus[i], key, id));
        }
        if exists|i: int| 0 <= i < corpus.len() && record_has_journal(#[trigger] corpus[i], key, id) {
            let i = choose|i: int|
                0 <= i < corpus.len() && record_has_journal(#[trigger] corpus[i], key, id);
            if i < rest.len() {
                assert(record_has_journal(rest[i], key, id));
            }
        }
        if record_has_journal(last, key, id) {
            assert(record_has_journal(corpus[corpus.len() - 1], key, id));
        }
    }
}

/// The DOI index knows a DOI exactly if a record of the corpus carries it,
/// and leads to the last record that does.
pub proof fn lemma_index_dois(corpus: Seq<RecordView>, d: Seq<char>)
    ensures
        index_of(corpus).doi.contains_key(d) <==> (d.len() > 0 && exists|i: int|
            0 <= i < corpus.len() && (#[trigger] corpus[i]).doi == Some(d)),
        index_of(corpus).doi.contains_key(d) ==> exists|i: int|
            0 <= i < corpus.len() && (#[trigger] corpus[i]).doi == Some(d) && corpus[i].index
                == index_of(corpus).doi[d] && forall|j: int|
                i < j < corpus.len() ==> (#[trigger] corpus[j]).doi != Some(d),
    decreases corpus.len(),
{
    if corpus.len() > 0 {
        let rest = corpus.drop_last();
        let last = corpus.last();
        lemma_index_dois(rest, d);
        if d.len() > 0 && exists|i: int| 0 <= i < rest.len() && (#[trigger] rest[i]).doi == Some(d) {
            let i = choose|i: int| 0 <= i < rest.len() && (#[trigger] rest[i]).doi == Some(d);
            assert(corpus[i].doi == Some(d));
        }
        if d.len() > 0 && exists|i: int|
            0 <= i < corpus.len() && (#[trigger] corpus[i]).doi == Some(d) {
            let i = choose|i: int| 0 <= i < corpus.len() && (#[trigger] corpus[i]).doi == Some(d);
            if i < rest.len() {
                assert(rest[i].doi == Some(d));
            }
        }
        if index_of(corpus).doi.contains_key(d) {
            if last.doi == Some(d) && d.len() > 0 {
                let i = corpus.len() - 1;
                assert(corpus[i].doi == Some(d) && corpus[i].index == index_of(corpus).doi[d]);
            } else {
                let i = choose|i: int|
                    0 <= i < rest.len() && (#[trigger] rest[i]).doi == Some(d) && rest[i].index
                        == index_of(rest).doi[d] && forall|j: int|
                        i < j < rest.len() ==> (#[trigger] rest[j]).doi != Some(d);
                assert(corpus[i].doi == Some(d) && corpus[i].index == index_of(corpus).doi[d]);
                assert forall|j: int| i < j < corpus.len() implies (#[trigger] corpus[j]).doi
                    != Some(d) by {
                    if j < rest.len() {
                        assert(rest[j].doi != Some(d));
                    }
                }
            }
        }
    }
}

/// The blocking index of a candidate corpus.
///
/// It is built once by [`build_index`] and never changed: to follow a
/// changed corpus, build a new one.
pub struct BlockingIndex {
    doi_index: ahash::AHashMap<String, usize>,
    trigram_index: ahash::AHashMap<String, Vec<usize>>,
    surname_index: ahash::AHashMap<String, Vec<usize>>,
    /// The keys of `surname_index`, each once, in the order in which they
    /// came up: a query walks them, in an order that no hasher decides.
    surname_keys: Vec<Vec<char>>,
    decade_index: HashMap<i64, Vec<usize>>,
    journal_index: ahash::AHashMap<String, Vec<usize>>,
}

/// `keys` lists the keys of `m`, each once.
pub open spec fn lists_keys_of(keys: Seq<Seq<char>>, m: Map<Seq<char>, Seq<usize>>) -> bool {
    &&& keys.no_duplicates()
    &&& forall|k: Seq<char>| keys.contains(k) <==> m.contains_key(k)
}

impl View for BlockingIndex {
    type V = IndexView;

    closed spec fn view(&self) -> IndexView {
        IndexView {
            doi: doi_entries(self.doi_index),
            trigrams: posting_entries(self.trigram_index),
            surnames: posting_entries(self.surname_index),
            decades: decade_entries(self.decade_index@),
            journals: posting_entries(self.journal_index),
        }
    }
}

impl BlockingIndex {
    /// The list of surnames is the list of keys of the surname map.
    #[verifier::type_invariant]
    spec fn well_formed(self) -> bool {
        lists_keys_of(word_views(self.surname_keys@), posting_entries(self.surname_index))
    }

    /// The record that a DOI leads to.
    pub fn doi_lookup(&self, doi: &str) -> (id: Option<usize>)
        ensures
            id == (if self@.doi.contains_key(doi@) {
                Some(self@.doi[doi@])
            } else {
                None
            }),
    {
        doi_map_get(&self.doi_index, doi)
    }

    /// The records filed under a title trigram.
    pub fn trigram_postings(&self, trigram: &str) -> (ids: Option<&Vec<usize>>)
        ensures
            match ids {
                Some(list) => self@.trigrams.contains_key(trigram@) && list@
                    == self@.trigrams[trigram@],
                None => !self@.trigrams.contains_key(trigram@),
            },
    {
        posting_map_get(&self.trigram_index, trigram)
    }

    /// The indexed surnames, each once, in the order in which the corpus
    /// brought them up.
    pub fn surname_keys(&self) -> (keys: &Vec<Vec<char>>)
        ensures
            lists_keys_of(word_views(keys@), self@.surnames),
    {
        proof {
            use_type_invariant(self);
        }
        &self.surname_keys
    }

    /// The records filed under a normalized surname.
    pub fn surname_postings(&self, surname: &str) -> (ids: Option<&Vec<usize>>)
        ensures
            match ids {
                Some(list) => self@.surnames.contains_key(surname@) && list@
                    == self@.surnames[surname@],
                None => !self@.surnames.contains_key(surname@),
            },
    {
        posting_map_get(&self.surname_index, surname)
    }

    /// The records filed under a decade.
    pub fn decade_postings(&self, decade: i64) -> (ids: Option<&Vec<usize>>)
        ensures
            match ids {
                Some(list) => self@.decades.contains_key(decade) && list@ == self@.decades[decade],
                None => !self@.decades.contains_key(decade),
            },
    {
        self.decade_index.get(&decade)
    }

    /// The records filed under a normalized journal name.
    pub fn journal_postings(&self, journal: &str) -> (ids: Option<&Vec<usize>>)
        ensures
            match ids {
                Some(list) => self@.journals.contains_key(journal@) && list@
                    == self@.journals[journal@],
                None => !self@.journals.contains_key(journal@),
            },
    {
        posting_map_get(&self.journal_index, journal)
    }

    /// The DOI map itself, for a caller that walks it.
    pub fn doi_map(&self) -> (map: &ahash::AHashMap<String, usize>)
        ensures
            doi_entries(*map) == self@.doi,
    {
        &self.doi_index
    }

    /// The trigram map itself, for a caller that walks it.
    pub fn trigram_map(&self) -> (map: &ahash::AHashMap<String, Vec<usize>>)
        ensures
            posting_entries(*map) == self@.trigrams,
    {
        &self.trigram_index
    }

    /// The surname map itself, for a caller that walks it.
    pub fn surname_map(&self) -> (map: &ahash::AHashMap<String, Vec<usize>>)
        ensures
            posting_entries(*map) == self@.surnames,
    {
        &self.surname_index
    }

    /// The decade map itself, for a caller that walks it.
    pub fn decade_map(&self) -> (map: &HashMap<i64, Vec<usize>>)
        ensures
            decade_entries(map@) == self@.decades,
    {
        &self.decade_index
    }

    /// The journal map itself, for a caller that walks it.
    pub fn journal_map(&self) -> (map: &ahash::AHashMap<String, Vec<usize>>)
        ensures
            posting_entries(*map) == self@.journals,
    {
        &self.journal_index
    }
}

/// Builds the blocking index of a corpus in one pass over its records.
pub fn build_index(records: &Vec<BibRecord>) -> (index: BlockingIndex)
    ensures
        index@ == index_of(record_views(records@)),
{
    let mut doi_index = doi_map_new();
    let mut trigram_index = posting_map_new();
    let mut surname_index = posting_map_new();
    let mut surname_keys: Vec<Vec<char>> = Vec::new();
    let mut decade_index: HashMap<i64, Vec<usize>> = HashMap::new();
    let mut journal_index = posting_map_new();
    let ghost corpus = record_views(records@);
    let n = records.len();
    let mut i: usize = 0;
    assert(decade_entries(decade_index@) =~= empty_index().decades);
    while i < n
        invariant
            n == records@.len(),
            i <= n,
            corpus == record_views(records@),
            lists_keys_of(word_views(surname_keys@), posting_entries(surname_index)),
            index_of(corpus.take(i as int)) == (IndexView {
                doi: doi_entries(doi_index),
                trigrams: posting_entries(trigram_index),
                surnames: posting_entries(surname_index),
                decades: decade_entries(decade_index@),
                journals: posting_entries(journal_index),
            }),
        decreases n - i,
    {
        let record = &records[i];
        let id = record.index;
        let ghost r = record@;
        let ghost before = index_of(corpus.take(i as int));
        proof {
            assert(corpus.take(i + 1).drop_last() == corpus.take(i as int));
            assert(corpus.take(i + 1).last() == r);
        }

        match &record.doi {
            Some(doi) => {
                if !doi.as_str().is_empty() {
                    doi_map_insert(&mut doi_index, doi.clone(), id);
                }
            },
            None => {},
        }
        assert(doi_entries(doi_index) == with_doi(before.doi, r));

        let trigrams = extract_trigrams(record.title.as_str());
        let ghost keys = texts(trigrams@);
        for trigram in it: trigrams
            invariant
                it.seq() == trigrams@,
                keys == texts(trigrams@),
                keys.no_duplicates(),
                posting_entries(trigram_index) == add_postings(
                    before.trigrams,
                    keys.take(it.index() as int).to_set(),
                    id,
                ),
        {
            let ghost done = keys.take(it.index() as int);
            proof {
                assert(keys.take(it.index() + 1) =~= done.push(trigram@));
                done.lemma_push_to_set_commute(trigram@);
                assert(!done.contains(trigram@)) by {
                    if done.contains(trigram@) {
                        let p = choose|p: int| 0 <= p < done.len() && done[p] == trigram@;
                        assert(keys[p] == keys[it.index() as int]);
                    }
                }
                lemma_add_postings_step(before.trigrams, done.to_set(), trigram@, id);
            }
            push_posting(&mut trigram_index, trigram, id);
        }
        proof {
            assert(keys.take(keys.len() as int) == keys);
            assert(add_postings(before.trigrams, keys.take(0).to_set(), id) =~= before.trigrams);
        }
        assert(posting_entries(trigram_index) == add_postings(
            before.trigrams,
            trigrams_of(r.title),
            id,
        ));

        let surnames = &record.author_surnames;
        let m = surnames.len();
        let mut j: usize = 0;
        assert(r.surnames.take(0) =~= Seq::<Seq<char>>::empty());
        while j < m
            invariant
                m == surnames@.len(),
                j <= m,
                r.surnames == texts(surnames@),
                lists_keys_of(word_views(surname_keys@), posting_entries(surname_index)),
                posting_entries(surname_index) == with_surnames(
                    before.surnames,
                    r.surnames.take(j as int),
                    id,
                ),
            decreases m - j,
        {
            proof {
                assert(r.surnames.take(j + 1).drop_last() == r.surnames.take(j as int));
                assert(r.surnames.take(j + 1).last() == surnames@[j as int]@);
            }
            let key = normalize(surnames[j].as_str());
            if !key.as_str().is_empty() {
                let key_chars = chars_of(key.as_str());
                let ghost old_keys = word_views(surname_keys@);
                let ghost old_map = posting_entries(surname_index);
                let is_new = push_posting(&mut surname_index, key, id);
                assert(forall|k: Seq<char>|
                    posting_entries(surname_index).contains_key(k) <==> (old_map.contains_key(k)
                        || k == key_chars@));
                if is_new {
                    surname_keys.push(key_chars);
                    assert(word_views(surname_keys@) =~= old_keys.push(key_chars@));
                    assert(!old_keys.contains(key_chars@));
                    assert(old_keys.push(key_chars@).no_duplicates());
                    assert forall|k: Seq<char>|
                        word_views(surname_keys@).contains(k) <==> posting_entries(
                            surname_index,
                        ).contains_key(k) by {
                        if old_keys.push(key_chars@).contains(k) {
                            let p = choose|p: int|
                                0 <= p < old_keys.push(key_chars@).len() && old_keys.push(
                                    key_chars@,
                                )[p] == k;
                            if p < old_keys.len() {
                                assert(old_keys[p] == k);
                                assert(old_keys.contains(k));
                            }
                        }
                        if posting_entries(surname_index).contains_key(k) {
                            if k == key_chars@ {
                                assert(old_keys.push(key_chars@)[old_keys.len() as int] == k);
                            } else {
                                assert(old_keys.contains(k));
                                let p = choose|p: int| 0 <= p < old_keys.len() && old_keys[p] == k;
                                assert(old_keys.push(key_chars@)[p] == k);
                            }
                        }
                    }
                }
            }
            j += 1;
        }
        assert(r.surnames.take(m as int) == r.surnames);

        match get_decade(record.year) {
            Some(decade) => {
                push_decade(&mut decade_index, decade, id);
            },
            None => {},
        }
        assert(decade_entries(decade_index@) == with_decade(before.decades, r));

        match &record.journal {
            Some(journal) => {
                let key = normalize(journal.as_str());
                if !key.as_str().is_empty() {
                    push_posting(&mut journal_index, key, id);
                }
            },
            None => {},
        }
        assert(posting_entries(journal_index) == with_journal(before.journals, r));

        i += 1;
    }
    assert(corpus.take(n as int) == corpus);
    BlockingIndex {
        doi_index,
        trigram_index,
        surname_index,
        surname_keys,
        decade_index,
        journal_index,
    }
}

} // verus!
