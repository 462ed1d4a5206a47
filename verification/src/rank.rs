//! Top-N selection: the best-scoring results of a subject, best first.
//!
//! Results are ranked by total score. Among equal totals the result that was
//! offered first comes first, so the outcome depends on nothing but the
//! results and their order.

use vstd::prelude::*;
use crate::record::MatchResult;
use crate::similarity::Score;

verus! {

/// A ranked list with one more result in its place: behind every result that
/// scores at least as high.
pub open spec fn rank_insert(ranked: Seq<MatchResult>, r: MatchResult) -> Seq<MatchResult>
    decreases ranked.len(),
{
    if ranked.len() == 0 {
        seq![r]
    } else if ranked.last().total_score >= r.total_score {
        ranked.push(r)
    } else {
        rank_insert(ranked.drop_last(), r).push(ranked.last())
    }
}

/// The results that reach `min_score`, best first.
pub open spec fn ranked(results: Seq<MatchResult>, min_score: Score) -> Seq<MatchResult>
    decreases results.len(),
{
    if results.len() == 0 {
        Seq::empty()
    } else {
        let before = ranked(results.drop_last(), min_score);
        if results.last().total_score >= min_score {
            rank_insert(before, results.last())
        } else {
            before
        }
    }
}

/// The first `n` of a list, or all of it if it has no more.
pub open spec fn truncated(s: Seq<MatchResult>, n: nat) -> Seq<MatchResult> {
    if s.len() <= n {
        s
    } else {
        s.take(n as int)
    }
}

/// The `top_n` best of the results that reach `min_score`, best first.
pub open spec fn top_matches(results: Seq<MatchResult>, top_n: nat, min_score: Score) -> Seq<
    MatchResult,
> {
    truncated(ranked(results, min_score), top_n)
}

/// No result scores higher than one before it.
pub open spec fn is_ranked(s: Seq<MatchResult>) -> bool {
    forall|i: int, j: int| 0 <= i < j < s.len() ==> s[i].total_score >= s[j].total_score
}

/// Where a result goes in a ranked list.
proof fn lemma_rank_insert_at(s: Seq<MatchResult>, r: MatchResult, pos: int)
    requires
        0 <= pos <= s.len(),
        pos > 0 ==> s[pos - 1].total_score >= r.total_score,
        forall|j: int| pos <= j < s.len() ==> s[j].total_score < r.total_score,
    ensures
        rank_insert(s, r) == s.insert(pos, r),
    decreases s.len(),
{
    if s.len() == 0 {
        assert(s.insert(pos, r) =~= seq![r]);
    } else if pos == s.len() {
        assert(s.insert(pos, r) =~= s.push(r));
    } else {
        lemma_rank_insert_at(s.drop_last(), r, pos);
        assert(s.insert(pos, r) =~= s.drop_last().insert(pos, r).push(s.last()));
    }
}

/// The place of a result in a ranked list: behind the results that score at
/// least as high, before those that score lower.
pub open spec fn rank_position(s: Seq<MatchResult>, r: MatchResult) -> int
    decreases s.len(),
{
    if s.len() == 0 || s.last().total_score >= r.total_score {
        s.len() as int
    } else {
        rank_position(s.drop_last(), r)
    }
}

/// Putting a result in its place is inserting it at [`rank_position`].
pub proof fn lemma_rank_insert_position(s: Seq<MatchResult>, r: MatchResult)
    ensures
        0 <= rank_position(s, r) <= s.len(),
        rank_position(s, r) > 0 ==> s[rank_position(s, r) - 1].total_score >= r.total_score,
        forall|j: int| rank_position(s, r) <= j < s.len() ==> s[j].total_score < r.total_score,
        rank_insert(s, r) == s.insert(rank_position(s, r), r),
    decreases s.len(),
{
    let pos = rank_position(s, r);
    if s.len() == 0 || s.last().total_score >= r.total_score {
    } else {
        lemma_rank_insert_position(s.drop_last(), r);
        assert(pos > 0 ==> s.drop_last()[pos - 1] == s[pos - 1]);
        assert forall|j: int| pos <= j < s.len() implies s[j].total_score < r.total_score by {
            if j < s.len() - 1 {
                assert(s.drop_last()[j] == s[j]);
            }
        }
    }
    lemma_rank_insert_at(s, r, pos);
}

/// A ranked list stays ranked when a result is put in its place.
pub proof fn lemma_rank_insert_ranked(s: Seq<MatchResult>, r: MatchResult)
    requires
        is_ranked(s),
    ensures
        is_ranked(rank_insert(s, r)),
        rank_insert(s, r).len() == s.len() + 1,
{
    lemma_rank_insert_position(s, r);
    let pos = rank_position(s, r);
    let out = s.insert(pos, r);
    assert forall|i: int, j: int| 0 <= i < j < out.len() implies out[i].total_score
        >= out[j].total_score by {
        if j < pos {
            assert(out[i] == s[i] && out[j] == s[j]);
        } else if j == pos {
            assert(out[i] == s[i]);
            if i < pos - 1 {
                assert(s[i].total_score >= s[pos - 1].total_score);
            }
        } else if i < pos {
            assert(out[i] == s[i] && out[j] == s[j - 1]);
            if i < j - 1 {
                assert(s[i].total_score >= s[j - 1].total_score);
            }
        } else if i == pos {
            assert(out[j] == s[j - 1]);
        } else {
            assert(out[i] == s[i - 1] && out[j] == s[j - 1]);
        }
    }
}

/// The ranking of any results is ranked.
pub proof fn lemma_ranked_is_ranked(results: Seq<MatchResult>, min_score: Score)
    ensures
        is_ranked(ranked(results, min_score)),
    decreases results.len(),
{
    if results.len() > 0 {
        lemma_ranked_is_ranked(results.drop_last(), min_score);
        if results.last().total_score >= min_score {
            lemma_rank_insert_ranked(ranked(results.drop_last(), min_score), results.last());
        }
    }
}

/// What lies beyond the first `n` results of a ranked list has no say in
/// which are the first `n` once another result is put in.
pub proof fn lemma_truncated_insert(s: Seq<MatchResult>, r: MatchResult, n: nat)
    requires
        is_ranked(s),
    ensures
        truncated(rank_insert(truncated(s, n), r), n) == truncated(rank_insert(s, r), n),
{
    if s.len() > n {
        let short = s.take(n as int);
        lemma_rank_insert_position(s, r);
        let pos = rank_position(s, r);
        if pos >= n {
            if n > 0 {
                if pos > n {
                    assert(s[n - 1].total_score >= s[pos - 1].total_score);
                }
                assert(short[n - 1] == s[n - 1]);
            }
            lemma_rank_insert_at(short, r, n as int);
            assert(short.insert(n as int, r).take(n as int) =~= short);
            assert(s.insert(pos, r).take(n as int) =~= short);
        } else {
            assert(pos > 0 ==> short[pos - 1] == s[pos - 1]);
            assert forall|j: int| pos <= j < short.len() implies short[j].total_score
                < r.total_score by {
                assert(short[j] == s[j]);
            }
            lemma_rank_insert_at(short, r, pos);
            assert(short.insert(pos, r).take(n as int) =~= s.insert(pos, r).take(n as int));
        }
    }
}

/// The best matches come in descending order of total score.
pub proof fn lemma_top_matches_descending(results: Seq<MatchResult>, top_n: nat, min_score: Score)
    ensures
        is_ranked(top_matches(results, top_n, min_score)),
        top_matches(results, top_n, min_score).len() <= top_n,
{
    lemma_ranked_is_ranked(results, min_score);
    let all = ranked(results, min_score);
    let top = top_matches(results, top_n, min_score);
    assert forall|i: int, j: int| 0 <= i < j < top.len() implies top[i].total_score
        >= top[j].total_score by {
        assert(top[i] == all[i] && top[j] == all[j]);
    }
}

/// A ranked list with one more result holds that result and what it held
/// before, nothing else.
pub proof fn lemma_rank_insert_members(s: Seq<MatchResult>, r: MatchResult, x: MatchResult)
    ensures
        rank_insert(s, r).contains(x) <==> (s.contains(x) || x == r),
{
    lemma_rank_insert_position(s, r);
    let pos = rank_position(s, r);
    let out = s.insert(pos, r);
    if out.contains(x) {
        let p = choose|p: int| 0 <= p < out.len() && out[p] == x;
        if p < pos {
            assert(s[p] == x);
        } else if p > pos {
            assert(s[p - 1] == x);
        }
    }
    if s.contains(x) {
        let p = choose|p: int| 0 <= p < s.len() && s[p] == x;
        if p < pos {
            assert(out[p] == x);
        } else {
            assert(out[p + 1] == x);
        }
    }
    if x == r {
        assert(out[pos] == x);
    }
}

/// The ranking holds exactly the results that reach the minimum score.
pub proof fn lemma_ranked_members(results: Seq<MatchResult>, min_score: Score, x: MatchResult)
    ensures
        ranked(results, min_score).contains(x) <==> (results.contains(x) && x.total_score
            >= min_score),
    decreases results.len(),
{
    if results.len() > 0 {
        let before = results.drop_last();
        let last = results.last();
        lemma_ranked_members(before, min_score, x);
        if last.total_score >= min_score {
            lemma_rank_insert_members(ranked(before, min_score), last, x);
        }
        if results.contains(x) {
            let p = choose|p: int| 0 <= p < results.len() && results[p] == x;
            if p < before.len() {
                assert(before[p] == x);
            }
        }
        if before.contains(x) {
            let p = choose|p: int| 0 <= p < before.len() && before[p] == x;
            assert(results[p] == x);
        }
        assert(results[results.len() - 1] == last);
    }
}

/// Every best match is one of the results and reaches the minimum score.
pub proof fn lemma_top_matches_qualify(
    results: Seq<MatchResult>,
    top_n: nat,
    min_score: Score,
    x: MatchResult,
)
    requires
        top_matches(results, top_n, min_score).contains(x),
    ensures
        results.contains(x),
        x.total_score >= min_score,
{
    let all = ranked(results, min_score);
    let top = top_matches(results, top_n, min_score);
    let p = choose|p: int| 0 <= p < top.len() && top[p] == x;
    assert(all[p] == x);
    lemma_ranked_members(results, min_score, x);
}

/// No result is left out in favour of a worse one: a result that reaches
/// the minimum score and scores higher than some best match is itself among
/// the best matches; and while fewer than `top_n` are kept, every result
/// that reaches the minimum score is.
pub proof fn lemma_top_matches_best(
    results: Seq<MatchResult>,
    top_n: nat,
    min_score: Score,
    x: MatchResult,
)
    requires
        results.contains(x),
        x.total_score >= min_score,
    ensures
        forall|y: MatchResult|
            top_matches(results, top_n, min_score).contains(y) && x.total_score > y.total_score
                ==> top_matches(results, top_n, min_score).contains(x),
        top_matches(results, top_n, min_score).len() < top_n ==> top_matches(
            results,
            top_n,
            min_score,
        ).contains(x),
{
    let all = ranked(results, min_score);
    let top = top_matches(results, top_n, min_score);
    lemma_ranked_members(results, min_score, x);
    lemma_ranked_is_ranked(results, min_score);
    let px = choose|p: int| 0 <= p < all.len() && all[p] == x;
    assert forall|y: MatchResult| top.contains(y) && x.total_score > y.total_score implies top.contains(
        x,
    ) by {
        let py = choose|p: int| 0 <= p < top.len() && top[p] == y;
        assert(all[py] == y);
        if px > py {
            assert(all[py].total_score >= all[px].total_score);
        }
        assert(top[px] == x);
    }
    if top.len() < top_n {
        assert(top[px] == x);
    }
}

/// The best results seen so far, at most `limit` of them, best first.
pub struct Ranking {
    kept: Vec<MatchResult>,
    limit: usize,
}

impl View for Ranking {
    type V = Seq<MatchResult>;

    closed spec fn view(&self) -> Seq<MatchResult> {
        self.kept@
    }
}

impl Ranking {
    /// The kept results are ranked and no more than the limit.
    #[verifier::type_invariant]
    spec fn well_formed(self) -> bool {
        is_ranked(self.kept@) && self.kept@.len() <= self.limit
    }

    /// How many results are kept at most.
    pub closed spec fn limit(self) -> usize {
        self.limit
    }

    /// A ranking that keeps at most `limit` results and holds none yet.
    pub fn new(limit: usize) -> (ranking: Self)
        ensures
            ranking@ == Seq::<MatchResult>::empty(),
            ranking.limit() == limit,
    {
        Ranking { kept: Vec::new(), limit }
    }

    /// Offers a result: it is kept if fewer than `limit` results are held
    /// or if it scores higher than the worst of them, which then leaves.
    pub fn offer(self, result: MatchResult) -> (ranking: Self)
        ensures
            ranking@ == truncated(rank_insert(self@, result), self.limit() as nat),
            ranking.limit() == self.limit(),
            is_ranked(ranking@),
    {
        proof {
            use_type_invariant(&self);
            lemma_rank_insert_position(self.kept@, result);
            lemma_rank_insert_ranked(self.kept@, result);
        }
        let ghost before = self.kept@;
        let limit = self.limit;
        let mut kept = self.kept;
        let n = kept.len();
        if n == limit {
            if n == 0 {
                return Ranking { kept, limit };
            }
            if kept[n - 1].total_score >= result.total_score {
                assert(rank_insert(before, result).take(n as int) =~= before);
                return Ranking { kept, limit };
            }
            kept.pop();
            proof {
                assert(kept@ =~= before.drop_last());
                lemma_rank_insert_position(kept@, result);
                lemma_rank_insert_ranked(kept@, result);
                assert(rank_insert(before, result).take(n as int) =~= rank_insert(
                    before.drop_last(),
                    result,
                ));
            }
        }
        let ghost shorter = kept@;
        let mut pos: usize = kept.len();
        while pos > 0 && kept[pos - 1].total_score < result.total_score
            invariant
                pos <= kept@.len(),
                kept@ == shorter,
                forall|j: int| pos <= j < shorter.len() ==> shorter[j].total_score
                    < result.total_score,
            decreases pos,
        {
            pos -= 1;
        }
        proof {
            lemma_rank_insert_at(shorter, result, pos as int);
        }
        kept.insert(pos, result);
        Ranking { kept, limit }
    }

    /// The results that are kept, best first.
    pub fn into_matches(self) -> (matches: Vec<MatchResult>)
        ensures
            matches@ == self@,
    {
        self.kept
    }
}

/// The `top_n` best of the results that reach `min_score`, best first.
pub fn select_top(results: &Vec<MatchResult>, top_n: usize, min_score: Score) -> (best: Vec<
    MatchResult,
>)
    ensures
        best@ == top_matches(results@, top_n as nat, min_score),
{
    let mut ranking = Ranking::new(top_n);
    let n = results.len();
    let mut i: usize = 0;
    while i < n
        invariant
            n == results@.len(),
            i <= n,
            ranking.limit() == top_n,
            ranking@ == top_matches(results@.take(i as int), top_n as nat, min_score),
        decreases n - i,
    {
        let result = results[i];
        proof {
            assert(results@.take(i + 1).drop_last() == results@.take(i as int));
            assert(results@.take(i + 1).last() == result);
            lemma_ranked_is_ranked(results@.take(i as int), min_score);
            lemma_truncated_insert(
                ranked(results@.take(i as int), min_score),
                result,
                top_n as nat,
            );
        }
        if result.total_score >= min_score {
            ranking = ranking.offer(result);
        }
        i += 1;
    }
    assert(results@.take(n as int) == results@);
    ranking.into_matches()
}

} // verus!
