use vstd::prelude::*;
use crate::extractor::Function;
use crate::search::{Hit, hits_at, is_ranking, lemma_outranks_strict, lemma_ranking_prefix, ranked_hits, scores, search, tokens};
use crate::text::str_eq;

verus! {

/// `name` is one of the accepted answers.
pub open spec fn is_answer(name: Seq<char>, answers: Seq<&str>) -> bool {
    exists|a: int| 0 <= a < answers.len() && (#[trigger] answers[a])@ == name
}

/// Whether `name` is one of the accepted answers.
pub fn answer_matches(name: &str, answers: &[&str]) -> (res: bool)
    ensures
        res == is_answer(name@, answers@),
{
    let mut a: usize = 0;
    while a < answers.len()
        invariant
            0 <= a <= answers@.len(),
            forall|k: int| 0 <= k < a ==> (#[trigger] answers@[k])@ != name@,
        decreases answers@.len() - a,
    {
        if str_eq(answers[a], name) {
            return true;
        }
        a = a + 1;
    }
    false
}

/// `res` is the position of the first hit whose function name is an accepted answer, or
/// `None` when no hit's is.
pub open spec fn first_answer(hits: Seq<Hit>, answers: Seq<&str>, res: Option<usize>) -> bool {
    match res {
        Some(p) => p < hits.len() && is_answer(hits[p as int].func.name@, answers) && forall|k: int|
            0 <= k < p ==> !is_answer((#[trigger] hits[k]).func.name@, answers),
        None => forall|k: int| 0 <= k < hits.len() ==> !is_answer((#[trigger] hits[k]).func.name@, answers),
    }
}

/// The position of the first hit whose function name is an accepted answer.
pub fn rank_of(hits: &[Hit], answers: &[&str]) -> (res: Option<usize>)
    ensures
        first_answer(hits@, answers@, res),
{
    let mut p: usize = 0;
    while p < hits.len()
        invariant
            0 <= p <= hits@.len(),
            forall|k: int| 0 <= k < p ==> !is_answer((#[trigger] hits@[k]).func.name@, answers@),
        decreases hits@.len() - p,
    {
        if answer_matches(hits[p].func.name.as_str(), answers) {
            return Some(p);
        }
        p = p + 1;
    }
    None
}

/// `rank` is where the first accepted answer of `answers` ranks among the first ten hits of
/// a keyword search of `funcs` for `question`.
pub open spec fn case_rank(funcs: Seq<Function>, question: Seq<char>, answers: Seq<&str>, rank: Option<usize>) -> bool {
    exists|hits: Seq<Hit>| #[trigger] ranked_hits(funcs, question, 10, hits) && first_answer(hits, answers, rank)
}

/// For each evaluation case (a question and the function names accepted as its answer),
/// where the first accepted answer ranks among the first ten hits of a keyword search.
pub fn lexical_ranks(funcs: &[Function], cases: &[(&str, &[&str])]) -> (res: Vec<Option<usize>>)
    ensures
        res@.len() == cases@.len(),
        forall|k: int| 0 <= k < cases@.len() ==> #[trigger] case_rank(funcs@, cases@[k].0@, cases@[k].1@, res@[k]),
{
    let mut res: Vec<Option<usize>> = Vec::new();
    let mut i: usize = 0;
    while i < cases.len()
        invariant
            0 <= i <= cases@.len(),
            res@.len() == i,
            forall|k: int| 0 <= k < i ==> #[trigger] case_rank(funcs@, cases@[k].0@, cases@[k].1@, res@[k]),
        decreases cases@.len() - i,
    {
        let (question, answers) = cases[i];
        let hits = search(funcs, question, 10);
        let r = rank_of(&hits, answers);
        assert(ranked_hits(funcs@, question@, 10, hits@) && first_answer(hits@, answers@, r));
        let ghost before = res@;
        res.push(r);
        assert forall|k: int| 0 <= k < i + 1 implies #[trigger] case_rank(funcs@, cases@[k].0@, cases@[k].1@, res@[k]) by {
            if k < i {
                assert(before[k] == res@[k]);
            }
        }
        i = i + 1;
    }
    res
}

/// How many questions found an answer among the first 1, 3 and 5 hits.
pub struct RankTally {
    pub top1: usize,
    pub top3: usize,
    pub top5: usize,
}

impl RankTally {
    /// No question counted yet.
    pub fn new() -> (res: RankTally)
        ensures
            res.top1 == 0 && res.top3 == 0 && res.top5 == 0,
    {
        RankTally { top1: 0, top3: 0, top5: 0 }
    }

    /// Counts one question whose first answer came at `rank` (counted from 0), if at all.
    pub fn record(&mut self, rank: Option<usize>)
        requires
            old(self).top1 < usize::MAX,
            old(self).top3 < usize::MAX,
            old(self).top5 < usize::MAX,
        ensures
            final(self).top1 == old(self).top1 + (if rank matches Some(p) && p < 1 { 1int } else { 0int }),
            final(self).top3 == old(self).top3 + (if rank matches Some(p) && p < 3 { 1int } else { 0int }),
            final(self).top5 == old(self).top5 + (if rank matches Some(p) && p < 5 { 1int } else { 0int }),
    {
        if let Some(p) = rank {
            if p < 1 {
                self.top1 = self.top1 + 1;
            }
            if p < 3 {
                self.top3 = self.top3 + 1;
            }
            if p < 5 {
                self.top5 = self.top5 + 1;
            }
        }
    }
}

/// `count` out of `n` as a whole percentage, rounded down.
pub fn percent(count: usize, n: usize) -> (res: usize)
    requires
        n > 0,
        count * 100 <= usize::MAX,
    ensures
        res as int == (count * 100) as int / n as int,
{
    count * 100 / n
}

/// The first `m` hits of two lists are the same functions.
pub open spec fn same_start(a: Seq<Hit>, b: Seq<Hit>, m: int) -> bool {
    forall|k: int| 0 <= k < m ==> *(#[trigger] a[k]).func == *b[k].func
}

/// The ten-hit search is the start of any longer one: its hits are the first ten (or all)
/// of the longer list.
proof fn lemma_first_ten(funcs: Seq<Function>, question: Seq<char>, hits: Seq<Hit>, limit: usize, full: Seq<Hit>)
    requires
        ranked_hits(funcs, question, 10, hits),
        10 <= limit,
        ranked_hits(funcs, question, limit, full),
    ensures
        hits.len() == if full.len() < 10 { full.len() } else { 10 },
        same_start(hits, full, hits.len() as int),
{
    let sc = scores(funcs, tokens(question));
    let r = choose|r: Seq<int>| is_ranking(sc, 10, r) && #[trigger] hits_at(funcs, sc, r, hits);
    let rf = choose|r: Seq<int>| is_ranking(sc, limit as int, r) && #[trigger] hits_at(funcs, sc, r, full);
    lemma_ranking_prefix(sc, 10, limit as int, r, rf);
    if r.len() < 10 && r.len() < rf.len() {
        let m = r.len() as int;
        let a = rf[m];
        if r.contains(a) {
            let j = choose|j: int| 0 <= j < r.len() && r[j] == a;
            assert(rf[j] == a);
            assert(crate::search::outranks(sc, rf[j], rf[m]));
            lemma_outranks_strict(sc, a, a);
        }
        assert(sc[a] > 0);
    }
    assert forall|k: int| 0 <= k < hits.len() implies *(#[trigger] hits[k]).func == *full[k].func by {
        assert(r[k] == rf[k]);
    }
}

/// Law: a case's rank is where the first accepted answer stands in the keyword ranking of
/// the question, when that is among its first ten places, and none when no accepted answer
/// stands there; any longer search shows the same first ten.
pub proof fn lemma_case_rank_first_ten(
    funcs: Seq<Function>,
    question: Seq<char>,
    answers: Seq<&str>,
    rank: Option<usize>,
    limit: usize,
    full: Seq<Hit>,
)
    requires
        case_rank(funcs, question, answers, rank),
        10 <= limit,
        ranked_hits(funcs, question, limit, full),
    ensures
        forall|p: int|
            0 <= p < 10 && p < full.len() && is_answer((#[trigger] full[p]).func.name@, answers) && (forall|k: int|
                0 <= k < p ==> !is_answer(full[k].func.name@, answers)) ==> rank == Some(p as usize),
        (forall|k: int| 0 <= k < 10 && k < full.len() ==> !is_answer((#[trigger] full[k]).func.name@, answers))
            ==> rank is None,
{
    let hits = choose|hits: Seq<Hit>| #[trigger] ranked_hits(funcs, question, 10, hits) && first_answer(hits, answers, rank);
    lemma_first_ten(funcs, question, hits, limit, full);
    assert forall|k: int| 0 <= k < hits.len() implies (#[trigger] hits[k]).func.name@ == full[k].func.name@ by {
        assert(*hits[k].func == *full[k].func);
    }
    assert forall|p: int|
        0 <= p < 10 && p < full.len() && is_answer((#[trigger] full[p]).func.name@, answers) && (forall|k: int|
            0 <= k < p ==> !is_answer(full[k].func.name@, answers)) implies rank == Some(p as usize) by {
        assert(hits[p].func.name@ == full[p].func.name@);
        match rank {
            Some(x) => {
                if (x as int) < p {
                    assert(hits[x as int].func.name@ == full[x as int].func.name@);
                } else if (x as int) > p {
                    assert(!is_answer(hits[p].func.name@, answers));
                }
            },
            None => {
                assert(!is_answer(hits[p].func.name@, answers));
            },
        }
    }
    if forall|k: int| 0 <= k < 10 && k < full.len() ==> !is_answer((#[trigger] full[k]).func.name@, answers) {
        if rank is Some {
            let x = rank->0 as int;
            assert(hits[x].func.name@ == full[x].func.name@);
        }
    }
}

} // verus!
