use vstd::prelude::*;

use crate::records::{CandidateInfo as StoredCandidate, ChoiceInfo};
use crate::tabulate::{RoundResult, TabulationResults};
use crate::text::same_text;

verus! {

/// An election as listed on the index page.
#[derive(Clone, Debug)]
pub struct ElectionIndexEntry {
    pub path: String,
    pub jurisdiction_name: String,
    pub election_name: String,
    pub date: String,
    pub contests: Vec<ContestSummary>,
}

/// A contest as listed with its election.
#[derive(Clone, Debug)]
pub struct ContestSummary {
    pub office: String,
    pub office_name: String,
    pub name: String,
    pub winner: Option<String>,
    pub num_candidates: i64,
    pub num_rounds: i64,
    pub ballot_count: i64,
}

/// The full report of one contest.
#[derive(Clone, Debug)]
pub struct ContestReport {
    pub info: ContestInfo,
    pub ballot_count: i64,
    pub candidates: Vec<CandidateInfo>,
    pub results: Vec<RoundResult>,
    pub summary: ResultSummary,
}

/// What a report says about its contest.
#[derive(Clone, Debug)]
pub struct ContestInfo {
    pub name: String,
    pub date: String,
    pub data_format: String,
    pub jurisdiction_path: String,
    pub election_path: String,
    pub office: String,
    pub office_name: String,
    pub jurisdiction_name: String,
    pub election_name: String,
}

/// A candidate as a report lists it.
#[derive(Clone, Debug)]
pub struct CandidateInfo {
    pub name: String,
    pub candidate_type: String,
}

/// The outcome of a tabulation.
#[derive(Clone, Debug)]
pub struct ResultSummary {
    pub winner: Option<String>,
    pub total_rounds: i64,
    pub total_ballots: i64,
}

impl ResultSummary {
    /// The summary of a tabulation of `total_ballots` ballots.
    pub fn of(results: &TabulationResults, total_ballots: u32) -> (r: ResultSummary)
        requires
            results.rounds@.len() <= i64::MAX,
        ensures
            r.winner == results.winner,
            r.total_rounds == results.rounds@.len(),
            r.total_ballots == total_ballots,
    {
        ResultSummary {
            winner: results.winner.clone(),
            total_rounds: results.rounds.len() as i64,
            total_ballots: total_ballots as i64,
        }
    }
}

/// Tabulation method for ranked-choice contests.
#[derive(Clone, Copy, Debug, PartialEq, Eq, Structural)]
pub enum TabulationMethod {
    /// Standard instant runoff voting.
    InstantRunoff,
    /// Batch elimination (eliminate several candidates at once when safe).
    BatchElimination,
    /// Bottom-two runoff.
    BottomTwoRunoff,
}

/// Options of a tabulation.
#[derive(Clone, Copy, Debug, PartialEq, Eq, Structural)]
pub struct TabulationOptions {
    pub method: TabulationMethod,
    pub eager_elimination: bool,
    pub exhaust_on_duplicate_rankings: bool,
}

impl Default for TabulationOptions {
    fn default() -> (r: TabulationOptions)
        ensures
            r.method == TabulationMethod::InstantRunoff,
            r.eager_elimination,
            !r.exhaust_on_duplicate_rankings,
    {
        TabulationOptions {
            method: TabulationMethod::InstantRunoff,
            eager_elimination: true,
            exhaust_on_duplicate_rankings: false,
        }
    }
}

/// The name of the last stored candidate with id `id`.
pub open spec fn stored_name(cands: Seq<StoredCandidate>, id: i64) -> Option<Seq<char>>
    decreases cands.len(),
{
    if cands.len() == 0 {
        None
    } else if cands.last().id == id {
        Some(cands.last().name@)
    } else {
        stored_name(cands.drop_last(), id)
    }
}

/// The choices that name a known candidate, as (rank, name), in order.
pub open spec fn named_choices(choices: Seq<ChoiceInfo>, cands: Seq<StoredCandidate>) -> Seq<
    (i64, Seq<char>),
>
    decreases choices.len(),
{
    if choices.len() == 0 {
        Seq::empty()
    } else {
        let rest = named_choices(choices.drop_last(), cands);
        let c = choices.last();
        if c.choice_type@ == "candidate"@ && c.candidate_id is Some && stored_name(
            cands,
            c.candidate_id->0,
        ) is Some {
            rest.push((c.rank_position, stored_name(cands, c.candidate_id->0)->0))
        } else {
            rest
        }
    }
}

/// The first position at or after `j` whose rank exceeds `k`, or `t.len()`.
pub open spec fn rank_insert_pos(t: Seq<(i64, Seq<char>)>, k: i64, j: int) -> int
    decreases t.len() - j,
{
    if j >= t.len() {
        t.len() as int
    } else if t[j].0 > k {
        j
    } else {
        rank_insert_pos(t, k, j + 1)
    }
}

/// `s` sorted by rank, entries of equal rank kept in their order.
pub open spec fn sorted_by_rank(s: Seq<(i64, Seq<char>)>) -> Seq<(i64, Seq<char>)>
    decreases s.len(),
{
    if s.len() == 0 {
        Seq::empty()
    } else {
        let t = sorted_by_rank(s.drop_last());
        t.insert(rank_insert_pos(t, s.last().0, 0), s.last())
    }
}

/// A stored ballot's ranking: the names of the candidates its choices
/// name, by rank; undervotes, overvotes and unknown ids left out.
pub open spec fn ranking_of(choices: Seq<ChoiceInfo>, cands: Seq<StoredCandidate>) -> Seq<Seq<char>> {
    sorted_by_rank(named_choices(choices, cands)).map_values(|e: (i64, Seq<char>)| e.1)
}

fn stored_name_exec(cands: &Vec<StoredCandidate>, id: i64) -> (r: Option<String>)
    ensures
        match r {
            Some(n) => stored_name(cands@, id) == Some(n@),
            None => stored_name(cands@, id) is None,
        },
{
    let mut n: usize = cands.len();
    assert(cands@.subrange(0, n as int) =~= cands@);
    while n > 0
        invariant
            0 <= n <= cands@.len(),
            stored_name(cands@, id) == stored_name(cands@.subrange(0, n as int), id),
        decreases n,
    {
        let ghost p = cands@.subrange(0, n as int);
        assert(p.drop_last() =~= cands@.subrange(0, n - 1));
        if cands[n - 1].id == id {
            return Some(cands[n - 1].name.clone());
        }
        n = n - 1;
    }
    None
}

/// The ranking of one stored ballot for tabulation.
pub fn ballot_ranking(choices: &Vec<ChoiceInfo>, candidates: &Vec<StoredCandidate>) -> (r: Vec<
    String,
>)
    ensures
        r@.map_values(|s: String| s@) == ranking_of(choices@, candidates@),
{
    proof {
        reveal_strlit("candidate");
    }
    let mut sorted: Vec<(i64, String)> = Vec::new();
    let mut i: usize = 0;
    while i < choices.len()
        invariant
            0 <= i <= choices@.len(),
            sorted@.map_values(|e: (i64, String)| (e.0, e.1@)) == sorted_by_rank(
                named_choices(choices@.subrange(0, i as int), candidates@),
            ),
        decreases choices.len() - i,
    {
        let ghost pre = choices@.subrange(0, i as int);
        let ghost next = choices@.subrange(0, i + 1);
        assert(next.drop_last() =~= pre);
        assert(next.last() == choices@[i as int]);
        let c = &choices[i];
        if same_text(c.choice_type.as_str(), "candidate") {
            match c.candidate_id {
                Some(cid) => match stored_name_exec(candidates, cid) {
                    Some(name) => {
                        let ghost t = sorted@.map_values(|e: (i64, String)| (e.0, e.1@));
                        let k = c.rank_position;
                        let mut pos: usize = 0;
                        while pos < sorted.len() && sorted[pos].0 <= k
                            invariant
                                t == sorted@.map_values(|e: (i64, String)| (e.0, e.1@)),
                                0 <= pos <= sorted@.len(),
                                rank_insert_pos(t, k, 0) == rank_insert_pos(t, k, pos as int),
                            decreases sorted.len() - pos,
                        {
                            pos = pos + 1;
                        }
                        assert(rank_insert_pos(t, k, pos as int) == pos);
                        let ghost g = named_choices(pre, candidates@);
                        let ghost x = (k, name@);
                        assert(named_choices(next, candidates@) == g.push(x));
                        assert(g.push(x).drop_last() =~= g);
                        sorted.insert(pos, (k, name));
                        assert(sorted@.map_values(|e: (i64, String)| (e.0, e.1@)) =~= t.insert(
                            pos as int,
                            x,
                        ));
                    },
                    None => {},
                },
                None => {},
            }
        }
        i = i + 1;
    }
    assert(choices@.subrange(0, choices@.len() as int) =~= choices@);
    let ghost full = sorted@.map_values(|e: (i64, String)| (e.0, e.1@));
    let mut out: Vec<String> = Vec::new();
    let mut j: usize = 0;
    while j < sorted.len()
        invariant
            full == sorted@.map_values(|e: (i64, String)| (e.0, e.1@)),
            0 <= j <= sorted@.len(),
            out@.map_values(|s: String| s@) == full.subrange(0, j as int).map_values(
                |e: (i64, Seq<char>)| e.1,
            ),
        decreases sorted.len() - j,
    {
        assert(full[j as int].1 == sorted@[j as int].1@);
        let ghost before = out@.map_values(|s: String| s@);
        out.push(sorted[j].1.clone());
        assert(out@.map_values(|s: String| s@) =~= before.push(full[j as int].1));
        assert(full.subrange(0, j + 1).map_values(|e: (i64, Seq<char>)| e.1) =~= full.subrange(
            0,
            j as int,
        ).map_values(|e: (i64, Seq<char>)| e.1).push(full[j as int].1));
        j = j + 1;
        assert(out@.map_values(|s: String| s@) =~= full.subrange(0, j as int).map_values(
            |e: (i64, Seq<char>)| e.1,
        ));
    }
    assert(full.subrange(0, full.len() as int) =~= full);
    out
}

} // verus!
