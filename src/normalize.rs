use vstd::prelude::*;

use crate::model::{Ballot, CandidateId, Choice, NormalizedBallot};

verus! {

/// Position `i` ends the processing of `cs`: an overvote, or the second of
/// two undervotes in a row.
pub open spec fn ends_ballot(cs: Seq<Choice>, i: int) -> bool {
    cs[i] is Overvote || (i > 0 && cs[i - 1] is Undervote && cs[i] is Undervote)
}

/// The first position at or after `i` that ends the ballot, or `cs.len()`.
pub open spec fn end_from(cs: Seq<Choice>, i: int) -> int
    decreases cs.len() - i,
{
    if i >= cs.len() {
        cs.len() as int
    } else if ends_ballot(cs, i) {
        i
    } else {
        end_from(cs, i + 1)
    }
}

/// How many leading positions of `cs` the sequential-skip rule reads.
pub open spec fn processed_len(cs: Seq<Choice>) -> int {
    end_from(cs, 0)
}

/// The candidates voted for in `cs`, in order, repeats included.
pub open spec fn votes_in(cs: Seq<Choice>) -> Seq<CandidateId>
    decreases cs.len(),
{
    if cs.len() == 0 {
        Seq::empty()
    } else {
        let rest = votes_in(cs.drop_last());
        match cs.last() {
            Choice::Vote(c) => rest.push(c),
            _ => rest,
        }
    }
}

/// `s` with every repeat of an earlier element left out.
pub open spec fn first_occurrences<A>(s: Seq<A>) -> Seq<A>
    decreases s.len(),
{
    if s.len() == 0 {
        Seq::empty()
    } else {
        let d = first_occurrences(s.drop_last());
        if d.contains(s.last()) {
            d
        } else {
            d.push(s.last())
        }
    }
}

/// The choices that the sequential-skip rule keeps.
pub open spec fn skip_rule_choices(cs: Seq<Choice>) -> Seq<CandidateId> {
    first_occurrences(votes_in(cs.subrange(0, processed_len(cs))))
}

/// Whether the sequential-skip rule stops at an overvote.
pub open spec fn skip_rule_overvoted(cs: Seq<Choice>) -> bool {
    processed_len(cs) < cs.len() && cs[processed_len(cs)] is Overvote
}

/// A sequence of candidates written as a ballot of plain votes.
pub open spec fn as_votes(ids: Seq<CandidateId>) -> Seq<Choice> {
    ids.map_values(|c: CandidateId| Choice::Vote(c))
}

pub proof fn lemma_first_occurrences<A>(s: Seq<A>)
    ensures
        first_occurrences(s).no_duplicates(),
        forall|x: A| first_occurrences(s).contains(x) <==> s.contains(x),
    decreases s.len(),
{
    if s.len() > 0 {
        lemma_first_occurrences(s.drop_last());
        assert forall|x: A| s.contains(x) <==> (s.drop_last().contains(x) || x == s.last()) by {
            if s.contains(x) {
                let j = choose|j: int| 0 <= j < s.len() && s[j] == x;
                if j < s.len() - 1 {
                    assert(s.drop_last()[j] == x);
                }
            }
            if s.drop_last().contains(x) {
                let j = choose|j: int| 0 <= j < s.len() - 1 && s.drop_last()[j] == x;
                assert(s[j] == x);
            }
            if x == s.last() {
                assert(s[s.len() - 1] == x);
            }
        }
        let d = first_occurrences(s.drop_last());
        assert forall|x: A| d.push(s.last()).contains(x) <==> (d.contains(x) || x == s.last()) by {
            if d.push(s.last()).contains(x) {
                let j = choose|j: int| 0 <= j < d.len() + 1 && d.push(s.last())[j] == x;
                if j < d.len() {
                    assert(d[j] == x);
                }
            }
            if d.contains(x) {
                let j = choose|j: int| 0 <= j < d.len() && d[j] == x;
                assert(d.push(s.last())[j] == x);
            }
            if x == s.last() {
                assert(d.push(s.last())[d.len() as int] == x);
            }
        }
    }
}

proof fn lemma_end_from_bounds(cs: Seq<Choice>, i: int)
    requires
        0 <= i <= cs.len(),
    ensures
        i <= end_from(cs, i) <= cs.len(),
        forall|j: int| i <= j < end_from(cs, i) ==> !ends_ballot(cs, j),
        end_from(cs, i) < cs.len() ==> ends_ballot(cs, end_from(cs, i)),
    decreases cs.len() - i,
{
    if i < cs.len() && !ends_ballot(cs, i) {
        lemma_end_from_bounds(cs, i + 1);
    }
}

proof fn lemma_no_duplicates_fixed(s: Seq<CandidateId>)
    requires
        s.no_duplicates(),
    ensures
        first_occurrences(s) == s,
    decreases s.len(),
{
    if s.len() > 0 {
        let p = s.drop_last();
        assert(p.no_duplicates()) by {
            assert forall|a: int, b: int| 0 <= a < b < p.len() implies p[a] != p[b] by {
                assert(p[a] == s[a] && p[b] == s[b]);
            }
        }
        lemma_no_duplicates_fixed(p);
        lemma_first_occurrences(p);
        assert(!p.contains(s.last())) by {
            if p.contains(s.last()) {
                let j = choose|j: int| 0 <= j < p.len() && p[j] == s.last();
                assert(s[j] == s[s.len() - 1]);
            }
        }
        assert(p.push(s.last()) =~= s);
    }
}

proof fn lemma_votes_of_plain(ids: Seq<CandidateId>)
    ensures
        votes_in(as_votes(ids)) == ids,
    decreases ids.len(),
{
    if ids.len() > 0 {
        lemma_votes_of_plain(ids.drop_last());
        assert(as_votes(ids).drop_last() =~= as_votes(ids.drop_last()));
        assert(ids.drop_last().push(ids.last()) =~= ids);
    }
}

/// Normalizing the outcome of a normalization, written as plain votes,
/// changes nothing: the same candidates come out, and no overvote.
pub proof fn lemma_skip_rule_idempotent(cs: Seq<Choice>)
    ensures
        skip_rule_choices(cs).no_duplicates(),
        skip_rule_choices(as_votes(skip_rule_choices(cs))) == skip_rule_choices(cs),
        !skip_rule_overvoted(as_votes(skip_rule_choices(cs))),
{
    let out = skip_rule_choices(cs);
    lemma_first_occurrences(votes_in(cs.subrange(0, processed_len(cs))));
    let vs = as_votes(out);
    lemma_end_from_bounds(vs, 0);
    if processed_len(vs) < vs.len() {
        let k = processed_len(vs);
        assert(vs[k] == Choice::Vote(out[k]));
    }
    assert(vs.subrange(0, processed_len(vs)) =~= vs);
    lemma_votes_of_plain(out);
    lemma_no_duplicates_fixed(out);
}

/// The sequential-skip rule: duplicate votes collapse onto the first, two
/// undervotes in a row exhaust the ballot, and an overvote ends it.
pub fn maine_normalizer(ballot: Ballot) -> (r: NormalizedBallot)
    ensures
        r.wf(),
        r.id@ == ballot.id@,
        r.choices@ == skip_rule_choices(ballot.choices@),
        r.overvoted == skip_rule_overvoted(ballot.choices@),
{
    let Ballot { id, choices } = ballot;
    let ghost cs = choices@;
    proof {
        lemma_end_from_bounds(cs, 0);
    }
    let mut new_choices: Vec<CandidateId> = Vec::new();
    let mut last_skipped = false;
    let mut overvoted = false;
    let mut i: usize = 0;
    while i < choices.len()
        invariant_except_break
            !overvoted,
        invariant
            cs == choices@,
            0 <= i <= processed_len(cs),
            processed_len(cs) <= cs.len(),
            forall|j: int| 0 <= j < processed_len(cs) ==> !ends_ballot(cs, j),
            processed_len(cs) < cs.len() ==> ends_ballot(cs, processed_len(cs)),
            new_choices@ == first_occurrences(votes_in(cs.subrange(0, i as int))),
            last_skipped == (i > 0 && cs[i - 1] is Undervote),
        ensures
            i == processed_len(cs),
            new_choices@ == first_occurrences(votes_in(cs.subrange(0, i as int))),
            overvoted == (i < cs.len() && cs[i as int] is Overvote),
        decreases choices.len() - i,
    {
        let ghost before = cs.subrange(0, i as int);
        assert(cs.subrange(0, i + 1).drop_last() =~= before);
        assert(cs.subrange(0, i + 1).last() == cs[i as int]);
        match choices[i] {
            Choice::Vote(v) => {
                proof {
                    lemma_first_occurrences(votes_in(before));
                    assert(votes_in(before).push(v).drop_last() =~= votes_in(before));
                }
                if !contains_id(&new_choices, v) {
                    new_choices.push(v);
                }
                last_skipped = false;
            },
            Choice::Undervote => {
                if last_skipped {
                    assert(ends_ballot(cs, i as int));
                    break;
                }
                last_skipped = true;
            },
            Choice::Overvote => {
                overvoted = true;
                assert(ends_ballot(cs, i as int));
                break;
            },
        }
        i = i + 1;
    }
    proof {
        lemma_first_occurrences(votes_in(cs.subrange(0, i as int)));
    }
    NormalizedBallot::new(id, new_choices, overvoted)
}

/// Whether `v` holds `c`.
fn contains_id(v: &Vec<CandidateId>, c: CandidateId) -> (r: bool)
    ensures
        r == v@.contains(c),
{
    let mut i: usize = 0;
    while i < v.len()
        invariant
            0 <= i <= v.len(),
            forall|j: int| 0 <= j < i ==> v@[j] != c,
        decreases v.len() - i,
    {
        if v[i] == c {
            return true;
        }
        i = i + 1;
    }
    false
}

} // verus!
