use vstd::prelude::*;

use crate::normalize::{first_occurrences, lemma_first_occurrences};

verus! {

/// The text of a candidate's name.
pub type Name = Seq<char>;

/// The text of each string, in order.
pub open spec fn names_of(v: Seq<String>) -> Seq<Name> {
    v.map_values(|s: String| s@)
}

/// Each ballot as the sequence of names it ranks, first preference first.
pub open spec fn ballots_of(bs: Seq<Vec<String>>) -> Seq<Seq<Name>> {
    bs.map_values(|b: Vec<String>| names_of(b@))
}

/// A tally as (name, votes) pairs.
pub open spec fn tally_of(t: Seq<(String, u64)>) -> Seq<(Name, nat)> {
    t.map_values(|e: (String, u64)| (e.0@, e.1 as nat))
}

pub open spec fn name_of(o: Option<String>) -> Option<Name> {
    match o {
        Some(s) => Some(s@),
        None => None,
    }
}

/// The candidates of a contest, each once, in the order first listed.
pub open spec fn candidate_order(all: Seq<String>) -> Seq<Name> {
    first_occurrences(names_of(all))
}

/// The first name on ballot `b` that is still in `act`.
pub open spec fn first_active(b: Seq<Name>, act: Seq<Name>) -> Option<Name>
    decreases b.len(),
{
    if b.len() == 0 {
        None
    } else if act.contains(b[0]) {
        Some(b[0])
    } else {
        first_active(b.drop_first(), act)
    }
}

/// How many ballots count for `c` while `act` is the set of active candidates.
pub open spec fn votes_for(bs: Seq<Seq<Name>>, act: Seq<Name>, c: Name) -> nat
    decreases bs.len(),
{
    if bs.len() == 0 {
        0
    } else {
        votes_for(bs.drop_last(), act, c) + if first_active(bs.last(), act) == Some(c) {
            1nat
        } else {
            0nat
        }
    }
}

/// How many ballots still rank some candidate of `act`.
pub open spec fn continuing(bs: Seq<Seq<Name>>, act: Seq<Name>) -> nat
    decreases bs.len(),
{
    if bs.len() == 0 {
        0
    } else {
        continuing(bs.drop_last(), act) + if first_active(bs.last(), act) is Some {
            1nat
        } else {
            0nat
        }
    }
}

/// The tally of a round: every active candidate, in order, with its votes.
pub open spec fn round_tally(bs: Seq<Seq<Name>>, act: Seq<Name>) -> Seq<(Name, nat)> {
    act.map_values(|c: Name| (c, votes_for(bs, act, c)))
}

pub open spec fn tally_sum(t: Seq<(Name, nat)>) -> nat
    decreases t.len(),
{
    if t.len() == 0 {
        0
    } else {
        tally_sum(t.drop_last()) + t.last().1
    }
}

/// The largest vote count of a tally; 0 for an empty one.
pub open spec fn tally_max(t: Seq<(Name, nat)>) -> nat
    decreases t.len(),
{
    if t.len() == 0 {
        0
    } else if tally_max(t.drop_last()) >= t.last().1 {
        tally_max(t.drop_last())
    } else {
        t.last().1
    }
}

/// The smallest vote count of a tally; 0 for an empty one.
pub open spec fn tally_min(t: Seq<(Name, nat)>) -> nat
    decreases t.len(),
{
    if t.len() == 0 {
        0
    } else if t.len() == 1 {
        t[0].1
    } else if tally_min(t.drop_last()) <= t.last().1 {
        tally_min(t.drop_last())
    } else {
        t.last().1
    }
}

/// A tally wins with at least this many votes: more than half the total.
pub open spec fn majority_threshold(t: Seq<(Name, nat)>) -> nat {
    tally_sum(t) / 2 + 1
}

/// The first position at or after `i` whose count is `v`, or `t.len()`.
pub open spec fn first_with_from(t: Seq<(Name, nat)>, v: nat, i: int) -> int
    decreases t.len() - i,
{
    if i >= t.len() {
        t.len() as int
    } else if t[i].1 == v {
        i
    } else {
        first_with_from(t, v, i + 1)
    }
}

/// The winner of a round, if any: with a majority, or as the last one
/// standing. Among equal leaders the one listed first wins.
pub open spec fn round_winner(bs: Seq<Seq<Name>>, act: Seq<Name>) -> Option<Name> {
    let t = round_tally(bs, act);
    if t.len() > 0 && (tally_max(t) >= majority_threshold(t) || t.len() <= 1) {
        Some(t[first_with_from(t, tally_max(t), 0)].0)
    } else {
        None
    }
}

/// The names of a tally whose count is `v`, in order.
pub open spec fn names_with(t: Seq<(Name, nat)>, v: nat) -> Seq<Name>
    decreases t.len(),
{
    if t.len() == 0 {
        Seq::empty()
    } else if t.last().1 == v {
        names_with(t.drop_last(), v).push(t.last().0)
    } else {
        names_with(t.drop_last(), v)
    }
}

/// The names of a tally whose count is not `v`, in order.
pub open spec fn names_without(t: Seq<(Name, nat)>, v: nat) -> Seq<Name>
    decreases t.len(),
{
    if t.len() == 0 {
        Seq::empty()
    } else if t.last().1 != v {
        names_without(t.drop_last(), v).push(t.last().0)
    } else {
        names_without(t.drop_last(), v)
    }
}

/// Those eliminated in a round without a winner: all tied at the minimum.
pub open spec fn round_eliminated(bs: Seq<Seq<Name>>, act: Seq<Name>) -> Seq<Name> {
    if round_winner(bs, act) is Some {
        Seq::empty()
    } else {
        let t = round_tally(bs, act);
        names_with(t, tally_min(t))
    }
}

/// The candidates still active after a round.
pub open spec fn survivors(bs: Seq<Seq<Name>>, act: Seq<Name>) -> Seq<Name> {
    if round_winner(bs, act) is Some {
        act
    } else {
        let t = round_tally(bs, act);
        names_without(t, tally_min(t))
    }
}

/// The most rounds a tabulation runs.
pub const MAX_ROUNDS: i64 = 50;

/// The active candidates of round `r` and of each round after it: a run ends
/// with a winner, when no candidate is left, or at the round cap.
pub open spec fn active_sets(bs: Seq<Seq<Name>>, act: Seq<Name>, r: int) -> Seq<Seq<Name>>
    decreases MAX_ROUNDS - r,
{
    if round_winner(bs, act) is Some || survivors(bs, act).len() == 0 || r >= MAX_ROUNDS {
        seq![act]
    } else {
        seq![act] + active_sets(bs, survivors(bs, act), r + 1)
    }
}

/// The active candidates of each round of a full tabulation.
pub open spec fn rounds_of(bs: Seq<Seq<Name>>, cands: Seq<Name>) -> Seq<Seq<Name>> {
    active_sets(bs, cands, 1)
}

/// The result of one round.
#[derive(Clone, Debug)]
pub struct RoundResult {
    pub round: i64,
    pub tally: Vec<(String, u64)>,
    pub eliminated: Vec<String>,
}

impl RoundResult {
    /// This is round number `n` of a run over `bs` with `act` active.
    pub open spec fn describes(&self, bs: Seq<Seq<Name>>, act: Seq<Name>, n: int) -> bool {
        &&& self.round == n
        &&& tally_of(self.tally@) == round_tally(bs, act)
        &&& names_of(self.eliminated@) == round_eliminated(bs, act)
    }
}

/// All rounds of a tabulation, and its winner if it has one.
#[derive(Clone, Debug)]
pub struct TabulationResults {
    pub rounds: Vec<RoundResult>,
    pub winner: Option<String>,
}

/// Where `s` first stands in `v`.
fn find_name(v: &Vec<String>, s: &String) -> (r: Option<usize>)
    ensures
        match r {
            Some(j) => j < v@.len() && v@[j as int]@ == s@ && forall|k: int|
                0 <= k < j ==> v@[k]@ != s@,
            None => !names_of(v@).contains(s@),
        },
{
    let mut i: usize = 0;
    while i < v.len()
        invariant
            0 <= i <= v@.len(),
            forall|k: int| 0 <= k < i ==> v@[k]@ != s@,
        decreases v.len() - i,
    {
        if v[i] == *s {
            return Some(i);
        }
        i = i + 1;
    }
    proof {
        if names_of(v@).contains(s@) {
            let k = choose|k: int| 0 <= k < v@.len() && names_of(v@)[k] == s@;
            assert(v@[k]@ == s@);
        }
    }
    None
}

/// The position in `active` of the first name on `ballot` that is active.
fn first_active_index(ballot: &Vec<String>, active: &Vec<String>) -> (r: Option<usize>)
    ensures
        match r {
            Some(j) => j < active@.len() && first_active(names_of(ballot@), names_of(active@))
                == Some(names_of(active@)[j as int]),
            None => first_active(names_of(ballot@), names_of(active@)) is None,
        },
{
    let ghost b = names_of(ballot@);
    let ghost act = names_of(active@);
    assert(b.subrange(0, b.len() as int) =~= b);
    let mut k: usize = 0;
    while k < ballot.len()
        invariant
            b == names_of(ballot@),
            act == names_of(active@),
            0 <= k <= b.len(),
            first_active(b, act) == first_active(b.subrange(k as int, b.len() as int), act),
        decreases ballot.len() - k,
    {
        let ghost rest = b.subrange(k as int, b.len() as int);
        assert(rest[0] == b[k as int]);
        assert(rest.drop_first() =~= b.subrange(k + 1, b.len() as int));
        match find_name(active, &ballot[k]) {
            Some(j) => {
                assert(act[j as int] == b[k as int]);
                return Some(j);
            },
            None => {},
        }
        k = k + 1;
    }
    assert(b.subrange(k as int, b.len() as int).len() == 0);
    None
}

/// Copies of the names of `all`, each once, in the order first listed.
fn distinct_names(all: &Vec<String>) -> (r: Vec<String>)
    ensures
        names_of(r@) == candidate_order(all@),
        names_of(r@).no_duplicates(),
{
    let mut out: Vec<String> = Vec::new();
    let mut i: usize = 0;
    while i < all.len()
        invariant
            0 <= i <= all@.len(),
            names_of(out@) == first_occurrences(names_of(all@).subrange(0, i as int)),
        decreases all.len() - i,
    {
        let ghost pre = names_of(all@).subrange(0, i as int);
        let ghost next = names_of(all@).subrange(0, i + 1);
        assert(next.drop_last() =~= pre);
        proof {
            lemma_first_occurrences(pre);
        }
        match find_name(&out, &all[i]) {
            Some(j) => {
                assert(names_of(out@)[j as int] == next.last());
            },
            None => {
                out.push(all[i].clone());
                assert(names_of(out@) =~= first_occurrences(pre).push(next.last()));
            },
        }
        i = i + 1;
    }
    assert(names_of(all@).subrange(0, all@.len() as int) =~= names_of(all@));
    proof {
        lemma_first_occurrences(names_of(all@));
    }
    out
}

/// The sum of the votes of the names in `l`.
pub open spec fn sum_votes(bs: Seq<Seq<Name>>, act: Seq<Name>, l: Seq<Name>) -> nat
    decreases l.len(),
{
    if l.len() == 0 {
        0
    } else {
        sum_votes(bs, act, l.drop_last()) + votes_for(bs, act, l.last())
    }
}

/// How many names of `l` equal the one in `x`.
pub open spec fn hits(l: Seq<Name>, x: Option<Name>) -> nat
    decreases l.len(),
{
    if l.len() == 0 {
        0
    } else {
        hits(l.drop_last(), x) + if x == Some(l.last()) {
            1nat
        } else {
            0nat
        }
    }
}

proof fn lemma_tally_sum_is_sum_votes(bs: Seq<Seq<Name>>, act: Seq<Name>, l: Seq<Name>)
    ensures
        tally_sum(l.map_values(|c: Name| (c, votes_for(bs, act, c)))) == sum_votes(bs, act, l),
    decreases l.len(),
{
    if l.len() > 0 {
        lemma_tally_sum_is_sum_votes(bs, act, l.drop_last());
        assert(l.map_values(|c: Name| (c, votes_for(bs, act, c))).drop_last() =~= l.drop_last().map_values(
            |c: Name| (c, votes_for(bs, act, c)),
        ));
    }
}

proof fn lemma_sum_votes_split(bs: Seq<Seq<Name>>, act: Seq<Name>, l: Seq<Name>)
    requires
        bs.len() > 0,
    ensures
        sum_votes(bs, act, l) == sum_votes(bs.drop_last(), act, l) + hits(
            l,
            first_active(bs.last(), act),
        ),
    decreases l.len(),
{
    if l.len() > 0 {
        lemma_sum_votes_split(bs, act, l.drop_last());
    }
}

proof fn lemma_hits_distinct(l: Seq<Name>, x: Option<Name>)
    requires
        l.no_duplicates(),
    ensures
        hits(l, x) == if x is Some && l.contains(x->0) {
            1nat
        } else {
            0nat
        },
    decreases l.len(),
{
    if l.len() > 0 {
        let p = l.drop_last();
        assert(p.no_duplicates()) by {
            assert forall|a: int, b: int| 0 <= a < b < p.len() implies p[a] != p[b] by {
                assert(p[a] == l[a] && p[b] == l[b]);
            }
        }
        lemma_hits_distinct(p, x);
        if x is Some {
            let y = x->0;
            if p.contains(y) {
                let j = choose|j: int| 0 <= j < p.len() && p[j] == y;
                assert(l[j] == y);
                assert(l[l.len() - 1] != l[j]);
            }
            if l.contains(y) && !p.contains(y) {
                let j = choose|j: int| 0 <= j < l.len() && l[j] == y;
                if j < l.len() - 1 {
                    assert(p[j] == y);
                }
            }
            if p.contains(y) {
                let j = choose|j: int| 0 <= j < p.len() && p[j] == y;
                assert(l[j] == y);
            }
            if y == l.last() {
                assert(l[l.len() - 1] == y);
            }
        }
    }
}

proof fn lemma_first_active_is_active(b: Seq<Name>, act: Seq<Name>)
    ensures
        first_active(b, act) is Some ==> act.contains(first_active(b, act)->0),
    decreases b.len(),
{
    if b.len() > 0 && !act.contains(b[0]) {
        lemma_first_active_is_active(b.drop_first(), act);
    }
}

/// The votes of a round add up to the number of ballots that still rank an
/// active candidate.
pub proof fn lemma_tally_sum_is_continuing(bs: Seq<Seq<Name>>, act: Seq<Name>)
    requires
        act.no_duplicates(),
    ensures
        tally_sum(round_tally(bs, act)) == continuing(bs, act),
    decreases bs.len(),
{
    lemma_tally_sum_is_sum_votes(bs, act, act);
    lemma_sum_votes_continuing(bs, act);
}

proof fn lemma_sum_votes_no_ballots(bs: Seq<Seq<Name>>, act: Seq<Name>, l: Seq<Name>)
    requires
        bs.len() == 0,
    ensures
        sum_votes(bs, act, l) == 0,
    decreases l.len(),
{
    if l.len() > 0 {
        lemma_sum_votes_no_ballots(bs, act, l.drop_last());
    }
}

proof fn lemma_sum_votes_continuing(bs: Seq<Seq<Name>>, act: Seq<Name>)
    requires
        act.no_duplicates(),
    ensures
        sum_votes(bs, act, act) == continuing(bs, act),
    decreases bs.len(),
{
    if bs.len() == 0 {
        lemma_sum_votes_no_ballots(bs, act, act);
    } else {
        lemma_sum_votes_continuing(bs.drop_last(), act);
        lemma_sum_votes_split(bs, act, act);
        lemma_hits_distinct(act, first_active(bs.last(), act));
        lemma_first_active_is_active(bs.last(), act);
    }
}

proof fn lemma_names_without_from(t: Seq<(Name, nat)>, v: nat, x: Name)
    ensures
        names_without(t, v).contains(x) ==> exists|i: int| 0 <= i < t.len() && t[i].0 == x,
        names_with(t, v).contains(x) ==> exists|i: int| 0 <= i < t.len() && t[i].0 == x,
    decreases t.len(),
{
    if t.len() > 0 {
        let p = t.drop_last();
        lemma_names_without_from(p, v, x);
        if names_without(t, v).contains(x) {
            if names_without(p, v).contains(x) {
                let i = choose|i: int| 0 <= i < p.len() && p[i].0 == x;
                assert(t[i].0 == x);
            } else {
                let w = names_without(t, v);
                let j = choose|j: int| 0 <= j < w.len() && w[j] == x;
                assert(t[t.len() - 1].0 == x);
            }
        }
        if names_with(t, v).contains(x) {
            if names_with(p, v).contains(x) {
                let i = choose|i: int| 0 <= i < p.len() && p[i].0 == x;
                assert(t[i].0 == x);
            } else {
                let w = names_with(t, v);
                let j = choose|j: int| 0 <= j < w.len() && w[j] == x;
                assert(t[t.len() - 1].0 == x);
            }
        }
    }
}

/// Keys of a tally, in order.
pub open spec fn tally_names(t: Seq<(Name, nat)>) -> Seq<Name> {
    t.map_values(|e: (Name, nat)| e.0)
}

proof fn lemma_names_without_distinct(t: Seq<(Name, nat)>, v: nat)
    requires
        tally_names(t).no_duplicates(),
    ensures
        names_without(t, v).no_duplicates(),
        names_with(t, v).no_duplicates(),
    decreases t.len(),
{
    if t.len() > 0 {
        let p = t.drop_last();
        assert(tally_names(p).no_duplicates()) by {
            assert forall|a: int, b: int| 0 <= a < b < p.len() implies tally_names(p)[a] != tally_names(p)[b] by {
                assert(tally_names(t)[a] == tally_names(p)[a] && tally_names(t)[b] == tally_names(p)[b]);
            }
        }
        lemma_names_without_distinct(p, v);
        lemma_names_without_from(p, v, t.last().0);
        assert forall|i: int| 0 <= i < p.len() implies p[i].0 != t.last().0 by {
            assert(tally_names(t)[i] != tally_names(t)[t.len() - 1]);
        }
        let w = names_without(p, v);
        let w2 = names_with(p, v);
        assert(!w.contains(t.last().0));
        assert(!w2.contains(t.last().0));
        assert forall|a: int, b: int| 0 <= a < b < w.len() + 1 implies w.push(t.last().0)[a] != w.push(t.last().0)[b] by {
            if b == w.len() {
                assert(w[a] == w.push(t.last().0)[a]);
            }
        }
        assert forall|a: int, b: int| 0 <= a < b < w2.len() + 1 implies w2.push(t.last().0)[a] != w2.push(t.last().0)[b] by {
            if b == w2.len() {
                assert(w2[a] == w2.push(t.last().0)[a]);
            }
        }
    }
}

/// One round over `active`: its result, its winner, and who stays active.
fn tabulate_round(ballots: &Vec<Vec<String>>, active: &Vec<String>, round: i64) -> (r: (
    RoundResult,
    Option<String>,
    Vec<String>,
))
    requires
        names_of(active@).no_duplicates(),
    ensures
        r.0.describes(ballots_of(ballots@), names_of(active@), round as int),
        name_of(r.1) == round_winner(ballots_of(ballots@), names_of(active@)),
        names_of(r.2@) == survivors(ballots_of(ballots@), names_of(active@)),
        names_of(r.2@).no_duplicates(),
{
    let ghost bs = ballots_of(ballots@);
    let ghost act = names_of(active@);
    let ghost t = round_tally(bs, act);
    let mut counts: Vec<u64> = Vec::new();
    let mut j: usize = 0;
    while j < active.len()
        invariant
            0 <= j <= active@.len(),
            counts@.len() == j,
            forall|k: int| 0 <= k < j ==> counts@[k] == 0,
        decreases active.len() - j,
    {
        counts.push(0);
        j = j + 1;
    }
    let mut total: u64 = 0;
    let mut i: usize = 0;
    while i < ballots.len()
        invariant
            bs == ballots_of(ballots@),
            act == names_of(active@),
            act.no_duplicates(),
            0 <= i <= ballots@.len(),
            counts@.len() == act.len(),
            forall|k: int|
                0 <= k < act.len() ==> counts@[k] == votes_for(bs.subrange(0, i as int), act, act[k]),
            forall|k: int| 0 <= k < act.len() ==> counts@[k] <= i,
            total == continuing(bs.subrange(0, i as int), act),
            total <= i,
        decreases ballots.len() - i,
    {
        let ghost pre = bs.subrange(0, i as int);
        let ghost next = bs.subrange(0, i + 1);
        assert(next.drop_last() =~= pre);
        assert(next.last() == names_of(ballots@[i as int]@));
        match first_active_index(&ballots[i], active) {
            Some(j) => {
                let c = counts[j];
                counts.set(j, c + 1);
                total = total + 1;
                assert forall|k: int| 0 <= k < act.len() && k != j implies act[k] != act[j as int] by {}
            },
            None => {},
        }
        i = i + 1;
    }
    assert(bs.subrange(0, bs.len() as int) =~= bs);
    proof {
        lemma_tally_sum_is_continuing(bs, act);
    }
    let mut tally: Vec<(String, u64)> = Vec::new();
    let mut max: u64 = 0;
    let mut min: u64 = 0;
    let mut j: usize = 0;
    while j < active.len()
        invariant
            bs == ballots_of(ballots@),
            act == names_of(active@),
            t == round_tally(bs, act),
            0 <= j <= act.len(),
            counts@.len() == act.len(),
            forall|k: int| 0 <= k < act.len() ==> counts@[k] == votes_for(bs, act, act[k]),
            tally_of(tally@) == t.subrange(0, j as int),
            max == tally_max(t.subrange(0, j as int)),
            min == tally_min(t.subrange(0, j as int)),
        decreases active.len() - j,
    {
        let ghost p = t.subrange(0, j as int);
        let ghost q = t.subrange(0, j + 1);
        assert(q.drop_last() =~= p);
        assert(q.last() == (act[j as int], counts@[j as int] as nat));
        let c = counts[j];
        tally.push((active[j].clone(), c));
        if j == 0 || c > max {
            max = c;
        }
        if j == 0 || c < min {
            min = c;
        }
        assert(tally_of(tally@) =~= q);
        j = j + 1;
    }
    assert(t.subrange(0, act.len() as int) =~= t);
    let threshold = total / 2 + 1;
    let mut winner: Option<String> = None;
    if active.len() > 0 && (max >= threshold || active.len() <= 1) {
        let mut k: usize = 0;
        while k < active.len() && counts[k] != max
            invariant
                act == names_of(active@),
                t == round_tally(bs, act),
                counts@.len() == act.len(),
                forall|m: int| 0 <= m < act.len() ==> counts@[m] == votes_for(bs, act, act[m]),
                0 <= k <= act.len(),
                first_with_from(t, max as nat, 0) == first_with_from(t, max as nat, k as int),
            decreases active.len() - k,
        {
            k = k + 1;
        }
        proof {
            lemma_max_attained(t);
        }
        winner = Some(active[k].clone());
    }
    let decided = winner.is_some();
    let mut eliminated: Vec<String> = Vec::new();
    let mut remaining: Vec<String> = Vec::new();
    let mut j: usize = 0;
    while j < active.len()
        invariant
            act == names_of(active@),
            t == round_tally(bs, act),
            counts@.len() == act.len(),
            forall|m: int| 0 <= m < act.len() ==> counts@[m] == votes_for(bs, act, act[m]),
            0 <= j <= act.len(),
            names_of(remaining@) == if decided {
                act.subrange(0, j as int)
            } else {
                names_without(t.subrange(0, j as int), min as nat)
            },
            names_of(eliminated@) == if decided {
                Seq::<Name>::empty()
            } else {
                names_with(t.subrange(0, j as int), min as nat)
            },
        decreases active.len() - j,
    {
        let ghost p = t.subrange(0, j as int);
        let ghost q = t.subrange(0, j + 1);
        assert(q.drop_last() =~= p);
        assert(q.last() == (act[j as int], counts@[j as int] as nat));
        let ghost old_rem = names_of(remaining@);
        let ghost old_elim = names_of(eliminated@);
        if decided || counts[j] != min {
            remaining.push(active[j].clone());
            assert(names_of(remaining@) =~= old_rem.push(act[j as int]));
        } else {
            eliminated.push(active[j].clone());
            assert(names_of(eliminated@) =~= old_elim.push(act[j as int]));
        }
        assert(act.subrange(0, j + 1) =~= act.subrange(0, j as int).push(act[j as int]));
        assert(names_of(remaining@) =~= if decided {
            act.subrange(0, j + 1)
        } else {
            names_without(q, min as nat)
        });
        assert(names_of(eliminated@) =~= if decided {
            Seq::<Name>::empty()
        } else {
            names_with(q, min as nat)
        });
        j = j + 1;
    }
    assert(act.subrange(0, act.len() as int) =~= act);
    proof {
        assert(tally_names(t) =~= act);
        lemma_names_without_distinct(t, min as nat);
    }
    (RoundResult { round, tally, eliminated }, winner, remaining)
}

proof fn lemma_first_with_found(t: Seq<(Name, nat)>, v: nat, i: int, j: int)
    requires
        0 <= i <= j < t.len(),
        t[j].1 == v,
    ensures
        first_with_from(t, v, i) <= j,
    decreases j - i,
{
    if t[i].1 != v {
        lemma_first_with_found(t, v, i + 1, j);
    }
}

proof fn lemma_max_held(t: Seq<(Name, nat)>)
    requires
        t.len() > 0,
    ensures
        exists|j: int| 0 <= j < t.len() && t[j].1 == tally_max(t),
    decreases t.len(),
{
    if t.len() > 1 {
        let p = t.drop_last();
        lemma_max_held(p);
        if tally_max(p) >= t.last().1 {
            let j = choose|j: int| 0 <= j < p.len() && p[j].1 == tally_max(p);
            assert(t[j].1 == tally_max(t));
        } else {
            assert(t[t.len() - 1].1 == tally_max(t));
        }
    } else {
        assert(tally_max(t.drop_last()) == 0);
        assert(t[0].1 == tally_max(t));
    }
}

/// A nonempty tally holds its maximum.
proof fn lemma_max_attained(t: Seq<(Name, nat)>)
    requires
        t.len() > 0,
    ensures
        first_with_from(t, tally_max(t), 0) < t.len(),
{
    lemma_max_held(t);
    let j = choose|j: int| 0 <= j < t.len() && t[j].1 == tally_max(t);
    lemma_first_with_found(t, tally_max(t), 0, j);
}

proof fn lemma_active_sets_unfold(bs: Seq<Seq<Name>>, act: Seq<Name>, r: int)
    ensures
        active_sets(bs, act, r).len() >= 1,
        active_sets(bs, act, r)[0] == act,
        !(round_winner(bs, act) is Some || survivors(bs, act).len() == 0 || r >= MAX_ROUNDS)
            ==> active_sets(bs, act, r) == seq![act] + active_sets(bs, survivors(bs, act), r + 1),
        (round_winner(bs, act) is Some || survivors(bs, act).len() == 0 || r >= MAX_ROUNDS)
            ==> active_sets(bs, act, r) == seq![act],
    decreases MAX_ROUNDS - r,
{
    if !(round_winner(bs, act) is Some || survivors(bs, act).len() == 0 || r >= MAX_ROUNDS) {
        lemma_active_sets_unfold(bs, survivors(bs, act), r + 1);
    }
}

/// Instant-runoff tabulation. Each round every active candidate is tallied
/// with the ballots on which it is the first active choice. A candidate with
/// a majority of those votes, or the last one standing, wins; ties for the
/// lead go to the candidate listed first. Otherwise all candidates tied at
/// the fewest votes are eliminated together. The run ends without a winner
/// when nobody is left, or after `MAX_ROUNDS` rounds.
pub fn tabulate_rcv(ballots: &Vec<Vec<String>>, all_candidates: &Vec<String>) -> (r:
    TabulationResults)
    ensures
        ({
            let bs = ballots_of(ballots@);
            let acts = rounds_of(bs, candidate_order(all_candidates@));
            &&& r.rounds@.len() == acts.len()
            &&& forall|i: int|
                0 <= i < acts.len() ==> #[trigger] r.rounds@[i].describes(bs, acts[i], i + 1)
            &&& name_of(r.winner) == round_winner(bs, acts.last())
        }),
{
    let ghost bs = ballots_of(ballots@);
    let ghost cands = candidate_order(all_candidates@);
    let mut active = distinct_names(all_candidates);
    let mut rounds: Vec<RoundResult> = Vec::new();
    let mut round: i64 = 1;
    let ghost mut done: Seq<Seq<Name>> = Seq::empty();
    loop
        invariant
            bs == ballots_of(ballots@),
            cands == candidate_order(all_candidates@),
            1 <= round <= MAX_ROUNDS,
            done.len() == round - 1,
            rounds@.len() == done.len(),
            names_of(active@).no_duplicates(),
            rounds_of(bs, cands) == done + active_sets(bs, names_of(active@), round as int),
            forall|i: int| 0 <= i < done.len() ==> #[trigger] rounds@[i].describes(bs, done[i], i + 1),
        decreases MAX_ROUNDS - round,
    {
        let ghost act = names_of(active@);
        proof {
            lemma_active_sets_unfold(bs, act, round as int);
        }
        let (result, winner, remaining) = tabulate_round(ballots, &active, round);
        rounds.push(result);
        let ghost now = done.push(act);
        assert(forall|i: int| 0 <= i < now.len() ==> #[trigger] rounds@[i].describes(bs, now[i], i + 1));
        if winner.is_some() || remaining.len() == 0 || round >= MAX_ROUNDS {
            assert(rounds_of(bs, cands) =~= now);
            assert(now.last() == act);
            return TabulationResults { rounds, winner };
        }
        assert(rounds_of(bs, cands) =~= now + active_sets(bs, names_of(remaining@), round + 1));
        active = remaining;
        round = round + 1;
        proof {
            done = now;
        }
    }
}

proof fn lemma_drop_last_distinct<A>(s: Seq<A>)
    requires
        s.len() > 0,
        s.no_duplicates(),
    ensures
        s.drop_last().no_duplicates(),
        !s.drop_last().contains(s.last()),
{
    let p = s.drop_last();
    assert forall|a: int, b: int| 0 <= a < b < p.len() implies p[a] != p[b] by {
        assert(p[a] == s[a] && p[b] == s[b]);
    }
    if p.contains(s.last()) {
        let j = choose|j: int| 0 <= j < p.len() && p[j] == s.last();
        assert(s[j] == s[s.len() - 1]);
    }
}

proof fn lemma_names_partition(t: Seq<(Name, nat)>, v: nat)
    requires
        tally_names(t).no_duplicates(),
    ensures
        forall|x: Name|
            tally_names(t).contains(x) <==> (names_with(t, v).contains(x) || names_without(
                t,
                v,
            ).contains(x)),
        forall|x: Name| !(names_with(t, v).contains(x) && names_without(t, v).contains(x)),
    decreases t.len(),
{
    if t.len() > 0 {
        let p = t.drop_last();
        let y = t.last().0;
        assert(tally_names(p) =~= tally_names(t).drop_last());
        assert(tally_names(t).last() == y);
        lemma_drop_last_distinct(tally_names(t));
        lemma_names_partition(p, v);
        lemma_names_without_from(p, v, y);
        assert(!names_with(p, v).contains(y) && !names_without(p, v).contains(y)) by {
            if names_with(p, v).contains(y) || names_without(p, v).contains(y) {
                let i = choose|i: int| 0 <= i < p.len() && p[i].0 == y;
                assert(tally_names(p)[i] == y);
            }
        }
        assert forall|x: Name|
            tally_names(t).contains(x) <==> tally_names(p).contains(x) || x == y by {
            if tally_names(t).contains(x) {
                let i = choose|i: int| 0 <= i < t.len() && tally_names(t)[i] == x;
                if i < p.len() {
                    assert(tally_names(p)[i] == x);
                }
            }
            if tally_names(p).contains(x) {
                let i = choose|i: int| 0 <= i < p.len() && tally_names(p)[i] == x;
                assert(tally_names(t)[i] == x);
            }
            if x == y {
                assert(tally_names(t)[t.len() - 1] == x);
            }
        }
        let w = names_with(p, v);
        let o = names_without(p, v);
        assert forall|x: Name| w.push(y).contains(x) <==> (w.contains(x) || x == y) by {
            if w.push(y).contains(x) {
                let i = choose|i: int| 0 <= i < w.len() + 1 && w.push(y)[i] == x;
                if i < w.len() {
                    assert(w[i] == x);
                }
            }
            if w.contains(x) {
                let i = choose|i: int| 0 <= i < w.len() && w[i] == x;
                assert(w.push(y)[i] == x);
            }
            if x == y {
                assert(w.push(y)[w.len() as int] == x);
            }
        }
        assert forall|x: Name| o.push(y).contains(x) <==> (o.contains(x) || x == y) by {
            if o.push(y).contains(x) {
                let i = choose|i: int| 0 <= i < o.len() + 1 && o.push(y)[i] == x;
                if i < o.len() {
                    assert(o[i] == x);
                }
            }
            if o.contains(x) {
                let i = choose|i: int| 0 <= i < o.len() && o[i] == x;
                assert(o.push(y)[i] == x);
            }
            if x == y {
                assert(o.push(y)[o.len() as int] == x);
            }
        }
    }
}

/// What one round does to the active candidates: each is either
/// eliminated or stays, never both; a winner is one that stays.
pub proof fn lemma_round_split(bs: Seq<Seq<Name>>, act: Seq<Name>)
    requires
        act.no_duplicates(),
    ensures
        survivors(bs, act).no_duplicates(),
        forall|x: Name|
            act.contains(x) <==> (round_eliminated(bs, act).contains(x) || survivors(
                bs,
                act,
            ).contains(x)),
        forall|x: Name|
            !(round_eliminated(bs, act).contains(x) && survivors(bs, act).contains(x)),
        round_winner(bs, act) is Some ==> survivors(bs, act) == act && act.contains(
            round_winner(bs, act)->0,
        ),
{
    let t = round_tally(bs, act);
    assert(tally_names(t) =~= act);
    lemma_names_partition(t, tally_min(t));
    lemma_names_without_distinct(t, tally_min(t));
    if round_winner(bs, act) is Some {
        lemma_max_attained(t);
        let k = first_with_from(t, tally_max(t), 0);
        lemma_first_with_in_range(t, tally_max(t), 0);
        assert(t[k].0 == act[k]);
    }
}

proof fn lemma_first_with_in_range(t: Seq<(Name, nat)>, v: nat, i: int)
    requires
        0 <= i,
    ensures
        i <= first_with_from(t, v, i) || first_with_from(t, v, i) == t.len(),
        first_with_from(t, v, i) >= 0,
    decreases t.len() - i,
{
    if i < t.len() && t[i].1 != v {
        lemma_first_with_in_range(t, v, i + 1);
    }
}

/// The eliminated of round `i` of a run from `act`.
pub open spec fn eliminated_in(bs: Seq<Seq<Name>>, acts: Seq<Seq<Name>>, i: int) -> Seq<Name> {
    round_eliminated(bs, acts[i])
}

/// Over a run, every candidate active at the start is eliminated in exactly
/// one round or is still standing at the end, never both.
pub proof fn lemma_run_partition(bs: Seq<Seq<Name>>, act: Seq<Name>, r: int)
    requires
        act.no_duplicates(),
    ensures
        ({
            let acts = active_sets(bs, act, r);
            let left = survivors(bs, acts.last());
            &&& forall|x: Name|
                act.contains(x) <==> ((exists|i: int|
                    0 <= i < acts.len() && #[trigger] eliminated_in(bs, acts, i).contains(x))
                    || left.contains(x))
            &&& forall|i: int, x: Name|
                0 <= i < acts.len() && #[trigger] eliminated_in(bs, acts, i).contains(x)
                    ==> !left.contains(x) && forall|j: int|
                    i < j < acts.len() ==> !#[trigger] eliminated_in(bs, acts, j).contains(x)
            &&& round_winner(bs, acts.last()) is Some ==> left.contains(
                round_winner(bs, acts.last())->0,
            )
        }),
    decreases MAX_ROUNDS - r,
{
    lemma_active_sets_unfold(bs, act, r);
    lemma_round_split(bs, act);
    let acts = active_sets(bs, act, r);
    if round_winner(bs, act) is Some || survivors(bs, act).len() == 0 || r >= MAX_ROUNDS {
        assert(acts.last() == act);
        assert forall|x: Name|
            act.contains(x) <==> ((exists|i: int|
                0 <= i < acts.len() && #[trigger] eliminated_in(bs, acts, i).contains(x))
                || survivors(bs, act).contains(x)) by {
            if round_eliminated(bs, act).contains(x) {
                assert(eliminated_in(bs, acts, 0).contains(x));
            }
        }
    } else {
        let s = survivors(bs, act);
        let rest = active_sets(bs, s, r + 1);
        lemma_run_partition(bs, s, r + 1);
        lemma_active_sets_unfold(bs, s, r + 1);
        assert(acts.last() == rest.last());
        let left = survivors(bs, rest.last());
        assert forall|i: int| 0 <= i < rest.len() implies eliminated_in(bs, acts, i + 1)
            == #[trigger] eliminated_in(bs, rest, i) by {
            assert(acts[i + 1] == rest[i]);
        }
        assert forall|x: Name|
            act.contains(x) <==> ((exists|i: int|
                0 <= i < acts.len() && #[trigger] eliminated_in(bs, acts, i).contains(x))
                || left.contains(x)) by {
            if act.contains(x) {
                if round_eliminated(bs, act).contains(x) {
                    assert(eliminated_in(bs, acts, 0).contains(x));
                } else if !left.contains(x) {
                    let i = choose|i: int|
                        0 <= i < rest.len() && #[trigger] eliminated_in(bs, rest, i).contains(x);
                    assert(eliminated_in(bs, acts, i + 1).contains(x));
                }
            }
            if exists|i: int| 0 <= i < acts.len() && #[trigger] eliminated_in(bs, acts, i).contains(x) {
                let i = choose|i: int|
                    0 <= i < acts.len() && #[trigger] eliminated_in(bs, acts, i).contains(x);
                if i > 0 {
                    assert(eliminated_in(bs, rest, i - 1).contains(x));
                }
            }
        }
        assert forall|i: int, x: Name|
            0 <= i < acts.len() && #[trigger] eliminated_in(bs, acts, i).contains(x) implies !left.contains(x)
            && forall|j: int| i < j < acts.len() ==> !#[trigger] eliminated_in(bs, acts, j).contains(x) by {
            if i == 0 {
                assert(!s.contains(x));
                assert forall|j: int| i < j < acts.len() implies !#[trigger] eliminated_in(bs, acts, j).contains(x) by {
                    if eliminated_in(bs, acts, j).contains(x) {
                        assert(eliminated_in(bs, rest, j - 1).contains(x));
                    }
                }
            } else {
                assert(eliminated_in(bs, rest, i - 1).contains(x));
                assert forall|j: int| i < j < acts.len() implies !#[trigger] eliminated_in(bs, acts, j).contains(x) by {
                    assert(eliminated_in(bs, acts, j) == eliminated_in(bs, rest, j - 1));
                }
            }
        }
    }
}

/// When the candidates left standing at the end are at most the winner,
/// every candidate is either eliminated in exactly one round or is the
/// winner, and the winner is never eliminated.
pub proof fn lemma_eliminated_and_winner_cover_candidates(bs: Seq<Seq<Name>>, all: Seq<String>)
    requires
        ({
            let acts = rounds_of(bs, candidate_order(all));
            forall|x: Name|
                survivors(bs, acts.last()).contains(x) ==> round_winner(bs, acts.last()) == Some(
                    x,
                )
        }),
    ensures
        ({
            let acts = rounds_of(bs, candidate_order(all));
            let w = round_winner(bs, acts.last());
            &&& forall|x: Name|
                candidate_order(all).contains(x) <==> ((exists|i: int|
                    0 <= i < acts.len() && #[trigger] eliminated_in(bs, acts, i).contains(x)) || w
                    == Some(x))
            &&& forall|i: int, j: int, x: Name|
                0 <= i < j < acts.len() && #[trigger] eliminated_in(bs, acts, i).contains(x)
                    ==> !#[trigger] eliminated_in(bs, acts, j).contains(x)
            &&& forall|i: int, x: Name|
                0 <= i < acts.len() && #[trigger] eliminated_in(bs, acts, i).contains(x) ==> w
                    != Some(x)
        }),
{
    let cands = candidate_order(all);
    lemma_first_occurrences(names_of(all));
    lemma_run_partition(bs, cands, 1);
    let acts = rounds_of(bs, cands);
    let left = survivors(bs, acts.last());
    let w = round_winner(bs, acts.last());
    assert forall|x: Name| left.contains(x) <==> w == Some(x) by {
        if w == Some(x) {
            assert(left.contains(w->0));
        }
    }
    assert forall|i: int, j: int, x: Name|
        0 <= i < j < acts.len() && #[trigger] eliminated_in(bs, acts, i).contains(x)
            implies !#[trigger] eliminated_in(bs, acts, j).contains(x) by {
        assert(forall|k: int|
            i < k < acts.len() ==> !#[trigger] eliminated_in(bs, acts, k).contains(x));
    }
}

proof fn lemma_first_active_narrows(b: Seq<Name>, small: Seq<Name>, big: Seq<Name>)
    requires
        forall|x: Name| small.contains(x) ==> big.contains(x),
    ensures
        first_active(b, small) is Some ==> first_active(b, big) is Some,
    decreases b.len(),
{
    if b.len() > 0 && !small.contains(b[0]) && !big.contains(b[0]) {
        lemma_first_active_narrows(b.drop_first(), small, big);
    }
}

proof fn lemma_continuing_narrows(bs: Seq<Seq<Name>>, small: Seq<Name>, big: Seq<Name>)
    requires
        forall|x: Name| small.contains(x) ==> big.contains(x),
    ensures
        continuing(bs, small) <= continuing(bs, big),
    decreases bs.len(),
{
    if bs.len() > 0 {
        lemma_continuing_narrows(bs.drop_last(), small, big);
        lemma_first_active_narrows(bs.last(), small, big);
    }
}

proof fn lemma_totals_from(bs: Seq<Seq<Name>>, act: Seq<Name>, r: int)
    requires
        act.no_duplicates(),
    ensures
        forall|i: int|
            0 <= i < active_sets(bs, act, r).len() - 1 ==> tally_sum(
                round_tally(bs, #[trigger] active_sets(bs, act, r)[i + 1]),
            ) <= tally_sum(round_tally(bs, active_sets(bs, act, r)[i])),
    decreases MAX_ROUNDS - r,
{
    lemma_active_sets_unfold(bs, act, r);
    if !(round_winner(bs, act) is Some || survivors(bs, act).len() == 0 || r >= MAX_ROUNDS) {
        let s = survivors(bs, act);
        let acts = active_sets(bs, act, r);
        let rest = active_sets(bs, s, r + 1);
        lemma_round_split(bs, act);
        lemma_totals_from(bs, s, r + 1);
        lemma_active_sets_unfold(bs, s, r + 1);
        lemma_tally_sum_is_continuing(bs, act);
        lemma_tally_sum_is_continuing(bs, s);
        lemma_continuing_narrows(bs, s, act);
        assert forall|i: int| 0 <= i < acts.len() - 1 implies tally_sum(
            round_tally(bs, #[trigger] acts[i + 1]),
        ) <= tally_sum(round_tally(bs, acts[i])) by {
            if i > 0 {
                let k = i - 1;
                assert(acts[i] == rest[k]);
                assert(acts[i + 1] == rest[k + 1]);
                assert(tally_sum(round_tally(bs, rest[k + 1])) <= tally_sum(round_tally(bs, rest[k])));
            } else {
                assert(acts[1] == s);
            }
        }
    }
}

/// The total of a round's tally never exceeds that of the round before:
/// once a ballot stops counting it never counts again.
pub proof fn lemma_round_totals_never_grow(bs: Seq<Seq<Name>>, all: Seq<String>)
    ensures
        ({
            let acts = rounds_of(bs, candidate_order(all));
            forall|i: int|
                0 <= i < acts.len() - 1 ==> tally_sum(round_tally(bs, #[trigger] acts[i + 1]))
                    <= tally_sum(round_tally(bs, acts[i]))
        }),
{
    lemma_first_occurrences(names_of(all));
    lemma_totals_from(bs, candidate_order(all), 1);
}

} // verus!
