use vstd::prelude::*;

use crate::model::{Candidate, CandidateId, CandidateType, Choice};

verus! {

/// A known candidate: its external code, name and type.
pub type Entry = (u32, Seq<char>, CandidateType);

/// The position of the entry with external code `code`, or -1.
pub open spec fn code_index(entries: Seq<Entry>, code: u32) -> int
    decreases entries.len(),
{
    if entries.len() == 0 {
        -1
    } else if code_index(entries.drop_last(), code) >= 0 {
        code_index(entries.drop_last(), code)
    } else if entries.last().0 == code {
        entries.len() - 1
    } else {
        -1
    }
}

/// The entries after resolving `code`: unchanged when the code is known,
/// else with a new entry for it at the end.
pub open spec fn resolve_entries(entries: Seq<Entry>, code: u32, name: Seq<char>, t: CandidateType) -> Seq<
    Entry,
> {
    if code_index(entries, code) >= 0 {
        entries
    } else {
        entries.push((code, name, t))
    }
}

/// The id that `code` resolves to.
pub open spec fn resolved_id(entries: Seq<Entry>, code: u32) -> int {
    if code_index(entries, code) >= 0 {
        code_index(entries, code)
    } else {
        entries.len() as int
    }
}

/// Assigns contest-scoped candidate ids by external code: the first
/// occurrence of a code allocates the next id, later ones reuse it.
#[derive(Clone, Debug)]
pub struct CandidateMap {
    pub codes: Vec<u32>,
    pub candidates: Vec<Candidate>,
}

impl CandidateMap {
    /// One candidate per code, in order of first occurrence.
    pub open spec fn entries(&self) -> Seq<Entry> {
        Seq::new(
            self.codes@.len(),
            |i: int|
                (self.codes@[i], self.candidates@[i].name@, self.candidates@[i].candidate_type),
        )
    }

    pub open spec fn wf(&self) -> bool {
        self.codes@.len() == self.candidates@.len()
    }

    pub fn new() -> (r: CandidateMap)
        ensures
            r.wf(),
            r.entries() == Seq::<Entry>::empty(),
    {
        let r = CandidateMap { codes: Vec::new(), candidates: Vec::new() };
        assert(r.entries() =~= Seq::<Entry>::empty());
        r
    }

    /// The vote for the candidate with external code `code`, registering
    /// `candidate` under it when the code is new.
    pub fn add_id_to_choice(&mut self, code: u32, candidate: Candidate) -> (r: Choice)
        requires
            old(self).wf(),
            resolved_id(old(self).entries(), code) < u32::MAX,
        ensures
            final(self).wf(),
            final(self).entries() == resolve_entries(
                old(self).entries(),
                code,
                candidate.name@,
                candidate.candidate_type,
            ),
            r == Choice::Vote(CandidateId(resolved_id(old(self).entries(), code) as u32)),
    {
        let ghost es = self.entries();
        let mut i: usize = 0;
        while i < self.codes.len()
            invariant
                self.wf(),
                es == self.entries(),
                0 <= i <= self.codes@.len(),
                code_index(es.subrange(0, i as int), code) == -1,
            decreases self.codes.len() - i,
        {
            let ghost p = es.subrange(0, i + 1);
            assert(p.drop_last() =~= es.subrange(0, i as int));
            if self.codes[i] == code {
                proof {
                    lemma_code_index_prefix(es, code, i + 1);
                }
                return Choice::Vote(CandidateId(i as u32));
            }
            i = i + 1;
        }
        assert(es.subrange(0, es.len() as int) =~= es);
        let id = self.codes.len() as u32;
        self.codes.push(code);
        self.candidates.push(candidate);
        assert(self.entries() =~= es.push((code, candidate.name@, candidate.candidate_type)));
        Choice::Vote(CandidateId(id))
    }

    /// The candidates, in order of their ids.
    pub fn into_vec(self) -> (r: Vec<Candidate>)
        ensures
            r@ == self.candidates@,
    {
        self.candidates
    }
}

/// Once a prefix holds the code, the whole sequence finds it there.
proof fn lemma_code_index_prefix(es: Seq<Entry>, code: u32, n: int)
    requires
        0 < n <= es.len(),
        code_index(es.subrange(0, n), code) >= 0,
    ensures
        code_index(es, code) == code_index(es.subrange(0, n), code),
    decreases es.len() - n,
{
    if n < es.len() {
        let p = es.subrange(0, n + 1);
        assert(p.drop_last() =~= es.subrange(0, n));
        lemma_code_index_prefix(es, code, n + 1);
    } else {
        assert(es.subrange(0, n) =~= es);
    }
}

} // verus!
