use vstd::prelude::*;

verus! {

/// Contest-scoped identity of a candidate: its position in the contest's
/// candidate list.
#[derive(Clone, Copy, Debug, PartialEq, Eq, Hash, PartialOrd, Ord, Structural)]
pub struct CandidateId(pub u32);

/// How a candidate came to be on the ballot.
#[derive(Clone, Copy, Debug, PartialEq, Eq, Hash, Structural)]
pub enum CandidateType {
    Regular,
    WriteIn,
    QualifiedWriteIn,
}

impl CandidateType {
    /// The name under which the type is stored and reported.
    pub fn name(&self) -> (r: String)
        ensures
            r@ == candidate_type_name(*self),
    {
        match self {
            CandidateType::Regular => String::from_str("Regular"),
            CandidateType::WriteIn => String::from_str("WriteIn"),
            CandidateType::QualifiedWriteIn => String::from_str("QualifiedWriteIn"),
        }
    }
}

pub open spec fn candidate_type_name(t: CandidateType) -> Seq<char> {
    match t {
        CandidateType::Regular => "Regular"@,
        CandidateType::WriteIn => "WriteIn"@,
        CandidateType::QualifiedWriteIn => "QualifiedWriteIn"@,
    }
}

/// A candidate of one contest.
#[derive(Clone, Debug)]
pub struct Candidate {
    pub name: String,
    pub candidate_type: CandidateType,
}

impl Candidate {
    pub fn new(name: String, candidate_type: CandidateType) -> (r: Candidate)
        ensures
            r.name@ == name@,
            r.candidate_type == candidate_type,
    {
        Candidate { name, candidate_type }
    }
}

/// One ranked position on one ballot.
#[derive(Clone, Copy, Debug, PartialEq, Eq, Structural)]
pub enum Choice {
    Vote(CandidateId),
    Undervote,
    Overvote,
}

/// A raw ballot: its identifier and its choices, rank 1 first.
#[derive(Clone, Debug)]
pub struct Ballot {
    pub id: String,
    pub choices: Vec<Choice>,
}

impl Ballot {
    pub fn new(id: String, choices: Vec<Choice>) -> (r: Ballot)
        ensures
            r.id@ == id@,
            r.choices@ == choices@,
    {
        Ballot { id, choices }
    }
}

/// A ballot after a normalization rule: distinct candidates in order of
/// preference, and whether an overvote ended it.
#[derive(Clone, Debug)]
pub struct NormalizedBallot {
    pub id: String,
    pub choices: Vec<CandidateId>,
    pub overvoted: bool,
}

impl NormalizedBallot {
    /// No candidate appears twice among the choices.
    pub open spec fn wf(&self) -> bool {
        self.choices@.no_duplicates()
    }

    pub fn new(id: String, choices: Vec<CandidateId>, overvoted: bool) -> (r: NormalizedBallot)
        requires
            choices@.no_duplicates(),
        ensures
            r.wf(),
            r.id@ == id@,
            r.choices@ == choices@,
            r.overvoted == overvoted,
    {
        NormalizedBallot { id, choices, overvoted }
    }

    /// The choices, first preference first.
    pub fn choices(&self) -> (r: Vec<CandidateId>)
        ensures
            r@ == self.choices@,
    {
        self.choices.clone()
    }
}

/// What extraction yields for one contest.
#[derive(Clone, Debug)]
pub struct Election {
    pub candidates: Vec<Candidate>,
    pub ballots: Vec<Ballot>,
}

impl Election {
    pub fn new(candidates: Vec<Candidate>, ballots: Vec<Ballot>) -> (r: Election)
        ensures
            r.candidates@ == candidates@,
            r.ballots@ == ballots@,
    {
        Election { candidates, ballots }
    }
}

} // verus!
