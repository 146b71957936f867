use vstd::prelude::*;

use crate::model::CandidateType;

verus! {

/// A stored jurisdiction.
#[derive(Clone, Debug)]
pub struct JurisdictionInfo {
    pub id: i64,
    pub path: String,
    pub name: String,
    pub kind: String,
}

/// A stored candidate of a contest.
#[derive(Clone, Debug)]
pub struct CandidateInfo {
    pub id: i64,
    pub contest_id: i64,
    pub external_id: Option<String>,
    pub name: String,
    pub candidate_type: CandidateType,
}

/// A stored ballot of a contest.
#[derive(Clone, Debug)]
pub struct BallotInfo {
    pub id: i64,
    pub contest_id: i64,
    pub ballot_id: String,
    pub precinct_id: Option<String>,
}

/// A stored choice of a ballot.
#[derive(Clone, Debug)]
pub struct ChoiceInfo {
    pub id: i64,
    pub ballot_id: i64,
    pub candidate_id: Option<i64>,
    pub rank_position: i64,
    pub choice_type: String,
}

/// A stored contest of an election.
#[derive(Clone, Debug)]
pub struct ContestInfo {
    pub id: i64,
    pub election_id: i64,
    pub office: String,
    pub office_name: String,
    pub jurisdiction_name: Option<String>,
    pub jurisdiction_code: Option<String>,
}

/// A stage of ingestion, as timed and stored.
#[derive(Clone, Copy, Debug, PartialEq, Eq, Structural)]
pub enum IngestionStage {
    Discovery,
    FileReading,
    DatabaseInsertion,
    Validation,
    Complete,
}

pub open spec fn stage_name(s: IngestionStage) -> Seq<char> {
    match s {
        IngestionStage::Discovery => "discovery"@,
        IngestionStage::FileReading => "file_reading"@,
        IngestionStage::DatabaseInsertion => "database_insertion"@,
        IngestionStage::Validation => "validation"@,
        IngestionStage::Complete => "complete"@,
    }
}

impl IngestionStage {
    /// The name under which the stage is stored.
    pub fn name(&self) -> (r: String)
        ensures
            r@ == stage_name(*self),
    {
        match self {
            IngestionStage::Discovery => String::from_str("discovery"),
            IngestionStage::FileReading => String::from_str("file_reading"),
            IngestionStage::DatabaseInsertion => String::from_str("database_insertion"),
            IngestionStage::Validation => String::from_str("validation"),
            IngestionStage::Complete => String::from_str("complete"),
        }
    }
}

} // verus!
