use vstd::prelude::*;

use std::collections::BTreeMap;

verus! {

/// A body that oversees elections for one or more constituencies.
pub struct Jurisdiction {
    /// Name of the district.
    pub name: String,
    /// Path to the district, e.g. <country>/<state>/<city>.
    pub path: String,
    /// Kind of electoral commission, e.g. municipal, state.
    pub kind: String,
    /// Elected positions by id.
    pub offices: BTreeMap<String, Office>,
    /// Elections under this commission, by path.
    pub elections: BTreeMap<String, ElectionMetadata>,
}

/// An elected office in a constituency.
pub struct Office {
    pub name: String,
}

/// One election of a jurisdiction.
pub struct ElectionMetadata {
    pub name: String,
    pub date: String,
    pub data_format: String,
    pub tabulation_options: Option<TabulationOptions>,
    pub normalization: String,
    pub contests: Vec<Contest>,
    /// Content hash of each raw file, by file name.
    pub files: BTreeMap<String, String>,
    pub website: Option<String>,
}

/// How an election's contests are tabulated.
#[derive(Clone, Debug)]
pub struct TabulationOptions {
    pub eager: Option<bool>,
}

impl Default for TabulationOptions {
    fn default() -> (r: TabulationOptions)
        ensures
            r.eager == Some(true),
    {
        TabulationOptions { eager: Some(true) }
    }
}

/// A contest of an election and what its loader needs.
pub struct Contest {
    pub office: String,
    pub loader_params: Option<BTreeMap<String, String>>,
}

} // verus!
