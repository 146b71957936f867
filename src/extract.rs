use vstd::prelude::*;

use std::collections::HashMap;

use crate::discover::{parse_u32, u32_of_text};
use crate::header::{digit_value, header_parts, in_rank_range, parse_header};
use crate::model::{Ballot, Candidate, CandidateId, CandidateType, Choice, Election};
use crate::resolver::{resolve_entries, resolved_id, CandidateMap, Entry};
use crate::text::{chars_of, same_text};

verus! {

broadcast use vstd::std_specs::hash::group_hash_axioms;

/// Why the ballots of a contest could not be read.
#[derive(Clone, Debug)]
pub enum ExtractError {
    /// A loader parameter is missing.
    MissingParameter(String),
    /// A column header has a rank or total outside 1..=5.
    RankOutOfRange { column: usize },
    /// No column holds the ballot identifier.
    MissingIdColumn,
    /// A row has no cell in a column that is needed.
    MissingCell { row: usize, column: usize },
    /// A cell is neither a marker nor a candidate code.
    InvalidCandidateCode { row: usize, column: usize },
    /// A candidate code is absent from the mapping table.
    UnknownCandidate { row: usize, code: u32 },
    /// More candidates than ids can number.
    TooManyCandidates,
    /// The file-name pattern is not a valid regular expression.
    InvalidFilePattern,
}

/// What a contest's loader needs.
#[derive(Clone, Debug)]
pub struct ReaderOptions {
    pub office_name: String,
    pub jurisdiction_name: String,
    pub candidates_file: String,
    pub cvr_pattern: String,
}

/// The value of the first parameter named `key`.
pub open spec fn param_value(ps: Seq<(String, String)>, key: Seq<char>) -> Option<Seq<char>>
    decreases ps.len(),
{
    if ps.len() == 0 {
        None
    } else if ps[0].0@ == key {
        Some(ps[0].1@)
    } else {
        param_value(ps.drop_first(), key)
    }
}

fn find_param(params: &Vec<(String, String)>, key: &str) -> (r: Option<String>)
    ensures
        match r {
            Some(v) => param_value(params@, key@) == Some(v@),
            None => param_value(params@, key@) is None,
        },
{
    let mut i: usize = 0;
    assert(params@.subrange(0, params@.len() as int) =~= params@);
    while i < params.len()
        invariant
            0 <= i <= params@.len(),
            param_value(params@, key@) == param_value(
                params@.subrange(i as int, params@.len() as int),
                key@,
            ),
        decreases params.len() - i,
    {
        let ghost rest = params@.subrange(i as int, params@.len() as int);
        assert(rest[0] == params@[i as int]);
        assert(rest.drop_first() =~= params@.subrange(i + 1, params@.len() as int));
        if same_text(params[i].0.as_str(), key) {
            return Some(params[i].1.clone());
        }
        i = i + 1;
    }
    None
}

impl ReaderOptions {
    /// The options named by a contest's loader parameters.
    pub open spec fn from_params_spec(&self, ps: Seq<(String, String)>) -> bool {
        &&& param_value(ps, "officeName"@) == Some(self.office_name@)
        &&& param_value(ps, "jurisdictionName"@) == Some(self.jurisdiction_name@)
        &&& param_value(ps, "candidatesFile"@) == Some(self.candidates_file@)
        &&& param_value(ps, "cvrPattern"@) == Some(self.cvr_pattern@)
    }

    /// Reads the options from loader parameters; the first of "officeName",
    /// "jurisdictionName", "candidatesFile" and "cvrPattern" that is missing
    /// is reported.
    pub fn from_params(params: &Vec<(String, String)>) -> (r: Result<ReaderOptions, ExtractError>)
        ensures
            match r {
                Ok(o) => o.from_params_spec(params@),
                Err(e) => e matches ExtractError::MissingParameter(k) && (if param_value(
                    params@,
                    "officeName"@,
                ) is None {
                    k@ == "officeName"@
                } else if param_value(params@, "jurisdictionName"@) is None {
                    k@ == "jurisdictionName"@
                } else if param_value(params@, "candidatesFile"@) is None {
                    k@ == "candidatesFile"@
                } else {
                    k@ == "cvrPattern"@ && param_value(params@, "cvrPattern"@) is None
                }),
            },
    {
        let office_name = match find_param(params, "officeName") {
            Some(v) => v,
            None => {
                return Err(ExtractError::MissingParameter(String::from_str("officeName")));
            },
        };
        let jurisdiction_name = match find_param(params, "jurisdictionName") {
            Some(v) => v,
            None => {
                return Err(ExtractError::MissingParameter(String::from_str("jurisdictionName")));
            },
        };
        let candidates_file = match find_param(params, "candidatesFile") {
            Some(v) => v,
            None => {
                return Err(ExtractError::MissingParameter(String::from_str("candidatesFile")));
            },
        };
        let cvr_pattern = match find_param(params, "cvrPattern") {
            Some(v) => v,
            None => {
                return Err(ExtractError::MissingParameter(String::from_str("cvrPattern")));
            },
        };
        Ok(ReaderOptions { office_name, jurisdiction_name, candidates_file, cvr_pattern })
    }
}

/// The header of the ballot identifier column.
pub open spec fn is_id_header(h: Seq<char>) -> bool {
    h == "Cast Vote Record"@
}

/// A ranked-choice header whose rank or total is out of range.
pub open spec fn is_bad_header(h: Seq<char>) -> bool {
    &&& !is_id_header(h)
    &&& header_parts(h) is Some
    &&& !(in_rank_range(header_parts(h)->0.rank) && in_rank_range(header_parts(h)->0.total))
}

/// The column for rank `r` of the contest of `office` in `jurisdiction`.
pub open spec fn is_rank_header(h: Seq<char>, office: Seq<char>, jurisdiction: Seq<char>, r: int) -> bool {
    let p = header_parts(h)->0;
    &&& !is_id_header(h)
    &&& header_parts(h) is Some
    &&& in_rank_range(p.rank) && in_rank_range(p.total)
    &&& p.office == office
    &&& p.jurisdiction == jurisdiction
    &&& digit_value(p.rank[0]) == r
}

/// The last column of `hs` for rank `r`, or -1.
pub open spec fn rank_column(hs: Seq<Seq<char>>, office: Seq<char>, jurisdiction: Seq<char>, r: int) -> int
    decreases hs.len(),
{
    if hs.len() == 0 {
        -1
    } else if is_rank_header(hs.last(), office, jurisdiction, r) {
        hs.len() - 1
    } else {
        rank_column(hs.drop_last(), office, jurisdiction, r)
    }
}

/// The last identifier column of `hs`, or -1.
pub open spec fn id_column(hs: Seq<Seq<char>>) -> int
    decreases hs.len(),
{
    if hs.len() == 0 {
        -1
    } else if is_id_header(hs.last()) {
        hs.len() - 1
    } else {
        id_column(hs.drop_last())
    }
}

/// The columns of ranks 1 to `r` that are present, rank order.
pub open spec fn rank_columns_upto(
    hs: Seq<Seq<char>>,
    office: Seq<char>,
    jurisdiction: Seq<char>,
    r: int,
) -> Seq<usize>
    decreases r,
{
    if r <= 0 {
        Seq::empty()
    } else {
        let p = rank_columns_upto(hs, office, jurisdiction, r - 1);
        let c = rank_column(hs, office, jurisdiction, r);
        if c >= 0 {
            p.push(c as usize)
        } else {
            p
        }
    }
}

/// The first column of `hs` with a bad header, or -1.
pub open spec fn first_bad(hs: Seq<Seq<char>>) -> int
    decreases hs.len(),
{
    if hs.len() == 0 {
        -1
    } else if first_bad(hs.drop_last()) >= 0 {
        first_bad(hs.drop_last())
    } else if is_bad_header(hs.last()) {
        hs.len() - 1
    } else {
        -1
    }
}

/// The identifier column and the rank columns of a contest in a file with
/// headers `hs`.
pub open spec fn layout_of(hs: Seq<Seq<char>>, office: Seq<char>, jurisdiction: Seq<char>) -> Result<
    (usize, Seq<usize>),
    ExtractError,
> {
    if first_bad(hs) >= 0 {
        Err(ExtractError::RankOutOfRange { column: first_bad(hs) as usize })
    } else if id_column(hs) < 0 {
        Err(ExtractError::MissingIdColumn)
    } else {
        Ok((id_column(hs) as usize, rank_columns_upto(hs, office, jurisdiction, 5)))
    }
}

proof fn lemma_first_bad_persists(hs: Seq<Seq<char>>, n: int)
    requires
        0 <= n <= hs.len(),
        first_bad(hs.subrange(0, n)) >= 0,
    ensures
        first_bad(hs) == first_bad(hs.subrange(0, n)),
    decreases hs.len() - n,
{
    if n < hs.len() {
        assert(hs.subrange(0, n + 1).drop_last() =~= hs.subrange(0, n));
        lemma_first_bad_persists(hs, n + 1);
    } else {
        assert(hs.subrange(0, n) =~= hs);
    }
}

/// Where a file keeps the ballot identifier and each rank of one contest.
#[derive(Clone, Debug)]
pub struct ColumnLayout {
    pub id_column: usize,
    pub rank_columns: Vec<usize>,
}

pub open spec fn texts(v: Seq<String>) -> Seq<Seq<char>> {
    v.map_values(|s: String| s@)
}

/// Locates the identifier column and the columns of each rank of the
/// contest of `office` in `jurisdiction`. A header that fits the grammar
/// with a rank out of range is an error, as is a file without identifier.
#[verifier::loop_isolation(false)]
pub fn column_layout(headers: &Vec<String>, office: &str, jurisdiction: &str) -> (r: Result<
    ColumnLayout,
    ExtractError,
>)
    ensures
        match layout_of(texts(headers@), office@, jurisdiction@) {
            Ok((id, cols)) => r matches Ok(l) && l.id_column == id && l.rank_columns@ == cols,
            Err(e) => r is Err && r->Err_0 == e,
        },
{
    proof {
        reveal_strlit("Cast Vote Record");
    }
    let ghost hs = texts(headers@);
    let mut id: Option<usize> = None;
    let mut slots: Vec<Option<usize>> = Vec::new();
    let mut s: usize = 0;
    while s < 5
        invariant
            0 <= s <= 5,
            slots@.len() == s,
            forall|k: int| 0 <= k < s ==> slots@[k] is None,
        decreases 5 - s,
    {
        slots.push(None);
        s = s + 1;
    }
    let mut i: usize = 0;
    while i < headers.len()
        invariant
            0 <= i <= hs.len(),
            slots@.len() == 5,
            first_bad(hs.subrange(0, i as int)) == -1,
            match id {
                Some(c) => c == id_column(hs.subrange(0, i as int)),
                None => id_column(hs.subrange(0, i as int)) == -1,
            },
            forall|k: int|
                0 <= k < 5 ==> match #[trigger] slots@[k] {
                    Some(c) => c == rank_column(hs.subrange(0, i as int), office@, jurisdiction@, k + 1),
                    None => rank_column(hs.subrange(0, i as int), office@, jurisdiction@, k + 1) == -1,
                },
        decreases headers.len() - i,
    {
        let ghost pre = hs.subrange(0, i as int);
        let ghost next = hs.subrange(0, i + 1);
        assert(next.drop_last() =~= pre);
        assert(next.last() == headers@[i as int]@);
        let h = headers[i].as_str();
        if same_text(h, "Cast Vote Record") {
            id = Some(i);
        } else {
            match parse_header(h) {
                Err(_) => {
                    proof {
                        lemma_first_bad_persists(hs, i + 1);
                    }
                    return Err(ExtractError::RankOutOfRange { column: i });
                },
                Ok(None) => {},
                Ok(Some(c)) => {
                    if same_text(c.office.as_str(), office) && same_text(c.jurisdiction.as_str(), jurisdiction) {
                        let slot = (c.rank - 1) as usize;
                        slots.set(slot, Some(i));
                    }
                },
            }
        }
        i = i + 1;
    }
    assert(hs.subrange(0, hs.len() as int) =~= hs);
    let id_col = match id {
        Some(c) => c,
        None => {
            return Err(ExtractError::MissingIdColumn);
        },
    };
    let mut cols: Vec<usize> = Vec::new();
    let mut k: usize = 0;
    while k < 5
        invariant
            0 <= k <= 5,
            slots@.len() == 5,
            cols@ == rank_columns_upto(hs, office@, jurisdiction@, k as int),
            forall|m: int|
                0 <= m < 5 ==> match #[trigger] slots@[m] {
                    Some(c) => c == rank_column(hs, office@, jurisdiction@, m + 1),
                    None => rank_column(hs, office@, jurisdiction@, m + 1) == -1,
                },
        decreases 5 - k,
    {
        match slots[k] {
            Some(c) => {
                cols.push(c);
            },
            None => {},
        }
        k = k + 1;
    }
    Ok(ColumnLayout { id_column: id_col, rank_columns: cols })
}

/// Why a cell does not resolve to a choice.
#[derive(Clone, Copy, Debug, PartialEq, Eq, Structural)]
pub enum CellFault {
    NotACode,
    Unknown(u32),
    NoIdLeft,
}

/// The entries after `code` is resolved, and the vote for it; `None` when a
/// new id would not fit.
pub open spec fn vote_step(es: Seq<Entry>, code: u32, name: Seq<char>, t: CandidateType) -> Option<
    (Seq<Entry>, Choice),
> {
    if resolved_id(es, code) >= u32::MAX {
        None
    } else {
        Some(
            (
                resolve_entries(es, code, name, t),
                Choice::Vote(CandidateId(resolved_id(es, code) as u32)),
            ),
        )
    }
}

/// What a cell holds, given the candidates known so far and the table of
/// candidate names by code.
pub open spec fn cell_step(es: Seq<Entry>, table: Map<u32, String>, v: Seq<char>) -> Result<
    (Seq<Entry>, Choice),
    CellFault,
> {
    if v == "undervote"@ {
        Ok((es, Choice::Undervote))
    } else if v == "overvote"@ {
        Ok((es, Choice::Overvote))
    } else if v == "Write-in"@ {
        match vote_step(es, 0, "Write-in"@, CandidateType::WriteIn) {
            Some(x) => Ok(x),
            None => Err(CellFault::NoIdLeft),
        }
    } else {
        match u32_of_text(v) {
            None => Err(CellFault::NotACode),
            Some(code) => if !table.contains_key(code) {
                Err(CellFault::Unknown(code))
            } else {
                match vote_step(es, code, table[code]@, CandidateType::Regular) {
                    Some(x) => Ok(x),
                    None => Err(CellFault::NoIdLeft),
                }
            },
        }
    }
}

/// Classifies one cell: a marker, a write-in or a candidate code of the
/// table, resolved through `resolver`.
pub fn choice_of_cell(value: &str, table: &HashMap<u32, String>, resolver: &mut CandidateMap) -> (r:
    Result<Choice, CellFault>)
    requires
        old(resolver).wf(),
    ensures
        final(resolver).wf(),
        match cell_step(old(resolver).entries(), table@, value@) {
            Ok((es, c)) => r == Ok::<Choice, CellFault>(c) && final(resolver).entries() == es,
            Err(f) => r == Err::<Choice, CellFault>(f) && final(resolver).entries() == old(
                resolver,
            ).entries(),
        },
{
    proof {
        reveal_strlit("undervote");
        reveal_strlit("overvote");
        reveal_strlit("Write-in");
    }
    if same_text(value, "undervote") {
        return Ok(Choice::Undervote);
    }
    if same_text(value, "overvote") {
        return Ok(Choice::Overvote);
    }
    if same_text(value, "Write-in") {
        return add_vote(resolver, 0, String::from_str("Write-in"), CandidateType::WriteIn);
    }
    let chars = chars_of(value);
    match parse_u32(&chars) {
        None => Err(CellFault::NotACode),
        Some(code) => match table.get(&code) {
            None => Err(CellFault::Unknown(code)),
            Some(name) => add_vote(resolver, code, name.clone(), CandidateType::Regular),
        },
    }
}

fn add_vote(resolver: &mut CandidateMap, code: u32, name: String, t: CandidateType) -> (r: Result<
    Choice,
    CellFault,
>)
    requires
        old(resolver).wf(),
    ensures
        final(resolver).wf(),
        match vote_step(old(resolver).entries(), code, name@, t) {
            Some((es, c)) => r == Ok::<Choice, CellFault>(c) && final(resolver).entries() == es,
            None => r == Err::<Choice, CellFault>(CellFault::NoIdLeft) && final(resolver).entries()
                == old(resolver).entries(),
        },
{
    let ghost es = resolver.entries();
    let mut i: usize = 0;
    while i < resolver.codes.len() && resolver.codes[i] != code
        invariant
            resolver.wf(),
            es == resolver.entries(),
            0 <= i <= resolver.codes@.len(),
            forall|j: int| 0 <= j < i ==> es[j].0 != code,
        decreases resolver.codes.len() - i,
    {
        i = i + 1;
    }
    proof {
        if i < es.len() {
            lemma_known_code(es, code, i as int);
        } else {
            lemma_unknown_code(es, code, i as int);
        }
    }
    if i >= u32::MAX as usize {
        return Err(CellFault::NoIdLeft);
    }
    Ok(resolver.add_id_to_choice(code, Candidate::new(name, t)))
}

proof fn lemma_unknown_code(es: Seq<Entry>, code: u32, n: int)
    requires
        n == es.len(),
        forall|j: int| 0 <= j < n ==> es[j].0 != code,
    ensures
        crate::resolver::code_index(es, code) == -1,
    decreases es.len(),
{
    if es.len() > 0 {
        lemma_unknown_code(es.drop_last(), code, n - 1);
    }
}

proof fn lemma_known_code(es: Seq<Entry>, code: u32, i: int)
    requires
        0 <= i < es.len(),
        es[i].0 == code,
        forall|j: int| 0 <= j < i ==> es[j].0 != code,
    ensures
        crate::resolver::code_index(es, code) == i,
    decreases es.len(),
{
    if i < es.len() - 1 {
        lemma_known_code(es.drop_last(), code, i);
    } else {
        lemma_unknown_code(es.drop_last(), code, i);
    }
}

/// The error a cell fault becomes at `row`, `column`.
pub open spec fn fault_error(f: CellFault, row: usize, column: usize) -> ExtractError {
    match f {
        CellFault::NotACode => ExtractError::InvalidCandidateCode { row, column },
        CellFault::Unknown(code) => ExtractError::UnknownCandidate { row, code },
        CellFault::NoIdLeft => ExtractError::TooManyCandidates,
    }
}

/// The choices of row `row` read from columns `cols`, in order, and the
/// candidates known after them.
pub open spec fn row_choices(
    es: Seq<Entry>,
    table: Map<u32, String>,
    cells: Seq<Seq<char>>,
    cols: Seq<usize>,
    row: usize,
) -> Result<(Seq<Entry>, Seq<Choice>), ExtractError>
    decreases cols.len(),
{
    if cols.len() == 0 {
        Ok((es, Seq::empty()))
    } else {
        match row_choices(es, table, cells, cols.drop_last(), row) {
            Err(e) => Err(e),
            Ok((es1, cs)) => {
                let c = cols.last();
                if c >= cells.len() {
                    Err(ExtractError::MissingCell { row, column: c })
                } else {
                    match cell_step(es1, table, cells[c as int]) {
                        Ok((es2, ch)) => Ok((es2, cs.push(ch))),
                        Err(f) => Err(fault_error(f, row, c)),
                    }
                }
            },
        }
    }
}

/// The ballots of `rows`, each its identifier and its choices, and the
/// candidates known after them.
pub open spec fn rows_ballots(
    es: Seq<Entry>,
    table: Map<u32, String>,
    rows: Seq<Seq<Seq<char>>>,
    id_col: usize,
    cols: Seq<usize>,
) -> Result<(Seq<Entry>, Seq<(Seq<char>, Seq<Choice>)>), ExtractError>
    decreases rows.len(),
{
    if rows.len() == 0 {
        Ok((es, Seq::empty()))
    } else {
        match rows_ballots(es, table, rows.drop_last(), id_col, cols) {
            Err(e) => Err(e),
            Ok((es1, bs)) => {
                let cells = rows.last();
                let row = (rows.len() - 1) as usize;
                if id_col >= cells.len() {
                    Err(ExtractError::MissingCell { row, column: id_col })
                } else {
                    match row_choices(es1, table, cells, cols, row) {
                        Err(e) => Err(e),
                        Ok((es2, cs)) => Ok((es2, bs.push((cells[id_col as int], cs)))),
                    }
                }
            },
        }
    }
}

pub open spec fn row_texts(rows: Seq<Vec<String>>) -> Seq<Seq<Seq<char>>> {
    rows.map_values(|r: Vec<String>| texts(r@))
}

pub open spec fn ballot_views(bs: Seq<Ballot>) -> Seq<(Seq<char>, Seq<Choice>)> {
    bs.map_values(|b: Ballot| (b.id@, b.choices@))
}

/// Reads one ballot per data row: its identifier, then one choice per rank
/// column in rank order. A missing or unreadable cell, or an unknown
/// candidate code, is an error.
#[verifier::loop_isolation(false)]
pub fn read_ballots(
    rows: &Vec<Vec<String>>,
    layout: &ColumnLayout,
    table: &HashMap<u32, String>,
    resolver: &mut CandidateMap,
) -> (r: Result<Vec<Ballot>, ExtractError>)
    requires
        old(resolver).wf(),
    ensures
        final(resolver).wf(),
        match rows_ballots(
            old(resolver).entries(),
            table@,
            row_texts(rows@),
            layout.id_column,
            layout.rank_columns@,
        ) {
            Ok((es, bs)) => r is Ok && final(resolver).entries() == es && ballot_views(r->Ok_0@) == bs,
            Err(e) => r is Err && r->Err_0 == e,
        },
{
    let ghost es0 = resolver.entries();
    let ghost rs = row_texts(rows@);
    let ghost cols = layout.rank_columns@;
    let mut out: Vec<Ballot> = Vec::new();
    let mut i: usize = 0;
    while i < rows.len()
        invariant
            resolver.wf(),
            rs == row_texts(rows@),
            cols == layout.rank_columns@,
            0 <= i <= rows@.len(),
            rows_ballots(es0, table@, rs.subrange(0, i as int), layout.id_column, cols) matches Ok(
                (es, bs),
            ) && resolver.entries() == es && ballot_views(out@) == bs,
        decreases rows.len() - i,
    {
        let ghost pre = rs.subrange(0, i as int);
        let ghost next = rs.subrange(0, i + 1);
        assert(next.drop_last() =~= pre);
        let ghost cells = rs[i as int];
        assert(next.last() == cells);
        let row = &rows[i];
        assert(cells == texts(row@));
        if layout.id_column >= row.len() {
            proof {
                lemma_rows_error_persists(es0, table@, rs, layout.id_column, cols, i + 1);
            }
            return Err(ExtractError::MissingCell { row: i, column: layout.id_column });
        }
        let ghost es_row = resolver.entries();
        let mut choices: Vec<Choice> = Vec::new();
        let mut j: usize = 0;
        while j < layout.rank_columns.len()
            invariant
                resolver.wf(),
                cells == texts(row@),
                cols == layout.rank_columns@,
                0 <= j <= cols.len(),
                row_choices(es_row, table@, cells, cols.subrange(0, j as int), i) matches Ok((es, cs))
                    && resolver.entries() == es && choices@ == cs,
            decreases layout.rank_columns.len() - j,
        {
            let ghost cpre = cols.subrange(0, j as int);
            let ghost cnext = cols.subrange(0, j + 1);
            assert(cnext.drop_last() =~= cpre);
            let c = layout.rank_columns[j];
            if c >= row.len() {
                proof {
                    lemma_row_error_persists(es_row, table@, cells, cols, i, j + 1);
                    lemma_rows_error_persists(es0, table@, rs, layout.id_column, cols, i + 1);
                }
                return Err(ExtractError::MissingCell { row: i, column: c });
            }
            match choice_of_cell(row[c].as_str(), table, resolver) {
                Ok(ch) => {
                    choices.push(ch);
                },
                Err(f) => {
                    let e = match f {
                        CellFault::NotACode => ExtractError::InvalidCandidateCode { row: i, column: c },
                        CellFault::Unknown(code) => ExtractError::UnknownCandidate { row: i, code },
                        CellFault::NoIdLeft => ExtractError::TooManyCandidates,
                    };
                    proof {
                        lemma_row_error_persists(es_row, table@, cells, cols, i, j + 1);
                        lemma_rows_error_persists(es0, table@, rs, layout.id_column, cols, i + 1);
                    }
                    return Err(e);
                },
            }
            j = j + 1;
        }
        assert(cols.subrange(0, cols.len() as int) =~= cols);
        assert(row[layout.id_column as int]@ == cells[layout.id_column as int]);
        out.push(Ballot::new(row[layout.id_column].clone(), choices));
        assert(ballot_views(out@) =~= rows_ballots(es0, table@, next, layout.id_column, cols)->Ok_0.1);
        i = i + 1;
    }
    assert(rs.subrange(0, rs.len() as int) =~= rs);
    Ok(out)
}

proof fn lemma_row_error_persists(
    es: Seq<Entry>,
    table: Map<u32, String>,
    cells: Seq<Seq<char>>,
    cols: Seq<usize>,
    row: usize,
    n: int,
)
    requires
        0 <= n <= cols.len(),
        row_choices(es, table, cells, cols.subrange(0, n), row) is Err,
    ensures
        row_choices(es, table, cells, cols, row) == row_choices(es, table, cells, cols.subrange(0, n), row),
    decreases cols.len() - n,
{
    if n < cols.len() {
        assert(cols.subrange(0, n + 1).drop_last() =~= cols.subrange(0, n));
        lemma_row_error_persists(es, table, cells, cols, row, n + 1);
    } else {
        assert(cols.subrange(0, n) =~= cols);
    }
}

proof fn lemma_rows_error_persists(
    es: Seq<Entry>,
    table: Map<u32, String>,
    rows: Seq<Seq<Seq<char>>>,
    id_col: usize,
    cols: Seq<usize>,
    n: int,
)
    requires
        0 <= n <= rows.len(),
        rows_ballots(es, table, rows.subrange(0, n), id_col, cols) is Err,
    ensures
        rows_ballots(es, table, rows, id_col, cols) == rows_ballots(es, table, rows.subrange(0, n), id_col, cols),
    decreases rows.len() - n,
{
    if n < rows.len() {
        assert(rows.subrange(0, n + 1).drop_last() =~= rows.subrange(0, n));
        lemma_rows_error_persists(es, table, rows, id_col, cols, n + 1);
    } else {
        assert(rows.subrange(0, n) =~= rows);
    }
}

/// The first sheet of a spreadsheet: its header row and its data rows.
#[derive(Clone, Debug)]
pub struct Sheet {
    pub header: Vec<String>,
    pub rows: Vec<Vec<String>>,
}

pub open spec fn sheet_texts(ss: Seq<Sheet>) -> Seq<(Seq<Seq<char>>, Seq<Seq<Seq<char>>>)> {
    ss.map_values(|s: Sheet| (texts(s.header@), row_texts(s.rows@)))
}

/// The ballots of all sheets, file after file and row after row, and the
/// candidates known after them.
pub open spec fn sheets_ballots(
    es: Seq<Entry>,
    table: Map<u32, String>,
    sheets: Seq<(Seq<Seq<char>>, Seq<Seq<Seq<char>>>)>,
    office: Seq<char>,
    jurisdiction: Seq<char>,
) -> Result<(Seq<Entry>, Seq<(Seq<char>, Seq<Choice>)>), ExtractError>
    decreases sheets.len(),
{
    if sheets.len() == 0 {
        Ok((es, Seq::empty()))
    } else {
        match sheets_ballots(es, table, sheets.drop_last(), office, jurisdiction) {
            Err(e) => Err(e),
            Ok((es1, bs1)) => match layout_of(sheets.last().0, office, jurisdiction) {
                Err(e) => Err(e),
                Ok((id, cols)) => match rows_ballots(es1, table, sheets.last().1, id, cols) {
                    Err(e) => Err(e),
                    Ok((es2, bs2)) => Ok((es2, bs1 + bs2)),
                },
            },
        }
    }
}

/// Each candidate as its name and type.
pub open spec fn candidate_views(cs: Seq<Candidate>) -> Seq<(Seq<char>, CandidateType)> {
    cs.map_values(|c: Candidate| (c.name@, c.candidate_type))
}

/// Each entry without its external code.
pub open spec fn entry_candidates(es: Seq<Entry>) -> Seq<(Seq<char>, CandidateType)> {
    es.map_values(|e: Entry| (e.1, e.2))
}

proof fn lemma_sheets_error_persists(
    es: Seq<Entry>,
    table: Map<u32, String>,
    sheets: Seq<(Seq<Seq<char>>, Seq<Seq<Seq<char>>>)>,
    office: Seq<char>,
    jurisdiction: Seq<char>,
    n: int,
)
    requires
        0 <= n <= sheets.len(),
        sheets_ballots(es, table, sheets.subrange(0, n), office, jurisdiction) is Err,
    ensures
        sheets_ballots(es, table, sheets, office, jurisdiction) == sheets_ballots(
            es,
            table,
            sheets.subrange(0, n),
            office,
            jurisdiction,
        ),
    decreases sheets.len() - n,
{
    if n < sheets.len() {
        assert(sheets.subrange(0, n + 1).drop_last() =~= sheets.subrange(0, n));
        lemma_sheets_error_persists(es, table, sheets, office, jurisdiction, n + 1);
    } else {
        assert(sheets.subrange(0, n) =~= sheets);
    }
}

/// Reads the ballots of one contest from the first sheet of each of its
/// files, in order, resolving candidate codes through `table`.
#[verifier::loop_isolation(false)]
pub fn read_election(sheets: &Vec<Sheet>, options: &ReaderOptions, table: &HashMap<u32, String>) -> (r:
    Result<Election, ExtractError>)
    ensures
        match sheets_ballots(
            Seq::empty(),
            table@,
            sheet_texts(sheets@),
            options.office_name@,
            options.jurisdiction_name@,
        ) {
            Ok((es, bs)) => r matches Ok(e) && ballot_views(e.ballots@) == bs && candidate_views(
                e.candidates@,
            ) == entry_candidates(es),
            Err(err) => r is Err && r->Err_0 == err,
        },
{
    let ghost ss = sheet_texts(sheets@);
    let ghost office = options.office_name@;
    let ghost jurisdiction = options.jurisdiction_name@;
    let mut resolver = CandidateMap::new();
    let mut ballots: Vec<Ballot> = Vec::new();
    let mut i: usize = 0;
    while i < sheets.len()
        invariant
            resolver.wf(),
            0 <= i <= sheets@.len(),
            sheets_ballots(Seq::empty(), table@, ss.subrange(0, i as int), office, jurisdiction)
                matches Ok((es, bs)) && resolver.entries() == es && ballot_views(ballots@) == bs,
        decreases sheets.len() - i,
    {
        let ghost next = ss.subrange(0, i + 1);
        assert(next.drop_last() =~= ss.subrange(0, i as int));
        assert(next.last() == ss[i as int]);
        let sheet = &sheets[i];
        let layout = match column_layout(&sheet.header, options.office_name.as_str(), options.jurisdiction_name.as_str()) {
            Ok(l) => l,
            Err(e) => {
                proof {
                    lemma_sheets_error_persists(Seq::empty(), table@, ss, office, jurisdiction, i + 1);
                }
                return Err(e);
            },
        };
        let mut read = match read_ballots(&sheet.rows, &layout, table, &mut resolver) {
            Ok(b) => b,
            Err(e) => {
                proof {
                    lemma_sheets_error_persists(Seq::empty(), table@, ss, office, jurisdiction, i + 1);
                }
                return Err(e);
            },
        };
        let ghost before = ballots@;
        let ghost added = read@;
        ballots.append(&mut read);
        assert(ballot_views(ballots@) =~= ballot_views(before) + ballot_views(added));
        i = i + 1;
    }
    assert(ss.subrange(0, ss.len() as int) =~= ss);
    let ghost es = resolver.entries();
    let candidates = resolver.into_vec();
    assert(candidate_views(candidates@) =~= entry_candidates(es));
    Ok(Election::new(candidates, ballots))
}

} // verus!
