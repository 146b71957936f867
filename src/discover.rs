use vstd::prelude::*;
use vstd::string::*;

use crate::header::{header_parts, in_rank_range, parse_header};
use crate::text::{
    all_digits, contains_text, ends_with_text, is_digit, occurs_at, replace_all, replace_text, same_text,
    slice_text, chars_of, occurs_at_exec,
};

verus! {

/// What `str::to_lowercase` makes of a text.
pub uninterp spec fn lower_of(s: Seq<char>) -> Seq<char>;

/// Relies on `str::to_lowercase`: the lower-case form of a text, which
/// depends on its characters alone.
#[verifier::external_body]
fn lowercase(s: &str) -> (r: String)
    ensures
        r@ == lower_of(s@),
{
    s.to_lowercase()
}

/// The office id made of an already lower-cased office name, the
/// jurisdiction name, its lower-cased form and the jurisdiction code:
/// "dem " is dropped, spaces become hyphens, the jurisdiction is appended
/// unless it is "Citywide", and the code always is.
pub open spec fn office_id_of(
    lower_office: Seq<char>,
    jurisdiction: Seq<char>,
    lower_jurisdiction: Seq<char>,
    code: Seq<char>,
) -> Seq<char> {
    let base = replace_all(replace_all(lower_office, "dem "@, ""@), " "@, "-"@);
    let with_place = if jurisdiction == "Citywide"@ {
        base
    } else {
        base + "-"@ + lower_jurisdiction
    };
    with_place + "-"@ + code
}

/// The office id from names that are already lower-cased where the rule
/// asks for it.
pub fn office_id_from_lowercase(
    lower_office: &str,
    jurisdiction_name: &str,
    lower_jurisdiction: &str,
    jurisdiction_code: &str,
) -> (r: String)
    ensures
        r@ == office_id_of(lower_office@, jurisdiction_name@, lower_jurisdiction@, jurisdiction_code@),
{
    proof {
        reveal_strlit("dem ");
        reveal_strlit(" ");
        reveal_strlit("-");
        reveal_strlit("");
        reveal_strlit("Citywide");
    }
    let dropped = replace_text(lower_office, "dem ", "");
    let mut id = replace_text(dropped.as_str(), " ", "-");
    if !same_text(jurisdiction_name, "Citywide") {
        id.append("-");
        id.append(lower_jurisdiction);
    }
    id.append("-");
    id.append(jurisdiction_code);
    id
}

/// A stable id for an office: the lower-cased office name without its
/// "dem " prefix, spaces as hyphens, then the lower-cased jurisdiction
/// (unless it is "Citywide") and the jurisdiction code.
pub fn generate_office_id(office_name: &str, jurisdiction_name: &str, jurisdiction_code: &str) -> (r:
    String)
    ensures
        r@ == office_id_of(
            lower_of(office_name@),
            jurisdiction_name@,
            lower_of(jurisdiction_name@),
            jurisdiction_code@,
        ),
{
    let lower_office = lowercase(office_name);
    let lower_jurisdiction = lowercase(jurisdiction_name);
    office_id_from_lowercase(
        lower_office.as_str(),
        jurisdiction_name,
        lower_jurisdiction.as_str(),
        jurisdiction_code,
    )
}

/// A contest found among the headers of a group's first file.
#[derive(Clone, Debug)]
pub struct Contest {
    pub office_id: String,
    pub office_name: String,
    pub office_name_pattern: String,
    pub jurisdiction_name: String,
    pub jurisdiction_code: String,
    pub p_group: u32,
}

/// `h` is the first-rank column of a contest, with a rank and total in range.
pub open spec fn is_first_rank_header(h: Seq<char>) -> bool {
    &&& header_parts(h) is Some
    &&& header_parts(h)->0.rank == "1"@
    &&& in_rank_range(header_parts(h)->0.total)
}

/// The office id of a first-rank header.
pub open spec fn header_office_id(h: Seq<char>) -> Seq<char> {
    let p = header_parts(h)->0;
    office_id_of(lower_of(p.office), p.jurisdiction, lower_of(p.jurisdiction), p.code)
}

impl Contest {
    /// This contest is the one that first-rank header `h` of group `p` names.
    pub open spec fn from_header(&self, h: Seq<char>, p: u32) -> bool {
        let parts = header_parts(h)->0;
        &&& self.office_id@ == header_office_id(h)
        &&& self.office_name@ == parts.office
        &&& self.office_name_pattern@ == parts.office
        &&& self.jurisdiction_name@ == parts.jurisdiction
        &&& self.jurisdiction_code@ == parts.code
        &&& self.p_group == p
    }
}

/// The contest named by a first-rank ("Choice 1 of") header, if `header`
/// is one.
pub fn parse_contest_header(header: &str, p_num: u32) -> (r: Option<Contest>)
    ensures
        match r {
            Some(c) => is_first_rank_header(header@) && c.from_header(header@, p_num),
            None => !is_first_rank_header(header@),
        },
{
    proof {
        reveal_strlit("1");
    }
    match parse_header(header) {
        Ok(Some(h)) => {
            if h.rank != 1 {
                proof {
                    let p = header_parts(header@)->0;
                    if p.rank == "1"@ {
                        assert(p.rank[0] == '1');
                    }
                }
                return None;
            }
            proof {
                let p = header_parts(header@)->0;
                assert(p.rank =~= "1"@);
            }
            let office_id = generate_office_id(h.office.as_str(), h.jurisdiction.as_str(), h.code.as_str());
            let office_name_pattern = h.office.clone();
            Some(
                Contest {
                    office_id,
                    office_name: h.office,
                    office_name_pattern,
                    jurisdiction_name: h.jurisdiction,
                    jurisdiction_code: h.code,
                    p_group: p_num,
                },
            )
        },
        Ok(None) => None,
        Err(_) => {
            proof {
                let p = header_parts(header@)->0;
                if p.rank == "1"@ {
                    assert(p.rank[0] == '1');
                }
            }
            None
        },
    }
}

/// The header marks the first rank of a Democratic contest.
pub open spec fn names_first_rank(h: Seq<char>) -> bool {
    &&& exists|k: int| occurs_at(h, "DEM "@, k)
    &&& exists|k: int| occurs_at(h, "Choice 1 of"@, k)
    &&& is_first_rank_header(h)
}

/// The headers of `hs` that open a contest not opened by an earlier one,
/// in order.
pub open spec fn contest_headers(hs: Seq<Seq<char>>) -> Seq<Seq<char>>
    decreases hs.len(),
{
    if hs.len() == 0 {
        Seq::empty()
    } else {
        let kept = contest_headers(hs.drop_last());
        let h = hs.last();
        if names_first_rank(h) && !kept.map_values(|k: Seq<char>| header_office_id(k)).contains(
            header_office_id(h),
        ) {
            kept.push(h)
        } else {
            kept
        }
    }
}

/// The distinct contests of a group, read from the header row of its
/// first file, each once, in column order.
pub fn contests_from_headers(headers: &Vec<String>, p_num: u32) -> (r: Vec<Contest>)
    ensures
        ({
            let kept = contest_headers(headers@.map_values(|h: String| h@));
            &&& r@.len() == kept.len()
            &&& forall|i: int| 0 <= i < kept.len() ==> #[trigger] r@[i].from_header(kept[i], p_num)
        }),
{
    let ghost hs = headers@.map_values(|h: String| h@);
    let mut out: Vec<Contest> = Vec::new();
    let mut i: usize = 0;
    while i < headers.len()
        invariant
            hs == headers@.map_values(|h: String| h@),
            0 <= i <= headers@.len(),
            ({
                let kept = contest_headers(hs.subrange(0, i as int));
                &&& out@.len() == kept.len()
                &&& forall|j: int| 0 <= j < kept.len() ==> #[trigger] out@[j].from_header(kept[j], p_num)
            }),
        decreases headers.len() - i,
    {
        let ghost pre = hs.subrange(0, i as int);
        let ghost next = hs.subrange(0, i + 1);
        assert(next.drop_last() =~= pre);
        assert(next.last() == headers@[i as int]@);
        let ghost kept = contest_headers(pre);
        let ghost ids = kept.map_values(|k: Seq<char>| header_office_id(k));
        let h = &headers[i];
        if contains_text(h.as_str(), "DEM ") && contains_text(h.as_str(), "Choice 1 of") {
            match parse_contest_header(h.as_str(), p_num) {
                Some(c) => {
                    let mut seen = false;
                    let mut j: usize = 0;
                    while j < out.len()
                        invariant
                            0 <= j <= out@.len(),
                            out@.len() == kept.len(),
                            ids == kept.map_values(|k: Seq<char>| header_office_id(k)),
                            forall|m: int| 0 <= m < kept.len() ==> #[trigger] out@[m].from_header(kept[m], p_num),
                            seen == exists|m: int| 0 <= m < j && ids[m] == c.office_id@,
                        decreases out.len() - j,
                    {
                        assert(out@[j as int].from_header(kept[j as int], p_num));
                        assert(ids[j as int] == out@[j as int].office_id@);
                        if same_text(out[j].office_id.as_str(), c.office_id.as_str()) {
                            seen = true;
                        }
                        j = j + 1;
                    }
                    assert(seen == ids.contains(header_office_id(next.last())));
                    if !seen {
                        out.push(c);
                        assert(contest_headers(next) == kept.push(next.last()));
                        assert forall|m: int| 0 <= m < kept.len() + 1 implies #[trigger] out@[m].from_header(
                            kept.push(next.last())[m],
                            p_num,
                        ) by {
                            if m < kept.len() {
                                assert(kept.push(next.last())[m] == kept[m]);
                            }
                        }
                    }
                },
                None => {},
            }
        }
        i = i + 1;
    }
    assert(hs.subrange(0, headers@.len() as int) =~= hs);
    out
}

/// The name of a known jurisdiction.
pub fn get_jurisdiction_name(jurisdiction: &str) -> (r: &'static str)
    ensures
        r@ == if jurisdiction@ == "us/ny/nyc"@ {
            "New York City"@
        } else {
            "Unknown Jurisdiction"@
        },
{
    proof {
        reveal_strlit("us/ny/nyc");
        reveal_strlit("New York City");
        reveal_strlit("Unknown Jurisdiction");
    }
    if same_text(jurisdiction, "us/ny/nyc") {
        "New York City"
    } else {
        "Unknown Jurisdiction"
    }
}

/// The kind of a known jurisdiction.
pub fn get_jurisdiction_kind(jurisdiction: &str) -> (r: &'static str)
    ensures
        r@ == if jurisdiction@ == "us/ny/nyc"@ {
            "city"@
        } else {
            "unknown"@
        },
{
    proof {
        reveal_strlit("us/ny/nyc");
        reveal_strlit("city");
        reveal_strlit("unknown");
    }
    if same_text(jurisdiction, "us/ny/nyc") {
        "city"
    } else {
        "unknown"
    }
}

/// The first position at or after `k` where `pat` stands in `s`, or -1.
pub open spec fn first_occurrence_from(s: Seq<char>, pat: Seq<char>, k: int) -> int
    decreases s.len() + 1 - k,
{
    if k < 0 || k + pat.len() > s.len() {
        -1
    } else if occurs_at(s, pat, k) {
        k
    } else {
        first_occurrence_from(s, pat, k + 1)
    }
}

/// The decimal value of a run of digits.
pub open spec fn decimal_value(d: Seq<char>) -> nat
    decreases d.len(),
{
    if d.len() == 0 {
        0
    } else {
        (decimal_value(d.drop_last()) * 10 + (d.last() as int - '0' as int)) as nat
    }
}

/// What `str::parse::<u32>` yields: an optional '+', then at least one
/// digit, with a value that fits.
pub open spec fn u32_of_text(s: Seq<char>) -> Option<u32> {
    let d = unsigned_part(s);
    if d.len() > 0 && all_digits(d) && decimal_value(d) <= u32::MAX {
        Some(decimal_value(d) as u32)
    } else {
        None
    }
}

/// `s` without a leading '+'.
pub open spec fn unsigned_part(s: Seq<char>) -> Seq<char> {
    if s.len() > 0 && s[0] == '+' {
        s.drop_first()
    } else {
        s
    }
}

proof fn lemma_decimal_value_grows(d: Seq<char>, i: int)
    requires
        0 <= i <= d.len(),
        forall|j: int| 0 <= j < d.len() ==> is_digit(#[trigger] d[j]),
    ensures
        decimal_value(d.subrange(0, i)) <= decimal_value(d),
    decreases d.len() - i,
{
    if i < d.len() {
        lemma_decimal_value_grows(d, i + 1);
        let p = d.subrange(0, i + 1);
        assert(p.drop_last() =~= d.subrange(0, i));
        assert(is_digit(d[i]));
    } else {
        assert(d.subrange(0, i) =~= d);
    }
}

/// Parses a decimal `u32` as `str::parse` does.
#[verifier::loop_isolation(false)]
pub fn parse_u32(s: &Vec<char>) -> (r: Option<u32>)
    ensures
        r == u32_of_text(s@),
{
    let mut i: usize = 0;
    if s.len() > 0 && s[0] == '+' {
        i = 1;
    }
    let start = i;
    let ghost d = unsigned_part(s@);
    assert(d =~= s@.subrange(start as int, s@.len() as int));
    if i >= s.len() {
        return None;
    }
    let mut v: u64 = 0;
    while i < s.len()
        invariant
            d == s@.subrange(start as int, s@.len() as int),
            d == unsigned_part(s@),
            start <= i <= s@.len(),
            forall|j: int| 0 <= j < i - start ==> is_digit(#[trigger] d[j]),
            v == decimal_value(d.subrange(0, i - start)),
            v <= u32::MAX,
        decreases s.len() - i,
    {
        let c = s[i];
        let ghost p = d.subrange(0, i - start + 1);
        assert(p.drop_last() =~= d.subrange(0, i - start));
        assert(d[i - start] == c);
        if !('0' <= c && c <= '9') {
            assert(!is_digit(d[i - start]));
            assert(!all_digits(d));
            assert(u32_of_text(s@) is None);
            return None;
        }
        let next = v * 10 + ((c as u64) - ('0' as u64));
        assert(decimal_value(p) == next);
        if next > u32::MAX as u64 {
            proof {
                if all_digits(d) {
                    lemma_decimal_value_grows(d, i - start + 1);
                    assert(decimal_value(d) > u32::MAX);
                }
            }
            assert(u32_of_text(s@) is None);
            return None;
        }
        v = next;
        i = i + 1;
    }
    assert(d.subrange(0, i - start) =~= d);
    Some(v as u32)
}

/// The first index of `c` in `s` at or after `k`, or `s.len()`.
fn find_char_from(s: &Vec<char>, c: char, k: usize) -> (r: usize)
    requires
        k <= s@.len(),
    ensures
        k <= r <= s@.len(),
        r < s@.len() ==> s@[r as int] == c,
        forall|j: int| k <= j < r ==> s@[j] != c,
{
    let mut i: usize = k;
    while i < s.len() && s[i] != c
        invariant
            k <= i <= s@.len(),
            forall|j: int| k <= j < i ==> s@[j] != c,
        decreases s.len() - i,
    {
        i = i + 1;
    }
    i
}

/// The group number of a file name such as "2025P1V1_ELE1.xlsx": the text
/// between the first "2025P" and the first "V" after it, read as a number.
pub open spec fn p_number_of(name: Seq<char>) -> Option<u32> {
    let start = first_occurrence_from(name, "2025P"@, 0);
    let rest = name.subrange(start + 5, name.len() as int);
    if start < 0 || !rest.contains('V') {
        None
    } else {
        let end = choose|e: int| 0 <= e < rest.len() && rest[e] == 'V' && forall|j: int|
            0 <= j < e ==> rest[j] != 'V';
        u32_of_text(rest.subrange(0, end))
    }
}

/// The group number embedded in an export's file name.
pub fn extract_p_number(filename: &str) -> (r: Option<u32>)
    ensures
        r == p_number_of(filename@),
{
    proof {
        reveal_strlit("2025P");
    }
    let name = chars_of(filename);
    let marker = chars_of("2025P");
    let mut k: usize = 0;
    let ghost n = name@;
    let len = name.len();
    loop
        invariant
            len == name@.len(),
            name@ == filename@,
            marker@ == "2025P"@,
            marker@.len() == 5,
            n == name@,
            0 <= k <= name@.len(),
            first_occurrence_from(n, marker@, 0) == first_occurrence_from(n, marker@, k as int),
        ensures
            k + 5 <= len,
            first_occurrence_from(n, marker@, 0) == k,
        decreases name@.len() - k,
    {
        if len - k < 5 {
            assert(first_occurrence_from(n, marker@, k as int) == -1);
            assert(p_number_of(filename@) is None);
            return None;
        }
        if occurs_at_exec(&name, &marker, k) {
            break;
        }
        k = k + 1;
    }
    let ghost rest = n.subrange(k + 5, n.len() as int);
    let mut part: Vec<char> = Vec::new();
    let mut i: usize = k + 5;
    while i < name.len()
        invariant
            n == name@,
            k + 5 <= i <= n.len(),
            part@ == n.subrange(k + 5, i as int),
        decreases name.len() - i,
    {
        part.push(name[i]);
        i = i + 1;
        assert(part@ =~= n.subrange(k + 5, i as int));
    }
    assert(part@ == rest);
    let end = find_char_from(&part, 'V', 0);
    if end == part.len() {
        assert(!rest.contains('V'));
        return None;
    }
    let ghost e = choose|e: int| 0 <= e < rest.len() && rest[e] == 'V' && forall|j: int|
        0 <= j < e ==> rest[j] != 'V';
    assert(e == end as int) by {
        if e < end {
        } else if e > end {
        }
    }
    let mut digits: Vec<char> = Vec::new();
    let mut j: usize = 0;
    while j < end
        invariant
            end < part@.len(),
            0 <= j <= end,
            digits@ == part@.subrange(0, j as int),
        decreases end - j,
    {
        digits.push(part[j]);
        j = j + 1;
        assert(digits@ =~= part@.subrange(0, j as int));
    }
    parse_u32(&digits)
}

/// The first name of `names` that is the candidate mapping spreadsheet.
pub open spec fn is_candidate_file(name: Seq<char>) -> bool {
    &&& exists|k: int| occurs_at(name, "CandidacyID_To_Name"@, k)
    &&& ".xlsx"@.len() <= name.len()
    &&& occurs_at(name, ".xlsx"@, name.len() - ".xlsx"@.len())
}

/// The candidate mapping spreadsheet among a directory's file names: the
/// first whose name holds "CandidacyID_To_Name" and ends in ".xlsx".
pub fn find_candidate_file(names: &Vec<String>) -> (r: Option<String>)
    ensures
        match r {
            Some(f) => exists|i: int|
                0 <= i < names@.len() && f@ == names@[i]@ && is_candidate_file(names@[i]@) && forall|j: int|
                    0 <= j < i ==> !is_candidate_file(#[trigger] names@[j]@),
            None => forall|i: int| 0 <= i < names@.len() ==> !is_candidate_file(#[trigger] names@[i]@),
        },
{
    let mut i: usize = 0;
    while i < names.len()
        invariant
            0 <= i <= names@.len(),
            forall|j: int| 0 <= j < i ==> !is_candidate_file(#[trigger] names@[j]@),
        decreases names.len() - i,
    {
        let name = names[i].as_str();
        if contains_text(name, "CandidacyID_To_Name") && ends_with_text(name, ".xlsx") {
            return Some(names[i].clone());
        }
        i = i + 1;
    }
    None
}

/// A directory entry that is the first file of a group.
pub open spec fn is_group_file(name: Seq<char>) -> bool {
    &&& exists|k: int| occurs_at(name, "V1_ELE1.xlsx"@, k)
    &&& exists|k: int| occurs_at(name, "2025P"@, k)
    &&& p_number_of(name) is Some
}

/// The group files of `names` with their numbers, in directory order.
pub open spec fn group_entries(names: Seq<Seq<char>>) -> Seq<(u32, Seq<char>)>
    decreases names.len(),
{
    if names.len() == 0 {
        Seq::empty()
    } else if is_group_file(names.last()) {
        group_entries(names.drop_last()).push((p_number_of(names.last())->0, names.last()))
    } else {
        group_entries(names.drop_last())
    }
}

/// The first position at or after `j` whose number exceeds `k`, or `t.len()`.
pub open spec fn insert_pos_from(t: Seq<(u32, Seq<char>)>, k: u32, j: int) -> int
    decreases t.len() - j,
{
    if j >= t.len() {
        t.len() as int
    } else if t[j].0 > k {
        j
    } else {
        insert_pos_from(t, k, j + 1)
    }
}

/// `s` sorted by number, entries with equal numbers kept in their order.
pub open spec fn sorted_by_group(s: Seq<(u32, Seq<char>)>) -> Seq<(u32, Seq<char>)>
    decreases s.len(),
{
    if s.len() == 0 {
        Seq::empty()
    } else {
        let t = sorted_by_group(s.drop_last());
        t.insert(insert_pos_from(t, s.last().0, 0), s.last())
    }
}

pub open spec fn entry_texts(v: Seq<(u32, String)>) -> Seq<(u32, Seq<char>)> {
    v.map_values(|e: (u32, String)| (e.0, e.1@))
}

proof fn lemma_insert_pos_range(t: Seq<(u32, Seq<char>)>, k: u32, j: int)
    requires
        0 <= j <= t.len(),
    ensures
        j <= insert_pos_from(t, k, j) <= t.len(),
    decreases t.len() - j,
{
    if j < t.len() && t[j].0 <= k {
        lemma_insert_pos_range(t, k, j + 1);
    }
}

/// The first file of each group among a directory's file names, with its
/// group number, sorted by group number.
pub fn p_group_files(names: &Vec<String>) -> (r: Vec<(u32, String)>)
    ensures
        entry_texts(r@) == sorted_by_group(group_entries(texts_of(names@))),
{
    let ghost ns = texts_of(names@);
    let mut out: Vec<(u32, String)> = Vec::new();
    let mut i: usize = 0;
    while i < names.len()
        invariant
            ns == texts_of(names@),
            0 <= i <= names@.len(),
            entry_texts(out@) == sorted_by_group(group_entries(ns.subrange(0, i as int))),
        decreases names.len() - i,
    {
        let ghost next = ns.subrange(0, i + 1);
        assert(next.drop_last() =~= ns.subrange(0, i as int));
        assert(next.last() == names@[i as int]@);
        let name = names[i].as_str();
        if contains_text(name, "V1_ELE1.xlsx") && contains_text(name, "2025P") {
            match extract_p_number(name) {
                Some(p) => {
                    let ghost t = entry_texts(out@);
                    let mut pos: usize = 0;
                    while pos < out.len() && out[pos].0 <= p
                        invariant
                            t == entry_texts(out@),
                            0 <= pos <= out@.len(),
                            insert_pos_from(t, p, 0) == insert_pos_from(t, p, pos as int),
                        decreases out.len() - pos,
                    {
                        pos = pos + 1;
                    }
                    assert(insert_pos_from(t, p, pos as int) == pos);
                    let ghost g = group_entries(ns.subrange(0, i as int));
                    let ghost x = (p, names@[i as int]@);
                    assert(is_group_file(next.last()));
                    assert(group_entries(next) == g.push(x));
                    assert(g.push(x).drop_last() =~= g);
                    out.insert(pos, (p, names[i].clone()));
                    assert(entry_texts(out@) =~= t.insert(pos as int, x));
                },
                None => {},
            }
        }
        i = i + 1;
    }
    assert(ns.subrange(0, ns.len() as int) =~= ns);
    out
}

pub open spec fn texts_of(v: Seq<String>) -> Seq<Seq<char>> {
    v.map_values(|s: String| s@)
}

/// The decimal digits of `n`.
pub open spec fn decimal_text(n: nat) -> Seq<char>
    decreases n,
{
    if n < 10 {
        seq!["0123456789"@[n as int]]
    } else {
        decimal_text(n / 10) + seq!["0123456789"@[(n % 10) as int]]
    }
}

/// `n` written in decimal.
pub fn decimal(n: u32) -> (r: String)
    ensures
        r@ == decimal_text(n as nat),
    decreases n,
{
    proof {
        reveal_strlit("0123456789");
    }
    let d = (n % 10) as usize;
    let digit = slice_text("0123456789", d, d + 1);
    if n < 10 {
        assert(digit@ =~= seq!["0123456789"@[n as int]]);
        digit
    } else {
        let mut s = decimal(n / 10);
        s.append(digit.as_str());
        assert(digit@ =~= seq!["0123456789"@[(n % 10) as int]]);
        s
    }
}

/// The file-name pattern of a group's exports.
pub open spec fn group_pattern(p: u32) -> Seq<char> {
    "2025P"@ + decimal_text(p as nat) + "V.+\\.xlsx"@
}

/// The regular expression that names the files of group `p_group`.
pub fn cvr_pattern(p_group: u32) -> (r: String)
    ensures
        r@ == group_pattern(p_group),
{
    let mut s = String::from_str("2025P");
    let d = decimal(p_group);
    s.append(d.as_str());
    s.append("V.+\\.xlsx");
    s
}

/// The loader parameters that find a discovered contest's ballots again.
pub fn loader_params(contest: &Contest, candidate_file: &str) -> (r: Vec<(String, String)>)
    ensures
        r@.len() == 4,
        r@[0].0@ == "candidatesFile"@ && r@[0].1@ == candidate_file@,
        r@[1].0@ == "cvrPattern"@ && r@[1].1@ == group_pattern(contest.p_group),
        r@[2].0@ == "jurisdictionName"@ && r@[2].1@ == contest.jurisdiction_name@,
        r@[3].0@ == "officeName"@ && r@[3].1@ == contest.office_name_pattern@,
{
    let mut v: Vec<(String, String)> = Vec::new();
    v.push((String::from_str("candidatesFile"), String::from_str(candidate_file)));
    v.push((String::from_str("cvrPattern"), cvr_pattern(contest.p_group)));
    v.push((String::from_str("jurisdictionName"), contest.jurisdiction_name.clone()));
    v.push((String::from_str("officeName"), contest.office_name_pattern.clone()));
    v
}

/// The name and kind of a jurisdiction, from its path.
pub open spec fn jurisdiction_info_of(path: Seq<char>) -> (Seq<char>, Seq<char>) {
    if path == "us/ny/nyc"@ {
        ("New York City"@, "city"@)
    } else if path == "us/ca/sfo"@ {
        ("San Francisco"@, "city"@)
    } else if path == "us/me"@ {
        ("Maine"@, "state"@)
    } else {
        ("Unknown"@, "unknown"@)
    }
}

/// The name and kind of the jurisdiction at `jurisdiction_path`.
pub fn parse_jurisdiction_info(jurisdiction_path: &str) -> (r: (String, String))
    ensures
        (r.0@, r.1@) == jurisdiction_info_of(jurisdiction_path@),
{
    if same_text(jurisdiction_path, "us/ny/nyc") {
        (String::from_str("New York City"), String::from_str("city"))
    } else if same_text(jurisdiction_path, "us/ca/sfo") {
        (String::from_str("San Francisco"), String::from_str("city"))
    } else if same_text(jurisdiction_path, "us/me") {
        (String::from_str("Maine"), String::from_str("state"))
    } else {
        (String::from_str("Unknown"), String::from_str("unknown"))
    }
}

/// The names of `names` that end in ".xlsx", in order.
pub open spec fn spreadsheet_names(names: Seq<Seq<char>>) -> Seq<Seq<char>>
    decreases names.len(),
{
    if names.len() == 0 {
        Seq::empty()
    } else if ".xlsx"@.len() <= names.last().len() && occurs_at(
        names.last(),
        ".xlsx"@,
        names.last().len() - ".xlsx"@.len(),
    ) {
        spreadsheet_names(names.drop_last()).push(names.last())
    } else {
        spreadsheet_names(names.drop_last())
    }
}

/// The spreadsheets among a directory's file names.
pub fn spreadsheet_files(names: &Vec<String>) -> (r: Vec<String>)
    ensures
        texts_of(r@) == spreadsheet_names(texts_of(names@)),
{
    let ghost ns = texts_of(names@);
    let mut out: Vec<String> = Vec::new();
    let mut i: usize = 0;
    while i < names.len()
        invariant
            ns == texts_of(names@),
            0 <= i <= names@.len(),
            texts_of(out@) == spreadsheet_names(ns.subrange(0, i as int)),
        decreases names.len() - i,
    {
        let ghost next = ns.subrange(0, i + 1);
        assert(next.drop_last() =~= ns.subrange(0, i as int));
        assert(next.last() == names@[i as int]@);
        if ends_with_text(names[i].as_str(), ".xlsx") {
            let ghost before = texts_of(out@);
            out.push(names[i].clone());
            assert(texts_of(out@) =~= before.push(names@[i as int]@));
        }
        i = i + 1;
    }
    assert(ns.subrange(0, ns.len() as int) =~= ns);
    out
}

} // verus!
