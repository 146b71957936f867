use vstd::prelude::*;

use crate::text::{
    all_digits, chars_of, digit_run, digit_run_exec, is_digit, last_index, last_index_exec,
    last_occurrence, last_occurrence_exec, occurs_at, occurs_at_exec,
    slice_text,
};

verus! {

/// The parts of a ranked-choice column header
/// `<OFFICE> Choice <RANK> of <TOTAL> <PLACE> (<CODE>)`: the office, the
/// digits of the rank and of the total, the jurisdiction (the one word
/// before the parenthesis) and the code inside it.
pub struct HeaderParts {
    pub office: Seq<char>,
    pub rank: Seq<char>,
    pub total: Seq<char>,
    pub jurisdiction: Seq<char>,
    pub code: Seq<char>,
}

/// The parts of `h`, if it fits the grammar. The code is the digits inside
/// the last parenthesis pair, which ends the header; the jurisdiction is the
/// last word before it; the office is what precedes the last " Choice ".
pub open spec fn header_parts(h: Seq<char>) -> Option<HeaderParts> {
    let n = h.len() as int;
    let open = last_index(h, '(');
    let code = h.subrange(open + 1, n - 1);
    let before = h.subrange(0, open - 1);
    let sp = last_index(before, ' ');
    let front = before.subrange(0, sp);
    let k = last_occurrence(front, " Choice "@);
    let tail = front.subrange(k + 8, front.len() as int);
    let re = digit_run(tail, 0);
    let ts = re + 4;
    let te = digit_run(tail, ts);
    if n == 0 || h[n - 1] != ')' || open < 1 || h[open - 1] != ' ' || code.len() == 0
        || !all_digits(code) || sp < 0 || sp + 1 >= before.len() || k < 1 || re == 0
        || !occurs_at(tail, " of "@, re) || te == ts || !(te == tail.len() || tail[te] == ' ') {
        None
    } else {
        Some(
            HeaderParts {
                office: front.subrange(0, k),
                rank: tail.subrange(0, re),
                total: tail.subrange(ts, te),
                jurisdiction: before.subrange(sp + 1, before.len() as int),
                code,
            },
        )
    }
}

/// A rank or total in range: one digit from 1 to 5.
pub open spec fn in_rank_range(d: Seq<char>) -> bool {
    d.len() == 1 && '1' <= d[0] && d[0] <= '5'
}

/// The value of a digit.
pub open spec fn digit_value(c: char) -> u32 {
    (c as u32 - '0' as u32) as u32
}

/// A column header that fits the grammar.
#[derive(Clone, Debug)]
pub struct ColumnHeader {
    pub office: String,
    pub rank: u32,
    pub total: u32,
    pub jurisdiction: String,
    pub code: String,
}

/// A header fits the grammar but breaks an assumption of it.
#[derive(Clone, Copy, Debug, PartialEq, Eq, Structural)]
pub enum HeaderError {
    /// The rank or the total is not a number from 1 to 5.
    RankOutOfRange,
}

/// Parses a ranked-choice column header. A header that does not fit the
/// grammar is `Ok(None)`; one that fits with a rank or total outside 1..=5
/// is an error.
#[verifier::loop_isolation(false)]
pub fn parse_header(header: &str) -> (r: Result<Option<ColumnHeader>, HeaderError>)
    ensures
        match header_parts(header@) {
            None => r == Ok::<Option<ColumnHeader>, HeaderError>(None),
            Some(p) => if in_rank_range(p.rank) && in_rank_range(p.total) {
                r matches Ok(Some(c)) && c.office@ == p.office && c.rank == digit_value(p.rank[0])
                    && c.total == digit_value(p.total[0]) && c.jurisdiction@ == p.jurisdiction
                    && c.code@ == p.code
            } else {
                r == Err::<Option<ColumnHeader>, HeaderError>(HeaderError::RankOutOfRange)
            },
        },
{
    let h = chars_of(header);
    let n = h.len();
    if n == 0 || h[n - 1] != ')' {
        return Ok(None);
    }
    let open = match last_index_exec(&h, '(') {
        Some(i) => i,
        None => {
            return Ok(None);
        },
    };
    if open < 1 || h[open - 1] != ' ' || open + 1 >= n - 1 {
        return Ok(None);
    }
    let mut i: usize = open + 1;
    while i < n - 1
        invariant
            h@ == header@,
            n == h@.len(),
            open + 1 <= i <= n - 1,
            forall|j: int| open + 1 <= j < i ==> is_digit(h@[j]),
        decreases n - 1 - i,
    {
        if !('0' <= h[i] && h[i] <= '9') {
            proof {
                let code = h@.subrange(open + 1, n - 1);
                assert(!is_digit(code[i - open - 1]));
                assert(!all_digits(code));
                assert(header_parts(header@) is None);
            }
            return Ok(None);
        }
        i = i + 1;
    }
    let ghost code = h@.subrange(open + 1, n - 1);
    assert(all_digits(code)) by {
        assert forall|j: int| 0 <= j < code.len() implies is_digit(#[trigger] code[j]) by {
            assert(code[j] == h@[open + 1 + j]);
        }
    }
    let mut before: Vec<char> = Vec::new();
    let mut b: usize = 0;
    while b < open - 1
        invariant
            h@ == header@,
            n == h@.len(),
            1 <= open < n,
            0 <= b <= open - 1,
            before@ == h@.subrange(0, b as int),
        decreases open - 1 - b,
    {
        before.push(h[b]);
        b = b + 1;
        assert(before@ =~= h@.subrange(0, b as int));
    }
    let sp = match last_index_exec(&before, ' ') {
        Some(s) => s,
        None => {
            return Ok(None);
        },
    };
    if sp + 1 >= before.len() {
        return Ok(None);
    }
    let mut front: Vec<char> = Vec::new();
    let mut f: usize = 0;
    while f < sp
        invariant
            sp < before@.len(),
            0 <= f <= sp,
            front@ == before@.subrange(0, f as int),
        decreases sp - f,
    {
        front.push(before[f]);
        f = f + 1;
        assert(front@ =~= before@.subrange(0, f as int));
    }
    let keyword = chars_of(" Choice ");
    proof {
        reveal_strlit(" Choice ");
        reveal_strlit(" of ");
    }
    let k = match last_occurrence_exec(&front, &keyword) {
        Some(k) => k,
        None => {
            return Ok(None);
        },
    };
    if k < 1 {
        return Ok(None);
    }
    let mut tail: Vec<char> = Vec::new();
    let mut t: usize = k + 8;
    while t < front.len()
        invariant
            k + 8 <= t <= front@.len(),
            tail@ == front@.subrange(k + 8, t as int),
        decreases front.len() - t,
    {
        tail.push(front[t]);
        t = t + 1;
        assert(tail@ =~= front@.subrange(k + 8, t as int));
    }
    let re = digit_run_exec(&tail, 0);
    let of = chars_of(" of ");
    if re == 0 || !occurs_at_exec(&tail, &of, re) {
        return Ok(None);
    }
    let ts = re + 4;
    let te = digit_run_exec(&tail, ts);
    if te == ts || !(te == tail.len() || tail[te] == ' ') {
        return Ok(None);
    }
    let ghost parts = header_parts(header@);
    assert(parts is Some);
    if !(re == 1 && '1' <= tail[0] && tail[0] <= '5') || !(te == ts + 1 && '1' <= tail[ts] && tail[ts]
        <= '5') {
        return Err(HeaderError::RankOutOfRange);
    }
    let rank = (tail[0] as u32) - ('0' as u32);
    let total = (tail[ts] as u32) - ('0' as u32);
    // Character offsets into `header`: the office ends at `k`; the
    // jurisdiction runs from `sp + 1` to `open - 1`.
    let office = slice_text(header, 0, k);
    let jurisdiction = slice_text(header, sp + 1, open - 1);
    let code_text = slice_text(header, open + 1, n - 1);
    assert(office@ =~= front@.subrange(0, k as int));
    assert(jurisdiction@ =~= before@.subrange(sp + 1, before@.len() as int));
    Ok(Some(ColumnHeader { office, rank, total, jurisdiction, code: code_text }))
}

} // verus!
