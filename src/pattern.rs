use vstd::prelude::*;
use vstd::string::*;

use crate::extract::{texts, ExtractError};

verus! {

/// `regex::Regex`, carried opaquely.
#[verifier::external_type_specification]
#[verifier::external_body]
pub struct ExRegex(regex::Regex);

/// `regex::Error`, carried opaquely.
#[verifier::external_type_specification]
#[verifier::external_body]
pub struct ExRegexError(regex::Error);

/// Whether `regex::Regex::new` accepts a regular expression.
pub uninterp spec fn regex_compiles(source: Seq<char>) -> bool;

/// Whether the regular expression `source` matches somewhere in `hay`.
pub uninterp spec fn regex_matches(source: Seq<char>, hay: Seq<char>) -> bool;

/// A compiled regular expression together with its source text.
pub struct FilePattern {
    source: String,
    regex: regex::Regex,
}

impl FilePattern {
    pub closed spec fn source(&self) -> Seq<char> {
        self.source@
    }
}

/// Relies on `regex::Regex::new`: it succeeds exactly on the expressions it
/// accepts, which depend on the text alone.
#[verifier::external_body]
fn compile_regex(source: &str) -> (r: Result<FilePattern, regex::Error>)
    ensures
        r is Ok <==> regex_compiles(source@),
        r matches Ok(p) ==> p.source() == source@,
{
    match regex::Regex::new(source) {
        Ok(regex) => Ok(FilePattern { source: source.to_string(), regex }),
        Err(e) => Err(e),
    }
}

/// Relies on `regex::Regex::is_match`: whether the regex compiled from the
/// pattern's source matches somewhere in `hay`.
#[verifier::external_body]
fn regex_is_match(p: &FilePattern, hay: &str) -> (r: bool)
    ensures
        r == regex_matches(p.source(), hay@),
{
    p.regex.is_match(hay)
}

/// A file-name pattern anchored at both ends.
pub open spec fn anchored(pattern: Seq<char>) -> Seq<char> {
    "^"@ + pattern + "$"@
}

/// The names of `names` that the anchored pattern matches whole, in order.
pub open spec fn matching_names(source: Seq<char>, names: Seq<Seq<char>>) -> Seq<Seq<char>>
    decreases names.len(),
{
    if names.len() == 0 {
        Seq::empty()
    } else if regex_matches(source, names.last()) {
        matching_names(source, names.drop_last()).push(names.last())
    } else {
        matching_names(source, names.drop_last())
    }
}

/// The file names that a contest's file-name pattern matches exactly, in
/// order; an invalid pattern is an error.
pub fn select_files(cvr_pattern: &str, names: &Vec<String>) -> (r: Result<Vec<String>, ExtractError>)
    ensures
        match r {
            Ok(v) => regex_compiles(anchored(cvr_pattern@)) && texts(v@) == matching_names(
                anchored(cvr_pattern@),
                texts(names@),
            ),
            Err(e) => !regex_compiles(anchored(cvr_pattern@)) && e is InvalidFilePattern,
        },
{
    let mut source = String::from_str("^");
    source.append(cvr_pattern);
    source.append("$");
    proof {
        reveal_strlit("^");
        reveal_strlit("$");
    }
    assert(source@ =~= anchored(cvr_pattern@));
    let p = match compile_regex(source.as_str()) {
        Ok(p) => p,
        Err(_) => {
            return Err(ExtractError::InvalidFilePattern);
        },
    };
    let mut flags: Vec<bool> = Vec::new();
    let mut i: usize = 0;
    while i < names.len()
        invariant
            p.source() == anchored(cvr_pattern@),
            0 <= i <= names@.len(),
            flags@.len() == i,
            forall|j: int| 0 <= j < i ==> flags@[j] == regex_matches(p.source(), names@[j]@),
        decreases names.len() - i,
    {
        flags.push(regex_is_match(&p, names[i].as_str()));
        i = i + 1;
    }
    let out = keep_flagged(names, &flags);
    proof {
        lemma_flagged_is_matching(p.source(), names@, flags@);
    }
    Ok(out)
}

/// The names of `names` whose flag is set, in order.
pub open spec fn flagged_names(names: Seq<Seq<char>>, flags: Seq<bool>) -> Seq<Seq<char>>
    decreases names.len(),
{
    if names.len() == 0 {
        Seq::empty()
    } else if flags[names.len() - 1] {
        flagged_names(names.drop_last(), flags).push(names.last())
    } else {
        flagged_names(names.drop_last(), flags)
    }
}

proof fn lemma_flagged_is_matching(source: Seq<char>, names: Seq<String>, flags: Seq<bool>)
    requires
        flags.len() >= names.len(),
        forall|j: int| 0 <= j < names.len() ==> flags[j] == regex_matches(source, names[j]@),
    ensures
        flagged_names(texts(names), flags) == matching_names(source, texts(names)),
    decreases names.len(),
{
    if names.len() > 0 {
        assert(texts(names).drop_last() =~= texts(names.drop_last()));
        lemma_flagged_is_matching(source, names.drop_last(), flags);
    }
}

/// The names whose flag is set, in order: what remains once each name has
/// been matched against a pattern.
pub fn keep_flagged(names: &Vec<String>, flags: &Vec<bool>) -> (r: Vec<String>)
    requires
        flags@.len() == names@.len(),
    ensures
        texts(r@) == flagged_names(texts(names@), flags@),
{
    let ghost ns = texts(names@);
    let mut out: Vec<String> = Vec::new();
    let mut i: usize = 0;
    while i < names.len()
        invariant
            ns == texts(names@),
            flags@.len() == names@.len(),
            0 <= i <= names@.len(),
            texts(out@) == flagged_names(ns.subrange(0, i as int), flags@),
        decreases names.len() - i,
    {
        let ghost next = ns.subrange(0, i + 1);
        assert(next.drop_last() =~= ns.subrange(0, i as int));
        assert(next.last() == names@[i as int]@);
        if flags[i] {
            let ghost before = texts(out@);
            out.push(names[i].clone());
            assert(texts(out@) =~= before.push(names@[i as int]@));
        }
        i = i + 1;
    }
    assert(ns.subrange(0, ns.len() as int) =~= ns);
    out
}

} // verus!
