//! The references that a source file makes to other files of the tree.

use crate::text::str_eq;
use vstd::prelude::*;
use vstd::string::*;

verus! {

/// The text `s` with every occurrence of `from` replaced by `to`, searching
/// from the left and going on behind each occurrence found.
pub open spec fn replaced(s: Seq<char>, from: Seq<char>, to: Seq<char>) -> Seq<char>
    decreases s.len(),
{
    if from.len() == 0 || s.len() < from.len() {
        s
    } else if s.subrange(0, from.len() as int) == from {
        to + replaced(s.subrange(from.len() as int, s.len() as int), from, to)
    } else {
        seq![s[0]] + replaced(s.drop_first(), from, to)
    }
}

/// Whether `from` stands in `s` at position `at`.
pub open spec fn occurs_at(s: Seq<char>, at: int, from: Seq<char>) -> bool {
    0 <= at && at + from.len() <= s.len() && s.subrange(at, at + from.len()) == from
}

/// Whether `from`, of `m` characters, stands at position `at` in `s`, of `n`
/// characters.
fn occurs(s: &str, n: usize, at: usize, from: &str, m: usize) -> (r: bool)
    requires
        n == s@.len(),
        m == from@.len(),
        at <= n,
    ensures
        r == occurs_at(s@, at as int, from@),
{
    if m > n - at {
        return false;
    }
    let mut k: usize = 0;
    while k < m
        invariant
            k <= m,
            m == from@.len(),
            n == s@.len(),
            at + m <= n,
            forall|j: int| 0 <= j < k ==> s@[at + j] == from@[j],
        decreases m - k,
    {
        if s.get_char(at + k) != from.get_char(k) {
            proof {
                assert(s@.subrange(at as int, at + m)[k as int] == s@[at + k]);
            }
            return false;
        }
        k = k + 1;
    }
    proof {
        assert(s@.subrange(at as int, at + m) =~= from@);
    }
    true
}

/// The text `s` with every occurrence of `from` replaced by `to`; with an empty
/// `from` the text stays as it is.
pub fn replace(s: &str, from: &str, to: &str) -> (r: String)
    ensures
        r@ == replaced(s@, from@, to@),
{
    let n = s.unicode_len();
    let m = from.unicode_len();
    if m == 0 {
        return s.to_owned();
    }
    let mut out = String::new();
    let mut i: usize = 0;
    proof {
        assert(s@.subrange(0, n as int) =~= s@);
        assert(out@ + replaced(s@, from@, to@) =~= replaced(s@, from@, to@));
    }
    while i < n
        invariant
            i <= n,
            n == s@.len(),
            m == from@.len(),
            m > 0,
            out@ + replaced(s@.subrange(i as int, n as int), from@, to@) == replaced(
                s@,
                from@,
                to@,
            ),
        decreases n - i,
    {
        let ghost rest = s@.subrange(i as int, n as int);
        if occurs(s, n, i, from, m) {
            proof {
                assert(rest.subrange(0, m as int) =~= s@.subrange(i as int, i + m));
                assert(rest.subrange(m as int, rest.len() as int) =~= s@.subrange(
                    i + m,
                    n as int,
                ));
                assert((out@ + to@) + replaced(s@.subrange(i + m, n as int), from@, to@) =~= out@
                    + (to@ + replaced(s@.subrange(i + m, n as int), from@, to@)));
            }
            out.append(to);
            i = i + m;
        } else {
            let one = s.substring_char(i, i + 1);
            proof {
                assert(rest.len() >= m ==> rest.subrange(0, m as int) =~= s@.subrange(
                    i as int,
                    i + m,
                ));
                assert(rest.drop_first() =~= s@.subrange(i + 1, n as int));
                assert(one@ =~= seq![rest[0]]);
                if rest.len() < m {
                    lemma_replaced_short(rest.drop_first(), from@, to@);
                }
                assert(rest.len() < m ==> rest =~= seq![rest[0]] + rest.drop_first());
                assert((out@ + one@) + replaced(s@.subrange(i + 1, n as int), from@, to@) =~= out@
                    + (one@ + replaced(s@.subrange(i + 1, n as int), from@, to@)));
            }
            out.append(one);
            i = i + 1;
        }
    }
    proof {
        assert(s@.subrange(n as int, n as int) =~= Seq::<char>::empty());
        assert(out@ + Seq::<char>::empty() =~= out@);
    }
    out
}

/// A text shorter than `from` holds no occurrence of it and stays as it is.
pub proof fn lemma_replaced_short(s: Seq<char>, from: Seq<char>, to: Seq<char>)
    requires
        s.len() < from.len(),
    ensures
        replaced(s, from, to) == s,
{
}

/// The groups of every match of `pattern` in `haystack`, in the order of the
/// matches, or `None` where `pattern` is no regular expression that the regex
/// crate compiles. A match lists its groups by their number, the whole match
/// first; a group that took no part in the match is `None`.
pub uninterp spec fn regex_captures(pattern: Seq<char>, haystack: Seq<char>) -> Option<
    Seq<Seq<Option<Seq<char>>>>,
>;

/// The error with which the regex crate refuses a pattern.
#[verifier::external_type_specification]
#[verifier::external_body]
pub struct ExRegexError(regex::Error);

/// Compiles `pattern` with `regex::Regex::new` and collects, with
/// `Regex::captures_iter`, the groups of each match in `haystack`: as many as
/// `Captures::len` counts, each read with `Captures::get` and `Match::as_str`.
/// The contract gives that result its name: it says only that the matches are
/// a function of the two texts, and that the call fails exactly when the
/// pattern is refused.
#[verifier::external_body]
fn captures(pattern: &str, haystack: &str) -> (r: Result<Vec<Vec<Option<String>>>, regex::Error>)
    ensures
        match r {
            Ok(found) => regex_captures(pattern@, haystack@) == Some(found.deep_view()),
            Err(_) => regex_captures(pattern@, haystack@) is None,
        },
{
    let re = regex::Regex::new(pattern)?;
    Ok(
        re.captures_iter(haystack).map(
            |c| (0..c.len()).map(|i| c.get(i).map(|m| m.as_str().to_string())).collect(),
        ).collect(),
    )
}

/// The pattern that finds the references of a Rust source file: a `use` of an
/// item of the crate, a `use` of an item of the parent module, a file whose
/// text is taken in as a string, and a module declared without a body.
pub const REFERENCE_PATTERN: &'static str =
    r"(?:use crate::([^;]*?)(?:::\*)?(?:::\{[^;]\})?;)|(?:use super::([^;]*?)(?:::\*)?(?:::\{[^;]\})?;)|(?:include_str!\(([^\)]*)\))|(?:mod ([^;{}]*);)";

/// Why the references of a file could not be read.
#[derive(Debug, Clone, Copy, PartialEq, Eq, Structural)]
pub enum ReferenceError {
    /// The pattern for references was refused as a regular expression.
    PatternRefused,
}

/// The group with number `i` of a match, `None` where the match has no such
/// group or the group took no part in it.
pub open spec fn group(c: Seq<Option<Seq<char>>>, i: int) -> Option<Seq<char>> {
    if 0 <= i < c.len() {
        c[i]
    } else {
        None
    }
}

/// The file that a module path names: `::` becomes `/`, and `.rs` follows.
pub open spec fn module_file(path: Seq<char>) -> Seq<char> {
    replaced(path, "::"@, "/"@) + ".rs"@
}

/// The reference that one match of the pattern stands for, by the first of its
/// groups that took part: a path below the crate or below the parent module
/// names a module's file, a text taken in as a string is named without its
/// quotation marks, and a declared module names its file.
pub open spec fn reference_of(c: Seq<Option<Seq<char>>>) -> Option<Seq<char>> {
    if group(c, 1) is Some {
        Some(module_file(group(c, 1)->0))
    } else if group(c, 2) is Some {
        Some(module_file(group(c, 2)->0))
    } else if group(c, 3) is Some {
        Some(replaced(group(c, 3)->0, "\""@, ""@))
    } else if group(c, 4) is Some {
        Some(group(c, 4)->0 + ".rs"@)
    } else {
        None
    }
}

/// The references that a run of matches stands for, in the order of the
/// matches; a match that stands for none adds nothing.
pub open spec fn references_in(found: Seq<Seq<Option<Seq<char>>>>) -> Seq<Seq<char>>
    decreases found.len(),
{
    if found.len() == 0 {
        Seq::empty()
    } else {
        let before = references_in(found.drop_last());
        match reference_of(found.last()) {
            Some(r) => before.push(r),
            None => before,
        }
    }
}

/// The group with number `i` of a match.
fn group_at(c: &Vec<Option<String>>, i: usize) -> (r: Option<&String>)
    ensures
        r.deep_view() == group(c.deep_view(), i as int),
{
    if i < c.len() {
        c[i].as_ref()
    } else {
        None
    }
}

/// The file that a module path names.
fn module_file_name(path: &str) -> (r: String)
    ensures
        r@ == module_file(path@),
{
    replace(path, "::", "/").concat(".rs")
}

/// The reference that one match of the pattern stands for.
pub fn reference(c: &Vec<Option<String>>) -> (r: Option<String>)
    ensures
        r.deep_view() == reference_of(c.deep_view()),
{
    if let Some(path) = group_at(c, 1) {
        Some(module_file_name(path.as_str()))
    } else if let Some(path) = group_at(c, 2) {
        Some(module_file_name(path.as_str()))
    } else if let Some(text) = group_at(c, 3) {
        Some(replace(text.as_str(), "\"", ""))
    } else if let Some(module) = group_at(c, 4) {
        Some(module.clone().concat(".rs"))
    } else {
        None
    }
}

/// The references that a run of matches stands for, in the order of the
/// matches.
pub fn references_of(found: &Vec<Vec<Option<String>>>) -> (r: Vec<String>)
    ensures
        r.deep_view() == references_in(found.deep_view()),
{
    let mut out: Vec<String> = Vec::new();
    let mut i: usize = 0;
    while i < found.len()
        invariant
            i <= found.len(),
            out.deep_view() == references_in(found.deep_view().take(i as int)),
        decreases found.len() - i,
    {
        let ghost before = out.deep_view();
        proof {
            assert(found.deep_view().take(i + 1).drop_last() =~= found.deep_view().take(i as int));
            assert(found.deep_view().take(i + 1).last() == found[i as int].deep_view());
        }
        match reference(&found[i]) {
            Some(r) => {
                out.push(r);
                proof {
                    assert(out.deep_view() =~= before.push(r@));
                }
            },
            None => {},
        }
        i = i + 1;
    }
    proof {
        assert(found.deep_view().take(i as int) =~= found.deep_view());
    }
    out
}

/// Whether a file with this extension is read for references: a Rust source
/// file is, and no other.
pub fn declares_references(extension: Option<&str>) -> (r: bool)
    ensures
        r == (extension is Some && extension->0@ == "rs"@),
{
    match extension {
        Some(t) => str_eq(t, "rs"),
        None => false,
    }
}

/// The references that the text of a Rust source file makes, in the order in
/// which they stand in it.
pub fn find_refs(contents: &str) -> (r: Result<Vec<String>, ReferenceError>)
    ensures
        match r {
            Ok(refs) => regex_captures(REFERENCE_PATTERN@, contents@) is Some && refs.deep_view()
                == references_in(regex_captures(REFERENCE_PATTERN@, contents@)->0),
            Err(e) => regex_captures(REFERENCE_PATTERN@, contents@) is None,
        },
{
    match captures(REFERENCE_PATTERN, contents) {
        Ok(found) => Ok(references_of(&found)),
        Err(_) => Err(ReferenceError::PatternRefused),
    }
}

} // verus!
