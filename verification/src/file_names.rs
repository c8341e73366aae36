//! The names of the files that hold a sequence of environments: a name, a number,
//! and the ending `.json`.

use crate::text::{parse_decimal, spec_decimal};
use regex::Regex;
use vstd::prelude::*;

verus! {

/// The pattern of the name of a numbered file: a directory, a name of letters,
/// digits and underscores, a number, and the ending.
pub const NUMBERED_FILE: &'static str = r"^(.*\/[a-zA-Z0-9_]*?)(\d+)\.json$";

/// What the groups of the regular expression `pattern` hold where it matches `text`:
/// the text of the whole match first, then the text of each group, empty for a group
/// that took no part. `None` where `pattern` is no regular expression, or does not
/// match.
pub uninterp spec fn regex_groups(pattern: Seq<char>, text: Seq<char>) -> Option<Seq<Seq<char>>>;

/// The texts that `strings` hold.
pub open spec fn texts_of(strings: Seq<String>) -> Seq<Seq<char>> {
    Seq::new(strings.len(), |i: int| strings[i]@)
}

/// `Regex::captures`, on the expression that `Regex::new` makes of `pattern`: the
/// texts of the groups of the leftmost match in `text`, or `None` where there is no
/// match or `pattern` is refused.
#[verifier::external_body]
pub(crate) fn regex_captures(pattern: &str, text: &str) -> (r: Option<Vec<String>>)
    ensures
        match r {
            Some(groups) => regex_groups(pattern@, text@) == Some(texts_of(groups@)),
            None => regex_groups(pattern@, text@) is None,
        },
{
    let re = Regex::new(pattern).ok()?;
    let found = re.captures(text)?;
    Some(found.iter().map(|m| m.map_or(String::new(), |m| m.as_str().to_owned())).collect())
}

/// What a numbered file name splits into: what stands before the number, and the
/// number. `None` where the name is not of the pattern [`NUMBERED_FILE`], or the
/// number is not written in the digits `0` to `9`, or does not fit.
pub open spec fn spec_extract_prefix(path: Seq<char>) -> Option<(Seq<char>, usize)> {
    match regex_groups(NUMBERED_FILE@, path) {
        Some(groups) => if groups.len() == 3 {
            match spec_decimal(vstd::utf8::encode_utf8(groups[2])) {
                Some(n) => if n <= usize::MAX {
                    Some((groups[1], n as usize))
                } else {
                    None
                },
                None => None,
            }
        } else {
            None
        },
        None => None,
    }
}

/// Splits the name of a numbered file into what stands before the number, and the
/// number. The name has to be one; [`try_extract_prefix`] finds out.
pub fn extract_prefix(path: &str) -> (r: (String, usize))
    requires
        spec_extract_prefix(path@) is Some,
    ensures
        (r.0@, r.1) == spec_extract_prefix(path@).unwrap(),
{
    let groups = regex_captures(NUMBERED_FILE, path).unwrap();
    let number = parse_decimal(groups[2].as_str().as_bytes()).unwrap();
    (groups[1].clone(), number)
}

/// Splits the name of a file into what stands before its number, and the number, if
/// it is the name of a numbered file.
pub fn try_extract_prefix(path: &str) -> (r: Option<(String, usize)>)
    ensures
        match r {
            Some(parts) => spec_extract_prefix(path@) == Some((parts.0@, parts.1)),
            None => spec_extract_prefix(path@) is None,
        },
{
    match regex_captures(NUMBERED_FILE, path) {
        Some(groups) => {
            if groups.len() == 3 && parse_decimal(groups[2].as_str().as_bytes()).is_some() {
                Some(extract_prefix(path))
            } else {
                None
            }
        },
        None => None,
    }
}

} // verus!
