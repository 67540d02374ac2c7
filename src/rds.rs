use vstd::prelude::*;
use vstd::string::StrSliceExecFns;

use crate::access::{str_eq, Tag};

verus! {

/// Kind of a line printed by the RDS decoder.
#[derive(Clone, Copy, Debug, PartialEq, Eq, Structural)]
pub enum RdsLine {
    /// `GS `: a single-group message.
    SingleGroup,
    /// `GF `: the first group of a multi-group message.
    FirstGroup,
    /// `S `: a subsequent group of a multi-group message.
    Subsequent,
    /// Anything else.
    Other,
}

/// `s` starts with the characters `p`.
pub open spec fn starts_with(s: Seq<char>, p: Seq<char>) -> bool {
    p.len() <= s.len() && s.subrange(0, p.len() as int) == p
}

fn has_prefix(s: &str, p: &str) -> (r: bool)
    ensures
        r == starts_with(s@, p@),
{
    let n = p.unicode_len();
    if n > s.unicode_len() {
        return false;
    }
    let head = s.substring_char(0, n);
    str_eq(head, p)
}

/// Classifies a decoder line by its prefix.
pub fn rds_line_kind(line: &str) -> (r: RdsLine)
    ensures
        r == (if starts_with(line@, "GS "@) {
            RdsLine::SingleGroup
        } else if starts_with(line@, "GF "@) {
            RdsLine::FirstGroup
        } else if starts_with(line@, "S "@) {
            RdsLine::Subsequent
        } else {
            RdsLine::Other
        }),
{
    if has_prefix(line, "GS ") {
        RdsLine::SingleGroup
    } else if has_prefix(line, "GF ") {
        RdsLine::FirstGroup
    } else if has_prefix(line, "S ") {
        RdsLine::Subsequent
    } else {
        RdsLine::Other
    }
}

/// The key is `tmc` or `TMC`.
pub open spec fn is_tmc_key(key: Seq<char>) -> bool {
    key == "tmc"@ || key == "TMC"@
}

/// Indices of the tags of `tags` that carry a TMC location, in order.
pub fn tmc_tags(tags: &Vec<Tag>) -> (r: Vec<usize>)
    ensures
        forall|k: int| 0 <= k < r@.len() ==> r@[k] < tags@.len() && is_tmc_key(tags@[#[trigger] r@[k] as int].key@),
        forall|i: int| 0 <= i < tags@.len() && is_tmc_key(tags@[i].key@) ==> #[trigger] r@.contains(i as usize),
        forall|a: int, b: int| 0 <= a < b < r@.len() ==> r@[a] < r@[b],
{
    let mut out: Vec<usize> = Vec::new();
    let mut i: usize = 0;
    while i < tags.len()
        invariant
            0 <= i <= tags@.len(),
            forall|k: int| 0 <= k < out@.len() ==> out@[k] < i && is_tmc_key(tags@[#[trigger] out@[k] as int].key@),
            forall|j: int| 0 <= j < i && is_tmc_key(tags@[j].key@) ==> #[trigger] out@.contains(j as usize),
            forall|a: int, b: int| 0 <= a < b < out@.len() ==> out@[a] < out@[b],
        decreases tags@.len() - i,
    {
        let key = tags[i].key.as_str();
        if str_eq(key, "tmc") || str_eq(key, "TMC") {
            let ghost before = out@;
            out.push(i);
            proof {
                assert forall|j: int| 0 <= j < i + 1 && is_tmc_key(tags@[j].key@) implies #[trigger] out@.contains(j as usize) by {
                    if j < i {
                        assert(before.contains(j as usize));
                        let k = choose|k: int| 0 <= k < before.len() && before[k] == j as usize;
                        assert(out@[k] == j as usize);
                    } else {
                        assert(out@[before.len() as int] == j as usize);
                    }
                }
            }
        }
        i += 1;
    }
    out
}

} // verus!
