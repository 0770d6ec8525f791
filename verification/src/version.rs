//! Release versions such as `v1.2.3`, compared by their numbers.
use vstd::prelude::*;
use crate::numbers::unsigned_value;
use crate::text::{trim, chars_of, split_char};

verus! {

broadcast use vstd::seq_lib::group_seq_properties;

/// `s` without the letters `v` at its start.
pub open spec fn strip_v(s: Seq<char>) -> Seq<char>
    decreases s.len(),
{
    if s.len() > 0 && s[0] == 'v' {
        strip_v(s.drop_first())
    } else {
        s
    }
}


/// Splitting always gives at least one part.
pub proof fn lemma_split_char_nonempty(s: Seq<char>, c: char)
    ensures
        split_char(s, c).len() >= 1,
    decreases s.len(),
{
    if s.len() > 0 {
        lemma_split_char_nonempty(s.drop_last(), c);
    }
}

/// The number that a version part gives, as `str::parse::<u64>` reads it.
pub open spec fn part_number(p: Seq<char>) -> Option<u64> {
    match unsigned_value(p) {
        Some(v) => if v <= u64::MAX {
            Some(v as u64)
        } else {
            None
        },
        None => None,
    }
}

/// The (major, minor, patch) numbers of a version: the trimmed text without its leading
/// `v`s, split at dots, its first three parts read as numbers; further parts are ignored.
pub open spec fn version_numbers(version: Seq<char>) -> Option<(u64, u64, u64)> {
    let parts = split_char(strip_v(trim(version)), '.');
    if parts.len() >= 3 && part_number(parts[0]) is Some && part_number(parts[1]) is Some
        && part_number(parts[2]) is Some {
        Some((part_number(parts[0])->0, part_number(parts[1])->0, part_number(parts[2])->0))
    } else {
        None
    }
}

/// Whether `a` comes after `b`, comparing major, then minor, then patch.
pub open spec fn version_after(a: (u64, u64, u64), b: (u64, u64, u64)) -> bool {
    a.0 > b.0 || (a.0 == b.0 && (a.1 > b.1 || (a.1 == b.1 && a.2 > b.2)))
}

/// Whether the release `remote` is newer than the running `current`: by the numbers where
/// both read, and newer where only `remote` reads.
pub open spec fn newer(remote: Seq<char>, current: Seq<char>) -> bool {
    match (version_numbers(remote), version_numbers(current)) {
        (Some(r), Some(c)) => version_after(r, c),
        (Some(_), None) => true,
        _ => false,
    }
}


/// Reads a version such as `v1.2.3`.
pub fn version_tuple(version: &str) -> (r: Option<(u64, u64, u64)>)
    ensures
        r == version_numbers(version@),
{
    let trimmed = chars_of(crate::text::trim_str(version).as_str());
    let mut start: usize = 0;
    proof {
        assert(trimmed@.skip(0) =~= trimmed@);
    }
    while start < trimmed.len() && trimmed[start] == 'v'
        invariant
            start <= trimmed@.len(),
            trimmed@ == trim(version@),
            strip_v(trim(version@)) == strip_v(trimmed@.skip(start as int)),
        decreases trimmed@.len() - start,
    {
        proof {
            assert(trimmed@.skip(start as int).drop_first() =~= trimmed@.skip(start + 1));
        }
        start = start + 1;
    }
    let mut rest: Vec<char> = Vec::new();
    let mut i: usize = start;
    while i < trimmed.len()
        invariant
            start <= i <= trimmed@.len(),
            rest@ == trimmed@.subrange(start as int, i as int),
        decreases trimmed@.len() - i,
    {
        rest.push(trimmed[i]);
        proof {
            assert(trimmed@.subrange(start as int, i + 1) =~= trimmed@.subrange(start as int, i as int).push(
                trimmed@[i as int],
            ));
        }
        i = i + 1;
    }
    proof {
        assert(rest@ =~= trimmed@.skip(start as int));
        assert(strip_v(rest@) == rest@);
    }
    let parts = crate::text::split_on(&rest, '.');
    proof {
        assert(parts@.len() == split_char(rest@, '.').len());
    }
    if parts.len() < 3 {
        return None;
    }
    proof {
        assert(parts@[0]@ == split_char(rest@, '.')[0]);
        assert(parts@[1]@ == split_char(rest@, '.')[1]);
        assert(parts@[2]@ == split_char(rest@, '.')[2]);
    }
    let major = crate::numbers::parse_u64(&parts[0]);
    let minor = crate::numbers::parse_u64(&parts[1]);
    let patch = crate::numbers::parse_u64(&parts[2]);
    match (major, minor, patch) {
        (Some(a), Some(b), Some(c)) => Some((a, b, c)),
        _ => None,
    }
}

/// Whether the release `remote` is newer than the running version `current`.
pub fn is_newer_version(remote: &str, current: &str) -> (r: bool)
    ensures
        r == newer(remote@, current@),
{
    match (version_tuple(remote), version_tuple(current)) {
        (Some(a), Some(b)) => a.0 > b.0 || (a.0 == b.0 && (a.1 > b.1 || (a.1 == b.1 && a.2 > b.2))),
        (Some(_), None) => true,
        _ => false,
    }
}

/// A release is never newer than itself, and of two releases at most one is newer than the
/// other.
pub proof fn lemma_newer_is_strict(a: Seq<char>, b: Seq<char>)
    ensures
        !newer(a, a),
        newer(a, b) ==> !newer(b, a),
{
}

} // verus!
