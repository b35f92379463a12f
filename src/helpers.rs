use vstd::prelude::*;

use crate::text::to_chars;

verus! {

/// What a capped distance is when one of the strings is empty: the length of
/// the other string, if it is at most `max_distance`.
pub open spec fn null_distance(s1: Seq<char>, s2: Seq<char>, max_distance: usize) -> Option<usize> {
    if s1.len() == 0 {
        if s2.len() == 0 {
            Some(0)
        } else if s2.len() <= max_distance {
            Some(s2.len() as usize)
        } else {
            None
        }
    } else if s1.len() <= max_distance {
        Some(s1.len() as usize)
    } else {
        None
    }
}

/// Capped distance when one or both strings are empty.
pub fn null_distance_results(string1: &str, string2: &str, max_distance: usize) -> (r: Option<usize>)
    ensures
        r == null_distance(string1@, string2@, max_distance),
{
    let a = to_chars(string1);
    let b = to_chars(string2);
    if a.len() == 0 {
        if b.len() == 0 {
            return Some(0);
        } else if b.len() <= max_distance {
            return Some(b.len());
        }
        return None;
    }
    if a.len() <= max_distance {
        Some(a.len())
    } else {
        None
    }
}

/// The first `suffix` graphemes counted from the end agree in `a` and `b`.
pub open spec fn common_suffix(a: Seq<char>, b: Seq<char>, suffix: int) -> bool {
    forall|k: int| 0 <= k < suffix ==> #[trigger] a[a.len() - 1 - k] == b[b.len() - 1 - k]
}

/// The first `prefix` graphemes agree in `a` and `b`.
pub open spec fn common_prefix(a: Seq<char>, b: Seq<char>, prefix: int) -> bool {
    forall|k: int| 0 <= k < prefix ==> a[k] == b[k]
}

/// For `a` no longer than `b`: the lengths `(len1, len2)` of what remains of
/// each once the longest common suffix and then the longest common prefix are
/// set aside, and the length `start` of that prefix.
pub open spec fn prefix_suffix_ok(a: Seq<char>, b: Seq<char>, r: (usize, usize, usize)) -> bool {
    let (len1, len2, start) = r;
    let suffix = a.len() - len1 - start;
    &&& 0 <= suffix
    &&& len2 + start + suffix == b.len()
    &&& common_suffix(a, b, suffix)
    &&& (suffix == a.len() || a[a.len() - 1 - suffix] != b[b.len() - 1 - suffix])
    &&& common_prefix(a, b, start as int)
    &&& (start + suffix == a.len() || a[start as int] != b[start as int])
}

pub fn prefix_suffix_prep_chars(a: &Vec<char>, b: &Vec<char>) -> (r: (usize, usize, usize))
    requires
        a.len() <= b.len(),
    ensures
        prefix_suffix_ok(a@, b@, r),
{
    let mut len1 = a.len();
    let mut len2 = b.len();
    while len1 != 0 && a[len1 - 1] == b[len2 - 1]
        invariant
            len1 <= a.len(),
            len2 <= b.len(),
            a.len() <= b.len(),
            a.len() - len1 == b.len() - len2,
            common_suffix(a@, b@, a.len() - len1),
        decreases len1,
    {
        len1 = len1 - 1;
        len2 = len2 - 1;
    }
    let mut start: usize = 0;
    while start != len1 && a[start] == b[start]
        invariant
            start <= len1 <= a.len(),
            len2 <= b.len(),
            a.len() <= b.len(),
            a.len() - len1 == b.len() - len2,
            common_prefix(a@, b@, start as int),
        decreases len1 - start,
    {
        start = start + 1;
    }
    (len1 - start, len2 - start, start)
}

/// Lengths that remain of two strings once their common suffix and common
/// prefix are set aside, and where the remainders start.
pub fn prefix_suffix_prep(string1: &str, string2: &str) -> (r: (usize, usize, usize))
    requires
        string1@.len() <= string2@.len(),
    ensures
        prefix_suffix_ok(string1@, string2@, r),
{
    let a = to_chars(string1);
    let b = to_chars(string2);
    prefix_suffix_prep_chars(&a, &b)
}

} // verus!
