use vstd::prelude::*;

use crate::damerau_osa::{min_nat, within};
use crate::helpers::{prefix_suffix_ok, prefix_suffix_prep_chars};
use crate::text::{slice_chars, to_chars};

verus! {

/// Levenshtein distance between `a[..i]` and `b[..j]`: the fewest insertions,
/// deletions and substitutions of graphemes.
pub open spec fn lev_prefix(a: Seq<char>, b: Seq<char>, i: nat, j: nat) -> nat
    decreases i + j,
{
    if i == 0 {
        j
    } else if j == 0 {
        i
    } else {
        let del = lev_prefix(a, b, (i - 1) as nat, j) + 1;
        let ins = lev_prefix(a, b, i, (j - 1) as nat) + 1;
        let sub = lev_prefix(a, b, (i - 1) as nat, (j - 1) as nat) + if a[i - 1] == b[j - 1] {
            0nat
        } else {
            1nat
        };
        min_nat(min_nat(del, ins), sub)
    }
}

/// Levenshtein distance between two grapheme sequences.
pub open spec fn lev_distance(a: Seq<char>, b: Seq<char>) -> nat {
    lev_prefix(a, b, a.len(), b.len())
}

/// The distance lies between the difference of the lengths and the larger length.
pub proof fn lemma_lev_bounds(a: Seq<char>, b: Seq<char>, i: nat, j: nat)
    ensures
        lev_prefix(a, b, i, j) <= if i >= j { i } else { j },
        lev_prefix(a, b, i, j) >= if i >= j { i - j } else { j - i },
    decreases i + j,
{
    if i > 0 && j > 0 {
        lemma_lev_bounds(a, b, (i - 1) as nat, j);
        lemma_lev_bounds(a, b, i, (j - 1) as nat);
        lemma_lev_bounds(a, b, (i - 1) as nat, (j - 1) as nat);
    }
}

/// The distance does not depend on the order of its arguments.
pub proof fn lemma_lev_prefix_symmetric(a: Seq<char>, b: Seq<char>, i: nat, j: nat)
    ensures
        lev_prefix(a, b, i, j) == lev_prefix(b, a, j, i),
    decreases i + j,
{
    if i > 0 && j > 0 {
        lemma_lev_prefix_symmetric(a, b, (i - 1) as nat, j);
        lemma_lev_prefix_symmetric(a, b, i, (j - 1) as nat);
        lemma_lev_prefix_symmetric(a, b, (i - 1) as nat, (j - 1) as nat);
    }
}

/// Swapping the two strings leaves their distance unchanged.
pub proof fn lemma_lev_symmetric(a: Seq<char>, b: Seq<char>)
    ensures
        lev_distance(a, b) == lev_distance(b, a),
{
    lemma_lev_prefix_symmetric(a, b, a.len(), b.len());
}

/// One more grapheme of `b` lowers the cost by at most one.
pub proof fn lemma_lev_column_step(a: Seq<char>, b: Seq<char>, i: nat, j: nat)
    ensures
        lev_prefix(a, b, i, j) <= lev_prefix(a, b, i, j + 1) + 1,
    decreases i + j,
{
    if i > 0 {
        lemma_lev_bounds(a, b, i, j + 1);
        lemma_lev_bounds(a, b, i, j);
        lemma_lev_column_step(a, b, (i - 1) as nat, j);
        assert(lev_prefix(a, b, (i - 1) as nat, 0) == i - 1);
    }
}

/// One more grapheme of `a` lowers the cost by at most one.
pub proof fn lemma_lev_row_step(a: Seq<char>, b: Seq<char>, i: nat, j: nat)
    ensures
        lev_prefix(a, b, i, j) <= lev_prefix(a, b, i + 1, j) + 1,
{
    lemma_lev_prefix_symmetric(a, b, i, j);
    lemma_lev_prefix_symmetric(a, b, i + 1, j);
    lemma_lev_column_step(b, a, j, i);
}

/// Costs never fall along a diagonal of the cost matrix.
pub proof fn lemma_lev_diagonal(a: Seq<char>, b: Seq<char>, i: nat, j: nat, k: nat)
    ensures
        lev_prefix(a, b, i, j) <= lev_prefix(a, b, i + k, j + k),
    decreases k,
{
    if k > 0 {
        lemma_lev_diagonal(a, b, i, j, (k - 1) as nat);
        let i1 = (i + k - 1) as nat;
        let j1 = (j + k - 1) as nat;
        lemma_lev_column_step(a, b, i1, j1);
        lemma_lev_row_step(a, b, i1, j1);
        assert(lev_prefix(a, b, i1 + 1, j1 + 1) >= lev_prefix(a, b, i1, j1));
    }
}

/// A shared last grapheme costs nothing.
pub proof fn lemma_lev_common_last(a: Seq<char>, b: Seq<char>, i: nat, j: nat)
    requires
        1 <= i <= a.len(),
        1 <= j <= b.len(),
        a[i - 1] == b[j - 1],
    ensures
        lev_prefix(a, b, i, j) == lev_prefix(a, b, (i - 1) as nat, (j - 1) as nat),
{
    lemma_lev_column_step(a, b, (i - 1) as nat, (j - 1) as nat);
    lemma_lev_row_step(a, b, (i - 1) as nat, (j - 1) as nat);
}

/// From a single grapheme `c` to `c` followed by `j` more graphemes: `j` insertions.
proof fn lemma_lev_shift_edge(c: char, a: Seq<char>, b: Seq<char>, j: nat)
    requires
        j <= b.len(),
    ensures
        lev_prefix(seq![c] + a, seq![c] + b, 1, j + 1) == j,
        lev_prefix(seq![c] + b, seq![c] + a, j + 1, 1) == j,
    decreases j,
{
    let aa = seq![c] + a;
    let bb = seq![c] + b;
    assert(aa[0] == c && bb[0] == c);
    if j > 0 {
        lemma_lev_shift_edge(c, a, b, (j - 1) as nat);
        assert(lev_prefix(aa, bb, 0, j + 1) == j + 1);
        assert(lev_prefix(aa, bb, 0, j) == j);
        assert(lev_prefix(bb, aa, j + 1, 0) == j + 1);
        assert(lev_prefix(bb, aa, j, 0) == j);
    } else {
        assert(lev_prefix(aa, bb, 0, 1) == 1);
        assert(lev_prefix(aa, bb, 1, 0) == 1);
        assert(lev_prefix(aa, bb, 0, 0) == 0);
        assert(lev_prefix(bb, aa, 0, 1) == 1);
        assert(lev_prefix(bb, aa, 1, 0) == 1);
        assert(lev_prefix(bb, aa, 0, 0) == 0);
    }
}

/// A shared first grapheme costs nothing.
pub proof fn lemma_lev_shift(c: char, a: Seq<char>, b: Seq<char>, i: nat, j: nat)
    requires
        i <= a.len(),
        j <= b.len(),
    ensures
        lev_prefix(seq![c] + a, seq![c] + b, i + 1, j + 1) == lev_prefix(a, b, i, j),
    decreases i + j,
{
    let aa = seq![c] + a;
    let bb = seq![c] + b;
    if i == 0 {
        lemma_lev_shift_edge(c, a, b, j);
    } else if j == 0 {
        lemma_lev_shift_edge(c, b, a, i);
        lemma_lev_prefix_symmetric(aa, bb, i + 1, 1);
    } else {
        lemma_lev_shift(c, a, b, (i - 1) as nat, j);
        lemma_lev_shift(c, a, b, i, (j - 1) as nat);
        lemma_lev_shift(c, a, b, (i - 1) as nat, (j - 1) as nat);
        assert(aa[i as int] == a[i - 1] && bb[j as int] == b[j - 1]);
    }
}

/// The cost of `a[..i]` against `b[..j]` depends on those graphemes alone.
pub proof fn lemma_lev_congruent(a: Seq<char>, b: Seq<char>, a2: Seq<char>, b2: Seq<char>, i: nat, j: nat)
    requires
        i <= a.len(),
        i <= a2.len(),
        j <= b.len(),
        j <= b2.len(),
        forall|k: int| 0 <= k < i ==> a[k] == a2[k],
        forall|k: int| 0 <= k < j ==> b[k] == b2[k],
    ensures
        lev_prefix(a, b, i, j) == lev_prefix(a2, b2, i, j),
    decreases i + j,
{
    if i > 0 && j > 0 {
        lemma_lev_congruent(a, b, a2, b2, (i - 1) as nat, j);
        lemma_lev_congruent(a, b, a2, b2, i, (j - 1) as nat);
        lemma_lev_congruent(a, b, a2, b2, (i - 1) as nat, (j - 1) as nat);
    }
}

/// The distance between two strings is the cost of their prefixes once a
/// common suffix of length `s` is set aside.
pub proof fn lemma_lev_suffix(a: Seq<char>, b: Seq<char>, s: nat)
    requires
        s <= a.len(),
        s <= b.len(),
        forall|k: int| 0 <= k < s ==> #[trigger] a[a.len() - 1 - k] == b[b.len() - 1 - k],
    ensures
        lev_distance(a, b) == lev_prefix(a, b, (a.len() - s) as nat, (b.len() - s) as nat),
    decreases s,
{
    if s > 0 {
        lemma_lev_suffix(a, b, (s - 1) as nat);
        let k = s - 1;
        assert(a[a.len() - 1 - k] == b[b.len() - 1 - k]);
        lemma_lev_common_last(a, b, (a.len() - k) as nat, (b.len() - k) as nat);
    }
}

/// A common prefix costs nothing.
pub proof fn lemma_lev_prefix_free(p: Seq<char>, x: Seq<char>, y: Seq<char>)
    ensures
        lev_distance(p + x, p + y) == lev_distance(x, y),
    decreases p.len(),
{
    if p.len() > 0 {
        let rest = p.drop_first();
        lemma_lev_prefix_free(rest, x, y);
        assert(p + x =~= seq![p[0]] + (rest + x));
        assert(p + y =~= seq![p[0]] + (rest + y));
        lemma_lev_shift(p[0], rest + x, rest + y, (rest + x).len(), (rest + y).len());
    } else {
        assert(p + x =~= x);
        assert(p + y =~= y);
    }
}

/// Setting aside a common prefix and a common suffix (as
/// `prefix_suffix_prep` finds them) leaves the distance unchanged.
pub proof fn lemma_lev_strip(a: Seq<char>, b: Seq<char>, r: (usize, usize, usize))
    requires
        prefix_suffix_ok(a, b, r),
    ensures
        lev_distance(a, b) == lev_distance(
            a.subrange(r.2 as int, r.2 + r.0),
            b.subrange(r.2 as int, r.2 + r.1),
        ),
{
    let (len1, len2, start) = r;
    let s = (a.len() - len1 - start) as nat;
    lemma_lev_suffix(a, b, s);
    let a1 = a.subrange(0, start + len1);
    let b1 = b.subrange(0, start + len2);
    lemma_lev_congruent(a, b, a1, b1, (start + len1) as nat, (start + len2) as nat);
    let pa = a.subrange(0, start as int);
    let pb = b.subrange(0, start as int);
    assert(pa =~= pb);
    assert(a1 =~= pa + a.subrange(start as int, start + len1));
    assert(b1 =~= pa + b.subrange(start as int, start + len2));
    lemma_lev_prefix_free(pa, a.subrange(start as int, start + len1), b.subrange(start as int, start + len2));
}

/// `min(best, x + 1)` without overflow.
fn min_plus_one(best: usize, x: usize) -> (r: usize)
    ensures
        r as nat == min_nat(best as nat, x as nat + 1),
{
    if best > 0 && x < best - 1 {
        x + 1
    } else {
        best
    }
}

/// Levenshtein distance, capped at `max`, by dynamic programming over rows of
/// the cost matrix: `prev` holds row `i - 1`. Costs never fall along a
/// diagonal, so when `a` is the shorter string the work stops as soon as the
/// diagonal that ends in the last cell exceeds `max`.
pub fn lev_within(a: &Vec<char>, b: &Vec<char>, max: usize) -> (r: Option<usize>)
    ensures
        r == within(lev_distance(a@, b@), max),
{
    let m = a.len();
    let n = b.len();
    if m == 0 {
        return if n <= max {
            Some(n)
        } else {
            None
        };
    }
    if n == 0 {
        return if m <= max {
            Some(m)
        } else {
            None
        };
    }
    let ghost sa = a@;
    let ghost sb = b@;
    let mut prev: Vec<usize> = Vec::new();
    let mut k: usize = 0;
    while k < n
        invariant
            k <= n,
            n == b.len(),
            prev.len() == k,
            forall|t: int| 0 <= t < k ==> prev[t] as nat == lev_prefix(sa, sb, 0, (t + 1) as nat),
        decreases n - k,
    {
        prev.push(k + 1);
        k = k + 1;
    }
    let mut ii: usize = 0;
    while ii < m
        invariant
            ii <= m,
            m == a.len(),
            n == b.len(),
            n > 0,
            sa == a@,
            sb == b@,
            prev.len() == n,
            forall|t: int|
                0 <= t < n ==> prev[t] as nat == lev_prefix(sa, sb, ii as nat, (t + 1) as nat),
        decreases m - ii,
    {
        let i = ii + 1;
        let mut cur: Vec<usize> = Vec::new();
        let mut left: usize = i;
        let mut diag: usize = i - 1;
        let mut jj: usize = 0;
        while jj < n
            invariant
                1 <= i <= m,
                i == ii + 1,
                jj <= n,
                m == a.len(),
                n == b.len(),
                sa == a@,
                sb == b@,
                prev.len() == n,
                    cur.len() == jj,
                forall|t: int|
                    0 <= t < n ==> prev[t] as nat == lev_prefix(sa, sb, (i - 1) as nat, (t + 1) as nat),
                forall|t: int|
                    0 <= t < jj ==> cur[t] as nat == lev_prefix(sa, sb, i as nat, (t + 1) as nat),
                left as nat == lev_prefix(sa, sb, i as nat, jj as nat),
                diag as nat == lev_prefix(sa, sb, (i - 1) as nat, jj as nat),
            decreases n - jj,
        {
            let j = jj + 1;
            let above = prev[j - 1];
            proof {
                lemma_lev_bounds(sa, sb, (i - 1) as nat, (j - 1) as nat);
            }
            let mut best: usize = if a[i - 1] == b[j - 1] {
                diag
            } else {
                diag + 1
            };
            best = min_plus_one(best, above);
            best = min_plus_one(best, left);
            proof {
                assert(lev_prefix(sa, sb, (i - 1) as nat, j as nat) == above as nat);
            }
            cur.push(best);
            diag = above;
            left = best;
            jj = jj + 1;
        }
        if m <= n {
            let column = i + (n - m);
            if cur[column - 1] > max {
                proof {
                    lemma_lev_diagonal(sa, sb, i as nat, column as nat, (m - i) as nat);
                }
                return None;
            }
        }
        prev = cur;
        ii = ii + 1;
    }
    let d = prev[n - 1];
    if d <= max {
        Some(d)
    } else {
        None
    }
}

/// Distance capped at `max` for `a` no longer than `b`: the common suffix and
/// prefix are set aside first, and only what remains is compared.
fn lev_stripped(a: &Vec<char>, b: &Vec<char>, max: usize) -> (r: Option<usize>)
    requires
        a.len() <= b.len(),
    ensures
        r == within(lev_distance(a@, b@), max),
{
    let (len1, len2, start) = prefix_suffix_prep_chars(a, b);
    proof {
        lemma_lev_strip(a@, b@, (len1, len2, start));
    }
    if len1 == 0 {
        let ghost rest = b@.subrange(start as int, start + len2);
        assert(lev_distance(a@.subrange(start as int, start + len1), rest) == len2) by {
            assert(a@.subrange(start as int, start + len1).len() == 0);
        }
        return if len2 <= max {
            Some(len2)
        } else {
            None
        };
    }
    let sa = slice_chars(a, start, start + len1);
    let sb = slice_chars(b, start, start + len2);
    lev_within(&sa, &sb, max)
}

/// Levenshtein distance between two grapheme sequences.
pub fn lev_core(a: &Vec<char>, b: &Vec<char>) -> (r: usize)
    ensures
        r as nat == lev_distance(a@, b@),
{
    proof {
        lemma_lev_bounds(a@, b@, a@.len(), b@.len());
        lemma_lev_symmetric(a@, b@);
        assert(a@.len() == a.len() && b@.len() == b.len());
        assert(lev_distance(a@, b@) <= usize::MAX);
    }
    let capped = if a.len() > b.len() {
        lev_stripped(b, a, usize::MAX)
    } else {
        lev_stripped(a, b, usize::MAX)
    };
    match capped {
        Some(d) => d,
        None => 0,
    }
}

/// Distance between two grapheme sequences if it is at most `max`, else `None`.
/// Strings whose lengths differ by more than `max` are rejected at once; the
/// shorter string is taken first.
pub fn lev_core_bounded(a: &Vec<char>, b: &Vec<char>, max: usize) -> (r: Option<usize>)
    ensures
        r == within(lev_distance(a@, b@), max),
{
    let m = a.len();
    let n = b.len();
    let diff = if m >= n {
        m - n
    } else {
        n - m
    };
    if diff > max {
        proof {
            lemma_lev_bounds(a@, b@, a@.len(), b@.len());
        }
        return None;
    }
    if m > n {
        proof {
            lemma_lev_symmetric(a@, b@);
        }
        lev_stripped(b, a, max)
    } else {
        lev_stripped(a, b, max)
    }
}

/// Levenshtein distance, counting insertions, deletions and substitutions.
pub struct Levenshtein {}

impl Levenshtein {
    pub fn new() -> (r: Levenshtein) {
        Levenshtein {  }
    }

    /// Distance between two strings.
    pub fn distance(&mut self, string1: &str, string2: &str) -> (r: Option<usize>)
        ensures
            r matches Some(d) && d as nat == lev_distance(string1@, string2@),
    {
        let a = to_chars(string1);
        let b = to_chars(string2);
        Some(lev_core(&a, &b))
    }

    /// Distance between two strings if it is at most `max_distance`, else `None`.
    pub fn distance2(&mut self, string1: &str, string2: &str, max_distance: usize) -> (r: Option<usize>)
        ensures
            r == within(lev_distance(string1@, string2@), max_distance),
    {
        let a = to_chars(string1);
        let b = to_chars(string2);
        lev_core_bounded(&a, &b, max_distance)
    }
}

} // verus!
