use vstd::prelude::*;

verus! {

/// `sep` occurs in `s` at position `i`.
pub open spec fn matches_at(s: Seq<char>, sep: Seq<char>, i: int) -> bool {
    0 <= i && i + sep.len() <= s.len() && s.subrange(i, i + sep.len()) == sep
}

/// The first position at or after `i` where a non-empty `sep` occurs in `s`.
pub open spec fn first_match_from(s: Seq<char>, sep: Seq<char>, i: int) -> Option<int>
    decreases s.len() - i,
{
    if sep.len() == 0 || i < 0 || i + sep.len() > s.len() {
        None
    } else if matches_at(s, sep, i) {
        Some(i)
    } else {
        first_match_from(s, sep, i + 1)
    }
}

/// The text before the first separator and the text after it, or `None`
/// when the separator does not occur (or is empty).
pub open spec fn split_once(s: Seq<char>, sep: Seq<char>) -> Option<(Seq<char>, Seq<char>)> {
    match first_match_from(s, sep, 0) {
        Some(i) => Some((s.subrange(0, i), s.subrange(i + sep.len(), s.len() as int))),
        None => None,
    }
}

/// The text up to the first separator, or all of it.
pub open spec fn first_field(s: Seq<char>, sep: Seq<char>) -> Seq<char> {
    match split_once(s, sep) {
        Some((head, _)) => head,
        None => s,
    }
}

/// Characters with the Unicode `White_Space` property.
pub open spec fn is_white_space(c: char) -> bool {
    let u = c as u32;
    (0x09 <= u <= 0x0D) || u == 0x20 || u == 0x85 || u == 0xA0 || u == 0x1680 || (0x2000 <= u
        <= 0x200A) || u == 0x2028 || u == 0x2029 || u == 0x202F || u == 0x205F || u == 0x3000
}

/// `s` without its trailing white space.
pub open spec fn trim_end(s: Seq<char>) -> Seq<char>
    decreases s.len(),
{
    if s.len() > 0 && is_white_space(s.last()) {
        trim_end(s.drop_last())
    } else {
        s
    }
}

pub open spec fn is_digit(c: char) -> bool {
    '0' <= c <= '9'
}

/// The number written by the decimal digits `s`.
pub open spec fn digits_value(s: Seq<char>) -> nat
    decreases s.len(),
{
    if s.len() == 0 {
        0
    } else {
        digits_value(s.drop_last()) * 10 + ((s.last() as u32) - ('0' as u32)) as nat
    }
}

/// An unsigned decimal: an optional `+`, then one or more digits, and a value
/// that fits in `usize`.
pub open spec fn parse_usize(s: Seq<char>) -> Option<usize> {
    parse_digits(unsigned_part(s))
}

/// `s` without a leading `+`.
pub open spec fn unsigned_part(s: Seq<char>) -> Seq<char> {
    if s.len() > 0 && s[0] == '+' {
        s.drop_first()
    } else {
        s
    }
}

/// The value of one or more decimal digits that fits in `usize`.
pub open spec fn parse_digits(d: Seq<char>) -> Option<usize> {
    if d.len() > 0 && (forall|k: int| 0 <= k < d.len() ==> is_digit(#[trigger] d[k])) && digits_value(d)
        <= usize::MAX {
        Some(digits_value(d) as usize)
    } else {
        None
    }
}

/// A count field: its value, or 0 where it does not parse.
pub open spec fn count_of_field(s: Seq<char>) -> usize {
    match parse_usize(trim_end(s)) {
        Some(v) => v,
        None => 0,
    }
}

/// Whether `sep` occurs in `s` at position `i`.
pub fn matches_at_exec(s: &Vec<char>, sep: &Vec<char>, i: usize) -> (r: bool)
    ensures
        r == matches_at(s@, sep@, i as int),
{
    if i > s.len() || sep.len() > s.len() - i {
        return false;
    }
    let mut k: usize = 0;
    while k < sep.len()
        invariant
            i + sep.len() <= s.len(),
            k <= sep.len(),
            forall|t: int| 0 <= t < k ==> s@[i + t] == sep@[t],
        decreases sep.len() - k,
    {
        if s[i + k] != sep[k] {
            assert(s@.subrange(i as int, i + sep.len())[k as int] != sep@[k as int]);
            return false;
        }
        k = k + 1;
    }
    assert(s@.subrange(i as int, i + sep.len()) =~= sep@);
    true
}

/// The first position at or after `from` where `sep` occurs in `s`.
pub fn find_from(s: &Vec<char>, sep: &Vec<char>, from: usize) -> (r: Option<usize>)
    ensures
        match first_match_from(s@, sep@, from as int) {
            Some(i) => r == Some(i as usize),
            None => r is None,
        },
{
    if sep.len() == 0 {
        return None;
    }
    let mut i = from;
    while i <= s.len() && sep.len() <= s.len() - i
        invariant
            sep.len() > 0,
            from <= i,
            first_match_from(s@, sep@, from as int) == first_match_from(s@, sep@, i as int),
        decreases s.len() + 1 - i,
    {
        if matches_at_exec(s, sep, i) {
            return Some(i);
        }
        i = i + 1;
    }
    None
}

/// Drops trailing white space.
pub fn trim_end_chars(s: &Vec<char>) -> (r: Vec<char>)
    ensures
        r@ == trim_end(s@),
{
    let mut n = s.len();
    assert(s@.subrange(0, n as int) =~= s@);
    while n > 0 && is_white_space_exec(s[n - 1])
        invariant
            n <= s.len(),
            trim_end(s@) == trim_end(s@.subrange(0, n as int)),
        decreases n,
    {
        assert(s@.subrange(0, n as int).drop_last() =~= s@.subrange(0, n - 1));
        n = n - 1;
    }
    let mut out: Vec<char> = Vec::new();
    let mut k: usize = 0;
    while k < n
        invariant
            k <= n <= s.len(),
            out@ == s@.subrange(0, k as int),
        decreases n - k,
    {
        out.push(s[k]);
        k = k + 1;
        assert(out@ =~= s@.subrange(0, k as int));
    }
    proof {
        let t = s@.subrange(0, n as int);
        assert(!(t.len() > 0 && is_white_space(t.last())));
    }
    out
}

pub fn is_white_space_exec(c: char) -> (r: bool)
    ensures
        r == is_white_space(c),
{
    let u = c as u32;
    (0x09 <= u && u <= 0x0D) || u == 0x20 || u == 0x85 || u == 0xA0 || u == 0x1680 || (0x2000 <= u
        && u <= 0x200A) || u == 0x2028 || u == 0x2029 || u == 0x202F || u == 0x205F || u == 0x3000
}

/// A longer run of digits never has a smaller value.
proof fn lemma_digits_monotone(d: Seq<char>, i: int)
    requires
        0 <= i <= d.len(),
        forall|k: int| 0 <= k < d.len() ==> is_digit(#[trigger] d[k]),
    ensures
        digits_value(d.subrange(0, i)) <= digits_value(d),
    decreases d.len() - i,
{
    if i < d.len() {
        lemma_digits_monotone(d, i + 1);
        let t = d.subrange(0, i + 1);
        assert(t.drop_last() =~= d.subrange(0, i));
    } else {
        assert(d.subrange(0, i) =~= d);
    }
}

/// Parses an unsigned decimal (see [`parse_usize`]).
pub fn parse_usize_chars(s: &Vec<char>) -> (r: Option<usize>)
    ensures
        r == parse_usize(s@),
{
    let start: usize = if s.len() > 0 && s[0] == '+' {
        1
    } else {
        0
    };
    let ghost d = unsigned_part(s@);
    assert(d =~= s@.subrange(start as int, s@.len() as int));
    if start == s.len() {
        assert(d.len() == 0);
        return None;
    }
    let mut value: usize = 0;
    let mut i = start;
    while i < s.len()
        invariant
            start <= i <= s.len(),
            d == unsigned_part(s@),
            d == s@.subrange(start as int, s@.len() as int),
            forall|k: int| start <= k < i ==> is_digit(#[trigger] s@[k]),
            value as nat == digits_value(s@.subrange(start as int, i as int)),
        decreases s.len() - i,
    {
        let c = s[i];
        if !('0' <= c && c <= '9') {
            assert(!is_digit(d[i - start]));
            assert(!(forall|k: int| 0 <= k < d.len() ==> is_digit(#[trigger] d[k])));
            return None;
        }
        let digit = (c as u32 - '0' as u32) as usize;
        let ghost t = s@.subrange(start as int, i + 1);
        assert(t.drop_last() =~= s@.subrange(start as int, i as int));
        if value > (usize::MAX - digit) / 10 {
            proof {
                assert(digits_value(t) > usize::MAX) by (nonlinear_arith)
                    requires
                        value > (usize::MAX - digit) / 10,
                        digits_value(t) == value * 10 + digit,
                        digit <= 9,
                ;
                if forall|k: int| 0 <= k < d.len() ==> is_digit(#[trigger] d[k]) {
                    lemma_digits_monotone(d, i + 1 - start);
                    assert(d.subrange(0, i + 1 - start) =~= t);
                    assert(digits_value(d) > usize::MAX);
                }
                assert(parse_usize(s@) is None);
            }
            return None;
        }
        value = value * 10 + digit;
        i = i + 1;
    }
    assert(s@.subrange(start as int, s.len() as int) =~= d);
    Some(value)
}

} // verus!
