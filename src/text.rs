use vstd::prelude::*;

verus! {

/// Relies on String::push: the character is appended at the end.
pub assume_specification[ String::push ](string: &mut String, ch: char)
    ensures
        final(string)@ == old(string)@.push(ch),
;

/// The graphemes of a string, one per code point.
pub fn to_chars(s: &str) -> (r: Vec<char>)
    ensures
        r@ == s@,
{
    let mut out: Vec<char> = Vec::new();
    for c in it: s.chars()
        invariant
            out@ == it.seq().subrange(0, it.index() as int),
            it.seq() == s@,
    {
        out.push(c);
    }
    out
}

/// A string made of the given graphemes.
pub fn from_chars(v: &Vec<char>) -> (r: String)
    ensures
        r@ == v@,
{
    let mut s = String::new();
    let mut i: usize = 0;
    while i < v.len()
        invariant
            i <= v.len(),
            s@ == v@.subrange(0, i as int),
        decreases v.len() - i,
    {
        s.push(v[i]);
        i = i + 1;
        assert(s@ =~= v@.subrange(0, i as int));
    }
    assert(v@.subrange(0, v.len() as int) =~= v@);
    s
}

/// Whether two grapheme sequences are equal.
pub fn chars_eq(a: &Vec<char>, b: &Vec<char>) -> (r: bool)
    ensures
        r == (a@ == b@),
{
    if a.len() != b.len() {
        return false;
    }
    let mut i: usize = 0;
    while i < a.len()
        invariant
            a.len() == b.len(),
            i <= a.len(),
            a@.subrange(0, i as int) == b@.subrange(0, i as int),
        decreases a.len() - i,
    {
        if a[i] != b[i] {
            assert(a@[i as int] != b@[i as int]);
            return false;
        }
        assert(a@.subrange(0, i + 1) =~= a@.subrange(0, i as int).push(a@[i as int]));
        assert(b@.subrange(0, i + 1) =~= b@.subrange(0, i as int).push(b@[i as int]));
        i = i + 1;
    }
    assert(a@ =~= a@.subrange(0, a.len() as int));
    assert(b@ =~= b@.subrange(0, b.len() as int));
    true
}

/// The graphemes `v[from..to]`.
pub fn slice_chars(v: &Vec<char>, from: usize, to: usize) -> (r: Vec<char>)
    requires
        from <= to <= v.len(),
    ensures
        r@ == v@.subrange(from as int, to as int),
{
    let mut out: Vec<char> = Vec::new();
    let mut i: usize = from;
    while i < to
        invariant
            from <= i <= to <= v.len(),
            out@ == v@.subrange(from as int, i as int),
        decreases to - i,
    {
        out.push(v[i]);
        i = i + 1;
        assert(out@ =~= v@.subrange(from as int, i as int));
    }
    out
}

/// `v` with the grapheme at `idx` removed.
pub fn remove_char(v: &Vec<char>, idx: usize) -> (r: Vec<char>)
    requires
        idx < v.len(),
    ensures
        r@ == v@.remove(idx as int),
{
    let mut out: Vec<char> = Vec::new();
    let mut i: usize = 0;
    while i < v.len()
        invariant
            idx < v.len(),
            i <= v.len(),
            out@ == (if i <= idx { v@.subrange(0, i as int) } else { v@.subrange(0, i as int).remove(idx as int) }),
        decreases v.len() - i,
    {
        if i != idx {
            out.push(v[i]);
        }
        i = i + 1;
        assert(out@ =~= (if i <= idx { v@.subrange(0, i as int) } else { v@.subrange(0, i as int).remove(idx as int) }));
    }
    assert(v@.subrange(0, v.len() as int) =~= v@);
    out
}

/// `a` followed by `b`.
pub fn concat_chars(a: &Vec<char>, b: &Vec<char>) -> (r: Vec<char>)
    ensures
        r@ == a@ + b@,
{
    let mut out = a.clone();
    let mut i: usize = 0;
    while i < b.len()
        invariant
            i <= b.len(),
            out@ == a@ + b@.subrange(0, i as int),
        decreases b.len() - i,
    {
        out.push(b[i]);
        i = i + 1;
        assert(out@ =~= a@ + b@.subrange(0, i as int));
    }
    assert(b@.subrange(0, b.len() as int) =~= b@);
    out
}

/// Whether `c` occurs in `v`.
pub fn contains_char(v: &Vec<char>, c: char) -> (r: bool)
    ensures
        r == v@.contains(c),
{
    let mut i: usize = 0;
    while i < v.len()
        invariant
            i <= v.len(),
            forall|k: int| 0 <= k < i ==> v@[k] != c,
        decreases v.len() - i,
    {
        if v[i] == c {
            assert(v@[i as int] == c);
            return true;
        }
        i = i + 1;
    }
    false
}

} // verus!
