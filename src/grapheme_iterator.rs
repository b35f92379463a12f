use std::ops::Range;
use vstd::prelude::*;
use vstd::utf8::{char_is_scalar, encode_scalar, encode_utf8};

use crate::text::{from_chars, to_chars};

verus! {

/// Bytes of a grapheme in UTF-8, as its leading byte tells: 1 to 4.
pub open spec fn utf8_width(c: char) -> nat {
    let u = c as u32;
    if u < 0x80 {
        1
    } else if u < 0x800 {
        2
    } else if u < 0x10000 {
        3
    } else {
        4
    }
}

/// Bytes taken by a sequence of graphemes.
pub open spec fn byte_len(s: Seq<char>) -> nat
    decreases s.len(),
{
    if s.len() == 0 {
        0
    } else {
        utf8_width(s[0]) + byte_len(s.drop_first())
    }
}

pub proof fn lemma_byte_len_encoding(s: Seq<char>)
    ensures
        byte_len(s) == encode_utf8(s).len(),
    decreases s.len(),
{
    if s.len() > 0 {
        char_is_scalar(s[0]);
        lemma_byte_len_encoding(s.drop_first());
        assert(encode_scalar(s[0] as u32).len() == utf8_width(s[0]));
    }
}

pub proof fn lemma_byte_len_concat(a: Seq<char>, b: Seq<char>)
    ensures
        byte_len(a + b) == byte_len(a) + byte_len(b),
    decreases a.len(),
{
    if a.len() > 0 {
        lemma_byte_len_concat(a.drop_first(), b);
        assert((a + b).drop_first() =~= a.drop_first() + b);
    } else {
        assert(a + b =~= b);
    }
}

pub proof fn lemma_byte_len_prefix(s: Seq<char>, i: int)
    requires
        0 <= i <= s.len(),
    ensures
        byte_len(s.subrange(0, i)) <= byte_len(s),
{
    lemma_byte_len_concat(s.subrange(0, i), s.subrange(i, s.len() as int));
    assert(s.subrange(0, i) + s.subrange(i, s.len() as int) =~= s);
}

fn utf8_width_exec(c: char) -> (r: usize)
    ensures
        r == utf8_width(c),
{
    let u = c as u32;
    if u < 0x80 {
        1
    } else if u < 0x800 {
        2
    } else if u < 0x10000 {
        3
    } else {
        4
    }
}

/// The graphemes of a string, each with the byte offset where it starts.
pub struct GraphemeClusters {
    chars: Vec<char>,
    offsets: Vec<usize>,
}

impl GraphemeClusters {
    /// The graphemes.
    pub closed spec fn graphemes(&self) -> Seq<char> {
        self.chars@
    }

    pub closed spec fn wf(&self) -> bool {
        &&& self.offsets.len() == self.chars.len() + 1
        &&& forall|i: int|
            0 <= i <= self.chars.len() ==> #[trigger] self.offsets@[i] == byte_len(self.chars@.subrange(0, i))
    }

    pub fn new(s: &str) -> (r: GraphemeClusters)
        ensures
            r.wf(),
            r.graphemes() == s@,
    {
        let bytes = s.as_bytes();
        let chars = to_chars(s);
        proof {
            lemma_byte_len_encoding(s@);
        }
        let mut offsets: Vec<usize> = Vec::new();
        assert(bytes@.len() == bytes.len());
        offsets.push(0);
        assert(chars@.subrange(0, 0) =~= Seq::<char>::empty());
        let mut at: usize = 0;
        let mut i: usize = 0;
        while i < chars.len()
            invariant
                chars@ == s@,
                byte_len(s@) == bytes@.len(),
                bytes@.len() <= usize::MAX,
                i <= chars.len(),
                offsets.len() == i + 1,
                at == byte_len(chars@.subrange(0, i as int)),
                forall|k: int| 0 <= k <= i ==> #[trigger] offsets@[k] == byte_len(chars@.subrange(0, k)),
            decreases chars.len() - i,
        {
            proof {
                lemma_byte_len_concat(chars@.subrange(0, i as int), seq![chars@[i as int]]);
                assert(chars@.subrange(0, i as int) + seq![chars@[i as int]] =~= chars@.subrange(0, i + 1));
                lemma_byte_len_prefix(chars@, i + 1);
                assert(seq![chars@[i as int]].drop_first() =~= Seq::<char>::empty());
                assert(byte_len(Seq::<char>::empty()) == 0);
                assert(byte_len(seq![chars@[i as int]]) == utf8_width(chars@[i as int]));
            }
            at = at + utf8_width_exec(chars[i]);
            offsets.push(at);
            i = i + 1;
        }
        GraphemeClusters { chars, offsets }
    }

    /// Number of graphemes.
    pub fn len(&self) -> (r: usize)
        ensures
            r == self.graphemes().len(),
    {
        self.chars.len()
    }

    /// The byte range that covers the graphemes of `range`; an empty range at
    /// 0 where `range` does not lie within the string.
    pub fn get_slice_range(&self, range: Range<usize>) -> (r: Range<usize>)
        requires
            self.wf(),
        ensures
            if range.start <= range.end <= self.graphemes().len() {
                r.start == byte_len(self.graphemes().subrange(0, range.start as int))
                    && r.end == byte_len(self.graphemes().subrange(0, range.end as int))
            } else {
                r.start == 0 && r.end == 0
            },
    {
        if range.start <= range.end && range.end <= self.chars.len() {
            let start = self.offsets[range.start];
            let end = self.offsets[range.end];
            start..end
        } else {
            0..0
        }
    }

    /// The grapheme at index `i` as a string; empty where `i` is out of range.
    pub fn at(&self, i: usize) -> (r: String)
        ensures
            i < self.graphemes().len() ==> r@ == seq![self.graphemes()[i as int]],
            i >= self.graphemes().len() ==> r@ == Seq::<char>::empty(),
    {
        let mut v: Vec<char> = Vec::new();
        if i < self.chars.len() {
            v.push(self.chars[i]);
        }
        assert(i < self.graphemes().len() ==> v@ =~= seq![self.graphemes()[i as int]]);
        from_chars(&v)
    }

    /// Every grapheme with its byte range, in order.
    pub fn items(&self) -> (r: Vec<(String, Range<usize>)>)
        requires
            self.wf(),
        ensures
            r.len() == self.graphemes().len(),
            forall|k: int|
                0 <= k < r.len() ==> (#[trigger] r@[k]).0@ == seq![self.graphemes()[k]] && r@[k].1.start
                    == byte_len(self.graphemes().subrange(0, k)) && r@[k].1.end == byte_len(
                    self.graphemes().subrange(0, k + 1),
                ),
    {
        let mut out: Vec<(String, Range<usize>)> = Vec::new();
        let mut i: usize = 0;
        while i < self.chars.len()
            invariant
                self.wf(),
                i <= self.chars.len(),
                out.len() == i,
                forall|k: int|
                    0 <= k < i ==> (#[trigger] out@[k]).0@ == seq![self.graphemes()[k]] && out@[k].1.start
                        == byte_len(self.graphemes().subrange(0, k)) && out@[k].1.end == byte_len(
                        self.graphemes().subrange(0, k + 1),
                    ),
            decreases self.chars.len() - i,
        {
            let g = self.at(i);
            let range = self.offsets[i]..self.offsets[i + 1];
            out.push((g, range));
            i = i + 1;
        }
        out
    }
}

} // verus!
