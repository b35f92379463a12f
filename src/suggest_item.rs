use vstd::prelude::*;
use vstd::utf8::encode_utf8;

use crate::word_table::code_bytes;

verus! {

/// Serialises a value to bytes.
pub trait Encode<T> {
    fn encode(&self) -> T;
}

/// The low 32 bits of `x`.
pub open spec fn low32(x: usize) -> u32 {
    (x as nat % 0x1_0000_0000) as u32
}

/// The encoding of a suggestion: its count and its distance as little-endian
/// `u32`s, the byte length of its term as one byte, then the term in UTF-8.
pub open spec fn encoded_item(item: SuggestItem) -> Seq<u8> {
    let bytes = encode_utf8(item.term@);
    code_bytes(low32(item.count)) + code_bytes(low32(item.distance)) + seq![(bytes.len() % 256) as u8]
        + bytes
}

/// The encoding of a list of suggestions: their number as a little-endian
/// `u32`, then for each the byte length of its encoding as a `u32` and the
/// encoding itself.
pub open spec fn encoded_list(items: Seq<SuggestItem>) -> Seq<u8> {
    code_bytes(low32(items.len() as usize)) + encoded_records(items)
}

pub open spec fn encoded_records(items: Seq<SuggestItem>) -> Seq<u8>
    decreases items.len(),
{
    if items.len() == 0 {
        Seq::empty()
    } else {
        let last = encoded_item(items.last());
        encoded_records(items.drop_last()) + code_bytes(low32(last.len() as usize)) + last
    }
}

/// Appends the four little-endian bytes of the low 32 bits of `x`.
fn push_u32_le(out: &mut Vec<u8>, x: usize)
    ensures
        final(out)@ == old(out)@ + code_bytes(low32(x)),
{
    let c: u32 = (x as u64 % 0x1_0000_0000) as u32;
    out.push((c % 256) as u8);
    out.push((c / 256 % 256) as u8);
    out.push((c / 65536 % 256) as u8);
    out.push((c / 16777216) as u8);
    assert(final(out)@ =~= old(out)@ + code_bytes(low32(x)));
}

/// Appends the bytes of a slice.
fn push_bytes(out: &mut Vec<u8>, bytes: &[u8])
    ensures
        final(out)@ == old(out)@ + bytes@,
{
    let ghost start = out@;
    let mut i: usize = 0;
    while i < bytes.len()
        invariant
            i <= bytes@.len(),
            out@ == start + bytes@.subrange(0, i as int),
        decreases bytes@.len() - i,
    {
        out.push(bytes[i]);
        i = i + 1;
        assert(out@ =~= start + bytes@.subrange(0, i as int));
    }
    assert(bytes@.subrange(0, bytes@.len() as int) =~= bytes@);
}

/// Encodes a list of suggestions (see [`encoded_list`]).
pub fn encode_suggestions(items: &Vec<SuggestItem>) -> (r: Vec<u8>)
    ensures
        r@ == encoded_list(items@),
{
    let mut out: Vec<u8> = Vec::new();
    push_u32_le(&mut out, items.len());
    let mut i: usize = 0;
    while i < items.len()
        invariant
            i <= items.len(),
            out@ == code_bytes(low32(items.len())) + encoded_records(items@.subrange(0, i as int)),
        decreases items.len() - i,
    {
        let record = items[i].encode_bytes();
        push_u32_le(&mut out, record.len());
        push_bytes(&mut out, record.as_slice());
        proof {
            let sub = items@.subrange(0, i + 1);
            assert(sub.drop_last() =~= items@.subrange(0, i as int));
            assert(sub.last() == items@[i as int]);
        }
        i = i + 1;
        assert(out@ =~= code_bytes(low32(items.len())) + encoded_records(items@.subrange(0, i as int)));
    }
    assert(items@.subrange(0, items.len() as int) =~= items@);
    out
}

/// A suggested spelling: the word, its edit distance from the query, and its
/// count in the dictionary.
pub struct SuggestItem {
    pub term: String,
    pub distance: usize,
    pub count: usize,
}

impl SuggestItem {
    pub fn new(term: String, distance: usize, count: usize) -> (r: SuggestItem)
        ensures
            r.term@ == term@,
            r.distance == distance,
            r.count == count,
    {
        SuggestItem { term, distance, count }
    }

    /// An empty suggestion: no term, distance 0, count 0.
    pub fn default() -> (r: SuggestItem)
        ensures
            r.term@ == Seq::<char>::empty(),
            r.distance == 0,
            r.count == 0,
    {
        SuggestItem { term: String::new(), distance: 0, count: 0 }
    }

    /// The bytes of this suggestion (see [`encoded_item`]).
    pub fn encode_bytes(&self) -> (r: Vec<u8>)
        ensures
            r@ == encoded_item(*self),
    {
        let bytes = self.term.as_str().as_bytes();
        let mut out: Vec<u8> = Vec::new();
        push_u32_le(&mut out, self.count);
        push_u32_le(&mut out, self.distance);
        assert(bytes@.len() == bytes.len());
        out.push((bytes.len() % 256) as u8);
        push_bytes(&mut out, bytes);
        assert(out@ =~= encoded_item(*self));
        out
    }
}

impl Encode<Vec<u8>> for SuggestItem {
    fn encode(&self) -> Vec<u8> {
        self.encode_bytes()
    }
}

} // verus!
