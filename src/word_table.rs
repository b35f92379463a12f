use std::collections::hash_map::DefaultHasher;
use std::collections::HashMap;
use std::hash::Hasher;
use vstd::prelude::*;
use vstd::std_specs::hash::DefaultHasherAdditionalSpecFns;

use crate::text::chars_eq;

verus! {

broadcast use vstd::std_specs::hash::group_hash_axioms;

/// The four little-endian bytes of a code point.
pub open spec fn code_bytes(c: u32) -> Seq<u8> {
    seq![(c % 256) as u8, (c / 256 % 256) as u8, (c / 65536 % 256) as u8, (c / 16777216) as u8]
}

/// The bytes that are hashed for a grapheme sequence.
pub open spec fn char_bytes(s: Seq<char>) -> Seq<u8>
    decreases s.len(),
{
    if s.len() == 0 {
        Seq::empty()
    } else {
        char_bytes(s.drop_last()) + code_bytes(s.last() as u32)
    }
}

/// The 64-bit key of a grapheme sequence: the default hasher run over its bytes.
pub open spec fn key_hash(s: Seq<char>) -> u64 {
    DefaultHasher::spec_finish(seq![char_bytes(s)])
}

fn char_bytes_exec(v: &Vec<char>) -> (r: Vec<u8>)
    ensures
        r@ == char_bytes(v@),
{
    let mut out: Vec<u8> = Vec::new();
    let mut i: usize = 0;
    while i < v.len()
        invariant
            i <= v.len(),
            out@ == char_bytes(v@.subrange(0, i as int)),
        decreases v.len() - i,
    {
        let c = v[i] as u32;
        out.push((c % 256) as u8);
        out.push((c / 256 % 256) as u8);
        out.push((c / 65536 % 256) as u8);
        out.push((c / 16777216) as u8);
        proof {
            let next = v@.subrange(0, i + 1);
            assert(next.drop_last() =~= v@.subrange(0, i as int));
            assert(next.last() == v@[i as int]);
            assert(out@ =~= char_bytes(next));
        }
        i = i + 1;
    }
    assert(v@.subrange(0, v.len() as int) =~= v@);
    out
}

/// The key under which a grapheme sequence is filed.
pub fn string_hash(v: &Vec<char>) -> (r: u64)
    ensures
        r == key_hash(v@),
{
    let bytes = char_bytes_exec(v);
    let mut h = DefaultHasher::new();
    h.write(bytes.as_slice());
    proof {
        assert(h@ =~= seq![char_bytes(v@)]);
    }
    h.finish()
}

/// A table of distinct words with a count each. Word `i` is reached through
/// the slot of its key, which holds the positions of all words with that key.
pub struct WordTable {
    keys: Vec<Vec<char>>,
    counts: Vec<usize>,
    slots: HashMap<u64, Vec<usize>>,
}

impl WordTable {
    pub closed spec fn len(&self) -> nat {
        self.keys.len() as nat
    }

    /// The word at position `i`.
    pub closed spec fn key(&self, i: int) -> Seq<char> {
        self.keys[i]@
    }

    /// The count at position `i`.
    pub closed spec fn count(&self, i: int) -> usize {
        self.counts[i]
    }

    pub open spec fn has(&self, w: Seq<char>) -> bool {
        exists|i: int| 0 <= i < self.len() && self.key(i) == w
    }

    /// The position of a word that the table holds.
    pub open spec fn index_of(&self, w: Seq<char>) -> int {
        choose|i: int| 0 <= i < self.len() && self.key(i) == w
    }

    /// The table as a map from words to counts.
    pub open spec fn view(&self) -> Map<Seq<char>, usize> {
        Map::new(|w: Seq<char>| self.has(w), |w: Seq<char>| self.count(self.index_of(w)))
    }

    pub closed spec fn wf(&self) -> bool {
        &&& self.keys.len() == self.counts.len()
        &&& forall|i: int, j: int|
            0 <= i < self.keys.len() && 0 <= j < self.keys.len() && i != j ==> self.keys[i]@
                != self.keys[j]@
        &&& forall|i: int|
            0 <= i < self.keys.len() ==> self.slots@.contains_key(#[trigger] key_hash(self.keys[i]@))
                && self.slots@[key_hash(self.keys[i]@)]@.contains(i as usize)
        &&& forall|h: u64, p: int|
            self.slots@.contains_key(h) && 0 <= p < self.slots@[h]@.len() ==> #[trigger] self.slots@[h]@[p]
                < self.keys.len() && key_hash(self.keys[self.slots@[h]@[p] as int]@) == h
    }

    /// Distinct positions hold distinct words.
    pub proof fn lemma_distinct(&self, i: int, j: int)
        requires
            self.wf(),
            0 <= i < self.len(),
            0 <= j < self.len(),
            i != j,
        ensures
            self.key(i) != self.key(j),
    {
    }

    /// The word at position `i` is found at position `i`.
    pub proof fn lemma_index_of(&self, i: int)
        requires
            self.wf(),
            0 <= i < self.len(),
        ensures
            self.has(self.key(i)),
            self.index_of(self.key(i)) == i,
            self@.contains_key(self.key(i)),
            self@[self.key(i)] == self.count(i),
    {
        let w = self.key(i);
        assert(self.has(w));
        let j = self.index_of(w);
        if j != i {
            self.lemma_distinct(i, j);
        }
    }

    pub fn new() -> (r: WordTable)
        ensures
            r.wf(),
            r.len() == 0,
            r@ == Map::<Seq<char>, usize>::empty(),
    {
        let r = WordTable { keys: Vec::new(), counts: Vec::new(), slots: HashMap::new() };
        assert(r@ =~= Map::<Seq<char>, usize>::empty());
        r
    }

    pub fn size(&self) -> (r: usize)
        ensures
            r == self.len(),
    {
        self.keys.len()
    }

    pub fn key_at(&self, i: usize) -> (r: &Vec<char>)
        requires
            i < self.len(),
        ensures
            r@ == self.key(i as int),
    {
        &self.keys[i]
    }

    pub fn count_at(&self, i: usize) -> (r: usize)
        requires
            self.wf(),
            i < self.len(),
        ensures
            r == self.count(i as int),
    {
        self.counts[i]
    }

    /// The position of `w`, if the table holds it.
    pub fn find(&self, w: &Vec<char>) -> (r: Option<usize>)
        requires
            self.wf(),
        ensures
            match r {
                Some(i) => i < self.len() && self.key(i as int) == w@ && self.index_of(w@) == i,
                None => !self.has(w@),
            },
    {
        let h = string_hash(w);
        match self.slots.get(&h) {
            None => {
                proof {
                    if self.has(w@) {
                        let i = self.index_of(w@);
                        assert(self.slots@.contains_key(key_hash(self.keys[i]@)));
                    }
                }
                None
            },
            Some(slot) => {
                let mut p: usize = 0;
                while p < slot.len()
                    invariant
                        self.wf(),
                        self.slots@.contains_key(h),
                        slot@ == self.slots@[h]@,
                        h == key_hash(w@),
                        p <= slot.len(),
                        forall|k: int| 0 <= k < p ==> self.keys[slot@[k] as int]@ != w@,
                    decreases slot.len() - p,
                {
                    let q = slot[p];
                    assert(q < self.keys.len());
                    if chars_eq(&self.keys[q], w) {
                        proof {
                            self.lemma_index_of(q as int);
                        }
                        return Some(q);
                    }
                    p = p + 1;
                }
                proof {
                    if self.has(w@) {
                        let i = self.index_of(w@);
                        assert(self.slots@[key_hash(self.keys[i]@)]@.contains(i as usize));
                        let k = choose|k: int| 0 <= k < slot@.len() && slot@[k] == i as usize;
                        assert(self.keys[slot@[k] as int]@ == w@);
                    }
                }
                None
            },
        }
    }

    /// Adds a word that the table does not hold yet, at the next position.
    pub fn push(&mut self, w: Vec<char>, count: usize)
        requires
            old(self).wf(),
            !old(self).has(w@),
        ensures
            final(self).wf(),
            final(self).len() == old(self).len() + 1,
            final(self).key(old(self).len() as int) == w@,
            final(self).count(old(self).len() as int) == count,
            forall|i: int|
                0 <= i < old(self).len() ==> final(self).key(i) == old(self).key(i) && final(self).count(i)
                    == old(self).count(i),
            final(self)@ == old(self)@.insert(w@, count),
    {
        let ghost old_self = *self;
        let id = self.keys.len();
        let h = string_hash(&w);
        let mut slot = match self.slots.remove(&h) {
            Some(s) => s,
            None => Vec::new(),
        };
        slot.push(id);
        self.slots.insert(h, slot);
        self.keys.push(w);
        self.counts.push(count);
        proof {
            assert forall|i: int|
                0 <= i < self.keys.len() implies self.slots@.contains_key(#[trigger] key_hash(self.keys[i]@))
                && self.slots@[key_hash(self.keys[i]@)]@.contains(i as usize) by {
                if i < id {
                    let hi = key_hash(self.keys[i]@);
                    assert(old_self.slots@[hi]@.contains(i as usize));
                    if hi == h {
                        let k = choose|k: int| 0 <= k < old_self.slots@[hi]@.len() && old_self.slots@[hi]@[k] == i as usize;
                        assert(self.slots@[hi]@[k] == i as usize);
                    }
                } else {
                    assert(self.slots@[h]@[self.slots@[h]@.len() - 1] == id);
                }
            }
            assert forall|h2: u64, p: int|
                self.slots@.contains_key(h2) && 0 <= p < self.slots@[h2]@.len() implies #[trigger] self.slots@[h2]@[p]
                < self.keys.len() && key_hash(self.keys[self.slots@[h2]@[p] as int]@) == h2 by {
                if h2 == h && p == self.slots@[h2]@.len() - 1 {
                } else {
                    assert(old_self.slots@.contains_key(h2));
                    assert(self.slots@[h2]@[p] == old_self.slots@[h2]@[p]);
                }
            }
            assert forall|i: int, j: int|
                0 <= i < self.keys.len() && 0 <= j < self.keys.len() && i != j implies self.keys[i]@
                != self.keys[j]@ by {
                if i == id {
                    assert(!old_self.has(w@));
                    assert(old_self.key(j) == self.keys[j]@);
                } else if j == id {
                    assert(old_self.key(i) == self.keys[i]@);
                }
            }
            assert forall|x: Seq<char>| #[trigger] self.has(x) == old_self@.insert(w@, count).contains_key(x) by {
                if x == w@ {
                    assert(self.key(id as int) == w@);
                }
                if self.has(x) {
                    let i = choose|i: int| 0 <= i < self.len() && self.key(i) == x;
                    if i < id {
                        assert(old_self.key(i) == x);
                    }
                }
                if old_self.has(x) {
                    let i = choose|i: int| 0 <= i < old_self.len() && old_self.key(i) == x;
                    assert(self.key(i) == x);
                }
            }
            assert forall|x: Seq<char>| #[trigger] self.has(x) implies self.count(self.index_of(x))
                == old_self@.insert(w@, count)[x] by {
                let i = self.index_of(x);
                self.lemma_index_of(i);
                if x == w@ {
                    self.lemma_index_of(id as int);
                } else {
                    assert(i < id);
                    old_self.lemma_index_of(i);
                    assert(old_self.key(i) == x);
                }
            }
            assert(self@ =~= old_self@.insert(w@, count));
        }
    }

    /// Replaces the count at position `i`.
    pub fn set_count(&mut self, i: usize, count: usize)
        requires
            old(self).wf(),
            i < old(self).len(),
        ensures
            final(self).wf(),
            final(self).len() == old(self).len(),
            forall|k: int| 0 <= k < old(self).len() ==> final(self).key(k) == old(self).key(k),
            final(self).count(i as int) == count,
            forall|k: int| 0 <= k < old(self).len() && k != i ==> final(self).count(k) == old(self).count(k),
            final(self)@ == old(self)@.insert(old(self).key(i as int), count),
    {
        let ghost old_self = *self;
        self.counts.set(i, count);
        proof {
            let w = old_self.key(i as int);
            old_self.lemma_index_of(i as int);
            assert forall|x: Seq<char>| #[trigger] self.has(x) == old_self@.insert(w, count).contains_key(x) by {
                if self.has(x) {
                    let k = choose|k: int| 0 <= k < self.len() && self.key(k) == x;
                    assert(old_self.key(k) == x);
                }
                if old_self.has(x) {
                    let k = choose|k: int| 0 <= k < old_self.len() && old_self.key(k) == x;
                    assert(self.key(k) == x);
                }
            }
            assert forall|x: Seq<char>| #[trigger] self.has(x) implies self.count(self.index_of(x))
                == old_self@.insert(w, count)[x] by {
                let k = self.index_of(x);
                self.lemma_index_of(k);
                assert(old_self.key(k) == x);
                old_self.lemma_index_of(k);
            }
            assert(self@ =~= old_self@.insert(w, count));
        }
    }
}

} // verus!
