use std::collections::HashMap;
use vstd::prelude::*;

use crate::parse::{
    count_of_field, find_from, first_field, first_match_from, matches_at, parse_usize_chars, split_once,
    trim_end_chars,
};
use crate::text::{chars_eq, from_chars, remove_char, slice_chars, to_chars};
use crate::word_table::{key_hash, string_hash, WordTable};

pub mod lookup;

pub use lookup::{lookup_ok, suggestion_ok};

verus! {

broadcast use vstd::std_specs::hash::group_hash_axioms;

pub const DEFAULT_MAX_EDIT_DISTANCE: usize = 2;

pub const DEFAULT_PREFIX_LENGTH: usize = 7;

pub const DEFAULT_COUNT_THRESHOLD: usize = 1;

/// `a + b`, or the largest `usize` where the sum does not fit.
pub open spec fn sat_add(a: usize, b: usize) -> usize {
    if a + b > usize::MAX {
        usize::MAX
    } else {
        (a + b) as usize
    }
}

pub fn saturating_add_usize(a: usize, b: usize) -> (r: usize)
    ensures
        r == sat_add(a, b),
{
    if a > usize::MAX - b {
        usize::MAX
    } else {
        a + b
    }
}

/// The first `prefix_length` graphemes of `w`, or all of it when it is shorter.
pub open spec fn prefix_of(w: Seq<char>, prefix_length: nat) -> Seq<char> {
    if w.len() > prefix_length {
        w.subrange(0, prefix_length as int)
    } else {
        w
    }
}

/// `d` is reached from `p` by `t` single-grapheme deletions.
pub open spec fn is_delete_at(d: Seq<char>, p: Seq<char>, t: nat) -> bool
    decreases t,
{
    if t == 0 {
        d == p
    } else {
        exists|s: Seq<char>, i: int|
            is_delete_at(s, p, (t - 1) as nat) && 0 <= i < s.len() && d
                == #[trigger] s.remove(i)
    }
}

/// The strings filed for a dictionary word `w`: its prefix and everything
/// reached from the prefix by at most `max_edit_distance` deletions, and the
/// empty string when `w` is no longer than `max_edit_distance`.
pub open spec fn is_delete_variant(d: Seq<char>, w: Seq<char>, max_edit_distance: nat, prefix_length: nat) -> bool {
    (d.len() == 0 && w.len() <= max_edit_distance) || exists|t: nat|
        t <= max_edit_distance && #[trigger] is_delete_at(d, prefix_of(w, prefix_length), t)
}

/// What adding `count` occurrences of `w` does to the indexed words and to
/// the words still below the count threshold.
pub open spec fn entry_effect(
    words: Map<Seq<char>, usize>,
    below: Map<Seq<char>, usize>,
    threshold: usize,
    w: Seq<char>,
    count: usize,
) -> (Map<Seq<char>, usize>, Map<Seq<char>, usize>) {
    if words.contains_key(w) {
        (words.insert(w, sat_add(words[w], count)), below)
    } else {
        let total = if below.contains_key(w) {
            sat_add(below[w], count)
        } else {
            count
        };
        if total >= threshold {
            (words.insert(w, total), below.remove(w))
        } else {
            (words, below.insert(w, total))
        }
    }
}

/// Adding `a` and then `b` occurrences of a word leaves the dictionary as
/// adding `a + b` (saturated) at once does.
pub proof fn lemma_entry_effect_accumulates(
    words: Map<Seq<char>, usize>,
    below: Map<Seq<char>, usize>,
    threshold: usize,
    w: Seq<char>,
    a: usize,
    b: usize,
)
    ensures
        ({
            let (words1, below1) = entry_effect(words, below, threshold, w, a);
            entry_effect(words1, below1, threshold, w, b)
        }) == entry_effect(words, below, threshold, w, sat_add(a, b)),
{
    let (words1, below1) = entry_effect(words, below, threshold, w, a);
    if words.contains_key(w) {
        assert(words1.insert(w, sat_add(words1[w], b)) =~= words.insert(w, sat_add(words[w], sat_add(a, b))));
    } else {
        let total = if below.contains_key(w) {
            sat_add(below[w], a)
        } else {
            a
        };
        let total2 = if below.contains_key(w) {
            sat_add(below[w], sat_add(a, b))
        } else {
            sat_add(a, b)
        };
        assert(total2 == sat_add(total, b));
        if total >= threshold {
            assert(words1.insert(w, sat_add(words1[w], b)) =~= words.insert(w, total2));
        } else {
            assert(below1.insert(w, total2).remove(w) =~= below.remove(w));
            assert(below1.insert(w, total2) =~= below.insert(w, total2));
        }
    }
}

/// A deletion lowers the length by one.
pub proof fn lemma_delete_len(d: Seq<char>, p: Seq<char>, t: nat)
    requires
        is_delete_at(d, p, t),
    ensures
        d.len() + t == p.len(),
    decreases t,
{
    if t > 0 {
        let (s, i) = choose|s: Seq<char>, i: int|
            is_delete_at(s, p, (t - 1) as nat) && 0 <= i < s.len() && d
                == #[trigger] s.remove(i);
        lemma_delete_len(s, p, (t - 1) as nat);
    }
}

/// Whether some element of `v` equals `x`.
pub fn contains_chars(v: &Vec<Vec<char>>, x: &Vec<char>) -> (r: bool)
    ensures
        r == exists|k: int| 0 <= k < v.len() && #[trigger] v[k]@ == x@,
{
    let mut k: usize = 0;
    while k < v.len()
        invariant
            k <= v.len(),
            forall|j: int| 0 <= j < k ==> #[trigger] v[j]@ != x@,
        decreases v.len() - k,
    {
        if chars_eq(&v[k], x) {
            return true;
        }
        k = k + 1;
    }
    false
}

/// `d` is one string of `level` with one grapheme deleted.
pub open spec fn one_deletion_from(level: Seq<Seq<char>>, d: Seq<char>) -> bool {
    exists|a: int, i: int| 0 <= a < level.len() && 0 <= i < level[a].len() && d == #[trigger] level[a].remove(i)
}

/// Whether a sequence holds `d` is whether either part of a concatenation does.
pub proof fn lemma_contains_concat(x: Seq<Seq<char>>, y: Seq<Seq<char>>, d: Seq<char>)
    ensures
        (x + y).contains(d) == (x.contains(d) || y.contains(d)),
{
    if (x + y).contains(d) {
        let j = choose|j: int| 0 <= j < (x + y).len() && (x + y)[j] == d;
        if j < x.len() {
            assert(x[j] == d);
        } else {
            assert(y[j - x.len()] == d);
        }
    }
    if x.contains(d) {
        let j = choose|j: int| 0 <= j < x.len() && x[j] == d;
        assert((x + y)[j] == d);
    }
    if y.contains(d) {
        let j = choose|j: int| 0 <= j < y.len() && y[j] == d;
        assert((x + y)[x.len() + j] == d);
    }
}

/// The grapheme sequences held by a vector of words.
pub open spec fn views(v: Seq<Vec<char>>) -> Seq<Seq<char>> {
    v.map_values(|x: Vec<char>| x@)
}

pub proof fn lemma_views_push(v: Seq<Vec<char>>, x: Vec<char>)
    ensures
        views(v.push(x)) == views(v).push(x@),
        forall|y: Seq<char>| views(v).contains(y) ==> #[trigger] views(v.push(x)).contains(y),
        views(v.push(x)).contains(x@),
{
    assert(views(v.push(x)) =~= views(v).push(x@));
    assert(views(v.push(x))[v.len() as int] == x@);
    assert forall|y: Seq<char>| views(v).contains(y) implies #[trigger] views(v.push(x)).contains(y) by {
        let k = choose|k: int| 0 <= k < views(v).len() && views(v)[k] == y;
        assert(views(v.push(x))[k] == y);
    }
}

/// The keys under which a word's delete variants are filed.
pub open spec fn variant_keys(w: Seq<char>, max_edit_distance: nat, prefix_length: nat) -> Set<u64> {
    Set::new(|h: u64| exists|d: Seq<char>| #[trigger] is_delete_variant(d, w, max_edit_distance, prefix_length) && key_hash(d) == h)
}

/// `new` is `old` with copies of `w` appended to some buckets, all under `keys`.
pub open spec fn grows_by(
    old: Map<u64, Seq<Seq<char>>>,
    new: Map<u64, Seq<Seq<char>>>,
    w: Seq<char>,
    keys: Set<u64>,
) -> bool {
    &&& forall|h: u64|
        #[trigger] old.contains_key(h) ==> new.contains_key(h) && new[h].len() >= old[h].len() && new[h].subrange(
            0,
            old[h].len() as int,
        ) == old[h]
    &&& forall|h: u64, k: int|
        new.contains_key(h) && (if old.contains_key(h) {
            old[h].len() as int
        } else {
            0
        }) <= k < new[h].len() ==> #[trigger] new[h][k] == w && keys.contains(h)
}

/// As `grows_by`, for buckets of word positions.
pub open spec fn ids_grow(old: Map<u64, Vec<usize>>, new: Map<u64, Vec<usize>>, id: usize, keys: Set<u64>) -> bool {
    &&& forall|h: u64|
        #[trigger] old.contains_key(h) ==> new.contains_key(h) && new[h]@.len() >= old[h]@.len() && new[h]@.subrange(
            0,
            old[h]@.len() as int,
        ) == old[h]@
    &&& forall|h: u64, k: int|
        new.contains_key(h) && (if old.contains_key(h) {
            old[h]@.len() as int
        } else {
            0
        }) <= k < new[h]@.len() ==> #[trigger] new[h]@[k] == id && keys.contains(h)
}

pub proof fn lemma_ids_grow_trans(
    a: Map<u64, Vec<usize>>,
    b: Map<u64, Vec<usize>>,
    c: Map<u64, Vec<usize>>,
    id: usize,
    k1: Set<u64>,
    keys: Set<u64>,
)
    requires
        ids_grow(a, b, id, keys),
        ids_grow(b, c, id, k1),
        k1.subset_of(keys),
    ensures
        ids_grow(a, c, id, keys),
{
    assert forall|h: u64| #[trigger] a.contains_key(h) implies c.contains_key(h) && c[h]@.len() >= a[h]@.len()
        && c[h]@.subrange(0, a[h]@.len() as int) == a[h]@ by {
        assert(b.contains_key(h));
        assert(c[h]@.subrange(0, a[h]@.len() as int) =~= c[h]@.subrange(0, b[h]@.len() as int).subrange(0, a[h]@.len() as int));
    }
    assert forall|h: u64, k: int|
        c.contains_key(h) && (if a.contains_key(h) {
            a[h]@.len() as int
        } else {
            0
        }) <= k < c[h]@.len() implies #[trigger] c[h]@[k] == id && keys.contains(h) by {
        let bl = if b.contains_key(h) { b[h]@.len() as int } else { 0 };
        if k < bl {
            assert(b.contains_key(h));
            assert(c[h]@[k] == c[h]@.subrange(0, b[h]@.len() as int)[k]);
            assert(b[h]@[k] == id && keys.contains(h));
        }
    }
}

/// The spelling engine: a frequency dictionary and the delete index built from it.
pub struct SymSpell {
    dictionary_edit_distance: usize,
    prefix_length: usize,
    count_threshold: usize,
    max_dictionary_word_length: usize,
    /// Key of a delete string to the positions in `vocabulary` of the words filed under it.
    deletes: HashMap<u64, Vec<usize>>,
    /// Every word seen, with its cumulative count.
    vocabulary: WordTable,
    /// Whether the word at each position has reached the count threshold.
    promoted: Vec<bool>,
    bigrams: WordTable,
    bigram_count_min: usize,
}

impl SymSpell {
    pub closed spec fn spec_max_edit_distance(&self) -> usize {
        self.dictionary_edit_distance
    }

    pub closed spec fn spec_prefix_length(&self) -> usize {
        self.prefix_length
    }

    pub closed spec fn spec_count_threshold(&self) -> usize {
        self.count_threshold
    }

    pub closed spec fn spec_max_length(&self) -> usize {
        self.max_dictionary_word_length
    }

    pub closed spec fn spec_bigram_count_min(&self) -> usize {
        self.bigram_count_min
    }

    /// Words at or above the count threshold, with their counts.
    pub closed spec fn words(&self) -> Map<Seq<char>, usize> {
        Map::new(
            |w: Seq<char>|
                self.vocabulary.has(w) && self.promoted@[self.vocabulary.index_of(w)],
            |w: Seq<char>| self.vocabulary@[w],
        )
    }

    /// Words still below the count threshold, with their counts.
    pub closed spec fn below_threshold_words(&self) -> Map<Seq<char>, usize> {
        Map::new(
            |w: Seq<char>|
                self.vocabulary.has(w) && !self.promoted@[self.vocabulary.index_of(w)],
            |w: Seq<char>| self.vocabulary@[w],
        )
    }

    /// Bigrams `"w1 w2"` with their counts.
    pub closed spec fn bigrams(&self) -> Map<Seq<char>, usize> {
        self.bigrams@
    }

    /// The words filed under a delete key, in the order they were filed.
    pub closed spec fn bucket(&self, h: u64) -> Seq<Seq<char>> {
        if self.deletes@.contains_key(h) {
            self.deletes@[h]@.map_values(|id: usize| self.vocabulary.key(id as int))
        } else {
            Seq::empty()
        }
    }

    /// The delete index: each delete key with the words filed under it.
    pub closed spec fn delete_index(&self) -> Map<u64, Seq<Seq<char>>> {
        Map::new(|h: u64| self.deletes@.contains_key(h), |h: u64| self.bucket(h))
    }

    /// Number of delete keys.
    pub closed spec fn spec_entry_count(&self) -> nat {
        self.deletes@.len()
    }

    /// All delete variants of the word at position `id` are filed with it.
    pub closed spec fn complete_for(&self, id: int) -> bool {
        forall|d: Seq<char>|
            #[trigger] is_delete_variant(
                d,
                self.vocabulary.key(id),
                self.dictionary_edit_distance as nat,
                self.prefix_length as nat,
            ) ==> self.deletes@.contains_key(key_hash(d)) && self.deletes@[key_hash(d)]@.contains(
                id as usize,
            )
    }

    pub closed spec fn inv_core(&self) -> bool {
        &&& self.vocabulary.wf()
        &&& self.bigrams.wf()
        &&& self.promoted.len() == self.vocabulary.len()
        &&& forall|h: u64, p: int|
            self.deletes@.contains_key(h) && 0 <= p < self.deletes@[h]@.len() ==> {
                &&& #[trigger] self.deletes@[h]@[p] < self.vocabulary.len()
                &&& self.promoted@[self.deletes@[h]@[p] as int]
            }
        &&& forall|id: int|
            0 <= id < self.promoted.len() && #[trigger] self.promoted@[id] ==> self.vocabulary.key(
                id,
            ).len() <= self.max_dictionary_word_length
    }

    /// The engine's invariant: every indexed word is filed under each of its
    /// delete variants, and the delete index holds indexed words only.
    pub closed spec fn wf(&self) -> bool {
        &&& self.inv_core()
        &&& forall|id: int|
            0 <= id < self.promoted.len() && #[trigger] self.promoted@[id] ==> self.complete_for(id)
    }

    /// Creates an empty engine; absent settings take their defaults (2, 7 and 1).
    pub fn new(
        dictionary_edit_distance: Option<usize>,
        prefix_length: Option<usize>,
        count_threshold: Option<usize>,
    ) -> (r: SymSpell)
        ensures
            r.wf(),
            r.spec_max_edit_distance() == match dictionary_edit_distance {
                Some(d) => d,
                None => DEFAULT_MAX_EDIT_DISTANCE,
            },
            r.spec_prefix_length() == match prefix_length {
                Some(p) => p,
                None => DEFAULT_PREFIX_LENGTH,
            },
            r.spec_count_threshold() == match count_threshold {
                Some(c) => c,
                None => DEFAULT_COUNT_THRESHOLD,
            },
            r.spec_max_length() == 0,
            r.words() == Map::<Seq<char>, usize>::empty(),
            r.below_threshold_words() == Map::<Seq<char>, usize>::empty(),
            r.bigrams() == Map::<Seq<char>, usize>::empty(),
            r.spec_bigram_count_min() == usize::MAX,
            r.spec_entry_count() == 0,
    {
        let max_dict_edit_dist = match dictionary_edit_distance {
            Some(d) => d,
            None => DEFAULT_MAX_EDIT_DISTANCE,
        };
        let prefix_len = match prefix_length {
            Some(p) => p,
            None => DEFAULT_PREFIX_LENGTH,
        };
        let ct_threshold = match count_threshold {
            Some(c) => c,
            None => DEFAULT_COUNT_THRESHOLD,
        };
        let r = SymSpell {
            dictionary_edit_distance: max_dict_edit_dist,
            prefix_length: prefix_len,
            count_threshold: ct_threshold,
            max_dictionary_word_length: 0,
            deletes: HashMap::new(),
            vocabulary: WordTable::new(),
            promoted: Vec::new(),
            bigrams: WordTable::new(),
            bigram_count_min: usize::MAX,
        };
        assert(r.words() =~= Map::<Seq<char>, usize>::empty());
        assert(r.below_threshold_words() =~= Map::<Seq<char>, usize>::empty());
        r
    }

    /// The strings reached from each string of `level` by deleting one grapheme,
    /// each once.
    fn edits(level: &Vec<Vec<char>>) -> (next: Vec<Vec<char>>)
        ensures
            forall|a: int, i: int|
                0 <= a < level.len() && 0 <= i < level[a]@.len() ==> views(next@).contains(
                    #[trigger] level[a]@.remove(i),
                ),
            forall|k: int| 0 <= k < next.len() ==> one_deletion_from(views(level@), #[trigger] next@[k]@),
            views(next@).no_duplicates(),
    {
        let mut next: Vec<Vec<char>> = Vec::new();
        let mut a: usize = 0;
        while a < level.len()
            invariant
                a <= level.len(),
                forall|a2: int, i: int|
                    0 <= a2 < a && 0 <= i < level[a2]@.len() ==> views(next@).contains(
                        #[trigger] level[a2]@.remove(i),
                    ),
                forall|k: int| 0 <= k < next.len() ==> one_deletion_from(views(level@), #[trigger] next@[k]@),
                views(next@).no_duplicates(),
            decreases level.len() - a,
        {
            let s = &level[a];
            let mut i: usize = 0;
            while i < s.len()
                invariant
                    a < level.len(),
                    s == &level[a as int],
                    i <= s.len(),
                    forall|a2: int, i2: int|
                        0 <= a2 < a && 0 <= i2 < level[a2]@.len() ==> views(next@).contains(
                            #[trigger] level[a2]@.remove(i2),
                        ),
                    forall|i2: int| 0 <= i2 < i ==> views(next@).contains(#[trigger] s@.remove(i2)),
                    forall|k: int| 0 <= k < next.len() ==> one_deletion_from(views(level@), #[trigger] next@[k]@),
                    views(next@).no_duplicates(),
                decreases s.len() - i,
            {
                let d = remove_char(s, i);
                if !contains_chars(&next, &d) {
                    let ghost before = next@;
                    next.push(d);
                    proof {
                        lemma_views_push(before, next@[next.len() - 1]);
                        assert forall|k: int| 0 <= k < next.len() implies one_deletion_from(views(level@), #[trigger] next@[k]@) by {
                            if k < before.len() {
                                assert(next@[k] == before[k]);
                            } else {
                                assert(views(level@)[a as int] == s@);
                                assert(next@[k]@ == views(level@)[a as int].remove(i as int));
                            }
                        }
                        assert forall|x: int, y: int| 0 <= x < y < views(next@).len() implies views(next@)[x] != views(next@)[y] by {
                            if y == before.len() {
                                assert(views(next@)[x] == before[x]@);
                            } else {
                                assert(views(before)[x] != views(before)[y]);
                            }
                        }
                    }
                } else {
                    proof {
                        let k = choose|k: int| 0 <= k < next.len() && #[trigger] next[k]@ == d@;
                        assert(views(next@)[k] == d@);
                    }
                }
                i = i + 1;
            }
            a = a + 1;
        }
        next
    }

    /// Every delete variant of `key` (see [`is_delete_variant`]), each once, and nothing else.
    fn create_deletes(&self, key: &Vec<char>) -> (r: Vec<Vec<char>>)
        ensures
            forall|d: Seq<char>|
                is_delete_variant(d, key@, self.dictionary_edit_distance as nat, self.prefix_length as nat)
                    <==> #[trigger] views(r@).contains(d),
            views(r@).no_duplicates(),
    {
        let med = self.dictionary_edit_distance;
        let pl = self.prefix_length;
        let ghost pp = prefix_of(key@, pl as nat);
        let p = if key.len() > pl {
            slice_chars(key, 0, pl)
        } else {
            slice_chars(key, 0, key.len())
        };
        assert(p@ =~= pp);
        let mut out: Vec<Vec<char>> = Vec::new();
        let mut level: Vec<Vec<char>> = Vec::new();
        let first = slice_chars(&p, 0, p.len());
        proof {
            lemma_views_push(level@, first);
        }
        level.push(first);
        let plen = p.len();
        let limit = if med < plen {
            med
        } else {
            plen
        };
        let mut t: usize = 0;
        proof {
            assert(first@ =~= pp);
            assert(views(level@) =~= seq![pp]);
        }
        loop
            invariant_except_break
                forall|d: Seq<char>|
                    #[trigger] views(out@).contains(d) ==> exists|t2: nat| t2 < t && is_delete_at(d, pp, t2),
                forall|d: Seq<char>, t2: nat| t2 < t && #[trigger] is_delete_at(d, pp, t2) ==> views(out@).contains(d),
            invariant
                t <= limit <= med,
                limit <= pp.len(),
                med == self.dictionary_edit_distance,
                pl == self.prefix_length,
                pp == prefix_of(key@, pl as nat),
                forall|d: Seq<char>| #[trigger] is_delete_at(d, pp, t as nat) <==> views(level@).contains(d),
                views(out@).no_duplicates(),
                views(level@).no_duplicates(),
            ensures
                pp == prefix_of(key@, pl as nat),
                forall|d: Seq<char>|
                    #[trigger] views(out@).contains(d) ==> exists|t2: nat| t2 <= limit && is_delete_at(d, pp, t2),
                forall|d: Seq<char>, t2: nat| t2 <= limit && #[trigger] is_delete_at(d, pp, t2) ==> views(out@).contains(d),
                views(out@).no_duplicates(),
            decreases limit + 1 - t,
        {
            // the level's strings are all shorter than every string filed so far
            let mut k: usize = 0;
            let ghost out_before = out@;
            while k < level.len()
                invariant
                    k <= level.len(),
                    views(out@) == views(out_before) + views(level@).subrange(0, k as int),
                decreases level.len() - k,
            {
                let copy = slice_chars(&level[k], 0, level[k].len());
                let ghost before = out@;
                out.push(copy);
                proof {
                    lemma_views_push(before, copy);
                    assert(copy@ =~= views(level@)[k as int]);
                    assert(views(out@) =~= views(out_before) + views(level@).subrange(0, k + 1));
                }
                k = k + 1;
            }
            proof {
                assert(views(level@).subrange(0, level.len() as int) =~= views(level@));
                assert forall|d: Seq<char>| #[trigger] views(out@).contains(d) <==> (views(out_before).contains(d)
                    || views(level@).contains(d)) by {
                    lemma_contains_concat(views(out_before), views(level@), d);
                }
                assert forall|x: int, y: int| 0 <= x < y < views(out@).len() implies views(out@)[x] != views(out@)[y] by {
                    let ob = views(out_before);
                    let lv = views(level@);
                    if y < ob.len() {
                        assert(ob[x] != ob[y]);
                    } else if x >= ob.len() {
                        assert(lv[x - ob.len()] != lv[y - ob.len()]);
                    } else {
                        let dx = ob[x];
                        let dy = lv[y - ob.len()];
                        assert(ob.contains(dx));
                        assert(lv.contains(dy));
                        let t2 = choose|t2: nat| t2 < t && is_delete_at(dx, pp, t2);
                        lemma_delete_len(dx, pp, t2);
                        lemma_delete_len(dy, pp, t as nat);
                    }
                }
                assert forall|d: Seq<char>| #[trigger] views(out@).contains(d) implies exists|t2: nat| t2 < t + 1 && is_delete_at(d, pp, t2) by {
                    if views(out_before).contains(d) {
                        let t2 = choose|t2: nat| t2 < t && is_delete_at(d, pp, t2);
                    } else {
                        assert(is_delete_at(d, pp, t as nat));
                    }
                }
                assert forall|d: Seq<char>, t2: nat| t2 < t + 1 && #[trigger] is_delete_at(d, pp, t2) implies views(out@).contains(d) by {
                    if t2 == t {
                        assert(views(level@).contains(d));
                    } else {
                        assert(views(out_before).contains(d));
                    }
                }
            }
            if t == limit {
                break;
            }
            let next = Self::edits(&level);
            proof {
                assert forall|d: Seq<char>| #[trigger] is_delete_at(d, pp, (t + 1) as nat) <==> views(next@).contains(d) by {
                    if is_delete_at(d, pp, (t + 1) as nat) {
                        let (s, i) = choose|s: Seq<char>, i: int|
                            is_delete_at(s, pp, t as nat) && 0 <= i < s.len() && d == #[trigger] s.remove(i);
                        assert(views(level@).contains(s));
                        let a = choose|a: int| 0 <= a < views(level@).len() && views(level@)[a] == s;
                        assert(level[a]@ == s);
                        assert(level[a]@.remove(i) == d);
                        assert(views(next@).contains(level[a]@.remove(i)));
                    }
                    if views(next@).contains(d) {
                        let k = choose|k: int| 0 <= k < views(next@).len() && views(next@)[k] == d;
                        assert(views(next@)[k] == next@[k]@);
                        assert(one_deletion_from(views(level@), next@[k]@));
                        let (a, i) = choose|a: int, i: int|
                            0 <= a < views(level@).len() && 0 <= i < views(level@)[a].len() && d == #[trigger] views(level@)[a].remove(i);
                        assert(views(level@).contains(views(level@)[a]));
                        assert(is_delete_at(views(level@)[a], pp, t as nat));
                        assert(is_delete_at(d, pp, (t + 1) as nat));
                    }
                }
            }
            let ghost t_before = t;
            level = next;
            t = t + 1;
            proof {
                assert forall|d: Seq<char>| #[trigger] is_delete_at(d, pp, t as nat) <==> views(level@).contains(d) by {
                    assert(t as nat == (t_before + 1) as nat);
                }
                assert forall|d: Seq<char>|
                    #[trigger] views(out@).contains(d) implies exists|t2: nat| t2 < t && is_delete_at(d, pp, t2) by {
                    let t2 = choose|t2: nat| t2 < t_before + 1 && is_delete_at(d, pp, t2);
                }
            }
        }
        if key.len() <= med {
            let empty: Vec<char> = Vec::new();
            if !contains_chars(&out, &empty) {
                let ghost before = out@;
                out.push(empty);
                proof {
                    lemma_views_push(before, empty);
                    assert forall|x: int, y: int| 0 <= x < y < views(out@).len() implies views(out@)[x] != views(out@)[y] by {
                        if y == before.len() {
                            assert(views(out@)[x] == before[x]@);
                            assert(views(before).contains(before[x]@));
                        } else {
                            assert(views(before)[x] != views(before)[y]);
                        }
                    }
                    assert forall|d: Seq<char>| #[trigger] views(out@).contains(d) implies (views(before).contains(d)
                        || d == Seq::<char>::empty()) by {
                        let j = choose|j: int| 0 <= j < views(out@).len() && views(out@)[j] == d;
                        if j < before.len() {
                            assert(views(before)[j] == d);
                        }
                    }
                }
            } else {
                proof {
                    let k = choose|k: int| 0 <= k < out.len() && #[trigger] out[k]@ == empty@;
                    assert(views(out@)[k] == empty@);
                }
            }
        }
        proof {
            assert forall|d: Seq<char>|
                is_delete_variant(d, key@, med as nat, pl as nat) <==> #[trigger] views(out@).contains(d) by {
                if is_delete_variant(d, key@, med as nat, pl as nat) {
                    if d.len() == 0 && key@.len() <= med {
                        assert(d =~= Seq::<char>::empty());
                    } else {
                        let t2 = choose|t2: nat| t2 <= med && #[trigger] is_delete_at(d, pp, t2);
                        lemma_delete_len(d, pp, t2);
                        assert(t2 <= limit);
                    }
                }
                if views(out@).contains(d) {
                    if key@.len() <= med && d == Seq::<char>::empty() {
                    } else {
                        let t2 = choose|t2: nat| t2 <= limit && is_delete_at(d, pp, t2);
                        assert(t2 <= med);
                    }
                }
            }
        }
        out
    }

    /// Growth of the position buckets is growth of the delete index by the word.
    proof fn lemma_index_grows(old_s: SymSpell, new_s: SymSpell, id: usize, keys: Set<u64>)
        requires
            old_s.inv_core(),
            new_s.vocabulary == old_s.vocabulary,
            ids_grow(old_s.deletes@, new_s.deletes@, id, keys),
        ensures
            grows_by(old_s.delete_index(), new_s.delete_index(), old_s.vocabulary.key(id as int), keys),
    {
        let o = old_s.delete_index();
        let n = new_s.delete_index();
        assert forall|h: u64| #[trigger] o.contains_key(h) implies n.contains_key(h) && n[h].len() >= o[h].len()
            && n[h].subrange(0, o[h].len() as int) == o[h] by {
            assert(old_s.deletes@.contains_key(h));
            let ov = old_s.deletes@[h]@;
            let nv = new_s.deletes@[h]@;
            assert(nv.subrange(0, ov.len() as int) == ov);
            assert forall|k: int| 0 <= k < ov.len() implies n[h][k] == o[h][k] by {
                assert(nv[k] == nv.subrange(0, ov.len() as int)[k]);
            }
            assert(n[h].subrange(0, o[h].len() as int) =~= o[h]);
        }
        assert forall|h: u64, k: int|
            n.contains_key(h) && (if o.contains_key(h) {
                o[h].len() as int
            } else {
                0
            }) <= k < n[h].len() implies #[trigger] n[h][k] == old_s.vocabulary.key(id as int) && keys.contains(h) by {
            assert(new_s.deletes@[h]@[k] == id);
        }
    }

    /// The delete index reads the same when the buckets are untouched and the
    /// words at the positions they hold keep their place.
    proof fn lemma_index_frame(old_s: SymSpell, new_s: SymSpell)
        requires
            old_s.inv_core(),
            new_s.deletes@ == old_s.deletes@,
            old_s.vocabulary.len() <= new_s.vocabulary.len(),
            forall|k: int| 0 <= k < old_s.vocabulary.len() ==> new_s.vocabulary.key(k) == old_s.vocabulary.key(k),
        ensures
            new_s.delete_index() == old_s.delete_index(),
    {
        assert forall|h: u64| old_s.deletes@.contains_key(h) implies #[trigger] new_s.bucket(h) == old_s.bucket(h) by {
            assert forall|p: int| 0 <= p < old_s.deletes@[h]@.len() implies new_s.vocabulary.key(
                old_s.deletes@[h]@[p] as int,
            ) == old_s.vocabulary.key(old_s.deletes@[h]@[p] as int) by {
                assert(old_s.deletes@[h]@[p] < old_s.vocabulary.len());
            }
            assert(new_s.bucket(h) =~= old_s.bucket(h));
        }
        assert(new_s.delete_index() =~= old_s.delete_index());
    }

    /// The delete index holds indexed words only.
    pub proof fn lemma_buckets_indexed(&self, h: u64, k: int)
        requires
            self.wf(),
            self.delete_index().contains_key(h),
            0 <= k < self.delete_index()[h].len(),
        ensures
            self.words().contains_key(self.delete_index()[h][k]),
    {
        let id = self.deletes@[h]@[k];
        assert(id < self.vocabulary.len() && self.promoted@[id as int]);
        self.lemma_position(id as int);
    }

    /// How `words` and `below_threshold_words` read position `i` of the vocabulary.
    proof fn lemma_position(&self, i: int)
        requires
            self.inv_core(),
            0 <= i < self.vocabulary.len(),
        ensures
            self.words().contains_key(self.vocabulary.key(i)) == self.promoted@[i],
            self.below_threshold_words().contains_key(self.vocabulary.key(i)) == !self.promoted@[i],
            self.promoted@[i] ==> self.words()[self.vocabulary.key(i)] == self.vocabulary.count(i),
            !self.promoted@[i] ==> self.below_threshold_words()[self.vocabulary.key(i)]
                == self.vocabulary.count(i),
    {
        self.vocabulary.lemma_index_of(i);
    }

    /// Files word `id` under the key of `delete`.
    fn insert_delete(&mut self, delete: &Vec<char>, id: usize)
        requires
            old(self).inv_core(),
            id < old(self).vocabulary.len(),
            old(self).promoted@[id as int],
        ensures
            final(self).inv_core(),
            final(self).vocabulary == old(self).vocabulary,
            final(self).promoted == old(self).promoted,
            final(self).bigrams == old(self).bigrams,
            final(self).dictionary_edit_distance == old(self).dictionary_edit_distance,
            final(self).prefix_length == old(self).prefix_length,
            final(self).count_threshold == old(self).count_threshold,
            final(self).max_dictionary_word_length == old(self).max_dictionary_word_length,
            final(self).bigram_count_min == old(self).bigram_count_min,
            final(self).deletes@.contains_key(key_hash(delete@)),
            final(self).deletes@[key_hash(delete@)]@.contains(id),
            ids_grow(old(self).deletes@, final(self).deletes@, id, Set::empty().insert(key_hash(delete@))),
            forall|h: u64, x: usize|
                old(self).deletes@.contains_key(h) && old(self).deletes@[h]@.contains(x)
                    ==> final(self).deletes@.contains_key(h) && #[trigger] final(self).deletes@[h]@.contains(x),
    {
        let ghost old_deletes = self.deletes@;
        let h = self.get_string_hash(delete);
        let mut slot = match self.deletes.remove(&h) {
            Some(v) => v,
            None => Vec::new(),
        };
        let ghost slot_before = slot@;
        slot.push(id);
        self.deletes.insert(h, slot);
        proof {
            assert(self.deletes@[h]@[slot_before.len() as int] == id);
            assert forall|h2: u64, x: usize|
                old_deletes.contains_key(h2) && old_deletes[h2]@.contains(x)
                    implies self.deletes@.contains_key(h2) && #[trigger] self.deletes@[h2]@.contains(x) by {
                let k = choose|k: int| 0 <= k < old_deletes[h2]@.len() && old_deletes[h2]@[k] == x;
                assert(self.deletes@[h2]@[k] == x);
            }
            assert forall|h2: u64, p: int|
                self.deletes@.contains_key(h2) && 0 <= p < self.deletes@[h2]@.len() implies {
                    &&& #[trigger] self.deletes@[h2]@[p] < self.vocabulary.len()
                    &&& self.promoted@[self.deletes@[h2]@[p] as int]
                } by {
                if !(h2 == h && p == slot_before.len()) {
                    assert(old_deletes.contains_key(h2));
                    assert(self.deletes@[h2]@[p] == old_deletes[h2]@[p]);
                }
            }
            assert(slot_before == (if old_deletes.contains_key(h) { old_deletes[h]@ } else { Seq::<usize>::empty() }));
            assert forall|h2: u64| #[trigger] old_deletes.contains_key(h2) implies self.deletes@.contains_key(h2)
                && self.deletes@[h2]@.len() >= old_deletes[h2]@.len() && self.deletes@[h2]@.subrange(0, old_deletes[h2]@.len() as int)
                == old_deletes[h2]@ by {
                if h2 == h {
                    assert(self.deletes@[h2]@.subrange(0, old_deletes[h2]@.len() as int) =~= old_deletes[h2]@);
                }
            }
            assert forall|h2: u64, k: int|
                self.deletes@.contains_key(h2) && (if old_deletes.contains_key(h2) {
                    old_deletes[h2]@.len() as int
                } else {
                    0
                }) <= k < self.deletes@[h2]@.len() implies #[trigger] self.deletes@[h2]@[k] == id
                    && Set::<u64>::empty().insert(key_hash(delete@)).contains(h2) by {
                if h2 != h {
                    assert(old_deletes.contains_key(h2));
                }
            }
        }
    }

    /// The key under which `s` is filed.
    fn get_string_hash(&self, s: &Vec<char>) -> (r: u64)
        ensures
            r == key_hash(s@),
    {
        string_hash(s)
    }

    /// Moves word `id` into the indexed words and files it under each of its delete variants.
    fn promote(&mut self, id: usize)
        requires
            old(self).wf(),
            id < old(self).vocabulary.len(),
            !old(self).promoted@[id as int],
        ensures
            final(self).wf(),
            final(self).vocabulary == old(self).vocabulary,
            final(self).promoted@ == old(self).promoted@.update(id as int, true),
            final(self).bigrams == old(self).bigrams,
            final(self).dictionary_edit_distance == old(self).dictionary_edit_distance,
            final(self).prefix_length == old(self).prefix_length,
            final(self).count_threshold == old(self).count_threshold,
            final(self).bigram_count_min == old(self).bigram_count_min,
            final(self).max_dictionary_word_length == if old(self).vocabulary.key(id as int).len()
                > old(self).max_dictionary_word_length {
                old(self).vocabulary.key(id as int).len() as usize
            } else {
                old(self).max_dictionary_word_length
            },
            ids_grow(
                old(self).deletes@,
                final(self).deletes@,
                id,
                variant_keys(old(self).vocabulary.key(id as int), old(self).dictionary_edit_distance as nat, old(self).prefix_length as nat),
            ),
    {
        let key_ref = self.vocabulary.key_at(id);
        let key = slice_chars(key_ref, 0, key_ref.len());
        assert(key@ =~= self.vocabulary.key(id as int));
        if key.len() > self.max_dictionary_word_length {
            self.max_dictionary_word_length = key.len();
        }
        self.promoted.set(id, true);
        let variants = self.create_deletes(&key);
        let ghost start = self.deletes@;
        proof {
            assert forall|h: u64| #[trigger] start.contains_key(h) implies start.contains_key(h) && start[h]@.len() >= start[h]@.len()
                && start[h]@.subrange(0, start[h]@.len() as int) == start[h]@ by {
                assert(start[h]@.subrange(0, start[h]@.len() as int) =~= start[h]@);
            }
        }
        let mut k: usize = 0;
        while k < variants.len()
            invariant
                start == old(self).deletes@,
                ids_grow(start, self.deletes@, id, variant_keys(key@, self.dictionary_edit_distance as nat, self.prefix_length as nat)),
                self.inv_core(),
                k <= variants.len(),
                id < self.vocabulary.len(),
                self.promoted@[id as int],
                key@ == self.vocabulary.key(id as int),
                forall|o: int|
                    0 <= o < self.promoted.len() && o != id && #[trigger] self.promoted@[o] ==> self.complete_for(o),
                forall|j: int|
                    0 <= j < k ==> self.deletes@.contains_key(key_hash(#[trigger] variants[j]@))
                        && self.deletes@[key_hash(variants[j]@)]@.contains(id),
                forall|d: Seq<char>|
                    #![trigger is_delete_variant(d, key@, self.dictionary_edit_distance as nat, self.prefix_length as nat)]
                    #![trigger views(variants@).contains(d)]
                    is_delete_variant(d, key@, self.dictionary_edit_distance as nat, self.prefix_length as nat)
                        <==> views(variants@).contains(d),
                self.vocabulary == old(self).vocabulary,
                self.promoted@ == old(self).promoted@.update(id as int, true),
                self.bigrams == old(self).bigrams,
                self.dictionary_edit_distance == old(self).dictionary_edit_distance,
                self.prefix_length == old(self).prefix_length,
                self.count_threshold == old(self).count_threshold,
                self.bigram_count_min == old(self).bigram_count_min,
                self.max_dictionary_word_length == if old(self).vocabulary.key(id as int).len()
                    > old(self).max_dictionary_word_length {
                    old(self).vocabulary.key(id as int).len() as usize
                } else {
                    old(self).max_dictionary_word_length
                },
            decreases variants.len() - k,
        {
            let ghost before = *self;
            self.insert_delete(&variants[k], id);
            proof {
                assert(views(variants@)[k as int] == variants@[k as int]@);
                assert(views(variants@).contains(variants@[k as int]@));
                assert(is_delete_variant(variants@[k as int]@, key@, self.dictionary_edit_distance as nat, self.prefix_length as nat));
                assert(Set::<u64>::empty().insert(key_hash(variants@[k as int]@)).subset_of(variant_keys(key@, self.dictionary_edit_distance as nat, self.prefix_length as nat)));
                lemma_ids_grow_trans(start, before.deletes@, self.deletes@, id, Set::empty().insert(key_hash(variants@[k as int]@)), variant_keys(key@, self.dictionary_edit_distance as nat, self.prefix_length as nat));
                assert(self.deletes@.contains_key(key_hash(variants[k as int]@)));
                assert(self.deletes@[key_hash(variants[k as int]@)]@.contains(id));
                assert forall|o: int|
                    0 <= o < self.promoted.len() && o != id && #[trigger] self.promoted@[o] implies self.complete_for(o) by {
                    assert(before.complete_for(o));
                    assert forall|d: Seq<char>|
                        #[trigger] is_delete_variant(d, self.vocabulary.key(o), self.dictionary_edit_distance as nat, self.prefix_length as nat)
                            implies self.deletes@.contains_key(key_hash(d)) && self.deletes@[key_hash(d)]@.contains(o as usize) by {
                        assert(before.deletes@.contains_key(key_hash(d)));
                        assert(before.deletes@[key_hash(d)]@.contains(o as usize));
                        assert(self.deletes@[key_hash(d)]@.contains(o as usize));
                    }
                }
                assert forall|j: int|
                    0 <= j < k + 1 implies self.deletes@.contains_key(key_hash(#[trigger] variants[j]@))
                        && self.deletes@[key_hash(variants[j]@)]@.contains(id) by {
                    if j < k {
                        assert(before.deletes@.contains_key(key_hash(variants[j]@)));
                        assert(before.deletes@[key_hash(variants[j]@)]@.contains(id));
                        assert(self.deletes@[key_hash(variants[j]@)]@.contains(id));
                    }
                }
            }
            k = k + 1;
        }
        proof {
            assert forall|d: Seq<char>|
                #[trigger] is_delete_variant(d, self.vocabulary.key(id as int), self.dictionary_edit_distance as nat, self.prefix_length as nat)
                    implies self.deletes@.contains_key(key_hash(d)) && self.deletes@[key_hash(d)]@.contains(id) by {
                let j = choose|j: int| 0 <= j < views(variants@).len() && views(variants@)[j] == d;
                assert(views(variants@)[j] == variants@[j]@);
            }
            assert(self.complete_for(id as int));
            assert forall|id2: int|
                0 <= id2 < self.promoted.len() && #[trigger] self.promoted@[id2] implies self.complete_for(id2) by {
            }
            assert forall|id2: int|
                0 <= id2 < self.promoted.len() && #[trigger] self.promoted@[id2] implies self.vocabulary.key(
                    id2,
                ).len() <= self.max_dictionary_word_length by {
                if id2 != id {
                    assert(old(self).promoted@[id2]);
                }
            }
        }
    }

    /// Replacing the count at position `i` updates whichever map holds that word.
    proof fn lemma_set_count_views(old_s: SymSpell, new_s: SymSpell, i: int, c: usize)
        requires
            old_s.inv_core(),
            new_s.inv_core(),
            0 <= i < old_s.vocabulary.len(),
            new_s.promoted@ == old_s.promoted@,
            new_s.vocabulary.len() == old_s.vocabulary.len(),
            forall|k: int| 0 <= k < old_s.vocabulary.len() ==> new_s.vocabulary.key(k) == old_s.vocabulary.key(k),
            new_s.vocabulary.count(i) == c,
            forall|k: int|
                0 <= k < old_s.vocabulary.len() && k != i ==> new_s.vocabulary.count(k) == old_s.vocabulary.count(k),
        ensures
            new_s.words() == if old_s.promoted@[i] {
                old_s.words().insert(old_s.vocabulary.key(i), c)
            } else {
                old_s.words()
            },
            new_s.below_threshold_words() == if old_s.promoted@[i] {
                old_s.below_threshold_words()
            } else {
                old_s.below_threshold_words().insert(old_s.vocabulary.key(i), c)
            },
    {
        let wi = old_s.vocabulary.key(i);
        old_s.vocabulary.lemma_index_of(i);
        new_s.vocabulary.lemma_index_of(i);
        assert forall|w: Seq<char>| #[trigger] new_s.vocabulary.has(w) == old_s.vocabulary.has(w) by {
            if new_s.vocabulary.has(w) {
                let j = choose|j: int| 0 <= j < new_s.vocabulary.len() && new_s.vocabulary.key(j) == w;
                assert(old_s.vocabulary.key(j) == w);
            }
            if old_s.vocabulary.has(w) {
                let j = choose|j: int| 0 <= j < old_s.vocabulary.len() && old_s.vocabulary.key(j) == w;
                assert(new_s.vocabulary.key(j) == w);
            }
        }
        let nw = if old_s.promoted@[i] { old_s.words().insert(wi, c) } else { old_s.words() };
        let nb = if old_s.promoted@[i] {
            old_s.below_threshold_words()
        } else {
            old_s.below_threshold_words().insert(wi, c)
        };
        assert forall|w: Seq<char>|
            #![trigger new_s.words().contains_key(w)]
            #![trigger new_s.below_threshold_words().contains_key(w)]
            (new_s.words().contains_key(w) == nw.contains_key(w)) && (new_s.words().contains_key(w)
                ==> new_s.words()[w] == nw[w]) && (new_s.below_threshold_words().contains_key(w)
                == nb.contains_key(w)) && (new_s.below_threshold_words().contains_key(w)
                ==> new_s.below_threshold_words()[w] == nb[w]) by {
            if old_s.vocabulary.has(w) {
                let j = old_s.vocabulary.index_of(w);
                old_s.vocabulary.lemma_index_of(j);
                new_s.vocabulary.lemma_index_of(j);
                if j != i {
                    old_s.vocabulary.lemma_distinct(i, j);
                }
            }
        }
        assert(new_s.words() =~= nw);
        assert(new_s.below_threshold_words() =~= nb);
    }

    /// A new word at the next position, not promoted, joins the words below the threshold.
    proof fn lemma_push_views(old_s: SymSpell, new_s: SymSpell, w: Seq<char>, c: usize)
        requires
            old_s.inv_core(),
            new_s.inv_core(),
            !old_s.vocabulary.has(w),
            new_s.vocabulary.len() == old_s.vocabulary.len() + 1,
            forall|k: int| 0 <= k < old_s.vocabulary.len() ==> new_s.vocabulary.key(k) == old_s.vocabulary.key(k),
            new_s.vocabulary.key(old_s.vocabulary.len() as int) == w,
            new_s.vocabulary@ == old_s.vocabulary@.insert(w, c),
            new_s.promoted@ == old_s.promoted@.push(false),
        ensures
            new_s.words() == old_s.words(),
            new_s.below_threshold_words() == old_s.below_threshold_words().insert(w, c),
    {
        let n = old_s.vocabulary.len() as int;
        new_s.vocabulary.lemma_index_of(n);
        assert forall|x: Seq<char>| old_s.vocabulary.has(x) implies #[trigger] new_s.vocabulary.index_of(x)
            == old_s.vocabulary.index_of(x) && new_s.vocabulary.has(x) by {
            let j = old_s.vocabulary.index_of(x);
            old_s.vocabulary.lemma_index_of(j);
            new_s.vocabulary.lemma_index_of(j);
        }
        assert forall|x: Seq<char>| new_s.vocabulary.has(x) && x != w implies #[trigger] old_s.vocabulary.has(x) by {
            let j = new_s.vocabulary.index_of(x);
            new_s.vocabulary.lemma_index_of(j);
            assert(j != n);
            assert(old_s.vocabulary.key(j) == x);
        }
        assert(new_s.words() =~= old_s.words());
        assert(new_s.below_threshold_words() =~= old_s.below_threshold_words().insert(w, c));
    }

    /// Promoting position `i` moves its word from below the threshold to the indexed words.
    proof fn lemma_promote_views(old_s: SymSpell, new_s: SymSpell, i: int)
        requires
            old_s.inv_core(),
            new_s.inv_core(),
            0 <= i < old_s.vocabulary.len(),
            !old_s.promoted@[i],
            new_s.vocabulary == old_s.vocabulary,
            new_s.promoted@ == old_s.promoted@.update(i, true),
        ensures
            new_s.words() == old_s.words().insert(
                old_s.vocabulary.key(i),
                old_s.vocabulary.count(i),
            ),
            new_s.below_threshold_words() == old_s.below_threshold_words().remove(old_s.vocabulary.key(i)),
    {
        let wi = old_s.vocabulary.key(i);
        old_s.vocabulary.lemma_index_of(i);
        assert forall|x: Seq<char>| old_s.vocabulary.has(x) && x != wi implies #[trigger] old_s.vocabulary.index_of(x) != i by {
        }
        assert(new_s.words() =~= old_s.words().insert(wi, old_s.vocabulary.count(i)));
        assert(new_s.below_threshold_words() =~= old_s.below_threshold_words().remove(wi));
    }

    /// Adds `count` occurrences of `key`. A word enters the index, and gets its
    /// delete variants filed, once its cumulative count reaches the threshold;
    /// counts saturate. Returns whether the word entered the index now.
    pub fn create_dictionary_entry(&mut self, key: String, count: usize) -> (r: bool)
        requires
            old(self).wf(),
        ensures
            final(self).wf(),
            (final(self).words(), final(self).below_threshold_words()) == entry_effect(
                old(self).words(),
                old(self).below_threshold_words(),
                old(self).spec_count_threshold(),
                key@,
                count,
            ),
            r == (!old(self).words().contains_key(key@) && final(self).words().contains_key(key@)),
            !r ==> final(self).delete_index() == old(self).delete_index(),
            r ==> grows_by(
                old(self).delete_index(),
                final(self).delete_index(),
                key@,
                variant_keys(key@, old(self).spec_max_edit_distance() as nat, old(self).spec_prefix_length() as nat),
            ),
            final(self).spec_max_length() == if r && key@.len() > old(self).spec_max_length() {
                key@.len() as usize
            } else {
                old(self).spec_max_length()
            },
            final(self).spec_max_edit_distance() == old(self).spec_max_edit_distance(),
            final(self).spec_prefix_length() == old(self).spec_prefix_length(),
            final(self).spec_count_threshold() == old(self).spec_count_threshold(),
            final(self).bigrams() == old(self).bigrams(),
            final(self).spec_bigram_count_min() == old(self).spec_bigram_count_min(),
    {
        let w = to_chars(key.as_str());
        let ghost ws = w@;
        let ghost s0 = *self;
        match self.vocabulary.find(&w) {
            Some(i) => {
                proof {
                    s0.lemma_position(i as int);
                }
                let prev = self.vocabulary.count_at(i);
                let total = saturating_add_usize(prev, count);
                let was_promoted = self.promoted[i];
                self.vocabulary.set_count(i, total);
                proof {
                    Self::lemma_set_count_views(s0, *self, i as int, total);
                    assert forall|id: int|
                        0 <= id < self.promoted.len() && #[trigger] self.promoted@[id] implies self.complete_for(id) by {
                        assert(s0.complete_for(id));
                    }
                    assert forall|h: u64, p: int|
                        self.deletes@.contains_key(h) && 0 <= p < self.deletes@[h]@.len() implies {
                            &&& #[trigger] self.deletes@[h]@[p] < self.vocabulary.len()
                            &&& self.promoted@[self.deletes@[h]@[p] as int]
                        } by {
                    }
                }
                if was_promoted || total < self.count_threshold {
                    proof {
                        Self::lemma_index_frame(s0, *self);
                    }
                    return false;
                }
                let ghost s1 = *self;
                self.promote(i);
                proof {
                    Self::lemma_index_frame(s0, s1);
                    Self::lemma_index_grows(s1, *self, i, variant_keys(ws, s0.dictionary_edit_distance as nat, s0.prefix_length as nat));
                    Self::lemma_promote_views(s1, *self, i as int);
                    assert(self.words() =~= s0.words().insert(ws, total));
                    assert(self.below_threshold_words() =~= s0.below_threshold_words().remove(ws));
                }
                true
            },
            None => {
                proof {
                    assert(!s0.words().contains_key(ws));
                    assert(!s0.below_threshold_words().contains_key(ws));
                }
                let id = self.vocabulary.size();
                self.vocabulary.push(w, count);
                self.promoted.push(false);
                proof {
                    assert forall|id2: int|
                        0 <= id2 < self.promoted.len() && #[trigger] self.promoted@[id2] implies self.complete_for(id2) by {
                        assert(s0.promoted@[id2]);
                        assert(s0.complete_for(id2));
                    }
                    assert forall|h: u64, p: int|
                        self.deletes@.contains_key(h) && 0 <= p < self.deletes@[h]@.len() implies {
                            &&& #[trigger] self.deletes@[h]@[p] < self.vocabulary.len()
                            &&& self.promoted@[self.deletes@[h]@[p] as int]
                        } by {
                        assert(s0.promoted@[s0.deletes@[h]@[p] as int]);
                    }
                    assert forall|id2: int|
                        0 <= id2 < self.promoted.len() && #[trigger] self.promoted@[id2] implies self.vocabulary.key(
                            id2,
                        ).len() <= self.max_dictionary_word_length by {
                        assert(s0.promoted@[id2]);
                    }
                    Self::lemma_push_views(s0, *self, ws, count);
                }
                if count < self.count_threshold {
                    proof {
                        Self::lemma_index_frame(s0, *self);
                    }
                    return false;
                }
                let ghost s1 = *self;
                self.promote(id);
                proof {
                    Self::lemma_index_frame(s0, s1);
                    Self::lemma_index_grows(s1, *self, id, variant_keys(ws, s0.dictionary_edit_distance as nat, s0.prefix_length as nat));
                    s1.lemma_position(id as int);
                    Self::lemma_promote_views(s1, *self, id as int);
                    assert(self.words() =~= s0.words().insert(ws, count));
                    assert(self.below_threshold_words() =~= s0.below_threshold_words());
                }
                true
            },
        }
    }

    /// Every indexed word is filed under the key of each of its delete variants.
    pub proof fn lemma_deletes_complete(&self, w: Seq<char>, d: Seq<char>)
        requires
            self.wf(),
            self.words().contains_key(w),
            is_delete_variant(d, w, self.spec_max_edit_distance() as nat, self.spec_prefix_length() as nat),
        ensures
            self.bucket(key_hash(d)).contains(w),
    {
        let id = self.vocabulary.index_of(w);
        self.vocabulary.lemma_index_of(id);
        assert(self.promoted@[id]);
        assert(self.complete_for(id));
        let ids = self.deletes@[key_hash(d)]@;
        let k = choose|k: int| 0 <= k < ids.len() && ids[k] == id as usize;
        assert(self.bucket(key_hash(d))[k] == w);
    }

    pub fn max_edit_distance(&self) -> (r: usize)
        ensures
            r == self.spec_max_edit_distance(),
    {
        self.dictionary_edit_distance
    }

    pub fn prefix_length(&self) -> (r: usize)
        ensures
            r == self.spec_prefix_length(),
    {
        self.prefix_length
    }

    /// Length of the longest indexed word.
    pub fn max_length(&self) -> (r: usize)
        ensures
            r == self.spec_max_length(),
    {
        self.max_dictionary_word_length
    }

    pub fn count_threshold(&self) -> (r: usize)
        ensures
            r == self.spec_count_threshold(),
    {
        self.count_threshold
    }

    /// Number of delete keys in the index.
    pub fn entry_count(&self) -> (r: usize)
        ensures
            r == self.spec_entry_count(),
    {
        self.deletes.len()
    }

    /// The text before the first separator and the text after it.
    fn split_once_chars(line: &Vec<char>, separator: &Vec<char>) -> (r: Option<(Vec<char>, Vec<char>)>)
        ensures
            match split_once(line@, separator@) {
                Some((head, rest)) => r matches Some((h, t)) && h@ == head && t@ == rest,
                None => r is None,
            },
    {
        match find_from(line, separator, 0) {
            Some(i) => {
                proof {
                    Self::lemma_first_match_matches(line@, separator@, 0);
                    let j = first_match_from(line@, separator@, 0)->Some_0;
                    assert(matches_at(line@, separator@, j));
                    assert(0 <= j <= line.len());
                    assert(j as usize == i);
                }
                let head = slice_chars(line, 0, i);
                let rest = slice_chars(line, i + separator.len(), line.len());
                Some((head, rest))
            },
            None => None,
        }
    }

    proof fn lemma_first_match_matches(s: Seq<char>, sep: Seq<char>, i: int)
        ensures
            match first_match_from(s, sep, i) {
                Some(k) => matches_at(s, sep, k),
                None => true,
            },
        decreases s.len() - i,
    {
        if !(sep.len() == 0 || i < 0 || i + sep.len() > s.len()) && !matches_at(s, sep, i) {
            Self::lemma_first_match_matches(s, sep, i + 1);
        }
    }

    /// The text up to the first separator, or all of it.
    fn first_field_chars(s: &Vec<char>, separator: &Vec<char>) -> (r: Vec<char>)
        ensures
            r@ == first_field(s@, separator@),
    {
        match Self::split_once_chars(s, separator) {
            Some((head, _)) => head,
            None => slice_chars(s, 0, s.len()),
        }
    }

    /// The value of a count field, or 0 where it does not parse.
    fn count_of_field_chars(s: &Vec<char>) -> (r: usize)
        ensures
            r == count_of_field(s@),
    {
        let trimmed = trim_end_chars(s);
        match parse_usize_chars(&trimmed) {
            Some(v) => v,
            None => 0,
        }
    }

    /// Ingests a dictionary line `word<separator>count`: the count of `word`
    /// grows by `count` (0 where it does not parse). A line without the
    /// separator is ignored.
    pub fn write_line_to_dictionary(&mut self, line: &str, separator: &str)
        requires
            old(self).wf(),
        ensures
            final(self).wf(),
            match split_once(line@, separator@) {
                Some((word, rest)) => (final(self).words(), final(self).below_threshold_words())
                    == entry_effect(
                    old(self).words(),
                    old(self).below_threshold_words(),
                    old(self).spec_count_threshold(),
                    word,
                    count_of_field(first_field(rest, separator@)),
                ),
                None => final(self).words() == old(self).words() && final(self).below_threshold_words()
                    == old(self).below_threshold_words(),
            },
            match split_once(line@, separator@) {
                Some((word, _)) => {
                    let indexed_now = !old(self).words().contains_key(word) && final(self).words().contains_key(word);
                    &&& !indexed_now ==> final(self).delete_index() == old(self).delete_index()
                    &&& indexed_now ==> grows_by(
                        old(self).delete_index(),
                        final(self).delete_index(),
                        word,
                        variant_keys(word, old(self).spec_max_edit_distance() as nat, old(self).spec_prefix_length() as nat),
                    )
                    &&& final(self).spec_max_length() == if indexed_now && word.len() > old(self).spec_max_length() {
                        word.len() as usize
                    } else {
                        old(self).spec_max_length()
                    }
                },
                None => final(self).delete_index() == old(self).delete_index() && final(self).spec_max_length()
                    == old(self).spec_max_length(),
            },
            final(self).spec_max_edit_distance() == old(self).spec_max_edit_distance(),
            final(self).spec_prefix_length() == old(self).spec_prefix_length(),
            final(self).spec_count_threshold() == old(self).spec_count_threshold(),
            final(self).bigrams() == old(self).bigrams(),
            final(self).spec_bigram_count_min() == old(self).spec_bigram_count_min(),
    {
        let l = to_chars(line);
        let sep = to_chars(separator);
        match Self::split_once_chars(&l, &sep) {
            Some((word, rest)) => {
                let field = Self::first_field_chars(&rest, &sep);
                let count = Self::count_of_field_chars(&field);
                self.create_dictionary_entry(from_chars(&word), count);
            },
            None => {
            },
        }
    }

    /// Ingests a bigram line `w1<separator>w2<separator>count`: the bigram
    /// `"w1 w2"` gets the count (0 where it does not parse), which also lowers
    /// the smallest bigram count seen. A line with fewer than three fields is ignored.
    pub fn write_line_to_bigram_dictionary(&mut self, line: &str, separator: &str)
        requires
            old(self).wf(),
        ensures
            final(self).wf(),
            final(self).words() == old(self).words(),
            final(self).below_threshold_words() == old(self).below_threshold_words(),
            final(self).spec_max_edit_distance() == old(self).spec_max_edit_distance(),
            final(self).spec_prefix_length() == old(self).spec_prefix_length(),
            final(self).spec_count_threshold() == old(self).spec_count_threshold(),
            final(self).spec_max_length() == old(self).spec_max_length(),
            final(self).delete_index() == old(self).delete_index(),
            match split_once(line@, separator@) {
                Some((w1, rest1)) => match split_once(rest1, separator@) {
                    Some((w2, rest2)) => {
                        let count = count_of_field(first_field(rest2, separator@));
                        &&& final(self).bigrams() == old(self).bigrams().insert(w1 + seq![' '] + w2, count)
                        &&& final(self).spec_bigram_count_min() == if count < old(self).spec_bigram_count_min() {
                            count
                        } else {
                            old(self).spec_bigram_count_min()
                        }
                    },
                    None => final(self).bigrams() == old(self).bigrams() && final(self).spec_bigram_count_min()
                        == old(self).spec_bigram_count_min(),
                },
                None => final(self).bigrams() == old(self).bigrams() && final(self).spec_bigram_count_min()
                    == old(self).spec_bigram_count_min(),
            },
    {
        let l = to_chars(line);
        let sep = to_chars(separator);
        let (w1, rest1) = match Self::split_once_chars(&l, &sep) {
            Some(p) => p,
            None => {
                return;
            },
        };
        let (w2, rest2) = match Self::split_once_chars(&rest1, &sep) {
            Some(p) => p,
            None => {
                return;
            },
        };
        let field = Self::first_field_chars(&rest2, &sep);
        let count = Self::count_of_field_chars(&field);
        let mut key = w1;
        key.push(' ');
        let key = crate::text::concat_chars(&key, &w2);
        assert(key@ =~= w1@ + seq![' '] + w2@);
        match self.bigrams.find(&key) {
            Some(i) => {
                self.bigrams.set_count(i, count);
            },
            None => {
                self.bigrams.push(key, count);
            },
        }
        if count < self.bigram_count_min {
            self.bigram_count_min = count;
        }
        proof {
            assert(self.words() =~= old(self).words());
            assert(self.below_threshold_words() =~= old(self).below_threshold_words());
            assert(self.delete_index() =~= old(self).delete_index());
        }
    }

    /// The count of bigram `key`, if it is known.
    pub fn bigram_count(&self, key: &Vec<char>) -> (r: Option<usize>)
        requires
            self.wf(),
        ensures
            match r {
                Some(c) => self.bigrams().contains_key(key@) && self.bigrams()[key@] == c,
                None => !self.bigrams().contains_key(key@),
            },
    {
        match self.bigrams.find(key) {
            Some(i) => {
                proof {
                    self.bigrams.lemma_index_of(i as int);
                }
                Some(self.bigrams.count_at(i))
            },
            None => None,
        }
    }

    /// The smallest bigram count seen, `usize::MAX` before any.
    pub fn bigram_count_min(&self) -> (r: usize)
        ensures
            r == self.spec_bigram_count_min(),
    {
        self.bigram_count_min
    }

    /// Number of indexed words.
    pub fn word_count(&self) -> (r: usize)
        requires
            self.wf(),
        ensures
            r == self.words().dom().len(),
    {
        let mut count: usize = 0;
        let mut i: usize = 0;
        let ghost mut seen: Set<Seq<char>> = Set::empty();
        while i < self.promoted.len()
            invariant
                self.wf(),
                i <= self.promoted.len(),
                count <= i,
                seen.finite(),
                count == seen.len(),
                forall|w: Seq<char>| #[trigger] seen.contains(w) <==> exists|k: int|
                    0 <= k < i && self.promoted@[k] && self.vocabulary.key(k) == w,
            decreases self.promoted.len() - i,
        {
            if self.promoted[i] {
                proof {
                    let w = self.vocabulary.key(i as int);
                    if seen.contains(w) {
                        let k = choose|k: int| 0 <= k < i && self.promoted@[k] && self.vocabulary.key(k) == w;
                        self.vocabulary.lemma_distinct(k, i as int);
                    }
                    seen = seen.insert(w);
                    assert forall|x: Seq<char>| #[trigger] seen.contains(x) <==> exists|k: int|
                        0 <= k < i + 1 && self.promoted@[k] && self.vocabulary.key(k) == x by {
                        if x == w {
                            assert(self.promoted@[i as int] && self.vocabulary.key(i as int) == x);
                        }
                    }
                }
                count = count + 1;
            } else {
                proof {
                    assert forall|x: Seq<char>| #[trigger] seen.contains(x) <==> exists|k: int|
                        0 <= k < i + 1 && self.promoted@[k] && self.vocabulary.key(k) == x by {
                        if exists|k: int| 0 <= k < i + 1 && self.promoted@[k] && self.vocabulary.key(k) == x {
                            let k = choose|k: int| 0 <= k < i + 1 && self.promoted@[k] && self.vocabulary.key(k) == x;
                            assert(k != i);
                        }
                    }
                }
            }
            i = i + 1;
        }
        proof {
            assert forall|w: Seq<char>| #[trigger] seen.contains(w) <==> self.words().contains_key(w) by {
                if seen.contains(w) {
                    let k = choose|k: int| 0 <= k < i && self.promoted@[k] && self.vocabulary.key(k) == w;
                    self.lemma_position(k);
                }
                if self.words().contains_key(w) {
                    let k = self.vocabulary.index_of(w);
                    self.vocabulary.lemma_index_of(k);
                }
            }
            assert(seen =~= self.words().dom());
        }
        count
    }
}

} // verus!
