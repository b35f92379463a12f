use std::collections::HashSet;
use vstd::prelude::*;

use crate::damerau_osa::{lemma_osa_single, osa_distance};
use crate::edit_distance::{DistanceAlgorithm, EditDistance};
use crate::suggest_item::SuggestItem;
use crate::text::{chars_eq, contains_char, from_chars, remove_char, slice_chars, to_chars};
use crate::verbosity::Verbosity;

use super::{contains_chars, is_delete_at, is_delete_variant, lemma_delete_len, lemma_views_push, prefix_of, views, SymSpell};
use crate::damerau_osa::{lemma_osa_bounds, lemma_osa_zero_is_equal};

verus! {

broadcast use vstd::std_specs::hash::group_hash_axioms;

/// `x` comes no later than `y`: smaller distance first, then larger count.
pub open spec fn ranks_before(x: SuggestItem, y: SuggestItem) -> bool {
    x.distance < y.distance || (x.distance == y.distance && x.count >= y.count)
}

/// Suggestions in ascending order of distance, and descending order of count
/// among equal distances.
pub open spec fn sorted_suggestions(s: Seq<SuggestItem>) -> bool {
    forall|i: int, j: int| 0 <= i < j < s.len() ==> ranks_before(#[trigger] s[i], #[trigger] s[j])
}

/// A genuine suggestion for query `q`: a dictionary word with its count, at
/// its exact distance from `q`, which is within `max_edit_distance`.
pub open spec fn suggestion_ok(
    words: Map<Seq<char>, usize>,
    q: Seq<char>,
    max_edit_distance: usize,
    item: SuggestItem,
) -> bool {
    &&& words.contains_key(item.term@)
    &&& item.count == words[item.term@]
    &&& item.distance == osa_distance(q, item.term@)
    &&& item.distance <= max_edit_distance
}

/// No term occurs twice.
pub open spec fn distinct_terms(s: Seq<SuggestItem>) -> bool {
    forall|i: int, j: int| 0 <= i < j < s.len() ==> (#[trigger] s[i]).term@ != (#[trigger] s[j]).term@
}

/// Inserting a suggestion with a new term keeps the terms distinct.
pub proof fn lemma_insert_distinct(s: Seq<SuggestItem>, pos: int, item: SuggestItem)
    requires
        distinct_terms(s),
        0 <= pos <= s.len(),
        forall|k: int| 0 <= k < s.len() ==> (#[trigger] s[k]).term@ != item.term@,
    ensures
        distinct_terms(s.insert(pos, item)),
{
    let t = s.insert(pos, item);
    assert forall|i: int, j: int| 0 <= i < j < t.len() implies (#[trigger] t[i]).term@ != (#[trigger] t[j]).term@ by {
        if i < pos && j < pos {
            assert(t[i] == s[i] && t[j] == s[j]);
        } else if i < pos && j == pos {
            assert(t[i] == s[i]);
        } else if i < pos {
            assert(t[i] == s[i] && t[j] == s[j - 1]);
        } else if i == pos {
            assert(t[j] == s[j - 1]);
        } else {
            assert(t[i] == s[i - 1] && t[j] == s[j - 1]);
        }
    }
}

/// Some suggestion has term `w`.
pub open spec fn has_term(s: Seq<SuggestItem>, w: Seq<char>) -> bool {
    exists|k: int| 0 <= k < s.len() && s[k].term@ == w
}

/// What a lookup owes a word it must find: under `All` the word itself, under
/// `Top` and `Closest` some suggestion.
pub open spec fn done_for(verbosity: Verbosity, s: Seq<SuggestItem>, w: Seq<char>) -> bool {
    if verbosity == Verbosity::All {
        has_term(s, w)
    } else {
        s.len() > 0
    }
}

proof fn lemma_done_insert(v: Verbosity, s: Seq<SuggestItem>, pos: int, item: SuggestItem)
    requires
        0 <= pos <= s.len(),
    ensures
        forall|w: Seq<char>| done_for(v, s, w) ==> #[trigger] done_for(v, s.insert(pos, item), w),
        done_for(v, s.insert(pos, item), item.term@),
{
    let t = s.insert(pos, item);
    assert(t[pos] == item);
    assert forall|w: Seq<char>| done_for(v, s, w) implies #[trigger] done_for(v, t, w) by {
        if v == Verbosity::All {
            let k = choose|k: int| 0 <= k < s.len() && s[k].term@ == w;
            if k < pos {
                assert(t[k] == s[k]);
            } else {
                assert(t[k + 1] == s[k]);
            }
        }
    }
}

/// The stand-in for a query with no suggestion: the query itself, one past
/// the maximum distance, with count 0.
pub open spec fn is_unknown_item(q: Seq<char>, max_edit_distance: usize, item: SuggestItem) -> bool {
    item.term@ == q && item.distance == max_edit_distance + 1 && item.count == 0
}

/// What a lookup returns: genuine suggestions in rank order, or the stand-in
/// alone when unknown words are asked for and none was found; at most one
/// under `Top`, all of one distance under `Closest`; and the query itself,
/// when it is an indexed word, unless `All` is asked without `include_self`.
pub open spec fn lookup_ok(
    words: Map<Seq<char>, usize>,
    q: Seq<char>,
    verbosity: Verbosity,
    max_edit_distance: usize,
    include_unknown: bool,
    include_self: bool,
    r: Seq<SuggestItem>,
) -> bool {
    &&& (forall|k: int| 0 <= k < r.len() ==> suggestion_ok(words, q, max_edit_distance, #[trigger] r[k]))
        || (include_unknown && r.len() == 1 && is_unknown_item(q, max_edit_distance, r[0]))
    &&& include_unknown ==> r.len() >= 1
    &&& sorted_suggestions(r)
    &&& distinct_terms(r)
    &&& verbosity == Verbosity::Top ==> r.len() <= 1
    &&& verbosity == Verbosity::Closest ==> forall|k: int| 0 <= k < r.len() ==> (#[trigger] r[k]).distance == r[0].distance
    &&& words.contains_key(q) && (verbosity != Verbosity::All || include_self) ==> exists|k: int|
        0 <= k < r.len() && (#[trigger] r[k]).term@ == q && r[k].distance == 0 && r[k].count == words[q]
}

/// Inserts `item` into sorted `v` after every suggestion that ranks before it.
pub fn insert_sorted(v: &mut Vec<SuggestItem>, item: SuggestItem)
    requires
        sorted_suggestions(old(v)@),
    ensures
        sorted_suggestions(final(v)@),
        exists|pos: int| 0 <= pos <= old(v).len() && final(v)@ == old(v)@.insert(pos, item),
{
    let mut pos: usize = 0;
    while pos < v.len() && ranks_before_exec(&v[pos], &item)
        invariant
            pos <= v.len(),
            forall|k: int| 0 <= k < pos ==> ranks_before(#[trigger] v@[k], item),
        decreases v.len() - pos,
    {
        pos = pos + 1;
    }
    let ghost before = v@;
    v.insert(pos, item);
    proof {
        assert forall|i: int, j: int| 0 <= i < j < v@.len() implies ranks_before(#[trigger] v@[i], #[trigger] v@[j]) by {
            if j < pos {
            } else if j == pos {
            } else if i < pos {
                assert(v@[j] == before[j - 1]);
            } else if i == pos {
                assert(v@[j] == before[j - 1]);
                assert(!ranks_before(before[pos as int], item));
                assert(ranks_before(before[pos as int], before[j - 1]) || j - 1 == pos);
            } else {
                assert(v@[i] == before[i - 1]);
                assert(v@[j] == before[j - 1]);
            }
        }
    }
}

fn ranks_before_exec(x: &SuggestItem, y: &SuggestItem) -> (r: bool)
    ensures
        r == ranks_before(*x, *y),
{
    x.distance < y.distance || (x.distance == y.distance && x.count >= y.count)
}

/// A string is at distance zero from itself.
pub proof fn lemma_osa_zero(q: Seq<char>)
    ensures
        osa_distance(q, q) == 0,
{
    crate::damerau_osa::lemma_osa_self(q, q.len());
}

/// `f` places each grapheme of `c`, in increasing positions, on an equal
/// grapheme of `p`.
pub open spec fn embeds(c: Seq<char>, p: Seq<char>, f: Seq<int>) -> bool {
    &&& f.len() == c.len()
    &&& forall|i: int| 0 <= i < f.len() ==> 0 <= #[trigger] f[i] < p.len() && c[i] == p[f[i]]
    &&& forall|i: int, j: int| 0 <= i < j < f.len() ==> #[trigger] f[i] < #[trigger] f[j]
}

/// A string reached from `p` by deletions is embedded in `p`.
pub proof fn lemma_delete_embeds(c: Seq<char>, p: Seq<char>, t: nat) -> (f: Seq<int>)
    requires
        is_delete_at(c, p, t),
    ensures
        embeds(c, p, f),
    decreases t,
{
    if t == 0 {
        let f = Seq::new(p.len(), |i: int| i);
        f
    } else {
        let (s, k) = choose|s: Seq<char>, k: int| is_delete_at(s, p, (t - 1) as nat) && 0 <= k < s.len() && c == #[trigger] s.remove(k);
        let g = lemma_delete_embeds(s, p, (t - 1) as nat);
        let f = g.remove(k);
        assert forall|i: int| 0 <= i < f.len() implies 0 <= #[trigger] f[i] < p.len() && c[i] == p[f[i]] by {
            if i < k {
                assert(f[i] == g[i] && c[i] == s[i]);
            } else {
                assert(f[i] == g[i + 1] && c[i] == s[i + 1]);
            }
        }
        assert forall|i: int, j: int| 0 <= i < j < f.len() implies #[trigger] f[i] < #[trigger] f[j] by {
            let gi = if i < k { i } else { i + 1 };
            let gj = if j < k { j } else { j + 1 };
            assert(f[i] == g[gi] && f[j] == g[gj]);
            assert(g[gi] < g[gj]);
        }
        f
    }
}

impl SymSpell {
    /// The in-order test accepts everything embedded in the prefix.
    pub proof fn lemma_in_order_embedded(c: Seq<char>, p: Seq<char>, f: Seq<int>, i: int, j: int)
        requires
            embeds(c, p, f),
            0 <= i <= c.len(),
            0 <= j,
            forall|k: int| i <= k < c.len() ==> #[trigger] f[k] >= j,
        ensures
            Self::in_order_from(c, p, i, j),
        decreases c.len() - i, p.len() - j,
    {
        if i < c.len() {
            assert(f[i] >= j && f[i] < p.len());
            if c[i] == p[j] {
                Self::lemma_in_order_embedded(c, p, f, i + 1, j);
            } else {
                assert(f[i] != j);
                assert forall|k: int| i <= k < c.len() implies #[trigger] f[k] >= j + 1 by {
                    if k > i {
                        assert(f[i] < f[k]);
                    }
                }
                Self::lemma_in_order_embedded(c, p, f, i, j + 1);
            }
        }
    }

    /// Whether the graphemes of `delete` occur, in order, within the first
    /// `prefix_length` graphemes of `suggestion`; a grapheme of the suggestion
    /// may serve several equal graphemes in a row.
    pub open spec fn in_order_from(delete: Seq<char>, prefix: Seq<char>, i: int, j: int) -> bool
        decreases delete.len() - i, prefix.len() - j,
    {
        if i >= delete.len() {
            true
        } else if j >= prefix.len() || j < 0 {
            false
        } else if delete[i] == prefix[j] {
            Self::in_order_from(delete, prefix, i + 1, j)
        } else {
            Self::in_order_from(delete, prefix, i, j + 1)
        }
    }

    /// Checks that a candidate delete can stem from the suggestion rather than
    /// from a collision of keys.
    fn delete_in_suggestion_prefix(&self, delete: &Vec<char>, suggestion: &Vec<char>) -> (r: bool)
        ensures
            r == Self::in_order_from(
                delete@,
                prefix_of(suggestion@, self.prefix_length as nat),
                0,
                0,
            ),
    {
        let ghost pre = prefix_of(suggestion@, self.prefix_length as nat);
        let suggestion_len = if suggestion.len() < self.prefix_length {
            suggestion.len()
        } else {
            self.prefix_length
        };
        assert(pre.len() == suggestion_len);
        let mut i: usize = 0;
        let mut j: usize = 0;
        while i < delete.len()
            invariant
                i <= delete.len(),
                j <= suggestion_len,
                suggestion_len <= suggestion.len(),
                pre.len() == suggestion_len,
                pre == prefix_of(suggestion@, self.prefix_length as nat),
                forall|k: int| 0 <= k < suggestion_len ==> pre[k] == suggestion@[k],
                Self::in_order_from(delete@, pre, 0, 0) == Self::in_order_from(delete@, pre, i as int, j as int),
            decreases delete.len() - i, suggestion_len - j,
        {
            if j == suggestion_len {
                assert(!Self::in_order_from(delete@, pre, i as int, j as int));
                return false;
            }
            if delete[i] == suggestion[j] {
                i = i + 1;
            } else {
                j = j + 1;
            }
        }
        true
    }

    /// `w` is an indexed word within `max_edit_distance` of `q` (and not `q`
    /// itself unless `include_self`).
    pub open spec fn near(&self, q: Seq<char>, max_edit_distance: usize, include_self: bool, w: Seq<char>) -> bool {
        &&& self.words().contains_key(w)
        &&& osa_distance(q, w) <= max_edit_distance
        &&& (w != q || include_self)
    }

    /// `w` and the prefix of `q` reach a common string within
    /// `max_edit_distance` deletions each: the lookup's search meets `w`.
    pub open spec fn shares_delete(&self, q: Seq<char>, max_edit_distance: usize, w: Seq<char>) -> bool {
        exists|d: Seq<char>, t: nat|
            #![trigger is_delete_at(d, prefix_of(q, self.spec_prefix_length() as nat), t), is_delete_variant(d, w, max_edit_distance as nat, self.spec_prefix_length() as nat)]
            t <= max_edit_distance && is_delete_at(d, prefix_of(q, self.spec_prefix_length() as nat), t)
                && is_delete_variant(d, w, max_edit_distance as nat, self.spec_prefix_length() as nat)
    }

    /// As `shares_delete`, with fewer than `n` deletions on the query's side.
    pub open spec fn reached_before(&self, q: Seq<char>, max_edit_distance: usize, w: Seq<char>, n: nat) -> bool {
        exists|d: Seq<char>, t: nat|
            #![trigger is_delete_at(d, prefix_of(q, self.spec_prefix_length() as nat), t), is_delete_variant(d, w, max_edit_distance as nat, self.spec_prefix_length() as nat)]
            t < n && t <= max_edit_distance && is_delete_at(d, prefix_of(q, self.spec_prefix_length() as nat), t)
                && is_delete_variant(d, w, max_edit_distance as nat, self.spec_prefix_length() as nat)
    }

    /// One of the first `c` strings of `level` is a delete variant of `w`.
    pub open spec fn served_by(&self, max_edit_distance: usize, level: Seq<Seq<char>>, c: int, w: Seq<char>) -> bool {
        exists|a: int|
            0 <= a < c && #[trigger] is_delete_variant(level[a], w, max_edit_distance as nat, self.spec_prefix_length() as nat)
    }

    /// Suggestions for `input`, at most `max_edit_distance` edits away (see [`lookup_ok`]).
    /// Every indexed word within the distance that shares a delete variant with
    /// the query's prefix makes the result genuine and non-empty; under `All`
    /// each such word is in it.
    pub fn lookup(
        &self,
        input: &str,
        verbosity: Verbosity,
        max_edit_distance: usize,
        include_unknown: bool,
        include_self: bool,
    ) -> (r: Vec<SuggestItem>)
        requires
            self.wf(),
            max_edit_distance <= self.spec_max_edit_distance(),
            max_edit_distance < usize::MAX,
        ensures
            lookup_ok(self.words(), input@, verbosity, max_edit_distance, include_unknown, include_self, r@),
            forall|w: Seq<char>|
                #[trigger] self.near(input@, max_edit_distance, include_self, w) && self.shares_delete(
                    input@,
                    max_edit_distance,
                    w,
                ) ==> r.len() > 0 && (forall|k: int|
                    0 <= k < r.len() ==> suggestion_ok(self.words(), input@, max_edit_distance, #[trigger] r@[k]))
                    && (verbosity == Verbosity::All ==> has_term(r@, w)),
    {
        let q = to_chars(input);
        self.lookup_chars(&q, verbosity, max_edit_distance, include_unknown, include_self)
    }

    /// Adds the stand-in suggestion when unknown words are asked for and none was found.
    fn finish_lookup(
        &self,
        q: &Vec<char>,
        suggestions: Vec<SuggestItem>,
        verbosity: Verbosity,
        max_edit_distance: usize,
        include_unknown: bool,
        include_self: bool,
    ) -> (r: Vec<SuggestItem>)
        requires
            max_edit_distance < usize::MAX,
            forall|k: int| 0 <= k < suggestions.len() ==> suggestion_ok(self.words(), q@, max_edit_distance, #[trigger] suggestions@[k]),
            sorted_suggestions(suggestions@),
            distinct_terms(suggestions@),
            verbosity == Verbosity::Top ==> suggestions.len() <= 1,
            verbosity == Verbosity::Closest ==> forall|k: int| 0 <= k < suggestions.len() ==> (#[trigger] suggestions@[k]).distance == suggestions@[0].distance,
            self.words().contains_key(q@) && (verbosity != Verbosity::All || include_self) ==> exists|k: int|
                0 <= k < suggestions.len() && (#[trigger] suggestions@[k]).term@ == q@ && suggestions@[k].distance == 0
                    && suggestions@[k].count == self.words()[q@],
        ensures
            lookup_ok(self.words(), q@, verbosity, max_edit_distance, include_unknown, include_self, r@),
            suggestions.len() > 0 ==> r@ == suggestions@,
    {
        let mut out = suggestions;
        if include_unknown && out.len() == 0 {
            out.push(SuggestItem::new(from_chars(q), max_edit_distance + 1, 0));
        }
        out
    }

    /// Suggestions for the grapheme sequence `q` (see [`lookup_ok`] and [`SymSpell::lookup`]).
    #[verifier::rlimit(100)]
    #[verifier::spinoff_prover]
    pub fn lookup_chars(
        &self,
        q: &Vec<char>,
        verbosity: Verbosity,
        max_edit_distance: usize,
        include_unknown: bool,
        include_self: bool,
    ) -> (r: Vec<SuggestItem>)
        requires
            self.wf(),
            max_edit_distance <= self.spec_max_edit_distance(),
            max_edit_distance < usize::MAX,
        ensures
            lookup_ok(self.words(), q@, verbosity, max_edit_distance, include_unknown, include_self, r@),
            forall|w: Seq<char>|
                #[trigger] self.near(q@, max_edit_distance, include_self, w) && self.shares_delete(
                    q@,
                    max_edit_distance,
                    w,
                ) ==> r.len() > 0 && (forall|k: int|
                    0 <= k < r.len() ==> suggestion_ok(self.words(), q@, max_edit_distance, #[trigger] r@[k]))
                    && (verbosity == Verbosity::All ==> has_term(r@, w)),
    {
        let ghost words = self.words();
        let input_len = q.len();
        let mut suggestions: Vec<SuggestItem> = Vec::new();
        // early exit: the word is too long to be near any dictionary word
        if input_len > max_edit_distance && input_len - max_edit_distance > self.max_dictionary_word_length {
            proof {
                if words.contains_key(q@) {
                    let id = self.vocabulary.index_of(q@);
                    self.vocabulary.lemma_index_of(id);
                }
                assert forall|w: Seq<char>| #[trigger] self.near(q@, max_edit_distance, include_self, w) implies false by {
                    let id = self.vocabulary.index_of(w);
                    self.vocabulary.lemma_index_of(id);
                    self.lemma_position(id);
                    lemma_osa_bounds(q@, w, q@.len(), w.len());
                }
            }
            return self.finish_lookup(q, suggestions, verbosity, max_edit_distance, include_unknown, include_self);
        }
        let mut considered: HashSet<usize> = HashSet::new();
        // the position in the vocabulary of each suggestion's word
        let ghost mut ids: Seq<usize> = Seq::empty();
        let exact = self.vocabulary.find(q);
        let mut self_found = false;
        match exact {
            Some(i) => {
                proof {
                    self.lemma_position(i as int);
                }
                if self.promoted[i] {
                    self_found = true;
                    considered.insert(i);
                    if verbosity != Verbosity::All || include_self {
                        let item = SuggestItem::new(from_chars(q), 0, self.vocabulary.count_at(i));
                        proof {
                            lemma_osa_zero(q@);
                        }
                        suggestions.push(item);
                        assert(suggestions@[0].term@ == q@);
                        assert(self.vocabulary.key(i as int) == suggestions@[0].term@);
                        proof {
                            ids = seq![i];
                        }
                    }
                    if verbosity != Verbosity::All {
                        return self.finish_lookup(q, suggestions, verbosity, max_edit_distance, include_unknown, include_self);
                    }
                }
            },
            None => {
            },
        }
        assert(self_found == words.contains_key(q@));
        proof {
            if self_found && include_self {
                assert(has_term(suggestions@, q@)) by {
                    assert(suggestions@[0].term@ == q@);
                }
            }
        }
        if max_edit_distance == 0 {
            proof {
                assert forall|w: Seq<char>| #[trigger] self.near(q@, max_edit_distance, include_self, w) implies has_term(
                    suggestions@,
                    w,
                ) && suggestions.len() > 0 by {
                    lemma_osa_zero_is_equal(q@, w);
                }
            }
            return self.finish_lookup(q, suggestions, verbosity, max_edit_distance, include_unknown, include_self);
        }
        let comparer = EditDistance::new(DistanceAlgorithm::DamaerauOSA);
        let mut max_edit_distance2 = max_edit_distance;
        let input_prefix_len = if input_len > self.prefix_length {
            self.prefix_length
        } else {
            input_len
        };
        let ghost pp = prefix_of(q@, self.prefix_length as nat);
        let mut level: Vec<Vec<char>> = Vec::new();
        let first = slice_chars(q, 0, input_prefix_len);
        assert(first@ =~= pp);
        proof {
            lemma_views_push(level@, first);
        }
        level.push(first);
        let limit = if max_edit_distance < input_prefix_len {
            max_edit_distance
        } else {
            input_prefix_len
        };
        let mut len_diff: usize = 0;
        proof {
            assert(views(level@) =~= seq![pp]);
            assert forall|d: Seq<char>| #[trigger] is_delete_at(d, pp, 0) implies views(level@).contains(d) by {
                assert(views(level@)[0] == d);
            }
            assert forall|id: usize| #[trigger] considered@.contains(id) implies id < self.vocabulary.len() && (done_for(
                verbosity,
                suggestions@,
                self.vocabulary.key(id as int),
            ) || osa_distance(q@, self.vocabulary.key(id as int)) > max_edit_distance || (self.vocabulary.key(id as int)
                == q@ && !include_self)) by {
                let i = exact->Some_0;
                assert(id == i);
            }
        }
        while len_diff <= limit
            invariant
                self.wf(),
                words == self.words(),
                comparer.algorithm() == DistanceAlgorithm::DamaerauOSA,
                input_len == q.len(),
                input_prefix_len <= input_len,
                input_prefix_len <= self.prefix_length,
                pp == prefix_of(q@, self.prefix_length as nat),
                pp.len() == input_prefix_len,
                limit <= max_edit_distance < usize::MAX,
                limit <= input_prefix_len,
                limit == max_edit_distance || limit == input_prefix_len,
                max_edit_distance <= self.dictionary_edit_distance,
                max_edit_distance2 <= max_edit_distance,
                verbosity == Verbosity::All ==> max_edit_distance2 == max_edit_distance,
                verbosity != Verbosity::All && max_edit_distance2 < max_edit_distance ==> suggestions.len() > 0,
                self_found == words.contains_key(q@),
                verbosity != Verbosity::All ==> !self_found,
                forall|k: int| 0 <= k < suggestions.len() ==> suggestion_ok(words, q@, max_edit_distance, #[trigger] suggestions@[k]),
                sorted_suggestions(suggestions@),
                distinct_terms(suggestions@),
                ids.len() == suggestions.len(),
                forall|k: int| 0 <= k < ids.len() ==> considered@.contains(#[trigger] ids[k]) && ids[k] < self.vocabulary.len()
                    && self.vocabulary.key(ids[k] as int) == suggestions@[k].term@,
                verbosity == Verbosity::Top ==> suggestions.len() <= 1,
                verbosity == Verbosity::Closest ==> forall|k: int| 0 <= k < suggestions.len() ==> (#[trigger] suggestions@[k]).distance == max_edit_distance2,
                self_found && include_self ==> exists|k: int|
                    0 <= k < suggestions.len() && (#[trigger] suggestions@[k]).term@ == q@ && suggestions@[k].distance == 0
                        && suggestions@[k].count == words[q@],
                forall|id: usize| #[trigger] considered@.contains(id) ==> id < self.vocabulary.len() && (done_for(
                    verbosity,
                    suggestions@,
                    self.vocabulary.key(id as int),
                ) || osa_distance(q@, self.vocabulary.key(id as int)) > max_edit_distance || (self.vocabulary.key(id as int)
                    == q@ && !include_self)),
                forall|w: Seq<char>|
                    #[trigger] self.near(q@, max_edit_distance, include_self, w) && self.reached_before(
                        q@,
                        max_edit_distance,
                        w,
                        len_diff as nat,
                    ) ==> done_for(verbosity, suggestions@, w),
                (verbosity == Verbosity::All || suggestions.len() == 0) && len_diff <= limit ==> forall|d: Seq<char>|
                    #[trigger] is_delete_at(d, pp, len_diff as nat) ==> views(level@).contains(d),
                forall|k: int| 0 <= k < level.len() ==> (#[trigger] level@[k])@.len() + len_diff == input_prefix_len,
            ensures
                len_diff > limit || (verbosity != Verbosity::All && suggestions.len() > 0),
                self.wf(),
                words == self.words(),
                comparer.algorithm() == DistanceAlgorithm::DamaerauOSA,
                input_len == q.len(),
                input_prefix_len <= input_len,
                input_prefix_len <= self.prefix_length,
                pp == prefix_of(q@, self.prefix_length as nat),
                pp.len() == input_prefix_len,
                limit <= max_edit_distance < usize::MAX,
                limit <= input_prefix_len,
                limit == max_edit_distance || limit == input_prefix_len,
                max_edit_distance <= self.dictionary_edit_distance,
                max_edit_distance2 <= max_edit_distance,
                verbosity == Verbosity::All ==> max_edit_distance2 == max_edit_distance,
                verbosity != Verbosity::All && max_edit_distance2 < max_edit_distance ==> suggestions.len() > 0,
                self_found == words.contains_key(q@),
                verbosity != Verbosity::All ==> !self_found,
                forall|k: int| 0 <= k < suggestions.len() ==> suggestion_ok(words, q@, max_edit_distance, #[trigger] suggestions@[k]),
                sorted_suggestions(suggestions@),
                distinct_terms(suggestions@),
                ids.len() == suggestions.len(),
                forall|k: int| 0 <= k < ids.len() ==> considered@.contains(#[trigger] ids[k]) && ids[k] < self.vocabulary.len()
                    && self.vocabulary.key(ids[k] as int) == suggestions@[k].term@,
                verbosity == Verbosity::Top ==> suggestions.len() <= 1,
                verbosity == Verbosity::Closest ==> forall|k: int| 0 <= k < suggestions.len() ==> (#[trigger] suggestions@[k]).distance == max_edit_distance2,
                self_found && include_self ==> exists|k: int|
                    0 <= k < suggestions.len() && (#[trigger] suggestions@[k]).term@ == q@ && suggestions@[k].distance == 0
                        && suggestions@[k].count == words[q@],
                forall|id: usize| #[trigger] considered@.contains(id) ==> id < self.vocabulary.len() && (done_for(
                    verbosity,
                    suggestions@,
                    self.vocabulary.key(id as int),
                ) || osa_distance(q@, self.vocabulary.key(id as int)) > max_edit_distance || (self.vocabulary.key(id as int)
                    == q@ && !include_self)),
                forall|w: Seq<char>|
                    #[trigger] self.near(q@, max_edit_distance, include_self, w) && self.reached_before(
                        q@,
                        max_edit_distance,
                        w,
                        len_diff as nat,
                    ) ==> done_for(verbosity, suggestions@, w),
            decreases limit + 1 - len_diff,
        {
            if len_diff > max_edit_distance2 {
                // candidates come in order of deletions made: none of the rest is closer
                break;
            }
            let mut next: Vec<Vec<char>> = Vec::new();
            let mut c: usize = 0;
            while c < level.len()
                invariant
                    self.wf(),
                    words == self.words(),
                    comparer.algorithm() == DistanceAlgorithm::DamaerauOSA,
                    input_len == q.len(),
                    input_prefix_len <= input_len,
                    input_prefix_len <= self.prefix_length,
                    pp == prefix_of(q@, self.prefix_length as nat),
                    pp.len() == input_prefix_len,
                    limit <= max_edit_distance < usize::MAX,
                    limit <= input_prefix_len,
                    limit == max_edit_distance || limit == input_prefix_len,
                    max_edit_distance <= self.dictionary_edit_distance,
                    max_edit_distance2 <= max_edit_distance,
                    verbosity == Verbosity::All ==> max_edit_distance2 == max_edit_distance,
                    verbosity != Verbosity::All && max_edit_distance2 < max_edit_distance ==> suggestions.len() > 0,
                    self_found == words.contains_key(q@),
                    verbosity != Verbosity::All ==> !self_found,
                    forall|k: int| 0 <= k < suggestions.len() ==> suggestion_ok(words, q@, max_edit_distance, #[trigger] suggestions@[k]),
                    sorted_suggestions(suggestions@),
                    distinct_terms(suggestions@),
                    ids.len() == suggestions.len(),
                    forall|k: int| 0 <= k < ids.len() ==> considered@.contains(#[trigger] ids[k]) && ids[k] < self.vocabulary.len()
                        && self.vocabulary.key(ids[k] as int) == suggestions@[k].term@,
                    verbosity == Verbosity::Top ==> suggestions.len() <= 1,
                    verbosity == Verbosity::Closest ==> forall|k: int| 0 <= k < suggestions.len() ==> (#[trigger] suggestions@[k]).distance == max_edit_distance2,
                    self_found && include_self ==> exists|k: int|
                        0 <= k < suggestions.len() && (#[trigger] suggestions@[k]).term@ == q@ && suggestions@[k].distance == 0
                            && suggestions@[k].count == words[q@],
                    forall|id: usize| #[trigger] considered@.contains(id) ==> id < self.vocabulary.len() && (done_for(
                        verbosity,
                        suggestions@,
                        self.vocabulary.key(id as int),
                    ) || osa_distance(q@, self.vocabulary.key(id as int)) > max_edit_distance || (self.vocabulary.key(id as int)
                        == q@ && !include_self)),
                    forall|w: Seq<char>|
                        #[trigger] self.near(q@, max_edit_distance, include_self, w) && self.reached_before(
                            q@,
                            max_edit_distance,
                            w,
                            len_diff as nat,
                        ) ==> done_for(verbosity, suggestions@, w),
                    (verbosity == Verbosity::All || suggestions.len() == 0) && len_diff <= limit ==> forall|d: Seq<char>|
                        #[trigger] is_delete_at(d, pp, len_diff as nat) ==> views(level@).contains(d),
                    c <= level.len(),
                    len_diff <= limit,
                    forall|k: int| 0 <= k < level.len() ==> (#[trigger] level@[k])@.len() + len_diff == input_prefix_len,
                    forall|k: int| 0 <= k < next.len() ==> (#[trigger] next@[k])@.len() + len_diff + 1 == input_prefix_len,
                    forall|w: Seq<char>|
                        #[trigger] self.near(q@, max_edit_distance, include_self, w) && self.served_by(
                            max_edit_distance,
                            views(level@),
                            c as int,
                            w,
                        ) ==> done_for(verbosity, suggestions@, w),
                    (verbosity == Verbosity::All || suggestions.len() == 0) && len_diff < max_edit_distance ==> forall|a: int, i: int|
                        0 <= a < c && 0 <= i < level@[a]@.len() ==> views(next@).contains(#[trigger] level@[a]@.remove(i)),
                decreases level.len() - c,
            {
                let candidate = &level[c];
                let candidate_len = candidate.len();
                assert(level@[c as int]@.len() + len_diff == input_prefix_len);
                let h = self.get_string_hash(candidate);
                match self.deletes.get(&h) {
                    None => {
                        proof {
                            assert forall|w: Seq<char>|
                                #[trigger] self.near(q@, max_edit_distance, include_self, w)
                                    && is_delete_variant(candidate@, w, max_edit_distance as nat, self.prefix_length as nat)
                                    implies false by {
                                let id = self.vocabulary.index_of(w);
                                self.vocabulary.lemma_index_of(id);
                                self.lemma_position(id);
                                assert(self.complete_for(id));
                                assert(is_delete_variant(candidate@, w, self.dictionary_edit_distance as nat, self.prefix_length as nat));
                            }
                        }
                    },
                    Some(bucket) => {
                        let mut p: usize = 0;
                        while p < bucket.len()
                            invariant
                                self.wf(),
                                words == self.words(),
                                comparer.algorithm() == DistanceAlgorithm::DamaerauOSA,
                                input_len == q.len(),
                                input_prefix_len <= input_len,
                                input_prefix_len <= self.prefix_length,
                                pp == prefix_of(q@, self.prefix_length as nat),
                                pp.len() == input_prefix_len,
                                limit <= max_edit_distance < usize::MAX,
                                limit <= input_prefix_len,
                                limit == max_edit_distance || limit == input_prefix_len,
                                max_edit_distance <= self.dictionary_edit_distance,
                                max_edit_distance2 <= max_edit_distance,
                                verbosity == Verbosity::All ==> max_edit_distance2 == max_edit_distance,
                                verbosity != Verbosity::All && max_edit_distance2 < max_edit_distance ==> suggestions.len() > 0,
                                self_found == words.contains_key(q@),
                                verbosity != Verbosity::All ==> !self_found,
                                forall|k: int| 0 <= k < suggestions.len() ==> suggestion_ok(words, q@, max_edit_distance, #[trigger] suggestions@[k]),
                                sorted_suggestions(suggestions@),
                                distinct_terms(suggestions@),
                                ids.len() == suggestions.len(),
                                forall|k: int| 0 <= k < ids.len() ==> considered@.contains(#[trigger] ids[k]) && ids[k] < self.vocabulary.len()
                                    && self.vocabulary.key(ids[k] as int) == suggestions@[k].term@,
                                verbosity == Verbosity::Top ==> suggestions.len() <= 1,
                                verbosity == Verbosity::Closest ==> forall|k: int| 0 <= k < suggestions.len() ==> (#[trigger] suggestions@[k]).distance == max_edit_distance2,
                                self_found && include_self ==> exists|k: int|
                                    0 <= k < suggestions.len() && (#[trigger] suggestions@[k]).term@ == q@ && suggestions@[k].distance == 0
                                        && suggestions@[k].count == words[q@],
                                forall|id: usize| #[trigger] considered@.contains(id) ==> id < self.vocabulary.len() && (done_for(
                                    verbosity,
                                    suggestions@,
                                    self.vocabulary.key(id as int),
                                ) || osa_distance(q@, self.vocabulary.key(id as int)) > max_edit_distance || (self.vocabulary.key(id as int)
                                    == q@ && !include_self)),
                                forall|w: Seq<char>|
                                    #[trigger] self.near(q@, max_edit_distance, include_self, w) && self.reached_before(
                                        q@,
                                        max_edit_distance,
                                        w,
                                        len_diff as nat,
                                    ) ==> done_for(verbosity, suggestions@, w),
                                (verbosity == Verbosity::All || suggestions.len() == 0) && len_diff <= limit ==> forall|d: Seq<char>|
                                    #[trigger] is_delete_at(d, pp, len_diff as nat) ==> views(level@).contains(d),
                                c <= level.len(),
                                len_diff <= limit,
                                forall|k: int| 0 <= k < level.len() ==> (#[trigger] level@[k])@.len() + len_diff == input_prefix_len,
                                forall|k: int| 0 <= k < next.len() ==> (#[trigger] next@[k])@.len() + len_diff + 1 == input_prefix_len,
                                forall|w: Seq<char>|
                                    #[trigger] self.near(q@, max_edit_distance, include_self, w) && self.served_by(
                                        max_edit_distance,
                                        views(level@),
                                        c as int,
                                        w,
                                    ) ==> done_for(verbosity, suggestions@, w),
                                (verbosity == Verbosity::All || suggestions.len() == 0) && len_diff < max_edit_distance ==> forall|a: int, i: int|
                                    0 <= a < c && 0 <= i < level@[a]@.len() ==> views(next@).contains(#[trigger] level@[a]@.remove(i)),
                                c < level.len(),
                                candidate == &level@[c as int],
                                candidate_len == candidate.len(),
                                self.deletes@.contains_key(h),
                                h == crate::word_table::key_hash(candidate@),
                                bucket@ == self.deletes@[h]@,
                                p <= bucket.len(),
                                candidate_len <= input_prefix_len,
                                forall|p2: int|
                                    0 <= p2 < p ==> (self.near(q@, max_edit_distance, include_self, self.vocabulary.key(#[trigger] bucket@[p2] as int))
                                        && is_delete_variant(candidate@, self.vocabulary.key(bucket@[p2] as int), max_edit_distance as nat, self.prefix_length as nat)
                                        ==> done_for(verbosity, suggestions@, self.vocabulary.key(bucket@[p2] as int))),
                            decreases bucket.len() - p,
                        {
                            let id = bucket[p];
                            assert(id < self.vocabulary.len() && self.promoted@[id as int]);
                            let ghost w = self.vocabulary.key(id as int);
                            let ghost before = suggestions@;
                            let ghost searching = verbosity == Verbosity::All || suggestions.len() == 0;
                            let ghost was_considered = considered@.contains(id);
                            proof {
                                self.lemma_position(id as int);
                            }
                            if !considered.contains(&id) {
                                let suggestion = self.vocabulary.key_at(id);
                                let suggestion_len = suggestion.len();
                                let mut pass = !((suggestion_len > input_len && suggestion_len - input_len > max_edit_distance2)
                                    || (input_len > suggestion_len && input_len - suggestion_len > max_edit_distance2)
                                    || suggestion_len < candidate_len || (suggestion_len == candidate_len
                                    && !chars_eq(suggestion, candidate)));
                                let suggestion_prefix_len = if suggestion_len < self.prefix_length {
                                    suggestion_len
                                } else {
                                    self.prefix_length
                                };
                                if pass && suggestion_prefix_len > input_prefix_len && suggestion_prefix_len - candidate_len
                                    > max_edit_distance2 {
                                    pass = false;
                                }
                                // the in-order test only weeds out collisions of keys
                                if pass && candidate_len > 0 && suggestion_len > 1 && verbosity != Verbosity::All
                                    && !self.delete_in_suggestion_prefix(candidate, suggestion) {
                                    pass = false;
                                }
                                proof {
                                    if searching && self.near(q@, max_edit_distance, include_self, w) && is_delete_variant(
                                        candidate@,
                                        w,
                                        max_edit_distance as nat,
                                        self.prefix_length as nat,
                                    ) {
                                        lemma_osa_bounds(q@, w, q@.len(), w.len());
                                        assert(max_edit_distance2 == max_edit_distance);
                                        assert(suggestion@ == w && suggestion_len == w.len());
                                        assert(candidate_len == candidate@.len());
                                        let pw = prefix_of(w, self.prefix_length as nat);
                                        assert(pw.len() == suggestion_prefix_len);
                                        if candidate@.len() == 0 && w.len() <= max_edit_distance {
                                            if w.len() == 0 {
                                                assert(w =~= candidate@);
                                            }
                                        } else {
                                            let t = choose|t: nat| t <= max_edit_distance && #[trigger] is_delete_at(candidate@, pw, t);
                                            lemma_delete_len(candidate@, pw, t);
                                            let f = lemma_delete_embeds(candidate@, pw, t);
                                            Self::lemma_in_order_embedded(candidate@, pw, f, 0, 0);
                                            assert(candidate@.len() <= w.len());
                                            assert(suggestion_prefix_len - candidate_len <= max_edit_distance);
                                            if candidate@.len() == w.len() {
                                                assert(t == 0);
                                                assert(pw == w);
                                                assert(candidate@ == w);
                                            }
                                        }
                                        assert(pass);
                                    }
                                }
                                if pass {
                                    let ghost old_considered = considered@;
                                    considered.insert(id);
                                    proof {
                                        assert forall|k: int| 0 <= k < suggestions.len() implies (#[trigger] suggestions@[k]).term@
                                            != self.vocabulary.key(id as int) by {
                                            assert(old_considered.contains(ids[k]));
                                            assert(ids[k] != id);
                                            self.vocabulary.lemma_distinct(ids[k] as int, id as int);
                                        }
                                    }
                                    let found = if candidate_len > 0 && suggestion_len == 1 {
                                        // one grapheme: every other grapheme of the query goes
                                        proof {
                                            lemma_osa_single(q@, suggestion@[0], input_len as nat);
                                            assert(q@.subrange(0, input_len as int) =~= q@);
                                            assert(suggestion@ =~= seq![suggestion@[0]]);
                                        }
                                        let d = if contains_char(q, suggestion[0]) {
                                            input_len - 1
                                        } else {
                                            input_len
                                        };
                                        if d > max_edit_distance2 {
                                            None
                                        } else {
                                            Some(d)
                                        }
                                    } else {
                                        comparer.distance_bounded_chars(q, suggestion, max_edit_distance2)
                                    };
                                    match found {
                                        None => {
                                        },
                                        Some(distance) => {
                                            let suggestion_count = self.vocabulary.count_at(id);
                                            let item = SuggestItem::new(from_chars(suggestion), distance, suggestion_count);
                                            assert(suggestion_ok(words, q@, max_edit_distance, item));
                                            if verbosity == Verbosity::Top && suggestions.len() > 0 {
                                                if distance < max_edit_distance2 || suggestion_count > suggestions[0].count {
                                                    max_edit_distance2 = distance;
                                                    suggestions = Vec::new();
                                                    suggestions.push(item);
                                                    proof {
                                                        ids = seq![id];
                                                        assert(suggestions@[0].term@ == self.vocabulary.key(id as int));
                                                    }
                                                }
                                            } else {
                                                if verbosity == Verbosity::Closest && suggestions.len() > 0 && distance
                                                    < max_edit_distance2 {
                                                    suggestions = Vec::new();
                                                    proof {
                                                        ids = Seq::empty();
                                                    }
                                                }
                                                if verbosity != Verbosity::All {
                                                    max_edit_distance2 = distance;
                                                }
                                                let ghost before_insert = suggestions@;
                                                insert_sorted(&mut suggestions, item);
                                                proof {
                                                    let pos = choose|pos: int| 0 <= pos <= before_insert.len() && suggestions@ == before_insert.insert(pos, item);
                                                    lemma_insert_distinct(before_insert, pos, item);
                                                    lemma_done_insert(verbosity, before_insert, pos, item);
                                                    let old_ids = ids;
                                                    ids = old_ids.insert(pos, id);
                                                    assert forall|k: int| 0 <= k < ids.len() implies considered@.contains(#[trigger] ids[k]) && ids[k] < self.vocabulary.len()
                                                        && self.vocabulary.key(ids[k] as int) == suggestions@[k].term@ by {
                                                        if k < pos {
                                                            assert(suggestions@[k] == before_insert[k]);
                                                            assert(ids[k] == old_ids[k]);
                                                        } else if k > pos {
                                                            assert(suggestions@[k] == before_insert[k - 1]);
                                                            assert(ids[k] == old_ids[k - 1]);
                                                        }
                                                    }
                                                    assert forall|k: int| 0 <= k < suggestions.len() implies suggestion_ok(words, q@, max_edit_distance, #[trigger] suggestions@[k]) by {
                                                        if k < pos {
                                                            assert(suggestions@[k] == before_insert[k]);
                                                        } else if k > pos {
                                                            assert(suggestions@[k] == before_insert[k - 1]);
                                                        }
                                                    }
                                                    if verbosity == Verbosity::Closest {
                                                        assert forall|k: int| 0 <= k < suggestions.len() implies (#[trigger] suggestions@[k]).distance == max_edit_distance2 by {
                                                            if k < pos {
                                                                assert(suggestions@[k] == before_insert[k]);
                                                            } else if k > pos {
                                                                assert(suggestions@[k] == before_insert[k - 1]);
                                                            }
                                                        }
                                                    }
                                                    if self_found && include_self {
                                                        let k0 = choose|k: int|
                                                            0 <= k < before_insert.len() && (#[trigger] before_insert[k]).term@ == q@ && before_insert[k].distance == 0
                                                                && before_insert[k].count == words[q@];
                                                        if k0 < pos {
                                                            assert(suggestions@[k0] == before_insert[k0]);
                                                        } else {
                                                            assert(suggestions@[k0 + 1] == before_insert[k0]);
                                                        }
                                                    }
                                                    if verbosity == Verbosity::All {
                                                        assert(before_insert == before);
                                                    }
                                                }
                                            }
                                        },
                                    }
                                }
                            }
                            proof {
                                // what was owed before is still owed; the word of this entry is settled
                                assert(verbosity != Verbosity::All && before.len() > 0 ==> suggestions.len() > 0);
                                assert forall|x: Seq<char>| done_for(verbosity, before, x) implies #[trigger] done_for(
                                    verbosity,
                                    suggestions@,
                                    x,
                                ) by {
                                }
                                if self.near(q@, max_edit_distance, include_self, w) && is_delete_variant(
                                    candidate@,
                                    w,
                                    max_edit_distance as nat,
                                    self.prefix_length as nat,
                                ) {
                                    if was_considered {
                                        assert(done_for(verbosity, before, w));
                                    }
                                }
                                assert(considered@.contains(id) ==> done_for(verbosity, suggestions@, w)
                                    || osa_distance(q@, w) > max_edit_distance || (w == q@ && !include_self));
                            }
                            p = p + 1;
                        }
                        proof {
                            assert forall|w: Seq<char>|
                                #[trigger] self.near(q@, max_edit_distance, include_self, w)
                                    && is_delete_variant(candidate@, w, max_edit_distance as nat, self.prefix_length as nat)
                                    implies done_for(verbosity, suggestions@, w) by {
                                let id = self.vocabulary.index_of(w);
                                self.vocabulary.lemma_index_of(id);
                                self.lemma_position(id);
                                assert(self.complete_for(id));
                                assert(is_delete_variant(candidate@, w, self.dictionary_edit_distance as nat, self.prefix_length as nat));
                                let p2 = choose|p2: int| 0 <= p2 < bucket@.len() && bucket@[p2] == id as usize;
                                assert(bucket@[p2] == id as usize);
                            }
                        }
                    },
                }
                proof {
                    assert forall|w: Seq<char>|
                        #[trigger] self.near(q@, max_edit_distance, include_self, w) && self.served_by(
                            max_edit_distance,
                            views(level@),
                            c + 1,
                            w,
                        ) implies done_for(verbosity, suggestions@, w) by {
                        let a = choose|a: int|
                            0 <= a < c + 1 && #[trigger] is_delete_variant(views(level@)[a], w, max_edit_distance as nat, self.prefix_length as nat);
                        if a < c {
                            assert(self.served_by(max_edit_distance, views(level@), c as int, w));
                        } else {
                            assert(views(level@)[a] == candidate@);
                        }
                    }
                }
                // derive the candidates of the next level: one more deletion
                if len_diff < max_edit_distance && !(verbosity != Verbosity::All && len_diff >= max_edit_distance2) {
                    let mut i: usize = 0;
                    while i < candidate_len
                        invariant
                            candidate_len == candidate.len(),
                            candidate@.len() + len_diff == input_prefix_len,
                            i <= candidate_len,
                            forall|k: int| 0 <= k < next.len() ==> (#[trigger] next@[k])@.len() + len_diff + 1 == input_prefix_len,
                            (verbosity == Verbosity::All || suggestions.len() == 0) && len_diff < max_edit_distance ==> forall|a: int, i2: int|
                                0 <= a < c && 0 <= i2 < level@[a]@.len() ==> views(next@).contains(#[trigger] level@[a]@.remove(i2)),
                            forall|i2: int| 0 <= i2 < i ==> views(next@).contains(#[trigger] candidate@.remove(i2)),
                        decreases candidate_len - i,
                    {
                        let d = remove_char(candidate, i);
                        if !contains_chars(&next, &d) {
                            let ghost before_next = next@;
                            next.push(d);
                            proof {
                                lemma_views_push(before_next, d);
                            }
                        } else {
                            proof {
                                let k = choose|k: int| 0 <= k < next.len() && #[trigger] next[k]@ == d@;
                                assert(views(next@)[k] == d@);
                            }
                        }
                        i = i + 1;
                    }
                }
                proof {
                    if (verbosity == Verbosity::All || suggestions.len() == 0) && len_diff < max_edit_distance {
                        assert forall|a: int, i2: int|
                            0 <= a < c + 1 && 0 <= i2 < level@[a]@.len() implies views(next@).contains(#[trigger] level@[a]@.remove(i2)) by {
                        }
                    }
                }
                c = c + 1;
            }
            proof {
                assert forall|w: Seq<char>|
                    #[trigger] self.near(q@, max_edit_distance, include_self, w) && self.reached_before(
                        q@,
                        max_edit_distance,
                        w,
                        (len_diff + 1) as nat,
                    ) implies done_for(verbosity, suggestions@, w) by {
                    let (d, t) = choose|d: Seq<char>, t: nat|
                        #![trigger is_delete_at(d, pp, t), is_delete_variant(d, w, max_edit_distance as nat, self.prefix_length as nat)]
                        t < len_diff + 1 && t <= max_edit_distance && is_delete_at(d, pp, t)
                            && is_delete_variant(d, w, max_edit_distance as nat, self.prefix_length as nat);
                    if t < len_diff {
                        assert(self.reached_before(q@, max_edit_distance, w, len_diff as nat));
                    } else if verbosity == Verbosity::All || suggestions.len() == 0 {
                        assert(views(level@).contains(d));
                        let a = choose|a: int| 0 <= a < views(level@).len() && views(level@)[a] == d;
                        assert(self.served_by(max_edit_distance, views(level@), level.len() as int, w));
                    }
                }
                if (verbosity == Verbosity::All || suggestions.len() == 0) && len_diff + 1 <= limit {
                    assert forall|d: Seq<char>| #[trigger] is_delete_at(d, pp, (len_diff + 1) as nat) implies views(next@).contains(d) by {
                        let (s2, i2) = choose|s2: Seq<char>, i2: int|
                            is_delete_at(s2, pp, len_diff as nat) && 0 <= i2 < s2.len() && d == #[trigger] s2.remove(i2);
                        assert(views(level@).contains(s2));
                        let a = choose|a: int| 0 <= a < views(level@).len() && views(level@)[a] == s2;
                        assert(level@[a]@ == s2);
                        assert(views(next@).contains(level@[a]@.remove(i2)));
                    }
                }
            }
            let ghost old_len_diff = len_diff;
            level = next;
            len_diff = len_diff + 1;
            proof {
                assert forall|w: Seq<char>| #[trigger] self.near(q@, max_edit_distance, include_self, w) && self.reached_before(
                    q@, max_edit_distance, w, len_diff as nat) implies done_for(verbosity, suggestions@, w) by {
                    assert(self.reached_before(q@, max_edit_distance, w, (old_len_diff + 1) as nat));
                }
                if (verbosity == Verbosity::All || suggestions.len() == 0) && len_diff <= limit {
                    assert forall|d: Seq<char>| #[trigger] is_delete_at(d, pp, len_diff as nat) implies views(level@).contains(d) by {
                        assert(len_diff as nat == (old_len_diff + 1) as nat);
                    }
                }
            }
        }
        proof {
            if verbosity == Verbosity::Closest && suggestions.len() > 0 {
                assert(suggestions@[0].distance == max_edit_distance2);
            }
            assert forall|w: Seq<char>|
                #[trigger] self.near(q@, max_edit_distance, include_self, w) && self.shares_delete(q@, max_edit_distance, w)
                    implies done_for(verbosity, suggestions@, w) by {
                if len_diff > limit {
                    let (d, t) = choose|d: Seq<char>, t: nat|
                        #![trigger is_delete_at(d, pp, t), is_delete_variant(d, w, max_edit_distance as nat, self.prefix_length as nat)]
                        t <= max_edit_distance && is_delete_at(d, pp, t)
                            && is_delete_variant(d, w, max_edit_distance as nat, self.prefix_length as nat);
                    lemma_delete_len(d, pp, t);
                    assert(self.reached_before(q@, max_edit_distance, w, len_diff as nat));
                }
            }
        }
        self.finish_lookup(q, suggestions, verbosity, max_edit_distance, include_unknown, include_self)
    }
}

} // verus!
