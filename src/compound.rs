use vstd::prelude::*;

use crate::damerau_osa::osa_distance;
use crate::edit_distance::{DistanceAlgorithm, EditDistance};
use crate::suggest_item::SuggestItem;
use crate::sym_spell::{lookup_ok, suggestion_ok, SymSpell};
use crate::text::{chars_eq, concat_chars, from_chars, slice_chars, to_chars};
use crate::utils::{is_word_code, is_word_code_exec};
use crate::verbosity::Verbosity;

verus! {

/// Number of word tokens in the corpus the counts come from; the denominator
/// of every probability estimate.
pub const N: u64 = 1024908267229;

/// `x`, or `usize::MAX` where `x` is larger.
pub open spec fn capped(x: nat) -> usize {
    if x > usize::MAX {
        usize::MAX
    } else {
        x as usize
    }
}

/// `min(a * b / N, usize::MAX)`: the count of a pair of independent words
/// with counts `a` and `b`.
pub open spec fn naive_bayes(a: usize, b: usize) -> usize {
    let p = (a as nat * b as nat) / (N as nat);
    if p > usize::MAX {
        usize::MAX
    } else {
        p as usize
    }
}

pub fn naive_bayes_exec(a: usize, b: usize) -> (r: usize)
    ensures
        r == naive_bayes(a, b),
{
    assert((a as nat) * (b as nat) <= u128::MAX) by (nonlinear_arith)
        requires
            a as nat <= 0xffff_ffff_ffff_ffffnat,
            b as nat <= 0xffff_ffff_ffff_ffffnat,
    ;
    let p: u128 = (a as u128) * (b as u128) / (N as u128);
    if p > usize::MAX as u128 {
        usize::MAX
    } else {
        p as usize
    }
}

/// `N` times the product of `c / N` over the counts, rounded down at each step
/// and capped at `usize::MAX`.
pub open spec fn compound_count(counts: Seq<usize>) -> usize
    decreases counts.len(),
{
    if counts.len() == 0 {
        capped(N as nat)
    } else {
        naive_bayes(compound_count(counts.drop_last()), counts.last())
    }
}

/// Count given to a word that the dictionary does not know: 10 / 10^len.
pub open spec fn unknown_count(len: nat) -> usize {
    if len == 0 {
        10
    } else if len == 1 {
        1
    } else {
        0
    }
}

/// The words joined by single spaces.
pub open spec fn join_terms(parts: Seq<Seq<char>>) -> Seq<char>
    decreases parts.len(),
{
    if parts.len() == 0 {
        Seq::empty()
    } else if parts.len() == 1 {
        parts[0]
    } else {
        join_terms(parts.drop_last()) + seq![' '] + parts.last()
    }
}

pub open spec fn is_word_char(c: char) -> bool {
    is_word_code(c as u32)
}

/// The maximal runs of word characters of `s`, in order.
pub open spec fn word_runs(s: Seq<char>) -> Seq<Seq<char>>
    decreases s.len(),
{
    if s.len() == 0 {
        Seq::empty()
    } else {
        let r = word_runs(s.drop_last());
        let c = s.last();
        if !is_word_char(c) {
            r
        } else if s.len() >= 2 && is_word_char(s[s.len() - 2]) {
            r.update(r.len() - 1, r.last().push(c))
        } else {
            r.push(seq![c])
        }
    }
}

/// The input words that part `k` stands for, when part `k` starts at word
/// `starts[k]` and the parts cover the first `n` words.
pub open spec fn covered(tokens: Seq<Seq<char>>, starts: Seq<int>, k: int, n: int) -> Seq<Seq<char>> {
    tokens.subrange(
        starts[k],
        if k + 1 < starts.len() {
            starts[k + 1]
        } else {
            n
        },
    )
}

/// The parts, starting at `starts`, cover the first `n` words in order, one
/// or two words each.
pub open spec fn cover_ok(starts: Seq<int>, n: int) -> bool {
    &&& (n == 0) == (starts.len() == 0)
    &&& starts.len() > 0 ==> {
        &&& starts[0] == 0
        &&& forall|k: int| 0 <= k < starts.len() - 1 ==> 1 <= #[trigger] starts[k + 1] - starts[k] <= 2
        &&& 1 <= n - starts.last() <= 2
    }
}

pub open spec fn item_terms(parts: Seq<SuggestItem>) -> Seq<Seq<char>> {
    parts.map_values(|p: SuggestItem| p.term@)
}

pub open spec fn item_counts(parts: Seq<SuggestItem>) -> Seq<usize> {
    parts.map_values(|p: SuggestItem| p.count)
}

/// A copy of a suggestion.
pub fn copy_item(x: &SuggestItem) -> (r: SuggestItem)
    ensures
        r.term@ == x.term@,
        r.distance == x.distance,
        r.count == x.count,
{
    SuggestItem::new(x.term.clone(), x.distance, x.count)
}

/// The words of `text`: maximal runs of letters and `_`.
pub fn split_words(text: &Vec<char>) -> (r: Vec<Vec<char>>)
    ensures
        r@.map_values(|w: Vec<char>| w@) == word_runs(text@),
{
    let mut out: Vec<Vec<char>> = Vec::new();
    let mut cur: Vec<char> = Vec::new();
    let mut i: usize = 0;
    while i < text.len()
        invariant
            i <= text.len(),
            word_runs(text@.subrange(0, i as int)) == if cur.len() > 0 {
                out@.map_values(|w: Vec<char>| w@).push(cur@)
            } else {
                out@.map_values(|w: Vec<char>| w@)
            },
            cur.len() > 0 ==> i > 0 && is_word_char(text@[i - 1]),
            cur.len() == 0 && i > 0 ==> !is_word_char(text@[i - 1]),
        decreases text.len() - i,
    {
        let c = text[i];
        let ghost pre = text@.subrange(0, i + 1);
        assert(pre.drop_last() =~= text@.subrange(0, i as int));
        if is_word_code_exec(c as u32) {
            let ghost old_cur = cur@;
            cur.push(c);
            proof {
                if old_cur.len() > 0 {
                    assert(pre[pre.len() - 2] == text@[i - 1]);
                    let outv = out@.map_values(|w: Vec<char>| w@);
                    let r = word_runs(pre.drop_last());
                    assert(r == outv.push(old_cur));
                    assert(is_word_char(pre.last()));
                    assert(word_runs(pre) == r.update(r.len() - 1, r.last().push(c)));
                    assert(word_runs(pre) =~= out@.map_values(|w: Vec<char>| w@).push(cur@));
                } else {
                    let outv = out@.map_values(|w: Vec<char>| w@);
                    assert(word_runs(pre.drop_last()) == outv);
                    assert(cur@ =~= seq![c]);
                    if i > 0 {
                        assert(pre[pre.len() - 2] == text@[i - 1]);
                    }
                    assert(word_runs(pre) == outv.push(seq![c]));
                }
            }
        } else {
            if cur.len() > 0 {
                let ghost before = out@;
                out.push(cur);
                cur = Vec::new();
                assert(out@.map_values(|w: Vec<char>| w@) =~= before.map_values(|w: Vec<char>| w@).push(
                    out@[out.len() - 1]@,
                ));
            }
        }
        i = i + 1;
    }
    if cur.len() > 0 {
        let ghost before = out@;
        out.push(cur);
        assert(out@.map_values(|w: Vec<char>| w@) =~= before.map_values(|w: Vec<char>| w@).push(
            out@[out.len() - 1]@,
        ));
    }
    assert(text@.subrange(0, text.len() as int) =~= text@);
    out
}

/// The suggestion for a whole phrase made of `parts`: their terms joined by
/// single spaces, the combined count, and the distance from `input`.
pub fn combine_parts(input: &Vec<char>, parts: &Vec<SuggestItem>) -> (r: SuggestItem)
    ensures
        r.term@ == join_terms(item_terms(parts@)),
        r.count == compound_count(item_counts(parts@)),
        r.distance == osa_distance(input@, r.term@),
{
    let mut joined: Vec<char> = Vec::new();
    let mut count: usize = if N as u128 > usize::MAX as u128 {
        usize::MAX
    } else {
        N as usize
    };
    let mut i: usize = 0;
    while i < parts.len()
        invariant
            i <= parts.len(),
            joined@ == join_terms(item_terms(parts@.subrange(0, i as int))),
            count == compound_count(item_counts(parts@.subrange(0, i as int))),
        decreases parts.len() - i,
    {
        let ghost sub = parts@.subrange(0, i + 1);
        assert(sub.drop_last() =~= parts@.subrange(0, i as int));
        assert(item_terms(sub).drop_last() =~= item_terms(parts@.subrange(0, i as int)));
        assert(item_counts(sub).drop_last() =~= item_counts(parts@.subrange(0, i as int)));
        let term = to_chars(parts[i].term.as_str());
        if i > 0 {
            joined.push(' ');
        }
        joined = concat_chars(&joined, &term);
        count = naive_bayes_exec(count, parts[i].count);
        proof {
            assert(item_terms(sub).last() == parts@[i as int].term@);
            if i == 0 {
                assert(joined@ =~= join_terms(item_terms(sub)));
            } else {
                assert(joined@ =~= join_terms(item_terms(sub)));
            }
        }
        i = i + 1;
    }
    assert(parts@.subrange(0, parts.len() as int) =~= parts@);
    let comparer = EditDistance::new(DistanceAlgorithm::DamaerauOSA);
    let distance = comparer.distance_chars(input, &joined);
    SuggestItem::new(from_chars(&joined), distance, count)
}

impl SymSpell {
    /// No lookup can correct `x`: it is not indexed, and no indexed word within
    /// `max_edit_distance` shares a delete variant with it.
    pub open spec fn unreachable(&self, max_edit_distance: usize, x: Seq<char>) -> bool {
        &&& !self.words().contains_key(x)
        &&& forall|w: Seq<char>|
            #[trigger] self.near(x, max_edit_distance, false, w) ==> !self.shares_delete(x, max_edit_distance, w)
    }

    /// At every split point of `x` one of the two halves is unreachable.
    pub open spec fn split_fails(&self, max_edit_distance: usize, x: Seq<char>) -> bool {
        forall|j: int|
            1 <= j < x.len() ==> self.unreachable(max_edit_distance, #[trigger] x.subrange(0, j))
                || self.unreachable(max_edit_distance, x.subrange(j, x.len() as int))
    }

    /// `term` is two dictionary words, each within `max_edit_distance` of one
    /// side of a split of `t`, joined by a space.
    pub open spec fn split_pair(&self, max_edit_distance: usize, t: Seq<char>, term: Seq<char>) -> bool {
        exists|j: int, w1: Seq<char>, w2: Seq<char>|
            #![trigger t.subrange(0, j), self.words().contains_key(w1), self.words().contains_key(w2)]
            1 <= j < t.len() && self.words().contains_key(w1) && self.words().contains_key(w2) && osa_distance(
                t.subrange(0, j),
                w1,
            ) <= max_edit_distance && osa_distance(t.subrange(j, t.len() as int), w2) <= max_edit_distance
                && term == w1 + seq![' '] + w2
    }

    /// The part that stands for the input words `toks`: for two words, their
    /// merge, a dictionary word one edit further than their concatenation is
    /// from it; for one word, its correction, a split into two near words, or
    /// the word itself when neither exists.
    pub open spec fn token_part_ok(&self, max_edit_distance: usize, toks: Seq<Seq<char>>, p: SuggestItem) -> bool {
        ||| (toks.len() == 2 && self.words().contains_key(p.term@) && p.count == self.words()[p.term@]
            && osa_distance(toks[0] + toks[1], p.term@) <= max_edit_distance && p.distance == osa_distance(
            toks[0] + toks[1],
            p.term@,
        ) + 1)
        ||| (toks.len() == 1 && self.words().contains_key(p.term@) && p.count == self.words()[p.term@]
            && p.distance == osa_distance(toks[0], p.term@) && p.distance <= max_edit_distance)
        ||| (toks.len() == 1 && self.split_pair(max_edit_distance, toks[0], p.term@) && (self.bigrams().contains_key(
            p.term@,
        ) ==> p.count >= self.bigrams()[p.term@]) && (!self.bigrams().contains_key(p.term@) ==> p.count
            <= self.spec_bigram_count_min()))
        ||| (toks.len() == 1 && p.term@ == toks[0] && p.count == unknown_count(p.term@.len()) && p.distance
            == max_edit_distance + 1 && self.unreachable(max_edit_distance, p.term@) && self.split_fails(
            max_edit_distance,
            p.term@,
        ))
    }

    /// The words of `text`: maximal runs of letters and `_`; everything else separates.
    pub fn parse_words(text: &str) -> (r: Vec<String>)
        ensures
            r@.map_values(|w: String| w@) == word_runs(text@),
    {
        let chars = to_chars(text);
        let runs = split_words(&chars);
        let mut out: Vec<String> = Vec::new();
        let mut i: usize = 0;
        while i < runs.len()
            invariant
                i <= runs.len(),
                out.len() == i,
                out@.map_values(|w: String| w@) == runs@.subrange(0, i as int).map_values(|w: Vec<char>| w@),
            decreases runs.len() - i,
        {
            let ghost before = out@;
            let word = from_chars(&runs[i]);
            out.push(word);
            proof {
                let lhs = out@.map_values(|w: String| w@);
                let rhs = runs@.subrange(0, i + 1).map_values(|w: Vec<char>| w@);
                assert forall|k: int| 0 <= k < i + 1 implies lhs[k] == rhs[k] by {
                    if k < i {
                        assert(out@[k] == before[k]);
                        assert(before.map_values(|w: String| w@)[k] == runs@.subrange(0, i as int).map_values(|w: Vec<char>| w@)[k]);
                    }
                }
                assert(lhs =~= rhs);
            }
            i = i + 1;
        }
        assert(runs@.subrange(0, runs.len() as int) =~= runs@);
        out
    }

    /// Corrects a phrase of several words, splitting a word that reads better
    /// as two and merging two that read better as one; the result is a single
    /// suggestion for the whole phrase (see [`combine_parts`]).
    pub fn lookup_compound(&self, input: &str, max_edit_distance: usize) -> (r: Vec<SuggestItem>)
        requires
            self.wf(),
            max_edit_distance <= self.spec_max_edit_distance(),
            max_edit_distance < usize::MAX,
        ensures
            r.len() == 1,
            r@[0].distance == osa_distance(input@, r@[0].term@),
            exists|parts: Seq<SuggestItem>, starts: Seq<int>|
                #![trigger join_terms(item_terms(parts)), cover_ok(starts, word_runs(input@).len() as int)]
                parts.len() == starts.len() && cover_ok(starts, word_runs(input@).len() as int) && (forall|k: int|
                    0 <= k < parts.len() ==> self.token_part_ok(
                        max_edit_distance,
                        covered(word_runs(input@), starts, k, word_runs(input@).len() as int),
                        #[trigger] parts[k],
                    )) && r@[0].term@ == join_terms(item_terms(parts)) && r@[0].count == compound_count(
                    item_counts(parts),
                ),
            (forall|k: int|
                0 <= k < word_runs(input@).len() ==> self.words().contains_key(#[trigger] word_runs(input@)[k]))
                ==> r@[0].term@ == join_terms(word_runs(input@)),
    {
        let input_chars = to_chars(input);
        let term_list = split_words(&input_chars);
        let comparer = EditDistance::new(DistanceAlgorithm::DamaerauOSA);
        let mut parts: Vec<SuggestItem> = Vec::new();
        let mut last_combi = false;
        let ghost tokens = word_runs(input@);
        let ghost all_known = forall|k: int| 0 <= k < tokens.len() ==> self.words().contains_key(#[trigger] tokens[k]);
        // the first input word each part stands for
        let ghost mut starts: Seq<int> = Seq::empty();
        proof {
            assert(tokens.len() == term_list.len());
            assert(item_terms(parts@) =~= tokens.subrange(0, 0));
        }
        let mut i: usize = 0;
        while i < term_list.len()
            invariant
                self.wf(),
                max_edit_distance <= self.spec_max_edit_distance(),
                max_edit_distance < usize::MAX,
                comparer.algorithm() == DistanceAlgorithm::DamaerauOSA,
                i <= term_list.len(),
                i > 0 ==> parts.len() > 0,
                term_list@.map_values(|w: Vec<char>| w@) == word_runs(input_chars@),
                input_chars@ == input@,
                parts.len() == starts.len(),
                cover_ok(starts, i as int),
                forall|k: int|
                    0 <= k < parts.len() ==> self.token_part_ok(
                        max_edit_distance,
                        covered(tokens, starts, k, i as int),
                        #[trigger] parts@[k],
                    ),
                i > 0 && !last_combi ==> starts.last() == i - 1,
                tokens == word_runs(input@),
                tokens.len() == term_list.len(),
                all_known == forall|k: int| 0 <= k < tokens.len() ==> self.words().contains_key(#[trigger] tokens[k]),
                all_known ==> !last_combi && item_terms(parts@) == tokens.subrange(0, i as int),
                all_known ==> forall|k: int| 0 <= k < parts.len() ==> (#[trigger] parts@[k]).distance == 0,
            decreases term_list.len() - i,
        {
            let term = &term_list[i];
            let suggestions = self.lookup_chars(term, Verbosity::Top, max_edit_distance, false, false);
            proof {
                assert(term_list@.map_values(|w: Vec<char>| w@)[i as int] == term@);
                if all_known {
                    assert(self.words().contains_key(tokens[i as int]));
                    let k = choose|k: int|
                        0 <= k < suggestions.len() && (#[trigger] suggestions@[k]).term@ == term@ && suggestions@[k].distance == 0
                            && suggestions@[k].count == self.words()[term@];
                    assert(k == 0);
                    if i > 0 {
                        assert(parts@[parts.len() - 1].distance == 0);
                    }
                }
            }
            if i > 0 && !last_combi {
                let combi = concat_chars(&term_list[i - 1], term);
                let suggestions_combi = self.lookup_chars(&combi, Verbosity::Top, max_edit_distance, false, false);
                if suggestions_combi.len() > 0 {
                    let best1 = &parts[parts.len() - 1];
                    let (best2_distance, best2_count) = if suggestions.len() > 0 {
                        (suggestions[0].distance, suggestions[0].count)
                    } else {
                        (max_edit_distance + 1, Self::unknown_count_exec(term.len()))
                    };
                    let distance1: u128 = best1.distance as u128 + best2_distance as u128;
                    let combi_best = &suggestions_combi[0];
                    assert(suggestion_ok(self.words(), combi@, max_edit_distance, suggestions_combi@[0]));
                    if (combi_best.distance as u128) + 1 < distance1 || ((combi_best.distance as u128) + 1
                        == distance1 && combi_best.count > naive_bayes_exec(best1.count, best2_count)) {
                        let merged = SuggestItem::new(combi_best.term.clone(), combi_best.distance + 1, combi_best.count);
                        let ghost before = parts@;
                        parts.pop();
                        parts.push(merged);
                        proof {
                            assert(term_list@.map_values(|w: Vec<char>| w@)[i - 1] == term_list@[i - 1]@);
                            assert(combi@ == tokens[i - 1] + tokens[i as int]);
                            let last = parts.len() - 1;
                            assert(covered(tokens, starts, last as int, i + 1) =~= seq![tokens[i - 1], tokens[i as int]]);
                            assert forall|k: int| 0 <= k < parts.len() implies self.token_part_ok(
                                max_edit_distance,
                                covered(tokens, starts, k, i + 1),
                                #[trigger] parts@[k],
                            ) by {
                                if k < parts.len() - 1 {
                                    assert(parts@[k] == before[k]);
                                    assert(covered(tokens, starts, k, i + 1) == covered(tokens, starts, k, i as int));
                                }
                            }
                        }
                        last_combi = true;
                        i = i + 1;
                        continue;
                    }
                }
            }
            last_combi = false;
            let term_len = term.len();
            let ghost before = parts@;
            proof {
                assert(term_list@.map_values(|w: Vec<char>| w@)[i as int] == term@);
                assert(word_runs(input@).contains(term@));
            }
            if suggestions.len() > 0 && (suggestions[0].distance == 0 || term_len == 1) {
                assert(suggestion_ok(self.words(), term@, max_edit_distance, suggestions@[0]));
                parts.push(copy_item(&suggestions[0]));
            } else {
                let best = self.best_split(term, &suggestions, max_edit_distance, &comparer);
                match best {
                    Some(item) => parts.push(item),
                    None => {
                        proof {
                            self.lemma_empty_unreachable(term@, max_edit_distance, suggestions@);
                        }
                        parts.push(
                            SuggestItem::new(from_chars(term), max_edit_distance + 1, Self::unknown_count_exec(term_len)),
                        )
                    },
                }
            }
            proof {
                let old_starts = starts;
                starts = starts.push(i as int);
                assert(covered(tokens, starts, parts.len() - 1, i + 1) =~= seq![term@]);
                assert forall|k: int| 0 <= k < parts.len() implies self.token_part_ok(
                    max_edit_distance,
                    covered(tokens, starts, k, i + 1),
                    #[trigger] parts@[k],
                ) by {
                    if k < parts.len() - 1 {
                        assert(parts@[k] == before[k]);
                        assert(covered(tokens, starts, k, i + 1) == covered(tokens, old_starts, k, i as int));
                    }
                }
                assert forall|k: int| 0 <= k < starts.len() - 1 implies 1 <= #[trigger] starts[k + 1] - starts[k] <= 2 by {
                    if k < old_starts.len() - 1 {
                        assert(old_starts[k + 1] - old_starts[k] >= 1);
                    }
                }
                if all_known {
                    assert(parts@[parts.len() - 1].term@ == term@);
                    assert(item_terms(parts@) =~= item_terms(before).push(term@));
                    assert(tokens.subrange(0, i + 1) =~= tokens.subrange(0, i as int).push(tokens[i as int]));
                    assert forall|k: int| 0 <= k < parts.len() implies (#[trigger] parts@[k]).distance == 0 by {
                        if k < parts.len() - 1 {
                            assert(parts@[k] == before[k]);
                        }
                    }
                }
            }
            i = i + 1;
        }
        proof {
            if all_known {
                assert(tokens.subrange(0, term_list.len() as int) =~= tokens);
            }
        }
        let item = combine_parts(&input_chars, &parts);
        let mut out: Vec<SuggestItem> = Vec::new();
        out.push(item);
        out
    }

    pub fn unknown_count_exec(len: usize) -> (r: usize)
        ensures
            r == unknown_count(len as nat),
    {
        if len == 0 {
            10
        } else if len == 1 {
            1
        } else {
            0
        }
    }

    /// The best reading of `term` as two words, or its single-word suggestion
    /// where no split reads better.
    fn best_split(
        &self,
        term: &Vec<char>,
        suggestions: &Vec<SuggestItem>,
        max_edit_distance: usize,
        comparer: &EditDistance,
    ) -> (r: Option<SuggestItem>)
        requires
            self.wf(),
            max_edit_distance <= self.spec_max_edit_distance(),
            max_edit_distance < usize::MAX,
            comparer.algorithm() == DistanceAlgorithm::DamaerauOSA,
            forall|k: int| 0 <= k < suggestions.len() ==> suggestion_ok(self.words(), term@, max_edit_distance, #[trigger] suggestions@[k]),
        ensures
            suggestions.len() > 0 ==> r is Some,
            r matches Some(item) ==> self.token_part_ok(max_edit_distance, seq![term@], item),
            r is None ==> self.split_fails(max_edit_distance, term@),
    {
        let mut best: Option<SuggestItem> = if suggestions.len() > 0 {
            Some(copy_item(&suggestions[0]))
        } else {
            None
        };
        proof {
            if suggestions.len() > 0 {
                assert(suggestion_ok(self.words(), term@, max_edit_distance, suggestions@[0]));
            }
        }
        let term_len = term.len();
        let mut j: usize = 1;
        while j < term_len
            invariant
                self.wf(),
                max_edit_distance <= self.spec_max_edit_distance(),
                max_edit_distance < usize::MAX,
                comparer.algorithm() == DistanceAlgorithm::DamaerauOSA,
                term_len == term.len(),
                1 <= j,
                suggestions.len() > 0 ==> best is Some,
                best matches Some(item) ==> self.token_part_ok(max_edit_distance, seq![term@], item),
                best is None ==> forall|j2: int|
                    1 <= j2 < j ==> self.unreachable(max_edit_distance, #[trigger] term@.subrange(0, j2))
                        || self.unreachable(max_edit_distance, term@.subrange(j2, term_len as int)),
            decreases term_len - j,
        {
            let part1 = slice_chars(term, 0, j);
            let part2 = slice_chars(term, j, term_len);
            let ghost jj = j as int;
            j = j + 1;
            let suggestions1 = self.lookup_chars(&part1, Verbosity::Top, max_edit_distance, false, false);
            if suggestions1.len() == 0 {
                proof {
                    Self::lemma_empty_unreachable(self, part1@, max_edit_distance, suggestions1@);
                }
                continue;
            }
            let suggestions2 = self.lookup_chars(&part2, Verbosity::Top, max_edit_distance, false, false);
            if suggestions2.len() == 0 {
                proof {
                    Self::lemma_empty_unreachable(self, part2@, max_edit_distance, suggestions2@);
                }
                continue;
            }
            let term1 = to_chars(suggestions1[0].term.as_str());
            let term2 = to_chars(suggestions2[0].term.as_str());
            let mut split_term = slice_chars(&term1, 0, term1.len());
            split_term.push(' ');
            let split_term = concat_chars(&split_term, &term2);
            proof {
                assert(suggestion_ok(self.words(), part1@, max_edit_distance, suggestions1@[0]));
                assert(suggestion_ok(self.words(), part2@, max_edit_distance, suggestions2@[0]));
                assert(split_term@ =~= term1@ + seq![' '] + term2@);
                assert(part1@ == term@.subrange(0, jj));
                assert(part2@ == term@.subrange(jj, term@.len() as int));
                assert(self.split_pair(max_edit_distance, term@, split_term@));
            }
            let distance2 = match comparer.distance_bounded_chars(term, &split_term, max_edit_distance) {
                Some(d) => d,
                None => max_edit_distance + 1,
            };
            let mut keep_best = true;
            match &best {
                Some(b) => {
                    if distance2 > b.distance {
                        continue;
                    }
                    if distance2 < b.distance {
                        keep_best = false;
                    }
                },
                None => {
                },
            }
            if !keep_best {
                best = None;
            }
            let known = self.bigram_count(&split_term);
            let count = match known {
                Some(bigram) => {
                    let mut c = bigram;
                    let term_compare = concat_chars(&term1, &term2);
                    if suggestions.len() > 0 {
                        let single = to_chars(suggestions[0].term.as_str());
                        if chars_eq(term, &term_compare) {
                            // the split only restores a space: rank it above the single word
                            if suggestions[0].count > c {
                                c = suggestions[0].count;
                            }
                        } else if chars_eq(&term1, &single) || chars_eq(&term2, &single) {
                            let above = if suggestions[0].count < usize::MAX {
                                suggestions[0].count + 1
                            } else {
                                usize::MAX
                            };
                            if above > c {
                                c = above;
                            }
                        }
                    } else if chars_eq(term, &term_compare) {
                        let c2 = if suggestions2[0].count < usize::MAX {
                            suggestions2[0].count + 1
                        } else {
                            usize::MAX
                        };
                        let m = if suggestions1[0].count > c2 {
                            suggestions1[0].count
                        } else {
                            c2
                        };
                        if m > c {
                            c = m;
                        }
                    }
                    c
                },
                None => {
                    // naive Bayes estimate, capped by the rarest bigram seen
                    let estimate = naive_bayes_exec(suggestions1[0].count, suggestions2[0].count);
                    let floor = self.bigram_count_min();
                    if floor < estimate {
                        floor
                    } else {
                        estimate
                    }
                },
            };
            let replace = match &best {
                Some(b) => count > b.count,
                None => true,
            };
            proof {
                match known {
                    Some(bigram) => {
                        assert(count >= bigram);
                    },
                    None => {
                    },
                }
            }
            if replace {
                best = Some(SuggestItem::new(from_chars(&split_term), distance2, count));
            }
        }
        best
    }

    /// A `Top` lookup that comes back empty leaves its query unreachable.
    pub proof fn lemma_empty_unreachable(&self, x: Seq<char>, max_edit_distance: usize, r: Seq<SuggestItem>)
        requires
            r.len() == 0,
            lookup_ok(self.words(), x, Verbosity::Top, max_edit_distance, false, false, r),
            forall|w: Seq<char>|
                #[trigger] self.near(x, max_edit_distance, false, w) && self.shares_delete(x, max_edit_distance, w)
                    ==> r.len() > 0,
        ensures
            self.unreachable(max_edit_distance, x),
    {
    }
}

} // verus!
