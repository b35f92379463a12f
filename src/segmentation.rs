use vstd::prelude::*;

use vstd::arithmetic::div_mod::{
    lemma_add_mod_noop, lemma_fundamental_div_mod, lemma_mod_bound, lemma_mod_self_0,
    lemma_mod_sub_multiples_vanish, lemma_small_mod,
};

use crate::compound::{capped, join_terms};
use crate::damerau_osa::osa_distance;
use crate::parse::{is_white_space, is_white_space_exec};
use crate::sym_spell::{lookup_ok, sat_add, saturating_add_usize, suggestion_ok, SymSpell};
use crate::text::{concat_chars, from_chars, slice_chars, to_chars};
use crate::verbosity::Verbosity;

verus! {

/// A log-probability scale for word segmentation. The library only adds and
/// compares such values; the caller decides how they are represented.
pub trait LogProbability: Sized {
    /// log10(count / N) for a dictionary word with this count.
    fn of_count(count: usize) -> Self;

    /// log10(10 / (N * 10^len)) for an unknown word of `len` graphemes.
    fn of_unknown(len: usize) -> Self;

    /// The log-probability of an empty segmentation.
    fn zero() -> Self;

    fn plus(&self, other: &Self) -> Self;

    fn less_than(&self, other: &Self) -> bool;

    fn duplicate(&self) -> Self;
}

/// A segmentation of a text: its words as they appear, the words once
/// corrected, the sum of edit distances, and the sum of log-probabilities.
pub struct Segmentation<S> {
    pub segmented_string: String,
    pub corrected_string: String,
    pub distance_sum: usize,
    pub probability_log_sum: S,
}

struct Composition<S> {
    segmented: Vec<char>,
    corrected: Vec<char>,
    distance_sum: usize,
    probability_log_sum: S,
    /// The parts this composition is made of.
    parts: Ghost<Seq<SegmentPart>>,
}

/// A part of a segmentation: the piece of text it covers, that piece without
/// a leading white space and without spaces, the word it reads as, and
/// whether a lookup found that word.
pub type SegmentPart = (Seq<char>, Seq<char>, Seq<char>, bool);

/// A piece without its leading white space, if any.
pub open spec fn stripped(piece: Seq<char>) -> Seq<char> {
    if piece.len() > 0 && is_white_space(piece[0]) {
        piece.drop_first()
    } else {
        piece
    }
}

/// The edits a part costs: the spaces taken out, the correction (or the
/// whole part when no word was found), and one inserted space before every
/// part but the first that does not start with white space.
pub open spec fn part_cost(p: SegmentPart, first: bool) -> nat {
    (stripped(p.0).len() - p.1.len()) as nat + (if p.3 {
        osa_distance(p.1, p.2)
    } else {
        p.1.len()
    }) + (if !first && !(p.0.len() > 0 && is_white_space(p.0[0])) {
        1nat
    } else {
        0nat
    })
}

pub open spec fn total_cost(ps: Seq<SegmentPart>) -> nat
    decreases ps.len(),
{
    if ps.len() == 0 {
        0
    } else {
        total_cost(ps.drop_last()) + part_cost(ps.last(), ps.len() == 1)
    }
}

pub open spec fn pieces(ps: Seq<SegmentPart>) -> Seq<char>
    decreases ps.len(),
{
    if ps.len() == 0 {
        Seq::empty()
    } else {
        pieces(ps.drop_last()) + ps.last().0
    }
}

pub open spec fn raw_words(ps: Seq<SegmentPart>) -> Seq<Seq<char>> {
    ps.map_values(|p: SegmentPart| p.1)
}

pub open spec fn read_words(ps: Seq<SegmentPart>) -> Seq<Seq<char>> {
    ps.map_values(|p: SegmentPart| p.2)
}

/// `min(a + b, usize::MAX)` of two capped sums is the capped sum.
proof fn lemma_capped_chain(t: nat, s: usize, r: nat)
    ensures
        sat_add(sat_add(capped(t), s), capped(r)) == capped((t + s + r) as nat),
{
}

proof fn lemma_parts_push(ps: Seq<SegmentPart>, p: SegmentPart)
    requires
        ps.len() > 0,
    ensures
        pieces(ps.push(p)) == pieces(ps) + p.0,
        join_terms(raw_words(ps.push(p))) == join_terms(raw_words(ps)) + seq![' '] + p.1,
        join_terms(read_words(ps.push(p))) == join_terms(read_words(ps)) + seq![' '] + p.2,
        total_cost(ps.push(p)) == total_cost(ps) + part_cost(p, false),
{
    let t = ps.push(p);
    assert(t.drop_last() =~= ps);
    assert(raw_words(t).drop_last() =~= raw_words(ps));
    assert(read_words(t).drop_last() =~= read_words(ps));
}

proof fn lemma_parts_single(p: SegmentPart)
    ensures
        pieces(seq![p]) == p.0,
        join_terms(raw_words(seq![p])) == p.1,
        join_terms(read_words(seq![p])) == p.2,
        total_cost(seq![p]) == part_cost(p, true),
{
    assert(seq![p].drop_last() =~= Seq::<SegmentPart>::empty());
    assert(pieces(Seq::<SegmentPart>::empty()) == Seq::<char>::empty());
    assert(total_cost(Seq::<SegmentPart>::empty()) == 0);
    assert(pieces(seq![p]) =~= p.0);
    assert(raw_words(seq![p]) =~= seq![p.1]);
    assert(read_words(seq![p]) =~= seq![p.2]);
}

/// The cost of a composition, capped.
pub open spec fn seg_cost(ps: Seq<SegmentPart>) -> usize {
    capped(total_cost(ps))
}

/// The composition the segmentation keeps for the text up to `e` once rows
/// `0..rows` are done. Row `r` reads `rd[r][i - 1]` for the part of `i`
/// graphemes starting at `r`, and `lt[r][i - 1]` for whether the caller's
/// log-probabilities ranked that extension above the kept composition. The
/// extension replaces what is kept when its part has the maximum length, when
/// it costs strictly less, or when it costs the same (or one space more) and
/// ranks higher.
pub open spec fn seg_state(
    n: int,
    msl: int,
    rd: Seq<Seq<SegmentPart>>,
    lt: Seq<Seq<bool>>,
    e: int,
    rows: nat,
) -> Seq<SegmentPart>
    decreases rows,
{
    if rows == 0 {
        Seq::empty()
    } else if rows == 1 {
        if 1 <= e <= msl && e <= n {
            seq![rd[0][e - 1]]
        } else {
            Seq::empty()
        }
    } else {
        let r = rows - 1;
        let prev = seg_state(n, msl, rd, lt, e, (rows - 1) as nat);
        let i = e - r;
        if 1 <= i <= msl && e <= n {
            let c = seg_state(n, msl, rd, lt, r, (rows - 1) as nat);
            let p = rd[r][i - 1];
            let ext = c.push(p);
            let d = seg_cost(prev);
            let tight = sat_add(seg_cost(c), capped(part_cost(p, true)));
            let extended = seg_cost(ext);
            if i == msl || ((tight == d || extended == d) && lt[r][i - 1]) || extended < d {
                ext
            } else {
                prev
            }
        } else {
            prev
        }
    }
}

/// The state after `rows` rows reads only rows below `rows`.
pub proof fn lemma_seg_state_congruent(
    n: int,
    msl: int,
    rd1: Seq<Seq<SegmentPart>>,
    lt1: Seq<Seq<bool>>,
    rd2: Seq<Seq<SegmentPart>>,
    lt2: Seq<Seq<bool>>,
    e: int,
    rows: nat,
)
    requires
        rd1.len() >= rows,
        rd2.len() >= rows,
        lt1.len() >= rows,
        lt2.len() >= rows,
        forall|r: int| 0 <= r < rows ==> rd1[r] == rd2[r] && lt1[r] == lt2[r],
    ensures
        seg_state(n, msl, rd1, lt1, e, rows) == seg_state(n, msl, rd2, lt2, e, rows),
    decreases rows,
{
    if rows >= 2 {
        lemma_seg_state_congruent(n, msl, rd1, lt1, rd2, lt2, e, (rows - 1) as nat);
        lemma_seg_state_congruent(n, msl, rd1, lt1, rd2, lt2, rows - 1, (rows - 1) as nat);
    }
}

/// Row `r`, once the entries it reads agree, leaves the same state.
pub proof fn lemma_seg_state_row(
    n: int,
    msl: int,
    rd1: Seq<Seq<SegmentPart>>,
    lt1: Seq<Seq<bool>>,
    rd2: Seq<Seq<SegmentPart>>,
    lt2: Seq<Seq<bool>>,
    e: int,
    r: nat,
)
    requires
        rd1.len() > r,
        rd2.len() > r,
        lt1.len() > r,
        lt2.len() > r,
        forall|k: int| 0 <= k < r ==> rd1[k] == rd2[k] && lt1[k] == lt2[k],
        1 <= e - r <= msl && e <= n ==> rd1[r as int][e - r - 1] == rd2[r as int][e - r - 1] && lt1[r as int][e - r - 1]
            == lt2[r as int][e - r - 1],
    ensures
        seg_state(n, msl, rd1, lt1, e, r + 1) == seg_state(n, msl, rd2, lt2, e, r + 1),
{
    if r >= 1 {
        lemma_seg_state_congruent(n, msl, rd1, lt1, rd2, lt2, e, r);
        lemma_seg_state_congruent(n, msl, rd1, lt1, rd2, lt2, r as int, r);
    }
}

/// `text` without its `' '` graphemes.
pub open spec fn without_spaces(s: Seq<char>) -> Seq<char>
    decreases s.len(),
{
    if s.len() == 0 {
        s
    } else if s.last() == ' ' {
        without_spaces(s.drop_last())
    } else {
        without_spaces(s.drop_last()).push(s.last())
    }
}

pub fn remove_spaces(s: &Vec<char>) -> (r: Vec<char>)
    ensures
        r@ == without_spaces(s@),
        r.len() <= s.len(),
{
    let mut out: Vec<char> = Vec::new();
    let mut i: usize = 0;
    while i < s.len()
        invariant
            i <= s.len(),
            out@ == without_spaces(s@.subrange(0, i as int)),
            out.len() <= i,
        decreases s.len() - i,
    {
        let ghost pre = s@.subrange(0, i + 1);
        assert(pre.drop_last() =~= s@.subrange(0, i as int));
        if s[i] != ' ' {
            out.push(s[i]);
        }
        i = i + 1;
    }
    assert(s@.subrange(0, s.len() as int) =~= s@);
    out
}

/// Ends `x < y` closer than `c` fall into different slots.
proof fn lemma_slots_differ(x: int, y: int, c: int)
    requires
        0 <= x < y < x + c,
    ensures
        x % c != y % c,
{
    lemma_fundamental_div_mod(x, c);
    lemma_fundamental_div_mod(y, c);
    lemma_mod_bound(x, c);
    lemma_mod_bound(y, c);
    if x % c == y % c {
        assert(c * (y / c) - c * (x / c) == y - x);
        assert(c * (y / c - x / c) == y - x) by (nonlinear_arith)
            requires
                c * (y / c) - c * (x / c) == y - x,
        ;
        assert(false) by (nonlinear_arith)
            requires
                c * (y / c - x / c) == y - x,
                0 < y - x < c,
        ;
    }
}

/// The ring slot computed from the slot of the current start.
proof fn lemma_slot_step(i: int, j: int, c: int, ci: int)
    requires
        1 <= i,
        1 <= j,
        c > 0,
        ci == (j - 1) % c,
    ensures
        (if i % c < c - ci { i % c + ci } else { i % c - (c - ci) }) == (i + j - 1) % c,
        (if ci + 1 == c { 0 } else { ci + 1 }) == j % c,
{
    lemma_mod_bound(i, c);
    lemma_mod_bound(j - 1, c);
    lemma_add_mod_noop(i, j - 1, c);
    lemma_add_mod_noop(j - 1, 1, c);
    lemma_mod_bound(j, c);
    if c > 1 {
        lemma_small_mod(1, c as nat);
    }
    let a = i % c;
    if a + ci < c {
        lemma_small_mod((a + ci) as nat, c as nat);
    } else {
        lemma_mod_sub_multiples_vanish(a + ci, c);
        lemma_small_mod((a + ci - c) as nat, c as nat);
    }
    if ci + 1 < c {
        lemma_small_mod((ci + 1) as nat, c as nat);
    } else {
        lemma_mod_self_0(c);
    }
}

/// `a`, a space, then `b`.
fn join_with_space(a: &Vec<char>, b: &Vec<char>) -> (r: Vec<char>)
    ensures
        r@ == a@ + seq![' '] + b@,
{
    let mut left = slice_chars(a, 0, a.len());
    left.push(' ');
    let r = concat_chars(&left, b);
    assert(r@ =~= a@ + seq![' '] + b@);
    r
}

/// Slot `(e - 1) % capacity` holds a segmentation of `text[..e]`, for every
/// end `e` of the window.
spec fn window_ok<S>(
    engine: &SymSpell,
    max_edit_distance: usize,
    msl: int,
    slots: Seq<Composition<S>>,
    text: Seq<char>,
    capacity: int,
    lo: int,
    hi: int,
    rd: Seq<Seq<SegmentPart>>,
    lt: Seq<Seq<bool>>,
    rows: nat,
) -> bool {
    forall|e: int|
        1 <= e && lo <= e <= hi && e <= text.len() ==> slot_ok(
            engine,
            max_edit_distance,
            msl,
            text,
            e,
            #[trigger] slots[(e - 1) % capacity],
        ) && slots[(e - 1) % capacity].parts@ == seg_state(text.len() as int, msl, rd, lt, e, rows)
}

spec fn slot_ok<S>(engine: &SymSpell, max_edit_distance: usize, msl: int, text: Seq<char>, e: int, c: Composition<S>) -> bool {
    engine.segmentation_ok(
        max_edit_distance,
        msl,
        text.subrange(0, e),
        c.parts@,
        c.segmented@,
        c.corrected@,
        c.distance_sum,
    )
}

/// One part tried: the windows of the row stay described by the row state.
proof fn lemma_windows_after_step<S>(
    engine: &SymSpell,
    med: usize,
    msl: int,
    text: Seq<char>,
    capacity: int,
    before: Seq<Composition<S>>,
    after: Seq<Composition<S>>,
    rd_b: Seq<Seq<SegmentPart>>,
    lt_b: Seq<Seq<bool>>,
    rd: Seq<Seq<SegmentPart>>,
    lt: Seq<Seq<bool>>,
    j: int,
    i: int,
    started: bool,
)
    requires
        0 < capacity <= text.len(),
        capacity <= msl,
        capacity == msl || capacity == text.len(),
        before.len() == capacity,
        after.len() == capacity,
        0 <= j,
        1 <= i <= msl,
        j + i <= text.len(),
        started == (j > 0),
        forall|k: int| 0 <= k < capacity && k != (j + i - 1) % capacity ==> after[k] == before[k],
        rd_b.len() == j + 1,
        lt_b.len() == j + 1,
        rd.len() == j + 1,
        lt.len() == j + 1,
        forall|r: int| 0 <= r < j ==> rd[r] == rd_b[r] && lt[r] == lt_b[r],
        rd_b[j].len() == i - 1,
        lt_b[j].len() == i - 1,
        rd[j].len() == i,
        lt[j].len() == i,
        forall|k: int| 0 <= k < i - 1 ==> rd[j][k] == rd_b[j][k] && lt[j][k] == lt_b[j][k],
        slot_ok(engine, med, msl, text, j + i, after[(j + i - 1) % capacity]),
        after[(j + i - 1) % capacity].parts@ == seg_state(text.len() as int, msl, rd, lt, j + i, (j + 1) as nat),
        window_ok(engine, med, msl, before, text, capacity, j + 1, j + i - 1, rd_b, lt_b, (j + 1) as nat),
        started ==> window_ok(engine, med, msl, before, text, capacity, j + i, j + msl - 1, rd_b, lt_b, j as nat),
        started && i - 1 < msl ==> window_ok(engine, med, msl, before, text, capacity, j, j, rd_b, lt_b, j as nat),
    ensures
        window_ok(engine, med, msl, after, text, capacity, j + 1, j + i, rd, lt, (j + 1) as nat),
        started ==> window_ok(engine, med, msl, after, text, capacity, j + i + 1, j + msl - 1, rd, lt, j as nat),
        started && i < msl ==> window_ok(engine, med, msl, after, text, capacity, j, j, rd, lt, j as nat),
{
    let e0 = j + i;
    let n = text.len() as int;
    assert forall|e: int|
        1 <= e && j + 1 <= e <= j + i && e <= text.len() implies slot_ok(engine, med, msl, text, e, #[trigger] after[(e - 1) % capacity])
            && after[(e - 1) % capacity].parts@ == seg_state(n, msl, rd, lt, e, (j + 1) as nat) by {
        if e != e0 {
            lemma_slots_differ(e - 1, e0 - 1, capacity);
            lemma_mod_bound(e - 1, capacity);
            assert(after[(e - 1) % capacity] == before[(e - 1) % capacity]);
            lemma_seg_state_row(n, msl, rd, lt, rd_b, lt_b, e, j as nat);
        }
    }
    if started {
        assert forall|e: int|
            1 <= e && j + i + 1 <= e <= j + msl - 1 && e <= text.len() implies slot_ok(engine, med, msl, text, e, #[trigger] after[(e - 1) % capacity])
                && after[(e - 1) % capacity].parts@ == seg_state(n, msl, rd, lt, e, j as nat) by {
            lemma_slots_differ(e0 - 1, e - 1, capacity);
            lemma_mod_bound(e - 1, capacity);
            assert(after[(e - 1) % capacity] == before[(e - 1) % capacity]);
            lemma_seg_state_congruent(n, msl, rd, lt, rd_b, lt_b, e, j as nat);
        }
    }
    if started && i < msl {
        assert forall|e: int|
            1 <= e && j <= e <= j && e <= text.len() implies slot_ok(engine, med, msl, text, e, #[trigger] after[(e - 1) % capacity])
                && after[(e - 1) % capacity].parts@ == seg_state(n, msl, rd, lt, e, j as nat) by {
            lemma_slots_differ(e - 1, e0 - 1, capacity);
            lemma_mod_bound(e - 1, capacity);
            assert(after[(e - 1) % capacity] == before[(e - 1) % capacity]);
            lemma_seg_state_congruent(n, msl, rd, lt, rd_b, lt_b, e, j as nat);
        }
    }
}

impl SymSpell {
    /// The longest part a segmentation tries: the given limit, else the
    /// longest indexed word.
    pub open spec fn segment_limit(&self, max_segmentation_word_len_opt: Option<usize>) -> usize {
        match max_segmentation_word_len_opt {
            Some(m) => m,
            None => self.spec_max_length(),
        }
    }

    /// `segmented`, `corrected` and `distance_sum` are the composition the
    /// segmentation rule keeps for the whole of `text` (see [`seg_state`]),
    /// for some well-formed reading of each part tried and some ranking of
    /// the extensions by log-probability.
    pub open spec fn chosen_segmentation(
        &self,
        max_edit_distance: usize,
        msl: int,
        text: Seq<char>,
        segmented: Seq<char>,
        corrected: Seq<char>,
        distance_sum: usize,
    ) -> bool {
        exists|rd: Seq<Seq<SegmentPart>>, lt: Seq<Seq<bool>>|
            #![trigger seg_state(text.len() as int, msl, rd, lt, text.len() as int, text.len() as nat)]
            self.readings_ok(max_edit_distance, msl, text, rd) && rd.len() == text.len() && self.segmentation_ok(
                max_edit_distance,
                msl,
                text,
                seg_state(text.len() as int, msl, rd, lt, text.len() as int, text.len() as nat),
                segmented,
                corrected,
                distance_sum,
            )
    }

    /// Every reading recorded for row `r` and length `i + 1` covers
    /// `text[r..r + i + 1]` and is a well-formed part.
    pub open spec fn readings_ok(&self, max_edit_distance: usize, max_len: int, text: Seq<char>, rd: Seq<Seq<SegmentPart>>) -> bool {
        forall|r: int, i: int|
            0 <= r < rd.len() && 0 <= i < rd[r].len() ==> (#[trigger] rd[r][i]).0 == text.subrange(r, r + i + 1)
                && self.segment_part_ok(max_edit_distance, max_len, rd[r][i])
    }

    /// A well-formed part: its word is a dictionary word within
    /// `max_edit_distance` when a lookup found one, else the part itself,
    /// which no lookup can correct.
    pub open spec fn segment_part_ok(&self, max_edit_distance: usize, max_len: int, p: SegmentPart) -> bool {
        &&& 0 < p.0.len() <= max_len
        &&& p.1 == without_spaces(stripped(p.0))
        &&& p.3 ==> self.words().contains_key(p.2) && osa_distance(p.1, p.2) <= max_edit_distance
        &&& !p.3 ==> p.2 == p.1 && self.unreachable(max_edit_distance, p.1)
    }

    /// `segmented` and `corrected` are the parts `ps` of `text`, joined by
    /// single spaces, and `distance_sum` is their total cost, capped.
    pub open spec fn segmentation_ok(
        &self,
        max_edit_distance: usize,
        max_len: int,
        text: Seq<char>,
        ps: Seq<SegmentPart>,
        segmented: Seq<char>,
        corrected: Seq<char>,
        distance_sum: usize,
    ) -> bool {
        &&& ps.len() > 0
        &&& pieces(ps) == text
        &&& segmented == join_terms(raw_words(ps))
        &&& corrected == join_terms(read_words(ps))
        &&& distance_sum == capped(total_cost(ps))
        &&& forall|k: int| 0 <= k < ps.len() ==> self.segment_part_ok(max_edit_distance, max_len, #[trigger] ps[k])
    }

    /// Splits a text written without (or with unreliable) spaces into the
    /// most probable sequence of words, correcting each within
    /// `max_edit_distance`. Parts are at most `max_segmentation_word_len_opt`
    /// graphemes long, by default the longest indexed word. A text without
    /// white space comes back whole: its segmentation, spaces removed, is the text.
    #[verifier::rlimit(100)]
    #[verifier::spinoff_prover]
    pub fn word_segmentation<S: LogProbability>(
        &self,
        input: &str,
        max_edit_distance: usize,
        max_segmentation_word_len_opt: Option<usize>,
    ) -> (r: Segmentation<S>)
        requires
            self.wf(),
            max_edit_distance <= self.spec_max_edit_distance(),
            max_edit_distance < usize::MAX,
        ensures
            (input@.len() == 0 || self.segment_limit(max_segmentation_word_len_opt) == 0) ==> r.segmented_string@.len()
                == 0 && r.corrected_string@.len() == 0 && r.distance_sum == 0,
            (input@.len() > 0 && self.segment_limit(max_segmentation_word_len_opt) > 0) ==> self.chosen_segmentation(
                max_edit_distance,
                self.segment_limit(max_segmentation_word_len_opt) as int,
                input@,
                r.segmented_string@,
                r.corrected_string@,
                r.distance_sum,
            ),
    {
        let text = to_chars(input);
        let max_segmentation_word_len = match max_segmentation_word_len_opt {
            Some(m) => m,
            None => self.max_length(),
        };
        let input_len = text.len();
        let capacity = if max_segmentation_word_len < input_len {
            max_segmentation_word_len
        } else {
            input_len
        };
        if capacity == 0 {
            return Segmentation {
                segmented_string: String::new(),
                corrected_string: String::new(),
                distance_sum: 0,
                probability_log_sum: S::zero(),
            };
        }
        let mut compositions: Vec<Composition<S>> = Vec::new();
        let mut k: usize = 0;
        while k < capacity
            invariant
                k <= capacity,
                compositions.len() == k,
            decreases capacity - k,
        {
            let no_parts: Ghost<Seq<SegmentPart>> = Ghost(Seq::empty());
            compositions.push(
                Composition {
                    segmented: Vec::new(),
                    corrected: Vec::new(),
                    distance_sum: 0,
                    probability_log_sum: S::zero(),
                    parts: no_parts,
                },
            );
            k = k + 1;
        }
        // the readings of every part tried, and how the caller ranked each extension
        let ghost mut rd: Seq<Seq<SegmentPart>> = Seq::empty();
        let ghost mut lt: Seq<Seq<bool>> = Seq::empty();
        // the slot of the composition ending just before `j`; none before the first row
        let mut circular_index: usize = 0;
        let mut started = false;
        let mut j: usize = 0;
        while j < input_len
            invariant
                self.wf(),
                max_edit_distance <= self.spec_max_edit_distance(),
                max_edit_distance < usize::MAX,
                input_len == text.len(),
                text@ == input@,
                0 < capacity <= input_len,
                capacity <= max_segmentation_word_len,
                capacity == max_segmentation_word_len || capacity == input_len,
                compositions.len() == capacity,
                circular_index < capacity,
                j <= input_len,
                started == (j > 0),
                started ==> circular_index == (j - 1) % (capacity as int),
                rd.len() == j,
                lt.len() == j,
                self.readings_ok(max_edit_distance, max_segmentation_word_len as int, text@, rd),
                started ==> window_ok(
                    self,
                    max_edit_distance,
                    max_segmentation_word_len as int,
                    compositions@,
                    text@,
                    capacity as int,
                    j as int,
                    j + max_segmentation_word_len - 1,
                    rd,
                    lt,
                    j as nat,
                ),
            decreases input_len - j,
        {
            let imax = if input_len - j < max_segmentation_word_len {
                input_len - j
            } else {
                max_segmentation_word_len
            };
            let ghost rd0 = rd;
            let ghost lt0 = lt;
            proof {
                rd = rd.push(Seq::empty());
                lt = lt.push(Seq::empty());
                if started {
                    assert forall|e: int|
                        1 <= e && j as int <= e <= j + max_segmentation_word_len - 1 && e <= text@.len() implies slot_ok(
                            self,
                            max_edit_distance,
                            max_segmentation_word_len as int,
                            text@,
                            e,
                            #[trigger] compositions@[(e - 1) % (capacity as int)],
                        ) && compositions@[(e - 1) % (capacity as int)].parts@ == seg_state(input_len as int, max_segmentation_word_len as int, rd, lt, e, j as nat) by {
                        lemma_seg_state_congruent(input_len as int, max_segmentation_word_len as int, rd, lt, rd0, lt0, e, j as nat);
                    }
                }
            }
            let mut ii: usize = 0;
            while ii < imax
                invariant
                    self.wf(),
                    max_edit_distance <= self.spec_max_edit_distance(),
                    max_edit_distance < usize::MAX,
                    input_len == text.len(),
                    0 < capacity <= input_len,
                    capacity <= max_segmentation_word_len,
                    capacity == max_segmentation_word_len || capacity == input_len,
                    compositions.len() == capacity,
                    circular_index < capacity,
                    j < input_len,
                    started == (j > 0),
                    started ==> circular_index == (j - 1) % (capacity as int),
                    imax <= input_len - j,
                    imax <= max_segmentation_word_len,
                    imax == input_len - j || imax == max_segmentation_word_len,
                    ii <= imax,
                    rd.len() == j + 1,
                    lt.len() == j + 1,
                    rd[j as int].len() == ii,
                    lt[j as int].len() == ii,
                    forall|r: int| 0 <= r < j ==> rd[r] == rd0[r] && lt[r] == lt0[r],
                    rd0.len() == j,
                    lt0.len() == j,
                    self.readings_ok(max_edit_distance, max_segmentation_word_len as int, text@, rd),
                    window_ok(
                        self,
                        max_edit_distance,
                        max_segmentation_word_len as int,
                        compositions@,
                        text@,
                        capacity as int,
                        j + 1,
                        j + ii,
                        rd,
                        lt,
                        (j + 1) as nat,
                    ),
                    started ==> window_ok(
                        self,
                        max_edit_distance,
                        max_segmentation_word_len as int,
                        compositions@,
                        text@,
                        capacity as int,
                        j + ii + 1,
                        j + max_segmentation_word_len - 1,
                        rd,
                        lt,
                        j as nat,
                    ),
                    started && ii < max_segmentation_word_len ==> window_ok(
                        self,
                        max_edit_distance,
                        max_segmentation_word_len as int,
                        compositions@,
                        text@,
                        capacity as int,
                        j as int,
                        j as int,
                        rd,
                        lt,
                        j as nat,
                    ),
                decreases imax - ii,
            {
                let i = ii + 1;
                let mut part = slice_chars(&text, j, j + i);
                let ghost whole = part@;
                let mut separator_len: usize = 0;
                // a part that starts with white space needs no space inserted before it
                if is_white_space_exec(part[0]) {
                    part = slice_chars(&part, 1, part.len());
                } else {
                    separator_len = 1;
                }
                let with_spaces = part.len();
                part = remove_spaces(&part);
                assert(whole.len() > 0);
                assert(part@ == without_spaces(stripped(whole))) by {
                    if is_white_space(whole[0]) {
                        assert(whole.drop_first() =~= whole.subrange(1, whole.len() as int));
                    }
                }
                let mut top_edit_distance: usize = with_spaces - part.len();
                let results = self.lookup_chars(&part, Verbosity::Top, max_edit_distance, false, false);
                let top_result: Vec<char>;
                let top_probability_log: S;
                let ghost removed = top_edit_distance;
                let found = results.len() > 0;
                if found {
                    top_result = to_chars(results[0].term.as_str());
                    assert(suggestion_ok(self.words(), part@, max_edit_distance, results@[0]));
                    assert(top_result@ == results@[0].term@);
                    assert(self.words().contains_key(top_result@) && osa_distance(part@, top_result@) <= max_edit_distance);
                    top_edit_distance = saturating_add_usize(top_edit_distance, results[0].distance);
                    top_probability_log = S::of_count(results[0].count);
                } else {
                    proof {
                        self.lemma_empty_unreachable(part@, max_edit_distance, results@);
                    }
                    assert(self.unreachable(max_edit_distance, part@));
                    // an unknown part is charged its length: otherwise a long
                    // unknown part would cost nothing and beat a split into words
                    top_result = slice_chars(&part, 0, part.len());
                    top_edit_distance = saturating_add_usize(top_edit_distance, part.len());
                    top_probability_log = S::of_unknown(part.len());
                    assert(top_result@ == part@);
                }
                let destination_index = if started {
                    let a = i % capacity;
                    if a < capacity - circular_index {
                        a + circular_index
                    } else {
                        a - (capacity - circular_index)
                    }
                } else {
                    (i - 1) % capacity
                };
                let ghost e0 = j + i;
                let ghost np: SegmentPart = (whole, part@, top_result@, found);
                proof {
                    assert(whole == text@.subrange(j as int, j + i));
                    assert(self.segment_part_ok(max_edit_distance, max_segmentation_word_len as int, np));
                    assert(removed == stripped(whole).len() - part@.len());
                    assert(top_edit_distance == capped(part_cost(np, true)));
                    assert(separator_len == (if !(whole.len() > 0 && is_white_space(whole[0])) { 1usize } else { 0usize }));
                    if started {
                        lemma_slot_step(i as int, j as int, capacity as int, circular_index as int);
                    }
                    assert(destination_index == (e0 - 1) % (capacity as int));
                }
                let ghost before = compositions@;
                let ghost rd_before = rd;
                let ghost lt_before = lt;
                let mut ranked = false;
                if !started {
                    let single: Ghost<Seq<SegmentPart>> = Ghost(Seq::empty().push(np));
                    compositions.set(
                        destination_index,
                        Composition {
                            segmented: part,
                            corrected: top_result,
                            distance_sum: top_edit_distance,
                            probability_log_sum: top_probability_log,
                            parts: single,
                        },
                    );
                    proof {
                        assert(text@.subrange(0, e0) =~= whole);
                        lemma_parts_single(np);
                        assert(slot_ok(self, max_edit_distance, max_segmentation_word_len as int, text@, e0, compositions@[destination_index as int]));
                    }
                } else {
                    let current = &compositions[circular_index];
                    let destination = &compositions[destination_index];
                    let extended_sum = saturating_add_usize(
                        saturating_add_usize(current.distance_sum, separator_len),
                        top_edit_distance,
                    );
                    let tight_sum = saturating_add_usize(current.distance_sum, top_edit_distance);
                    let extended_probability = current.probability_log_sum.plus(&top_probability_log);
                    ranked = destination.probability_log_sum.less_than(&extended_probability);
                    let ghost cur = before[circular_index as int];
                    proof {
                        assert(circular_index == (j - 1) % (capacity as int));
                        assert(slot_ok(self, max_edit_distance, max_segmentation_word_len as int, text@, j as int, cur));
                        lemma_parts_push(cur.parts@, np);
                        lemma_capped_chain(total_cost(cur.parts@), separator_len, (part_cost(np, true)));
                        assert(extended_sum == seg_cost(cur.parts@.push(np)));
                        assert(tight_sum == sat_add(seg_cost(cur.parts@), capped(part_cost(np, true))));
                    }
                    if i == max_segmentation_word_len || ((tight_sum == destination.distance_sum
                        || extended_sum == destination.distance_sum) && ranked)
                        || extended_sum < destination.distance_sum {
                        let segmented = join_with_space(&current.segmented, &part);
                        let corrected = join_with_space(&current.corrected, &top_result);
                        let ghost new_parts = cur.parts@.push(np);
                        proof {
                            assert(text@.subrange(0, j as int) + whole =~= text@.subrange(0, e0));
                            assert forall|k: int| 0 <= k < new_parts.len() implies self.segment_part_ok(max_edit_distance, max_segmentation_word_len as int, #[trigger] new_parts[k]) by {
                                if k < cur.parts@.len() {
                                    assert(new_parts[k] == cur.parts@[k]);
                                }
                            }
                        }
                        let extended: Ghost<Seq<SegmentPart>> = Ghost(new_parts);
                        compositions.set(
                            destination_index,
                            Composition {
                                segmented,
                                corrected,
                                distance_sum: extended_sum,
                                probability_log_sum: extended_probability,
                                parts: extended,
                            },
                        );
                        proof {
                            assert(slot_ok(self, max_edit_distance, max_segmentation_word_len as int, text@, e0, compositions@[destination_index as int]));
                        }
                    }
                }
                proof {
                    rd = rd.update(j as int, rd[j as int].push(np));
                    lt = lt.update(j as int, lt[j as int].push(ranked));
                    assert(rd[j as int][ii as int] == np);
                    assert forall|r: int, k: int| 0 <= r < rd.len() && 0 <= k < rd[r].len() implies (#[trigger] rd[r][k]).0
                        == text@.subrange(r, r + k + 1) && self.segment_part_ok(max_edit_distance, max_segmentation_word_len as int, rd[r][k]) by {
                        if r == j && k == ii {
                        } else {
                            assert(rd[r][k] == rd_before[r][k]);
                        }
                    }
                    // the new state of the extended slot
                    if started {
                        lemma_seg_state_congruent(input_len as int, max_segmentation_word_len as int, rd, lt, rd_before, lt_before, e0, j as nat);
                        lemma_seg_state_congruent(input_len as int, max_segmentation_word_len as int, rd, lt, rd_before, lt_before, j as int, j as nat);
                        assert(lt[j as int][i - 1] == ranked);
                        assert(rd[j as int][i - 1] == np);
                        if i < max_segmentation_word_len {
                            assert(before[(e0 - 1) % (capacity as int)].parts@ == seg_state(input_len as int, max_segmentation_word_len as int, rd_before, lt_before, e0, j as nat));
                        }
                        assert(before[(j - 1) % (capacity as int)].parts@ == seg_state(input_len as int, max_segmentation_word_len as int, rd_before, lt_before, j as int, j as nat));
                        assert(compositions@[(e0 - 1) % (capacity as int)].parts@ == seg_state(input_len as int, max_segmentation_word_len as int, rd, lt, e0, (j + 1) as nat));
                    } else {
                        assert(compositions@[(e0 - 1) % (capacity as int)].parts@ == seg_state(input_len as int, max_segmentation_word_len as int, rd, lt, e0, (j + 1) as nat));
                    }
                    lemma_windows_after_step(
                        self,
                        max_edit_distance,
                        max_segmentation_word_len as int,
                        text@,
                        capacity as int,
                        before,
                        compositions@,
                        rd_before,
                        lt_before,
                        rd,
                        lt,
                        j as int,
                        i as int,
                        started,
                    );
                }
                ii = ii + 1;
            }
            let ghost old_ci = circular_index;
            if started {
                circular_index = circular_index + 1;
                if circular_index == capacity {
                    circular_index = 0;
                }
                proof {
                    lemma_slot_step(1, j as int, capacity as int, old_ci as int);
                }
            } else {
                circular_index = 0;
                started = true;
                proof {
                    lemma_small_mod(0, capacity as nat);
                }
            }
            proof {
                assert forall|e: int|
                    1 <= e && j + 1 <= e <= j + 1 + max_segmentation_word_len - 1 && e <= text@.len() implies slot_ok(
                        self,
                        max_edit_distance,
                        max_segmentation_word_len as int,
                        text@,
                        e,
                        #[trigger] compositions@[(e - 1) % (capacity as int)],
                    ) && compositions@[(e - 1) % (capacity as int)].parts@ == seg_state(input_len as int, max_segmentation_word_len as int, rd, lt, e, (j + 1) as nat) by {
                    assert(e <= j + imax);
                }
            }
            j = j + 1;
        }
        proof {
            assert(slot_ok(self, max_edit_distance, max_segmentation_word_len as int, text@, input_len as int, compositions@[(input_len - 1) % (capacity as int)]));
            assert(text@.subrange(0, input_len as int) =~= text@);
        }
        let best = &compositions[circular_index];
        let segmented_string = from_chars(&best.segmented);
        let corrected_string = from_chars(&best.corrected);
        let ghost ps = best.parts@;
        let r = Segmentation {
            segmented_string,
            corrected_string,
            distance_sum: best.distance_sum,
            probability_log_sum: best.probability_log_sum.duplicate(),
        };
        proof {
            assert(self.segment_limit(max_segmentation_word_len_opt) == max_segmentation_word_len);
            assert(input@.len() == input_len);
            assert(ps == seg_state(input_len as int, max_segmentation_word_len as int, rd, lt, input_len as int, input_len as nat));
            assert(self.segmentation_ok(max_edit_distance, max_segmentation_word_len as int, input@, ps, r.segmented_string@, r.corrected_string@, r.distance_sum));
            assert(self.readings_ok(max_edit_distance, max_segmentation_word_len as int, input@, rd));
            assert(self.chosen_segmentation(
                max_edit_distance,
                max_segmentation_word_len as int,
                input@,
                r.segmented_string@,
                r.corrected_string@,
                r.distance_sum,
            ));
        }
        r
    }
}

} // verus!
