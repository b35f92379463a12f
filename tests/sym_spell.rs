use symspell::segmentation::LogProbability;
use symspell::sym_spell::SymSpell;
use symspell::verbosity::Verbosity;

const N: f64 = 1024908267229.0;

struct Log10(f64);

impl LogProbability for Log10 {
    fn of_count(count: usize) -> Self {
        Log10((count as f64 / N).log10())
    }
    fn of_unknown(len: usize) -> Self {
        Log10((10.0 / (N * 10.0f64.powf(len as f64))).log10())
    }
    fn zero() -> Self {
        Log10(0.0)
    }
    fn plus(&self, other: &Self) -> Self {
        Log10(self.0 + other.0)
    }
    fn less_than(&self, other: &Self) -> bool {
        self.0 < other.0
    }
    fn duplicate(&self) -> Self {
        Log10(self.0)
    }
}

fn engine(lines: &[&str]) -> SymSpell {
    let mut s = SymSpell::new(Some(2), Some(7), None);
    for line in lines {
        s.write_line_to_dictionary(line, " ");
    }
    s
}

const DICTIONARY: &[&str] = &[
    "the 23135851162",
    "quick 70236443",
    "brown 49862442",
    "fox 14575366",
    "misspelled 1306521",
    "dispelled 140658",
    "misspelt 33436",
    "spelled 3434543",
    "mispelled 17",
    "beginning 56125633",
    "sentences 7284612",
    "with 1590426304",
    "words 98917398",
    "is 4705743816",
    "outrageous 2157829",
    "and 12997637966",
    "mischievous 1063633",
];

#[test]
fn parse_words_test() {
    let text = "this is a - test, (does it work)?";
    let words = SymSpell::parse_words(text);
    assert_eq!(words.len(), 7)
}

#[test]
fn parse_words_keeps_letters_only() {
    let words = SymSpell::parse_words("it's 2 late_night, café!");
    assert_eq!(words, vec!["it", "s", "late_night", "café"]);
}

#[test]
fn defaults_and_getters() {
    let s = SymSpell::new(None, None, None);
    assert_eq!(s.max_edit_distance(), 2);
    assert_eq!(s.prefix_length(), 7);
    assert_eq!(s.count_threshold(), 1);
    assert_eq!(s.max_length(), 0);
    assert_eq!(s.word_count(), 0);
    assert_eq!(s.entry_count(), 0);
    assert_eq!(s.bigram_count_min(), usize::MAX);
}

#[test]
fn indexed_word_finds_itself() {
    let s = engine(DICTIONARY);
    for verbosity in [Verbosity::Top, Verbosity::Closest] {
        let r = s.lookup("quick", verbosity, 2, false, false);
        assert_eq!(r.len(), 1);
        assert_eq!(r[0].term, "quick");
        assert_eq!(r[0].distance, 0);
        assert_eq!(r[0].count, 70236443);
    }
    let r = s.lookup("quick", Verbosity::All, 2, false, true);
    assert_eq!(r[0].term, "quick");
    assert_eq!(r[0].distance, 0);
    let r = s.lookup("quick", Verbosity::All, 0, false, true);
    assert_eq!(r.len(), 1);
}

#[test]
fn top_keeps_one_closest_keeps_one_distance() {
    let s = engine(DICTIONARY);
    let top = s.lookup("mispelle", Verbosity::Top, 2, false, false);
    assert_eq!(top.len(), 1);
    assert_eq!(top[0].term, "mispelled");
    assert_eq!(top[0].distance, 1);
    let closest = s.lookup("mispelle", Verbosity::Closest, 2, false, false);
    assert_eq!(closest.len(), 1);
    let all = s.lookup("mispelle", Verbosity::All, 2, false, false);
    assert!(all.len() >= 3);
    assert_eq!(all[0].term, "mispelled");
    assert_eq!(all[1].term, "misspelled");
    assert_eq!(all[1].distance, 2);
}

#[test]
fn suggestions_are_ranked() {
    let s = engine(&["abcd 5", "abce 9", "abcf 7", "abxy 100", "abcdz 50"]);
    let r = s.lookup("abcq", Verbosity::All, 2, false, false);
    let terms: Vec<&str> = r.iter().map(|x| x.term.as_str()).collect();
    assert_eq!(terms, vec!["abce", "abcf", "abcd", "abxy", "abcdz"]);
    for w in r.windows(2) {
        assert!(w[0].distance < w[1].distance || (w[0].distance == w[1].distance && w[0].count >= w[1].count));
    }
    let closest = s.lookup("abcq", Verbosity::Closest, 2, false, false);
    let terms: Vec<&str> = closest.iter().map(|x| x.term.as_str()).collect();
    assert_eq!(terms, vec!["abce", "abcf", "abcd"]);
    let top = s.lookup("abcq", Verbosity::Top, 2, false, false);
    assert_eq!(top.len(), 1);
    assert_eq!(top[0].term, "abce");
}

#[test]
fn unknown_word_gets_stand_in() {
    let s = engine(&["quick 70236443", "brown 49862442", "spelled 3434543", "beginning 56125633"]);
    let r = s.lookup("asdf", Verbosity::Closest, 2, true, false);
    assert_eq!(r.len(), 1);
    assert_eq!(r[0].term, "asdf");
    assert_eq!(r[0].distance, 3);
    assert_eq!(r[0].count, 0);
    assert!(s.lookup("asdf", Verbosity::Closest, 2, false, false).is_empty());
}

#[test]
fn too_long_input_has_no_suggestion() {
    let s = engine(&["abc 10"]);
    assert!(s.lookup("abcdefgh", Verbosity::All, 2, false, false).is_empty());
}

#[test]
fn counts_accumulate_and_saturate() {
    let mut twice = engine(&["word 3"]);
    twice.write_line_to_dictionary("word 4", " ");
    let once = engine(&["word 7"]);
    assert_eq!(twice.lookup("word", Verbosity::Top, 2, false, false)[0].count, 7);
    assert_eq!(once.lookup("word", Verbosity::Top, 2, false, false)[0].count, 7);
    let mut big = engine(&["word 18446744073709551615"]);
    big.write_line_to_dictionary("word 5", " ");
    assert_eq!(big.lookup("word", Verbosity::Top, 2, false, false)[0].count, usize::MAX);
}

#[test]
fn words_below_threshold_are_staged() {
    let mut s = SymSpell::new(Some(2), Some(7), Some(10));
    s.write_line_to_dictionary("rare 4", " ");
    assert!(s.lookup("rare", Verbosity::Top, 2, false, false).is_empty());
    assert_eq!(s.word_count(), 0);
    assert!(s.create_dictionary_entry("rare".to_string(), 6));
    let r = s.lookup("rare", Verbosity::Top, 2, false, false);
    assert_eq!(r[0].count, 10);
    assert!(!s.create_dictionary_entry("rare".to_string(), 1));
    assert_eq!(s.word_count(), 1);
    assert_eq!(s.max_length(), 4);
}

#[test]
fn dictionary_lines_parse() {
    let mut s = SymSpell::new(Some(2), Some(7), None);
    s.write_line_to_dictionary("alpha\t12\r\n", "\t");
    s.write_line_to_dictionary("beta notanumber", " ");
    s.write_line_to_dictionary("gamma", " ");
    s.write_line_to_dictionary("delta +8 extra", " ");
    assert_eq!(s.lookup("alpha", Verbosity::Top, 2, false, false)[0].count, 12);
    assert!(s.lookup("beta", Verbosity::Top, 0, false, false).is_empty());
    assert!(s.lookup("gamma", Verbosity::Top, 0, false, false).is_empty());
    assert_eq!(s.lookup("delta", Verbosity::Top, 0, false, false)[0].count, 8);
    assert_eq!(s.word_count(), 2);
    assert!(s.entry_count() > 0);
}

#[test]
fn bigram_lines_parse() {
    let mut s = SymSpell::new(Some(2), Some(7), None);
    s.write_line_to_bigram_dictionary("in the 300\n", " ");
    s.write_line_to_bigram_dictionary("of the 200", " ");
    s.write_line_to_bigram_dictionary("broken 5", " ");
    let key: Vec<char> = "in the".chars().collect();
    assert_eq!(s.bigram_count(&key), Some(300));
    assert_eq!(s.bigram_count_min(), 200);
    let missing: Vec<char> = "broken 5".chars().collect();
    assert_eq!(s.bigram_count(&missing), None);
}

#[test]
fn compound_corrects_each_word() {
    let s = engine(DICTIONARY);
    let r = s.lookup_compound("begining sentances with mispelled words is outragous and mischievious", 2);
    assert_eq!(r.len(), 1);
    assert!(r[0].term.starts_with("beginning sentences with"));
    assert_eq!(r[0].term, "beginning sentences with mispelled words is outrageous and mischievous");
}

#[test]
fn compound_keeps_a_correct_phrase() {
    let s = engine(DICTIONARY);
    let r = s.lookup_compound("the quick, brown fox!", 2);
    assert_eq!(r[0].term, "the quick brown fox");
    assert_eq!(r[0].distance, 2);
}

#[test]
fn single_grapheme_words() {
    let s = engine(&["a 10", "i 20"]);
    let r = s.lookup("ab", Verbosity::All, 2, false, false);
    assert!(r.iter().any(|x| x.term == "a" && x.distance == 1));
    assert!(r.iter().any(|x| x.term == "i" && x.distance == 2));
    let r = s.lookup("b", Verbosity::Closest, 1, false, false);
    assert_eq!(r.len(), 2);
    assert_eq!(r[0].term, "i");
    assert_eq!(r[0].distance, 1);
}

#[test]
fn lookup_terms_are_distinct() {
    let s = engine(&["ab 1", "ba 2", "abc 3", "a 4", "b 5"]);
    let r = s.lookup("ab", Verbosity::All, 2, false, true);
    let mut terms: Vec<&str> = r.iter().map(|x| x.term.as_str()).collect();
    let n = terms.len();
    terms.sort();
    terms.dedup();
    assert_eq!(terms.len(), n);
    assert_eq!(r[0].term, "ab");
    assert_eq!(r[0].distance, 0);
    assert!(r.iter().any(|x| x.term == "ba" && x.distance == 1));
}

#[test]
fn compound_splits_and_merges() {
    let s = engine(DICTIONARY);
    let r = s.lookup_compound("thequick brown", 2);
    assert_eq!(r[0].term, "the quick brown");
    let r = s.lookup_compound("qui ck fox", 2);
    assert_eq!(r[0].term, "quick fox");
}

#[test]
fn segmentation_finds_words() {
    let s = engine(DICTIONARY);
    let r = s.word_segmentation::<Log10>("thequickbrownfox", 0, None);
    assert_eq!(r.corrected_string, "the quick brown fox");
    assert_eq!(r.segmented_string, "the quick brown fox");
    // each of the three inserted spaces is charged as one edit
    assert_eq!(r.distance_sum, 3);
}

#[test]
fn segmentation_of_spaced_words_costs_nothing() {
    let s = engine(DICTIONARY);
    let r = s.word_segmentation::<Log10>("the quick brown fox", 0, None);
    assert_eq!(r.corrected_string, "the quick brown fox");
    assert_eq!(r.distance_sum, 0);
}

#[test]
fn segmentation_corrects_parts() {
    let s = engine(DICTIONARY);
    let r = s.word_segmentation::<Log10>("thequikbrownfox", 1, None);
    assert_eq!(r.corrected_string, "the quick brown fox");
    assert_eq!(r.segmented_string, "the quik brown fox");
    assert_eq!(r.distance_sum, 4);
}

#[test]
fn all_finds_every_near_word() {
    let s = engine(&["an 5", "a 9", "and 7", "bn 1", "xyz 3"]);
    let r = s.lookup("a", Verbosity::All, 2, false, false);
    let terms: Vec<&str> = r.iter().map(|x| x.term.as_str()).collect();
    assert!(terms.contains(&"an"));
    assert!(terms.contains(&"and"));
    assert!(terms.contains(&"bn"));
    assert!(!terms.contains(&"a"));
    assert!(!terms.contains(&"xyz"));
    let top = s.lookup("b", Verbosity::Top, 2, true, false);
    assert_eq!(top.len(), 1);
    assert_ne!(top[0].distance, 3);
}

#[test]
fn long_words_are_indexed_by_their_prefix() {
    let mut s = SymSpell::new(Some(2), Some(2), None);
    s.write_line_to_dictionary("abc 4", " ");
    let r = s.lookup("xy", Verbosity::All, 2, false, false);
    assert!(r.is_empty());
    let r = s.lookup("ab", Verbosity::All, 2, false, false);
    assert_eq!(r[0].term, "abc");
    assert_eq!(r[0].distance, 1);
}

#[test]
fn segmentation_with_a_correction_and_an_unknown() {
    let s = engine(DICTIONARY);
    let r = s.word_segmentation::<Log10>("qzx", 0, None);
    assert_eq!(r.corrected_string.replace(' ', ""), "qzx");
    let r = s.word_segmentation::<Log10>("the fox", 0, None);
    assert_eq!(r.segmented_string, "the fox");
    assert_eq!(r.distance_sum, 0);
}

#[test]
fn compound_keeps_an_unknown_word() {
    let s = engine(DICTIONARY);
    let r = s.lookup_compound("the qzxv fox", 1);
    assert_eq!(r[0].term, "the qzxv fox");
}

#[test]
fn segmentation_respects_the_part_limit() {
    let s = engine(DICTIONARY);
    let r = s.word_segmentation::<Log10>("thequickbrownfox", 0, Some(0));
    assert_eq!(r.segmented_string, "");
    assert_eq!(r.distance_sum, 0);
    let r = s.word_segmentation::<Log10>("thequickfox", 0, Some(3));
    assert!(r.segmented_string.split(' ').all(|w| w.chars().count() <= 3));
    assert_eq!(r.segmented_string.replace(' ', ""), "thequickfox");
    assert_eq!(r.corrected_string, r.segmented_string);
}

#[test]
fn segmentation_of_empty_text() {
    let s = engine(DICTIONARY);
    let r = s.word_segmentation::<Log10>("", 2, None);
    assert_eq!(r.corrected_string, "");
    assert_eq!(r.distance_sum, 0);
}
