use symspell::damerau_osa::DamaerauOSA;
use symspell::edit_distance::{Distance, DistanceAlgorithm, EditDistance};
use symspell::helpers::{null_distance_results, prefix_suffix_prep};
use symspell::levenshtein::Levenshtein;

#[test]
fn prefix_suffix_prep_test() {
    let (len1, len2, start) = prefix_suffix_prep("hello", "heelo!");
    assert_eq!(len1, 3);
    assert_eq!(len2, 4);
    assert_eq!(start, 2);
}

#[test]
fn prefix_suffix_prep_equal_strings() {
    assert_eq!(prefix_suffix_prep("same", "same"), (0, 0, 0));
}

#[test]
fn osa_counts_adjacent_swaps_only() {
    let ed = EditDistance::new(DistanceAlgorithm::DamaerauOSA);
    assert_eq!(ed.distance("sated", "dates"), 2);
    assert_eq!(ed.distance("ab", "ba"), 1);
    assert_eq!(ed.distance("ca", "abc"), 3);
}

#[test]
fn distance_is_symmetric() {
    let ed = EditDistance::new(DistanceAlgorithm::DamaerauOSA);
    assert_eq!(ed.distance("kitten", "sitting"), ed.distance("sitting", "kitten"));
    assert_eq!(ed.distance("", "abc"), ed.distance("abc", ""));
    assert_eq!(ed.distance("🚀ab", "b🚀a"), ed.distance("b🚀a", "🚀ab"));
}

#[test]
fn bounded_distance_reports_exceeded() {
    let ed = EditDistance::new(DistanceAlgorithm::DamaerauOSA);
    assert_eq!(ed.distance_bounded("kitten", "sitting", 2), None);
    assert_eq!(ed.distance_bounded("kitten", "sitting", 3), Some(3));
    assert_eq!(ed.distance("kitten", "sitting"), 3);
    assert_eq!(ed.distance_bounded("abc", "abcdefgh", 2), None);
}

#[test]
fn compare_with_and_without_cap() {
    let mut ed = EditDistance::new(DistanceAlgorithm::DamaerauOSA);
    assert_eq!(ed.compare("hello", "helo", None), Some(1));
    assert_eq!(ed.compare("hello", "help", Some(1)), None);
    assert_eq!(ed.compare("hello", "help", Some(2)), Some(2));
}

#[test]
fn levenshtein_counts_a_swap_as_two() {
    let mut lev = Levenshtein::new();
    assert_eq!(lev.distance("ab", "ba"), Some(2));
    assert_eq!(lev.distance("kitten", "sitting"), Some(3));
    assert_eq!(lev.distance2("kitten", "sitting", 2), None);
    let mut ed = EditDistance::new(DistanceAlgorithm::Levenshtein);
    assert_eq!(ed.compare("sated", "dates", None), Some(2));
}

#[test]
fn trait_dispatch_matches_methods() {
    let mut osa = DamaerauOSA::new();
    assert_eq!(Distance::distance(&mut osa, "ab", "ba"), Some(1));
    assert_eq!(Distance::distance2(&mut osa, "abcd", "dcba", 3), Some(3));
    assert_eq!(Distance::distance2(&mut osa, "abcd", "dcba", 2), None);
}

#[test]
fn null_distance_cases() {
    assert_eq!(null_distance_results("", "", 0), Some(0));
    assert_eq!(null_distance_results("", "abc", 3), Some(3));
    assert_eq!(null_distance_results("", "abc", 2), None);
    assert_eq!(null_distance_results("ab", "", 2), Some(2));
    assert_eq!(null_distance_results("ab", "", 1), None);
}
