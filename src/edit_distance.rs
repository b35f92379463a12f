use vstd::prelude::*;

use crate::damerau_osa::{osa_core, osa_core_bounded, osa_distance, within, DamaerauOSA};
use crate::levenshtein::{lev_core, lev_core_bounded, lev_distance, Levenshtein};
use crate::text::to_chars;

verus! {

/// An edit distance between strings.
pub trait Distance {
    spec fn spec_distance(a: Seq<char>, b: Seq<char>) -> nat;

    fn distance(&mut self, string1: &str, string2: &str) -> (r: Option<usize>)
        ensures
            r matches Some(d) && d as nat == Self::spec_distance(string1@, string2@),
    ;

    fn distance2(&mut self, string1: &str, string2: &str, max_distance: usize) -> (r: Option<usize>)
        ensures
            r == within(Self::spec_distance(string1@, string2@), max_distance),
    ;
}

impl Distance for DamaerauOSA {
    open spec fn spec_distance(a: Seq<char>, b: Seq<char>) -> nat {
        osa_distance(a, b)
    }

    fn distance(&mut self, string1: &str, string2: &str) -> (r: Option<usize>) {
        DamaerauOSA::distance(self, string1, string2)
    }

    fn distance2(&mut self, string1: &str, string2: &str, max_distance: usize) -> (r: Option<usize>) {
        DamaerauOSA::distance2(self, string1, string2, max_distance)
    }
}

impl Distance for Levenshtein {
    open spec fn spec_distance(a: Seq<char>, b: Seq<char>) -> nat {
        lev_distance(a, b)
    }

    fn distance(&mut self, string1: &str, string2: &str) -> (r: Option<usize>) {
        Levenshtein::distance(self, string1, string2)
    }

    fn distance2(&mut self, string1: &str, string2: &str, max_distance: usize) -> (r: Option<usize>) {
        Levenshtein::distance2(self, string1, string2, max_distance)
    }
}

/// The edit distance algorithms on offer.
#[derive(Clone, Copy, Debug, PartialEq, Eq, Structural)]
pub enum DistanceAlgorithm {
    Levenshtein,
    DamaerauOSA,
}

/// The distance that `algorithm` measures.
pub open spec fn algorithm_distance(algorithm: DistanceAlgorithm, a: Seq<char>, b: Seq<char>) -> nat {
    match algorithm {
        DistanceAlgorithm::Levenshtein => lev_distance(a, b),
        DistanceAlgorithm::DamaerauOSA => osa_distance(a, b),
    }
}

/// Measures edit distances with one chosen algorithm.
pub struct EditDistance {
    algorithm: DistanceAlgorithm,
}

impl EditDistance {
    pub closed spec fn algorithm(&self) -> DistanceAlgorithm {
        self.algorithm
    }

    pub fn new(distance_algorithm: DistanceAlgorithm) -> (r: EditDistance)
        ensures
            r.algorithm() == distance_algorithm,
    {
        EditDistance { algorithm: distance_algorithm }
    }

    /// Distance between two grapheme sequences.
    pub fn distance_chars(&self, a: &Vec<char>, b: &Vec<char>) -> (r: usize)
        ensures
            r as nat == algorithm_distance(self.algorithm(), a@, b@),
    {
        match self.algorithm {
            DistanceAlgorithm::Levenshtein => lev_core(a, b),
            DistanceAlgorithm::DamaerauOSA => osa_core(a, b),
        }
    }

    /// Distance between two grapheme sequences if it is at most `max`, else `None`.
    pub fn distance_bounded_chars(&self, a: &Vec<char>, b: &Vec<char>, max: usize) -> (r: Option<usize>)
        ensures
            r == within(algorithm_distance(self.algorithm(), a@, b@), max),
    {
        match self.algorithm {
            DistanceAlgorithm::Levenshtein => lev_core_bounded(a, b, max),
            DistanceAlgorithm::DamaerauOSA => osa_core_bounded(a, b, max),
        }
    }

    /// Distance between two strings.
    pub fn distance(&self, string1: &str, string2: &str) -> (r: usize)
        ensures
            r as nat == algorithm_distance(self.algorithm(), string1@, string2@),
    {
        let a = to_chars(string1);
        let b = to_chars(string2);
        self.distance_chars(&a, &b)
    }

    /// Distance between two strings if it is at most `max`, else `None`.
    pub fn distance_bounded(&self, string1: &str, string2: &str, max: usize) -> (r: Option<usize>)
        ensures
            r == within(algorithm_distance(self.algorithm(), string1@, string2@), max),
    {
        let a = to_chars(string1);
        let b = to_chars(string2);
        self.distance_bounded_chars(&a, &b, max)
    }

    /// Distance between two strings, capped at `max_distance` when one is given:
    /// `None` then means the distance exceeds it.
    pub fn compare(&mut self, string1: &str, string2: &str, max_distance: Option<usize>) -> (r: Option<usize>)
        ensures
            r == match max_distance {
                Some(max) => within(algorithm_distance(old(self).algorithm(), string1@, string2@), max),
                None => Some(algorithm_distance(old(self).algorithm(), string1@, string2@) as usize),
            },
            final(self).algorithm() == old(self).algorithm(),
    {
        match max_distance {
            Some(max) => self.distance_bounded(string1, string2, max),
            None => Some(self.distance(string1, string2)),
        }
    }
}

/// Under either algorithm, the distance does not depend on the order of the strings.
pub proof fn lemma_distance_symmetric(algorithm: DistanceAlgorithm, a: Seq<char>, b: Seq<char>)
    ensures
        algorithm_distance(algorithm, a, b) == algorithm_distance(algorithm, b, a),
{
    match algorithm {
        DistanceAlgorithm::Levenshtein => crate::levenshtein::lemma_lev_symmetric(a, b),
        DistanceAlgorithm::DamaerauOSA => crate::damerau_osa::lemma_osa_symmetric(a, b),
    }
}

/// The capped distance is the distance itself whenever that is at most the
/// cap, and `None` otherwise.
pub proof fn lemma_bounded_agrees(algorithm: DistanceAlgorithm, a: Seq<char>, b: Seq<char>, max: usize)
    ensures
        algorithm_distance(algorithm, a, b) <= max ==> within(algorithm_distance(algorithm, a, b), max)
            == Some(algorithm_distance(algorithm, a, b) as usize),
        algorithm_distance(algorithm, a, b) > max ==> within(algorithm_distance(algorithm, a, b), max)
            is None,
{
}

} // verus!
