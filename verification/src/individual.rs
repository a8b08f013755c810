//! Candidates and the boundary with the problem they encode.

use vstd::prelude::*;
use rand::rngs::StdRng;
use crate::operators::draw_variates;
use crate::operators::is_trial;
use crate::operators::make_trial;
use crate::operators::unit_variates;
use crate::ranking::holds_against;
use crate::ranking::is_level_or_ahead;
use crate::scalar::all_genes;
use crate::scalar::UNIT;

verus! {

/// What a problem must supply: how genes decode into features and how
/// features are scored. Larger evaluation vectors are better, ranked
/// lexicographically. Both methods are expected to depend on their argument
/// alone; the engine relies on that only to reuse stored scores.
pub trait Minimum: Sized {
    /// The problem's description.
    fn new() -> Self;

    /// Decodes a gene vector into the feature vector that is scored and that
    /// keys the cache.
    fn identificate(&self, genes: &Vec<i64>) -> Vec<i64>;

    /// Scores a feature vector.
    fn evaluate(&self, features: &Vec<i64>) -> Vec<i64>;
}

/// Whether `features` is a decoding that the problem may give for `genes`.
pub open spec fn decodes_to<I: Minimum>(problem: &I, genes: Seq<i64>, features: Seq<i64>) -> bool {
    exists|g: &Vec<i64>, f: Vec<i64>|
        g@ == genes && f@ == features && call_ensures(I::identificate, (problem, g), f)
}

/// Whether `evaluations` is a score that the problem may give for `features`.
pub open spec fn scores_as<I: Minimum>(
    problem: &I,
    features: Seq<i64>,
    evaluations: Seq<i64>,
) -> bool {
    exists|f: &Vec<i64>, e: Vec<i64>|
        f@ == features && e@ == evaluations && call_ensures(I::evaluate, (problem, f), e)
}

/// The mathematical content of a candidate.
pub struct Portrait {
    pub genes: Seq<i64>,
    pub features: Seq<i64>,
    pub evaluations: Seq<i64>,
}

/// One candidate: its genes, their decoding and its score. An empty
/// evaluation vector means that the candidate has not been scored yet.
#[derive(Debug)]
pub struct Individual {
    pub genes: Vec<i64>,
    pub features: Vec<i64>,
    pub evaluations: Vec<i64>,
}

impl View for Individual {
    type V = Portrait;

    open spec fn view(&self) -> Portrait {
        Portrait { genes: self.genes@, features: self.features@, evaluations: self.evaluations@ }
    }
}

impl Clone for Individual {
    fn clone(&self) -> (copy: Self)
        ensures
            copy@ == self@,
    {
        Individual {
            genes: self.genes.clone(),
            features: self.features.clone(),
            evaluations: self.evaluations.clone(),
        }
    }
}

impl Individual {
    /// Replaces the features.
    pub fn set_features(&mut self, features: Vec<i64>)
        ensures
            final(self)@ == (Portrait { features: features@, ..old(self)@ }),
    {
        self.features = features;
    }

    /// The features; empty while the candidate is not decoded.
    pub fn get_features(&self) -> (features: &Vec<i64>)
        ensures
            features@ == self@.features,
    {
        &self.features
    }

    /// Replaces the score.
    pub fn set_evaluations(&mut self, evaluations: Vec<i64>)
        ensures
            final(self)@ == (Portrait { evaluations: evaluations@, ..old(self)@ }),
    {
        self.evaluations = evaluations;
    }

    /// The score; empty while the candidate has none.
    pub fn get_evaluations(&self) -> (evaluations: &Vec<i64>)
        ensures
            evaluations@ == self@.evaluations,
    {
        &self.evaluations
    }
}

/// The portraits of a sequence of candidates.
pub open spec fn portraits(individuals: Seq<Individual>) -> Seq<Portrait> {
    Seq::new(individuals.len(), |i: int| individuals[i]@)
}

/// Every candidate has `length` genes.
pub open spec fn uniform_length(members: Seq<Portrait>, length: nat) -> bool {
    forall|i: int| 0 <= i < members.len() ==> (#[trigger] members[i]).genes.len() == length
}

/// What a candidate can do beyond holding its parts.
pub trait ExtMinimum: Sized {
    /// The mathematical content of the candidate.
    spec fn portrait(&self) -> Portrait;

    /// A candidate with the given genes, not decoded and not scored.
    fn from_genes(genes: Vec<i64>) -> (made: Self)
        ensures
            made.portrait() == (Portrait {
                genes: genes@,
                features: Seq::empty(),
                evaluations: Seq::empty(),
            }),
    ;

    /// A candidate with `length` genes drawn from the stream, each from 0 up
    /// to but not including one whole.
    fn from_length(length: usize, random_generator: &mut StdRng) -> (made: Self)
        ensures
            made.portrait().genes.len() == length,
            unit_variates(made.portrait().genes, length as nat),
            all_genes(made.portrait().genes),
            made.portrait().features.len() == 0,
            made.portrait().evaluations.len() == 0,
    ;

    /// Whether this candidate is at least as good as the other. Equal scores
    /// count as better.
    fn is_better_than(&self, another: &Self) -> (better: bool)
        ensures
            better == holds_against(self.portrait().evaluations, another.portrait().evaluations),
    ;

    /// Crosses this candidate with another as the stream decides: one
    /// position takes the other's gene in any case, and each further
    /// position takes it where the variate drawn for it is below
    /// `another_ratio`. The child has genes alone.
    fn cross(&self, another: &Self, another_ratio: i64, random_generator: &mut StdRng) -> (child:
        Self)
        requires
            self.portrait().genes.len() > 0,
            another.portrait().genes.len() == self.portrait().genes.len(),
        ensures
            is_trial(
                self.portrait().genes,
                another.portrait().genes,
                another_ratio,
                child.portrait().genes,
            ),
            child.portrait().genes.len() == self.portrait().genes.len(),
            child.portrait().features.len() == 0,
            child.portrait().evaluations.len() == 0,
    ;
}

impl ExtMinimum for Individual {
    open spec fn portrait(&self) -> Portrait {
        self@
    }

    fn from_genes(genes: Vec<i64>) -> (made: Self) {
        Individual { genes, features: Vec::new(), evaluations: Vec::new() }
    }

    fn from_length(length: usize, random_generator: &mut StdRng) -> (made: Self) {
        let genes = draw_variates(random_generator, length, UNIT);
        Self::from_genes(genes)
    }

    fn is_better_than(&self, another: &Self) -> (better: bool) {
        is_level_or_ahead(&self.evaluations, &another.evaluations)
    }

    fn cross(&self, another: &Self, another_ratio: i64, random_generator: &mut StdRng) -> (child:
        Self) {
        let genes = make_trial(&self.genes, &another.genes, another_ratio, random_generator);
        Self::from_genes(genes)
    }
}

} // verus!
