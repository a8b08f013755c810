//! Access to the genes and the score of a candidate.

use vstd::prelude::*;
use crate::individual::Individual;

verus! {

/// The parts of a candidate that every population reads and writes.
pub trait IndividualMinimumBase: Sized {
    /// The genes.
    spec fn genes_held(&self) -> Seq<i64>;

    /// The score; empty while the candidate has none.
    spec fn values_held(&self) -> Seq<i64>;

    /// A candidate without genes and without a score.
    fn new() -> (made: Self)
        ensures
            made.genes_held().len() == 0,
            made.values_held().len() == 0,
    ;

    /// Replaces the genes. The score stays, whatever the new genes are.
    fn set_genes(&mut self, genes: Vec<i64>)
        ensures
            final(self).genes_held() == genes@,
            final(self).values_held() == old(self).values_held(),
    ;

    /// The genes.
    fn get_genes(&self) -> (genes: &Vec<i64>)
        ensures
            genes@ == self.genes_held(),
    ;

    /// Replaces the score.
    fn set_evaluation_values(&mut self, evaluation_values: Vec<i64>)
        ensures
            final(self).values_held() == evaluation_values@,
            final(self).genes_held() == old(self).genes_held(),
    ;

    /// The score.
    fn get_evaluation_values(&self) -> (evaluation_values: &Vec<i64>)
        ensures
            evaluation_values@ == self.values_held(),
    ;
}

impl IndividualMinimumBase for Individual {
    open spec fn genes_held(&self) -> Seq<i64> {
        self.genes@
    }

    open spec fn values_held(&self) -> Seq<i64> {
        self.evaluations@
    }

    fn new() -> (made: Self)
        ensures
            made.features.len() == 0,
    {
        Individual { genes: Vec::new(), features: Vec::new(), evaluations: Vec::new() }
    }

    fn set_genes(&mut self, genes: Vec<i64>)
        ensures
            final(self).features@ == old(self).features@,
    {
        self.genes = genes;
    }

    fn get_genes(&self) -> (genes: &Vec<i64>) {
        &self.genes
    }

    fn set_evaluation_values(&mut self, evaluation_values: Vec<i64>)
        ensures
            final(self).features@ == old(self).features@,
    {
        self.evaluations = evaluation_values;
    }

    fn get_evaluation_values(&self) -> (evaluation_values: &Vec<i64>) {
        &self.evaluations
    }
}

} // verus!
