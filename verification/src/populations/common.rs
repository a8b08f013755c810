//! What every population offers.

use vstd::prelude::*;
use rand::rngs::StdRng;
use crate::evolution::best_index;
use crate::evolution::is_best;
use crate::individual::Individual;
use crate::individual::Minimum;
use crate::individual::Portrait;
use crate::individual::portraits;

verus! {

/// Access to the candidates of a population.
pub trait GetterSetter<INDIVIDUAL: Minimum>: Sized {
    /// The candidates, in order.
    spec fn members(&self) -> Seq<Portrait>;

    /// The problem that decodes and scores the candidates.
    spec fn encoding(&self) -> INDIVIDUAL;

    /// The random stream that the next draw comes from.
    spec fn stream(&self) -> StdRng;

    /// The candidates.
    fn get_individuals(&self) -> (individuals: &Vec<Individual>)
        ensures
            portraits(individuals@) == self.members(),
    ;

    /// Replaces the candidates.
    fn set_individuals(&mut self, individuals: Vec<Individual>)
        ensures
            final(self).members() == portraits(individuals@),
            final(self).encoding() == old(self).encoding(),
            final(self).stream() == old(self).stream(),
    ;
}

/// What can be read off the candidates of a population.
pub trait Utility<INDIVIDUAL: Minimum>: GetterSetter<INDIVIDUAL> {
    /// The place of the best candidate. Among candidates with equal scores
    /// the last one is the best.
    fn get_index_best(&self) -> (place: usize)
        requires
            self.members().len() > 0,
        ensures
            is_best(self.members(), place as int),
    ;

    /// The best candidate.
    fn get_individual_best(&self) -> (best: &Individual)
        requires
            self.members().len() > 0,
        ensures
            exists|place: int| is_best(self.members(), place) && best@ == self.members()[place],
    ;

    /// The number of genes of the first candidate.
    fn get_length_of_gene(&self) -> (length: usize)
        requires
            self.members().len() > 0,
        ensures
            length == self.members()[0].genes.len(),
    ;

    /// The number of features of the first candidate, which is 0 before the
    /// candidate is decoded.
    fn get_length_of_converted_gene(&self) -> (length: usize)
        requires
            self.members().len() > 0,
        ensures
            length == self.members()[0].features.len(),
    ;
}

impl<INDIVIDUAL: Minimum, POPULATION: GetterSetter<INDIVIDUAL>> Utility<INDIVIDUAL> for POPULATION {
    fn get_index_best(&self) -> (place: usize) {
        best_index(self.get_individuals())
    }

    fn get_individual_best(&self) -> (best: &Individual) {
        let individuals = self.get_individuals();
        let place = best_index(individuals);
        assert(portraits(individuals@)[place as int] == individuals[place as int]@);
        &individuals[place]
    }

    fn get_length_of_gene(&self) -> (length: usize) {
        let individuals = self.get_individuals();
        assert(portraits(individuals@)[0] == individuals[0]@);
        individuals[0].genes.len()
    }

    fn get_length_of_converted_gene(&self) -> (length: usize) {
        let individuals = self.get_individuals();
        assert(portraits(individuals@)[0] == individuals[0]@);
        individuals[0].features.len()
    }
}

} // verus!
