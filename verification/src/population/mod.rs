//! A population that asks the problem for every score and finds its best
//! candidate itself.

pub mod individual;
pub mod using_db;

use vstd::prelude::*;
use crate::evolution::Colony;
use crate::evolution::fresh;
use crate::evolution::is_best;
use crate::evolution::plan_of;
use crate::evolution::ran;
use crate::evolution::RunError;
use crate::evolution::runnable;
use crate::evolution::vetted;
use crate::individual::Individual;
use crate::individual::Minimum;
use crate::individual::Portrait;
use crate::individual::portraits;
use crate::ledger::Blank;
use crate::ledger::Ledger;

verus! {

/// Candidates for the problem `INDIVIDUAL`, with their random stream.
pub struct PopulationMinimum<INDIVIDUAL: Minimum> {
    colony: Colony<INDIVIDUAL>,
}

/// What a `PopulationMinimum` does.
pub trait PopulationMinimumInterface<INDIVIDUAL: Minimum>: Sized {
    /// The candidates, in order.
    spec fn members(&self) -> Seq<Portrait>;

    /// The problem that decodes and scores the candidates.
    spec fn encoding(&self) -> INDIVIDUAL;

    /// A population of the given candidates, whose stream is seeded with 0.
    fn new_from_individuals(individuals: Vec<Individual>) -> (population: Self)
        ensures
            population.members() == portraits(individuals@),
    ;

    /// A population of `individuals_len` candidates with `genes_len` genes
    /// each, drawn from a stream that `random_seed` starts.
    fn new_from_shape(individuals_len: usize, genes_len: usize, random_seed: u64) -> (population:
        Self)
        ensures
            fresh(population.members(), individuals_len as nat, genes_len as nat),
    ;

    /// The place of the best candidate. Among candidates with equal scores
    /// the last one is the best.
    fn get_index_best(&self) -> (place: usize)
        requires
            self.members().len() > 0,
        ensures
            is_best(self.members(), place as int),
    ;

    /// The best candidate.
    fn get_individual_best(&self) -> (best: &Individual)
        requires
            self.members().len() > 0,
        ensures
            exists|place: int| is_best(self.members(), place) && best@ == self.members()[place],
    ;

    /// Settles the candidates without a score, then runs `epoch`
    /// generations: each candidate is crossed with a mutant, the trial is
    /// scored by the problem, and the better of the two stays in the slot,
    /// the candidate on a tie.
    fn advance_epoch(
        &mut self,
        epoch: usize,
        best_or_rand: &str,
        difference_vector_count: usize,
        f_scale: i64,
        crossover_rate: i64,
    )
        requires
            runnable(
                old(self).members(),
                epoch,
                best_or_rand@,
                difference_vector_count,
                f_scale,
                crossover_rate,
            ),
        ensures
            final(self).encoding() == old(self).encoding(),
            ran(
                &old(self).encoding(),
                false,
                plan_of(best_or_rand@, difference_vector_count, f_scale, crossover_rate),
                epoch,
                old(self).members(),
                Map::empty(),
                final(self).members(),
                Map::empty(),
            ),
    ;

    /// Vets the settings first and runs `advance_epoch` where they pass.
    /// Where they do not, the population stays as it was.
    fn try_advance_epoch(
        &mut self,
        epoch: usize,
        best_or_rand: &str,
        difference_vector_count: usize,
        f_scale: i64,
        crossover_rate: i64,
    ) -> (outcome: Result<(), RunError>)
        ensures
            final(self).encoding() == old(self).encoding(),
            outcome is Ok == runnable(
                old(self).members(),
                epoch,
                best_or_rand@,
                difference_vector_count,
                f_scale,
                crossover_rate,
            ),
            outcome is Ok ==> ran(
                &old(self).encoding(),
                false,
                plan_of(best_or_rand@, difference_vector_count, f_scale, crossover_rate),
                epoch,
                old(self).members(),
                Map::empty(),
                final(self).members(),
                Map::empty(),
            ),
            outcome matches Err(error) ==> final(self).members() == old(self).members() && vetted(
                old(self).members(),
                epoch,
                best_or_rand@,
                difference_vector_count,
                f_scale,
                crossover_rate,
                Err(error),
            ),
    ;
}

impl<INDIVIDUAL: Minimum> PopulationMinimumInterface<INDIVIDUAL> for PopulationMinimum<INDIVIDUAL> {
    closed spec fn members(&self) -> Seq<Portrait> {
        self.colony.members()
    }

    closed spec fn encoding(&self) -> INDIVIDUAL {
        self.colony.problem
    }

    fn new_from_individuals(individuals: Vec<Individual>) -> (population: Self) {
        PopulationMinimum { colony: Colony::of(individuals) }
    }

    fn new_from_shape(individuals_len: usize, genes_len: usize, random_seed: u64) -> (population:
        Self) {
        PopulationMinimum { colony: Colony::of_shape(individuals_len, genes_len, random_seed) }
    }

    fn get_index_best(&self) -> (place: usize) {
        self.colony.best()
    }

    fn get_individual_best(&self) -> (best: &Individual) {
        let place = self.colony.best();
        assert(self.members()[place as int] == self.colony.individuals[place as int]@);
        &self.colony.individuals[place]
    }

    fn advance_epoch(
        &mut self,
        epoch: usize,
        best_or_rand: &str,
        difference_vector_count: usize,
        f_scale: i64,
        crossover_rate: i64,
    ) {
        let mut ledger = Blank;
        self.colony.advance(
            &mut ledger,
            epoch,
            best_or_rand,
            difference_vector_count,
            f_scale,
            crossover_rate,
        );
        assert(ledger.entries() =~= Map::<Seq<i64>, Seq<i64>>::empty());
    }

    fn try_advance_epoch(
        &mut self,
        epoch: usize,
        best_or_rand: &str,
        difference_vector_count: usize,
        f_scale: i64,
        crossover_rate: i64,
    ) -> (outcome: Result<(), RunError>) {
        let mut ledger = Blank;
        let outcome = self.colony.try_advance(
            &mut ledger,
            epoch,
            best_or_rand,
            difference_vector_count,
            f_scale,
            crossover_rate,
        );
        assert(ledger.entries() =~= Map::<Seq<i64>, Seq<i64>>::empty());
        outcome
    }
}

} // verus!
