//! A population that asks the problem for every score.

use vstd::prelude::*;
use rand::rngs::StdRng;
use crate::evolution::Colony;
use crate::evolution::fresh;
use crate::evolution::plan_of;
use crate::evolution::ran;
use crate::evolution::RunError;
use crate::evolution::runnable;
use crate::evolution::vetted;
use crate::individual::Individual;
use crate::individual::Minimum;
use crate::individual::Portrait;
use crate::individual::portraits;
use crate::ledger::Blank;
use crate::ledger::Ledger;
use crate::populations::common::GetterSetter;
use crate::random::seeded;
use crate::random::seeded_stream;

verus! {

/// Candidates for the problem `INDIVIDUAL`, with their random stream.
pub struct Population<INDIVIDUAL: Minimum> {
    colony: Colony<INDIVIDUAL>,
}

impl<INDIVIDUAL: Minimum> GetterSetter<INDIVIDUAL> for Population<INDIVIDUAL> {
    closed spec fn members(&self) -> Seq<Portrait> {
        self.colony.members()
    }

    closed spec fn encoding(&self) -> INDIVIDUAL {
        self.colony.problem
    }

    closed spec fn stream(&self) -> StdRng {
        self.colony.stream
    }

    fn get_individuals(&self) -> (individuals: &Vec<Individual>) {
        &self.colony.individuals
    }

    fn set_individuals(&mut self, individuals: Vec<Individual>) {
        self.colony.individuals = individuals;
    }
}

/// What this kind of population does.
pub trait Specific<INDIVIDUAL: Minimum>: GetterSetter<INDIVIDUAL> {
    /// An empty population, whose stream is seeded with 0.
    fn new() -> (population: Self)
        ensures
            population.members().len() == 0,
            population.stream() == seeded_stream(0),
    ;

    /// A population of the given candidates, whose stream is seeded with 0.
    fn new_from_individuals(individuals: Vec<Individual>) -> (population: Self)
        ensures
            population.members() == portraits(individuals@),
            population.stream() == seeded_stream(0),
    ;

    /// A population of `individuals_len` candidates with `genes_len` genes
    /// each, drawn from a stream that `random_seed` starts.
    fn new_from_shape(individuals_len: usize, genes_len: usize, random_seed: u64) -> (population:
        Self)
        ensures
            fresh(population.members(), individuals_len as nat, genes_len as nat),
    ;

    /// Starts the random stream anew from a seed: whatever was drawn
    /// before, the stream is the one that the seed starts.
    fn set_random_seed(&mut self, random_seed: u64)
        ensures
            final(self).stream() == seeded_stream(random_seed),
            final(self).members() == old(self).members(),
            final(self).encoding() == old(self).encoding(),
    ;

    /// Settles the candidates without a score, then runs `epoch`
    /// generations: each candidate is crossed with a mutant, the trial is
    /// scored by the problem, and the better of the two stays in the slot,
    /// the candidate on a tie.
    fn advance_epoch(
        &mut self,
        epoch: usize,
        best_or_rand: &str,
        difference_vector_count: usize,
        f_scale: i64,
        crossover_rate: i64,
    )
        requires
            runnable(
                old(self).members(),
                epoch,
                best_or_rand@,
                difference_vector_count,
                f_scale,
                crossover_rate,
            ),
        ensures
            final(self).encoding() == old(self).encoding(),
            ran(
                &old(self).encoding(),
                false,
                plan_of(best_or_rand@, difference_vector_count, f_scale, crossover_rate),
                epoch,
                old(self).members(),
                Map::empty(),
                final(self).members(),
                Map::empty(),
            ),
    ;

    /// Vets the settings first and runs `advance_epoch` where they pass.
    /// Where they do not, the population stays as it was.
    fn try_advance_epoch(
        &mut self,
        epoch: usize,
        best_or_rand: &str,
        difference_vector_count: usize,
        f_scale: i64,
        crossover_rate: i64,
    ) -> (outcome: Result<(), RunError>)
        ensures
            final(self).encoding() == old(self).encoding(),
            outcome is Ok == runnable(
                old(self).members(),
                epoch,
                best_or_rand@,
                difference_vector_count,
                f_scale,
                crossover_rate,
            ),
            outcome is Ok ==> ran(
                &old(self).encoding(),
                false,
                plan_of(best_or_rand@, difference_vector_count, f_scale, crossover_rate),
                epoch,
                old(self).members(),
                Map::empty(),
                final(self).members(),
                Map::empty(),
            ),
            outcome matches Err(error) ==> final(self).members() == old(self).members() && vetted(
                old(self).members(),
                epoch,
                best_or_rand@,
                difference_vector_count,
                f_scale,
                crossover_rate,
                Err(error),
            ),
    ;
}

impl<INDIVIDUAL: Minimum> Specific<INDIVIDUAL> for Population<INDIVIDUAL> {
    fn new() -> (population: Self) {
        Population { colony: Colony::of(Vec::new()) }
    }

    fn new_from_individuals(individuals: Vec<Individual>) -> (population: Self) {
        Population { colony: Colony::of(individuals) }
    }

    fn new_from_shape(individuals_len: usize, genes_len: usize, random_seed: u64) -> (population:
        Self) {
        Population { colony: Colony::of_shape(individuals_len, genes_len, random_seed) }
    }

    fn set_random_seed(&mut self, random_seed: u64) {
        self.colony.stream = seeded(random_seed);
    }

    fn advance_epoch(
        &mut self,
        epoch: usize,
        best_or_rand: &str,
        difference_vector_count: usize,
        f_scale: i64,
        crossover_rate: i64,
    ) {
        let mut ledger = Blank;
        self.colony.advance(
            &mut ledger,
            epoch,
            best_or_rand,
            difference_vector_count,
            f_scale,
            crossover_rate,
        );
        assert(ledger.entries() =~= Map::<Seq<i64>, Seq<i64>>::empty());
    }

    fn try_advance_epoch(
        &mut self,
        epoch: usize,
        best_or_rand: &str,
        difference_vector_count: usize,
        f_scale: i64,
        crossover_rate: i64,
    ) -> (outcome: Result<(), RunError>) {
        let mut ledger = Blank;
        let outcome = self.colony.try_advance(
            &mut ledger,
            epoch,
            best_or_rand,
            difference_vector_count,
            f_scale,
            crossover_rate,
        );
        assert(ledger.entries() =~= Map::<Seq<i64>, Seq<i64>>::empty());
        outcome
    }
}

} // verus!
