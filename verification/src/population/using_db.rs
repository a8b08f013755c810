//! A population that scores through a store which outlives the run and
//! finds its best candidate itself.

use vstd::prelude::*;
use ys_simple_db::DB;
use crate::evolution::Colony;
use crate::evolution::fresh;
use crate::evolution::is_best;
use crate::evolution::plan_of;
use crate::evolution::ran;
use crate::evolution::RunError;
use crate::evolution::runnable;
use crate::evolution::vetted;
use crate::individual::Individual;
use crate::individual::Minimum;
use crate::individual::Portrait;
use crate::individual::portraits;
use crate::ledger::Ledger;
use crate::store::all_numeric;
use crate::store::audit;
use crate::store::db_rows;

verus! {

/// Candidates for the problem `INDIVIDUAL`, with their random stream and
/// the name of the store that their scores are kept in.
pub struct PopulationUsingDB<INDIVIDUAL: Minimum> {
    colony: Colony<INDIVIDUAL>,
    db_name: String,
}

/// What a `PopulationUsingDB` does.
pub trait PopulationUsingDBInterface<INDIVIDUAL: Minimum>: Sized {
    /// The candidates, in order.
    spec fn members(&self) -> Seq<Portrait>;

    /// The problem that decodes and scores the candidates.
    spec fn encoding(&self) -> INDIVIDUAL;

    /// The name of the store.
    spec fn store_name(&self) -> Seq<char>;

    /// A population of the given candidates, whose stream is seeded with 0.
    fn new_from_individuals(individuals: Vec<Individual>, db_name: &str) -> (population: Self)
        ensures
            population.members() == portraits(individuals@),
            population.store_name() == db_name@,
    ;

    /// A population of `individuals_len` candidates with `genes_len` genes
    /// each, drawn from a stream that `random_seed` starts.
    fn new_from_shape(
        individuals_len: usize,
        genes_len: usize,
        db_name: &str,
        random_seed: u64,
    ) -> (population: Self)
        ensures
            fresh(population.members(), individuals_len as nat, genes_len as nat),
            population.store_name() == db_name@,
    ;

    /// The name of the store.
    fn get_db_name(&self) -> (db_name: &str)
        ensures
            db_name@ == self.store_name(),
    ;

    /// The place of the best candidate. Among candidates with equal scores
    /// the last one is the best.
    fn get_index_best(&self) -> (place: usize)
        requires
            self.members().len() > 0,
        ensures
            is_best(self.members(), place as int),
    ;

    /// The best candidate.
    fn get_individual_best(&self) -> (best: &Individual)
        requires
            self.members().len() > 0,
        ensures
            exists|place: int| is_best(self.members(), place) && best@ == self.members()[place],
    ;

    /// Settles the candidates without a score, then runs `epoch`
    /// generations through the store: a feature vector that the store
    /// holds takes the score found there, and every score that the problem
    /// gives is put into the store. The store must be readable wherever it
    /// is looked up.
    fn advance_epoch(
        &mut self,
        db: &mut DB,
        epoch: usize,
        best_or_rand: &str,
        difference_vector_count: usize,
        f_scale: i64,
        crossover_rate: i64,
    )
        requires
            old(db).sound(),
            runnable(
                old(self).members(),
                epoch,
                best_or_rand@,
                difference_vector_count,
                f_scale,
                crossover_rate,
            ),
        ensures
            final(self).encoding() == old(self).encoding(),
            final(self).store_name() == old(self).store_name(),
            final(db).sound(),
            old(db).entries().submap_of(final(db).entries()),
            ran(
                &old(self).encoding(),
                true,
                plan_of(best_or_rand@, difference_vector_count, f_scale, crossover_rate),
                epoch,
                old(self).members(),
                old(db).entries(),
                final(self).members(),
                final(db).entries(),
            ),
    ;

    /// Audits the store and vets the settings first, and runs
    /// `advance_epoch` where both pass. Where they do not, the population
    /// and the store stay as they were.
    fn try_advance_epoch(
        &mut self,
        db: &mut DB,
        epoch: usize,
        best_or_rand: &str,
        difference_vector_count: usize,
        f_scale: i64,
        crossover_rate: i64,
    ) -> (outcome: Result<(), RunError>)
        ensures
            final(self).encoding() == old(self).encoding(),
            final(self).store_name() == old(self).store_name(),
            outcome is Ok == (all_numeric(db_rows(*old(db))) && runnable(
                old(self).members(),
                epoch,
                best_or_rand@,
                difference_vector_count,
                f_scale,
                crossover_rate,
            )),
            outcome is Ok ==> final(db).sound() && old(db).entries().submap_of(final(db).entries())
                && ran(
                    &old(self).encoding(),
                    true,
                    plan_of(best_or_rand@, difference_vector_count, f_scale, crossover_rate),
                    epoch,
                    old(self).members(),
                    old(db).entries(),
                    final(self).members(),
                    final(db).entries(),
                ),
            outcome matches Err(error) ==> {
                &&& final(self).members() == old(self).members()
                &&& db_rows(*final(db)) == db_rows(*old(db))
                &&& error == RunError::CorruptStore <==> !all_numeric(db_rows(*old(db)))
                &&& error != RunError::CorruptStore ==> vetted(
                    old(self).members(),
                    epoch,
                    best_or_rand@,
                    difference_vector_count,
                    f_scale,
                    crossover_rate,
                    Err(error),
                )
            },
    ;
}

impl<INDIVIDUAL: Minimum> PopulationUsingDBInterface<INDIVIDUAL> for PopulationUsingDB<INDIVIDUAL> {
    closed spec fn members(&self) -> Seq<Portrait> {
        self.colony.members()
    }

    closed spec fn encoding(&self) -> INDIVIDUAL {
        self.colony.problem
    }

    closed spec fn store_name(&self) -> Seq<char> {
        self.db_name@
    }

    fn new_from_individuals(individuals: Vec<Individual>, db_name: &str) -> (population: Self) {
        PopulationUsingDB { colony: Colony::of(individuals), db_name: db_name.to_owned() }
    }

    fn new_from_shape(
        individuals_len: usize,
        genes_len: usize,
        db_name: &str,
        random_seed: u64,
    ) -> (population: Self) {
        PopulationUsingDB {
            colony: Colony::of_shape(individuals_len, genes_len, random_seed),
            db_name: db_name.to_owned(),
        }
    }

    fn get_db_name(&self) -> (db_name: &str) {
        self.db_name.as_str()
    }

    fn get_index_best(&self) -> (place: usize) {
        self.colony.best()
    }

    fn get_individual_best(&self) -> (best: &Individual) {
        let place = self.colony.best();
        assert(self.members()[place as int] == self.colony.individuals[place as int]@);
        &self.colony.individuals[place]
    }

    fn advance_epoch(
        &mut self,
        db: &mut DB,
        epoch: usize,
        best_or_rand: &str,
        difference_vector_count: usize,
        f_scale: i64,
        crossover_rate: i64,
    ) {
        self.colony.advance(
            db,
            epoch,
            best_or_rand,
            difference_vector_count,
            f_scale,
            crossover_rate,
        );
    }

    fn try_advance_epoch(
        &mut self,
        db: &mut DB,
        epoch: usize,
        best_or_rand: &str,
        difference_vector_count: usize,
        f_scale: i64,
        crossover_rate: i64,
    ) -> (outcome: Result<(), RunError>) {
        if !audit(db) {
            return Err(RunError::CorruptStore);
        }
        self.colony.try_advance(
            db,
            epoch,
            best_or_rand,
            difference_vector_count,
            f_scale,
            crossover_rate,
        )
    }
}

} // verus!
