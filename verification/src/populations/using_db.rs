//! A population that scores through a store which outlives the run.

use vstd::prelude::*;
use rand::rngs::StdRng;
use ys_simple_db::DB;
use crate::evolution::Colony;
use crate::evolution::fresh;
use crate::evolution::plan_of;
use crate::evolution::ran;
use crate::evolution::RunError;
use crate::evolution::runnable;
use crate::evolution::settled_at;
use crate::evolution::stepped;
use crate::evolution::vet;
use crate::evolution::vetted;
use crate::individual::decodes_to;
use crate::individual::ExtMinimum;
use crate::individual::Individual;
use crate::individual::Minimum;
use crate::individual::Portrait;
use crate::individual::portraits;
use crate::ledger::Ledger;
use crate::populations::common::GetterSetter;
use crate::random::seeded;
use crate::random::seeded_stream;
use crate::store::all_numeric;
use crate::store::audit;
use crate::store::db_rows;
use crate::store::listed;
use crate::store::sorted_lines;

verus! {

/// Candidates for the problem `INDIVIDUAL`, with their random stream and
/// the name of the store that their scores are kept in.
pub struct Population<INDIVIDUAL: Minimum> {
    colony: Colony<INDIVIDUAL>,
    db_name: String,
}

impl<INDIVIDUAL: Minimum> GetterSetter<INDIVIDUAL> for Population<INDIVIDUAL> {
    closed spec fn members(&self) -> Seq<Portrait> {
        self.colony.members()
    }

    closed spec fn encoding(&self) -> INDIVIDUAL {
        self.colony.problem
    }

    closed spec fn stream(&self) -> StdRng {
        self.colony.stream
    }

    fn get_individuals(&self) -> (individuals: &Vec<Individual>) {
        &self.colony.individuals
    }

    fn set_individuals(&mut self, individuals: Vec<Individual>) {
        self.colony.individuals = individuals;
    }
}

/// What this kind of population does.
pub trait Specific<INDIVIDUAL: Minimum>: GetterSetter<INDIVIDUAL> {
    /// The name of the store.
    spec fn store_name(&self) -> Seq<char>;

    /// An empty population, whose stream is seeded with 0.
    fn new(db_name: &str) -> (population: Self)
        ensures
            population.members().len() == 0,
            population.stream() == seeded_stream(0),
            population.store_name() == db_name@,
    ;

    /// A population of the given candidates, whose stream is seeded with 0.
    fn new_from_individuals(individuals: Vec<Individual>, db_name: &str) -> (population: Self)
        ensures
            population.members() == portraits(individuals@),
            population.stream() == seeded_stream(0),
            population.store_name() == db_name@,
    ;

    /// A population of `individuals_len` candidates with `genes_len` genes
    /// each, drawn from a stream that `random_seed` starts.
    fn new_from_shape(
        individuals_len: usize,
        genes_len: usize,
        db_name: &str,
        random_seed: u64,
    ) -> (population: Self)
        ensures
            fresh(population.members(), individuals_len as nat, genes_len as nat),
            population.store_name() == db_name@,
    ;

    /// The name of the store.
    fn get_db_name(&self) -> (db_name: &str)
        ensures
            db_name@ == self.store_name(),
    ;

    /// Starts the random stream anew from a seed: whatever was drawn
    /// before, the stream is the one that the seed starts.
    fn set_random_seed(&mut self, random_seed: u64)
        ensures
            final(self).stream() == seeded_stream(random_seed),
            final(self).members() == old(self).members(),
            final(self).encoding() == old(self).encoding(),
            final(self).store_name() == old(self).store_name(),
    ;

    /// Settles the candidates without a score, then runs `epoch`
    /// generations through the store: a feature vector that the store
    /// holds takes the score found there, and every score that the problem
    /// gives is put into the store. The store must be readable wherever it
    /// is looked up.
    fn advance_epoch(
        &mut self,
        db: &mut DB,
        epoch: usize,
        best_or_rand: &str,
        difference_vector_count: usize,
        f_scale: i64,
        crossover_rate: i64,
    )
        requires
            old(db).sound(),
            runnable(
                old(self).members(),
                epoch,
                best_or_rand@,
                difference_vector_count,
                f_scale,
                crossover_rate,
            ),
        ensures
            final(self).encoding() == old(self).encoding(),
            final(self).store_name() == old(self).store_name(),
            final(db).sound(),
            old(db).entries().submap_of(final(db).entries()),
            ran(
                &old(self).encoding(),
                true,
                plan_of(best_or_rand@, difference_vector_count, f_scale, crossover_rate),
                epoch,
                old(self).members(),
                old(db).entries(),
                final(self).members(),
                final(db).entries(),
            ),
    ;

    /// Audits the store and vets the settings first, and runs
    /// `advance_epoch` where both pass. Where they do not, the population
    /// and the store stay as they were.
    fn try_advance_epoch(
        &mut self,
        db: &mut DB,
        epoch: usize,
        best_or_rand: &str,
        difference_vector_count: usize,
        f_scale: i64,
        crossover_rate: i64,
    ) -> (outcome: Result<(), RunError>)
        ensures
            final(self).encoding() == old(self).encoding(),
            final(self).store_name() == old(self).store_name(),
            outcome is Ok == (all_numeric(db_rows(*old(db))) && runnable(
                old(self).members(),
                epoch,
                best_or_rand@,
                difference_vector_count,
                f_scale,
                crossover_rate,
            )),
            outcome is Ok ==> final(db).sound() && old(db).entries().submap_of(final(db).entries())
                && ran(
                    &old(self).encoding(),
                    true,
                    plan_of(best_or_rand@, difference_vector_count, f_scale, crossover_rate),
                    epoch,
                    old(self).members(),
                    old(db).entries(),
                    final(self).members(),
                    final(db).entries(),
                ),
            outcome matches Err(error) ==> {
                &&& final(self).members() == old(self).members()
                &&& db_rows(*final(db)) == db_rows(*old(db))
                &&& error == RunError::CorruptStore <==> !all_numeric(db_rows(*old(db)))
                &&& error != RunError::CorruptStore ==> vetted(
                    old(self).members(),
                    epoch,
                    best_or_rand@,
                    difference_vector_count,
                    f_scale,
                    crossover_rate,
                    Err(error),
                )
            },
    ;

    /// Settles the candidate at `slot` through the store if it has no
    /// score yet, and tells whether the store took a new key.
    fn settle_at(&mut self, db: &mut DB, slot: usize) -> (fresh: bool)
        requires
            old(db).sound(),
            slot < old(self).members().len(),
        ensures
            final(self).encoding() == old(self).encoding(),
            final(self).store_name() == old(self).store_name(),
            final(db).sound(),
            old(db).entries().submap_of(final(db).entries()),
            settled_at(
                &old(self).encoding(),
                true,
                old(db).entries(),
                final(db).entries(),
                old(self).members(),
                final(self).members(),
                slot as int,
                fresh,
            ),
    ;

    /// Takes the candidate at `slot` through one generation, through the
    /// store, and hands out the survivor: the candidates stay as they were.
    /// The flag tells whether the store took a new key.
    fn evolve_slot(
        &mut self,
        db: &mut DB,
        slot: usize,
        best_or_rand: &str,
        difference_vector_count: usize,
        f_scale: i64,
        crossover_rate: i64,
    ) -> (outcome: (Individual, bool))
        requires
            old(db).sound(),
            slot < old(self).members().len(),
            runnable(
                old(self).members(),
                1,
                best_or_rand@,
                difference_vector_count,
                f_scale,
                crossover_rate,
            ),
        ensures
            final(self).encoding() == old(self).encoding(),
            final(self).store_name() == old(self).store_name(),
            final(self).members() == old(self).members(),
            final(db).sound(),
            old(db).entries().submap_of(final(db).entries()),
            stepped(
                &old(self).encoding(),
                true,
                plan_of(best_or_rand@, difference_vector_count, f_scale, crossover_rate),
                old(self).members(),
                slot as int,
                old(db).entries(),
                final(db).entries(),
                outcome.0@,
                outcome.1,
            ),
    ;

    /// The lines of the store, each a key followed by its row, worst score
    /// first and best last. The first candidate is decoded to learn how
    /// many texts make a key. Gives none unless every line ends in scores
    /// after that many texts.
    fn get_sorted_db(&self, db: &DB) -> (outcome: Option<Vec<Vec<String>>>)
        requires
            self.members().len() > 0,
        ensures
            exists|features: Seq<i64>|
                #![trigger decodes_to(&self.encoding(), self.members()[0].genes, features)]
                decodes_to(&self.encoding(), self.members()[0].genes, features) && listed(
                    db_rows(*db),
                    features.len() as int,
                    outcome,
                ),
    ;
}

impl<INDIVIDUAL: Minimum> Specific<INDIVIDUAL> for Population<INDIVIDUAL> {
    closed spec fn store_name(&self) -> Seq<char> {
        self.db_name@
    }

    fn new(db_name: &str) -> (population: Self) {
        Population { colony: Colony::of(Vec::new()), db_name: db_name.to_owned() }
    }

    fn new_from_individuals(individuals: Vec<Individual>, db_name: &str) -> (population: Self) {
        Population { colony: Colony::of(individuals), db_name: db_name.to_owned() }
    }

    fn new_from_shape(
        individuals_len: usize,
        genes_len: usize,
        db_name: &str,
        random_seed: u64,
    ) -> (population: Self) {
        Population {
            colony: Colony::of_shape(individuals_len, genes_len, random_seed),
            db_name: db_name.to_owned(),
        }
    }

    fn get_db_name(&self) -> (db_name: &str) {
        self.db_name.as_str()
    }

    fn set_random_seed(&mut self, random_seed: u64) {
        self.colony.stream = seeded(random_seed);
    }

    fn advance_epoch(
        &mut self,
        db: &mut DB,
        epoch: usize,
        best_or_rand: &str,
        difference_vector_count: usize,
        f_scale: i64,
        crossover_rate: i64,
    ) {
        self.colony.advance(
            db,
            epoch,
            best_or_rand,
            difference_vector_count,
            f_scale,
            crossover_rate,
        );
    }

    fn try_advance_epoch(
        &mut self,
        db: &mut DB,
        epoch: usize,
        best_or_rand: &str,
        difference_vector_count: usize,
        f_scale: i64,
        crossover_rate: i64,
    ) -> (outcome: Result<(), RunError>) {
        if !audit(db) {
            return Err(RunError::CorruptStore);
        }
        self.colony.try_advance(
            db,
            epoch,
            best_or_rand,
            difference_vector_count,
            f_scale,
            crossover_rate,
        )
    }

    fn settle_at(&mut self, db: &mut DB, slot: usize) -> (fresh: bool) {
        self.colony.settle_at(db, slot)
    }

    fn evolve_slot(
        &mut self,
        db: &mut DB,
        slot: usize,
        best_or_rand: &str,
        difference_vector_count: usize,
        f_scale: i64,
        crossover_rate: i64,
    ) -> (outcome: (Individual, bool)) {
        let plan = vet(
            &self.colony.individuals,
            1,
            best_or_rand,
            difference_vector_count,
            f_scale,
            crossover_rate,
        );
        match plan {
            Ok(plan) => self.colony.evolve_at(db, slot, &plan),
            Err(_) => (Individual::from_genes(Vec::new()), false),
        }
    }

    fn get_sorted_db(&self, db: &DB) -> (outcome: Option<Vec<Vec<String>>>) {
        assert(self.members()[0] == self.colony.individuals[0]@);
        let features = self.colony.problem.identificate(&self.colony.individuals[0].genes);
        let outcome = sorted_lines(db, features.len());
        assert(decodes_to(&self.encoding(), self.members()[0].genes, features@));
        outcome
    }
}

} // verus!
