//! Running generations on a group, with and without its memo.

use vstd::prelude::*;
use crate::evolution::plan_of;
use crate::evolution::ran;
use crate::evolution::RunError;
use crate::evolution::runnable;
use crate::evolution::settled_at;
use crate::evolution::stepped;
use crate::evolution::vetted;
use crate::group::Group;
use crate::group::Minimum as GroupParts;
use crate::individual::ExtMinimum;
use crate::individual::Individual;
use crate::individual::Minimum;
use crate::ledger::Ledger;

verus! {

/// Differential evolution that asks the problem for every score.
pub trait ExtDefaultDE<I: Minimum>: GroupParts<I> {
    /// Settles the candidates without a score, then runs `epoch`
    /// generations: each candidate is crossed with a mutant, the trial is
    /// scored by the problem, and the better of the two stays in the slot,
    /// the candidate on a tie. The memo is not used.
    fn advance_epoch(
        &mut self,
        epoch: usize,
        best_or_rand: &str,
        difference_vector_count: usize,
        f_scale: i64,
        crossover_rate: i64,
    )
        requires
            runnable(
                old(self).members(),
                epoch,
                best_or_rand@,
                difference_vector_count,
                f_scale,
                crossover_rate,
            ),
        ensures
            final(self).encoding() == old(self).encoding(),
            final(self).cache() == old(self).cache(),
            ran(
                &old(self).encoding(),
                false,
                plan_of(best_or_rand@, difference_vector_count, f_scale, crossover_rate),
                epoch,
                old(self).members(),
                Map::empty(),
                final(self).members(),
                Map::empty(),
            ),
    ;

    /// Vets the settings first and runs `advance_epoch` where they pass.
    /// Where they do not, the group stays as it was.
    fn try_advance_epoch(
        &mut self,
        epoch: usize,
        best_or_rand: &str,
        difference_vector_count: usize,
        f_scale: i64,
        crossover_rate: i64,
    ) -> (outcome: Result<(), RunError>)
        ensures
            final(self).encoding() == old(self).encoding(),
            final(self).cache() == old(self).cache(),
            outcome is Ok == runnable(
                old(self).members(),
                epoch,
                best_or_rand@,
                difference_vector_count,
                f_scale,
                crossover_rate,
            ),
            outcome is Ok ==> ran(
                &old(self).encoding(),
                false,
                plan_of(best_or_rand@, difference_vector_count, f_scale, crossover_rate),
                epoch,
                old(self).members(),
                Map::empty(),
                final(self).members(),
                Map::empty(),
            ),
            outcome matches Err(error) ==> final(self).members() == old(self).members() && vetted(
                old(self).members(),
                epoch,
                best_or_rand@,
                difference_vector_count,
                f_scale,
                crossover_rate,
                Err(error),
            ),
    ;
}

/// Differential evolution that looks every feature vector up in the memo
/// before it asks the problem.
pub trait ExtMemoizationDE<I: Minimum>: GroupParts<I> {
    /// Settles the candidates without a score, then runs `epoch`
    /// generations as `ExtDefaultDE` does, but through the memo: a feature
    /// vector whose text is a key of the memo takes the score found there,
    /// and every score that the problem gives is put into the memo.
    fn advance_epoch(
        &mut self,
        epoch: usize,
        best_or_rand: &str,
        difference_vector_count: usize,
        f_scale: i64,
        crossover_rate: i64,
    )
        requires
            old(self).cache().well_formed(),
            runnable(
                old(self).members(),
                epoch,
                best_or_rand@,
                difference_vector_count,
                f_scale,
                crossover_rate,
            ),
        ensures
            final(self).encoding() == old(self).encoding(),
            final(self).cache().well_formed(),
            old(self).cache().entries().submap_of(final(self).cache().entries()),
            ran(
                &old(self).encoding(),
                true,
                plan_of(best_or_rand@, difference_vector_count, f_scale, crossover_rate),
                epoch,
                old(self).members(),
                old(self).cache().entries(),
                final(self).members(),
                final(self).cache().entries(),
            ),
    ;

    /// Vets the settings first and runs `advance_epoch` where they pass.
    /// Where they do not, the group stays as it was.
    fn try_advance_epoch(
        &mut self,
        epoch: usize,
        best_or_rand: &str,
        difference_vector_count: usize,
        f_scale: i64,
        crossover_rate: i64,
    ) -> (outcome: Result<(), RunError>)
        requires
            old(self).cache().well_formed(),
        ensures
            final(self).encoding() == old(self).encoding(),
            final(self).cache().well_formed(),
            old(self).cache().entries().submap_of(final(self).cache().entries()),
            outcome is Ok == runnable(
                old(self).members(),
                epoch,
                best_or_rand@,
                difference_vector_count,
                f_scale,
                crossover_rate,
            ),
            outcome is Ok ==> ran(
                &old(self).encoding(),
                true,
                plan_of(best_or_rand@, difference_vector_count, f_scale, crossover_rate),
                epoch,
                old(self).members(),
                old(self).cache().entries(),
                final(self).members(),
                final(self).cache().entries(),
            ),
            outcome matches Err(error) ==> final(self).members() == old(self).members() && final(self).cache() == old(self).cache() && vetted(
                old(self).members(),
                epoch,
                best_or_rand@,
                difference_vector_count,
                f_scale,
                crossover_rate,
                Err(error),
            ),
    ;
}

/// One slot at a time, for a caller that saves the memo between steps.
pub trait ExtMemoizationSteps<I: Minimum>: GroupParts<I> {
    /// Settles the candidate at `slot` through the memo if it has no score
    /// yet, and tells whether the memo took a new key.
    fn settle_at(&mut self, slot: usize) -> (fresh: bool)
        requires
            old(self).cache().well_formed(),
            slot < old(self).members().len(),
        ensures
            final(self).encoding() == old(self).encoding(),
            final(self).cache().well_formed(),
            old(self).cache().entries().submap_of(final(self).cache().entries()),
            settled_at(
                &old(self).encoding(),
                true,
                old(self).cache().entries(),
                final(self).cache().entries(),
                old(self).members(),
                final(self).members(),
                slot as int,
                fresh,
            ),
    ;

    /// Takes the candidate at `slot` through one generation, through the
    /// memo, and hands out the survivor: the candidates stay as they were.
    /// The flag tells whether the memo took a new key.
    fn evolve_slot(
        &mut self,
        slot: usize,
        best_or_rand: &str,
        difference_vector_count: usize,
        f_scale: i64,
        crossover_rate: i64,
    ) -> (outcome: (Individual, bool))
        requires
            old(self).cache().well_formed(),
            slot < old(self).members().len(),
            runnable(
                old(self).members(),
                1,
                best_or_rand@,
                difference_vector_count,
                f_scale,
                crossover_rate,
            ),
        ensures
            final(self).encoding() == old(self).encoding(),
            final(self).members() == old(self).members(),
            final(self).cache().well_formed(),
            old(self).cache().entries().submap_of(final(self).cache().entries()),
            stepped(
                &old(self).encoding(),
                true,
                plan_of(best_or_rand@, difference_vector_count, f_scale, crossover_rate),
                old(self).members(),
                slot as int,
                old(self).cache().entries(),
                final(self).cache().entries(),
                outcome.0@,
                outcome.1,
            ),
    ;
}

impl<I: Minimum> ExtMemoizationSteps<I> for Group<I> {
    fn settle_at(&mut self, slot: usize) -> (fresh: bool) {
        self.settle_memoized(slot)
    }

    fn evolve_slot(
        &mut self,
        slot: usize,
        best_or_rand: &str,
        difference_vector_count: usize,
        f_scale: i64,
        crossover_rate: i64,
    ) -> (outcome: (Individual, bool)) {
        let plan = self.plan_for(1, best_or_rand, difference_vector_count, f_scale, crossover_rate);
        match plan {
            Ok(plan) => self.evolve_memoized(slot, &plan),
            Err(_) => (Individual::from_genes(Vec::new()), false),
        }
    }
}

impl<I: Minimum> ExtDefaultDE<I> for Group<I> {
    fn advance_epoch(
        &mut self,
        epoch: usize,
        best_or_rand: &str,
        difference_vector_count: usize,
        f_scale: i64,
        crossover_rate: i64,
    ) {
        let plan = self.plan_for(
            epoch,
            best_or_rand,
            difference_vector_count,
            f_scale,
            crossover_rate,
        );
        match plan {
            Ok(plan) => {
                self.run_plain(epoch, &plan);
            },
            Err(_) => {},
        }
    }

    fn try_advance_epoch(
        &mut self,
        epoch: usize,
        best_or_rand: &str,
        difference_vector_count: usize,
        f_scale: i64,
        crossover_rate: i64,
    ) -> (outcome: Result<(), RunError>) {
        let plan = self.plan_for(
            epoch,
            best_or_rand,
            difference_vector_count,
            f_scale,
            crossover_rate,
        );
        match plan {
            Ok(plan) => {
                self.run_plain(epoch, &plan);
                Ok(())
            },
            Err(error) => Err(error),
        }
    }
}

impl<I: Minimum> ExtMemoizationDE<I> for Group<I> {
    fn advance_epoch(
        &mut self,
        epoch: usize,
        best_or_rand: &str,
        difference_vector_count: usize,
        f_scale: i64,
        crossover_rate: i64,
    ) {
        let plan = self.plan_for(
            epoch,
            best_or_rand,
            difference_vector_count,
            f_scale,
            crossover_rate,
        );
        match plan {
            Ok(plan) => {
                self.run_memoized(epoch, &plan);
            },
            Err(_) => {
                proof {
                    vstd::map_lib::lemma_submap_of_trans(
                        self.cache().entries(),
                        self.cache().entries(),
                        self.cache().entries(),
                    );
                }
            },
        }
    }

    fn try_advance_epoch(
        &mut self,
        epoch: usize,
        best_or_rand: &str,
        difference_vector_count: usize,
        f_scale: i64,
        crossover_rate: i64,
    ) -> (outcome: Result<(), RunError>) {
        let plan = self.plan_for(
            epoch,
            best_or_rand,
            difference_vector_count,
            f_scale,
            crossover_rate,
        );
        match plan {
            Ok(plan) => {
                self.run_memoized(epoch, &plan);
                Ok(())
            },
            Err(error) => Err(error),
        }
    }
}

} // verus!
