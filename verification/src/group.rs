//! A population with its random stream, its problem and its memo.

use vstd::prelude::*;
use rand::rngs::StdRng;
use crate::evolution::best_index;
use crate::evolution::Colony;
use crate::evolution::draw_population;
use crate::evolution::fresh;
use crate::evolution::is_best;
use crate::evolution::is_mutant;
use crate::evolution::make_mutant;
use crate::evolution::named_strategy;
use crate::evolution::Plan;
use crate::evolution::plan_of;
use crate::evolution::ran;
use crate::evolution::run;
use crate::evolution::RunError;
use crate::evolution::settled_at;
use crate::evolution::Strategy;
use crate::evolution::strategy_named;
use crate::evolution::stepped;
use crate::evolution::vet;
use crate::evolution::vetted;
use crate::evolution::workable;
use crate::individual::ExtMinimum as IndividualExt;
use crate::individual::Individual;
use crate::individual::Portrait;
use crate::individual::portraits;
use crate::individual;
use crate::ledger::absorbed;
use crate::ledger::Blank;
use crate::ledger::Ledger;
use crate::ledger::lines_of;
use crate::ledger::load_outcome;
use crate::ledger::LoadError;
use crate::ledger::Memo;
use crate::ledger::records_text;
use crate::operators::distinct_below;
use crate::operators::draw_offsets;
use crate::operators::select_indexes;
use crate::random::draw_seed;
use crate::random::seeded;
use crate::random::seeded_stream;
use crate::ranking::best_first_order;
use crate::scalar::all_genes;

verus! {

/// A population of candidates for the problem `I`, with the random stream
/// that every draw comes from and the memo of the scores seen so far.
pub struct Group<I: individual::Minimum> {
    colony: Colony<I>,
    memo: Memo,
}

/// The parts of a group.
pub trait Minimum<I: individual::Minimum>: Sized {
    /// The candidates, in order.
    spec fn members(&self) -> Seq<Portrait>;

    /// The memo of scores.
    spec fn cache(&self) -> Memo;

    /// The problem that decodes and scores the candidates.
    spec fn encoding(&self) -> I;

    /// The random stream that the next draw comes from.
    spec fn stream(&self) -> StdRng;

    /// An empty group with a fresh problem, whose stream is seeded with 0.
    fn new() -> (group: Self)
        ensures
            group.members().len() == 0,
            group.stream() == seeded_stream(0),
            group.cache().well_formed(),
            group.cache()@ == Map::<Seq<char>, Seq<i64>>::empty(),
    ;

    /// Replaces the candidates.
    fn set_individuals(&mut self, individuals: Vec<Individual>)
        ensures
            final(self).members() == portraits(individuals@),
            final(self).stream() == old(self).stream(),
            final(self).cache() == old(self).cache(),
            final(self).encoding() == old(self).encoding(),
    ;

    /// The candidates.
    fn get_individuals(&self) -> (individuals: &Vec<Individual>)
        ensures
            portraits(individuals@) == self.members(),
    ;

    /// Replaces the random stream by the one given.
    fn set_random_generator(&mut self, random_generator: StdRng)
        ensures
            final(self).stream() == random_generator,
            final(self).members() == old(self).members(),
            final(self).cache() == old(self).cache(),
            final(self).encoding() == old(self).encoding(),
    ;

    /// The random stream, to draw from: what the caller leaves in it is
    /// the stream of the group from then on.
    fn borrowed_random_generator(&mut self) -> (stream: &mut StdRng)
        ensures
            *stream == old(self).stream(),
            final(self).stream() == *final(stream),
            final(self).members() == old(self).members(),
            final(self).cache() == old(self).cache(),
            final(self).encoding() == old(self).encoding(),
    ;
}

impl<I: individual::Minimum> Minimum<I> for Group<I> {
    closed spec fn members(&self) -> Seq<Portrait> {
        self.colony.members()
    }

    closed spec fn cache(&self) -> Memo {
        self.memo
    }

    closed spec fn encoding(&self) -> I {
        self.colony.problem
    }

    closed spec fn stream(&self) -> StdRng {
        self.colony.stream
    }

    fn new() -> (group: Self) {
        Group { colony: Colony::of(Vec::new()), memo: Memo::new() }
    }

    fn set_individuals(&mut self, individuals: Vec<Individual>) {
        self.colony.individuals = individuals;
    }

    fn get_individuals(&self) -> (individuals: &Vec<Individual>) {
        &self.colony.individuals
    }

    fn set_random_generator(&mut self, random_generator: StdRng) {
        self.colony.stream = random_generator;
    }

    fn borrowed_random_generator(&mut self) -> (stream: &mut StdRng) {
        &mut self.colony.stream
    }
}

impl<I: individual::Minimum> Group<I> {
    /// Vets the settings of a run against the candidates.
    pub(crate) fn plan_for(
        &self,
        epoch: usize,
        best_or_rand: &str,
        difference_vector_count: usize,
        f_scale: i64,
        crossover_rate: i64,
    ) -> (outcome: Result<Plan, RunError>)
        ensures
            vetted(
                self.members(),
                epoch,
                best_or_rand@,
                difference_vector_count,
                f_scale,
                crossover_rate,
                outcome,
            ),
    {
        vet(
            &self.colony.individuals,
            epoch,
            best_or_rand,
            difference_vector_count,
            f_scale,
            crossover_rate,
        )
    }

    /// Settles the candidate at `slot` through the memo.
    pub(crate) fn settle_memoized(&mut self, slot: usize) -> (fresh: bool)
        requires
            old(self).cache().well_formed(),
            slot < old(self).members().len(),
        ensures
            final(self).encoding() == old(self).encoding(),
            final(self).cache().well_formed(),
            old(self).cache().entries().submap_of(final(self).cache().entries()),
            settled_at(
                &old(self).encoding(),
                true,
                old(self).cache().entries(),
                final(self).cache().entries(),
                old(self).members(),
                final(self).members(),
                slot as int,
                fresh,
            ),
    {
        self.colony.settle_at(&mut self.memo, slot)
    }

    /// Takes the candidate at `slot` through a generation, through the memo.
    pub(crate) fn evolve_memoized(&mut self, slot: usize, plan: &Plan) -> (outcome: (
        Individual,
        bool,
    ))
        requires
            old(self).cache().well_formed(),
            slot < old(self).members().len(),
            workable(old(self).members(), *plan),
            old(self).members()[0].genes.len() > 0,
        ensures
            final(self).encoding() == old(self).encoding(),
            final(self).members() == old(self).members(),
            final(self).cache().well_formed(),
            old(self).cache().entries().submap_of(final(self).cache().entries()),
            stepped(
                &old(self).encoding(),
                true,
                *plan,
                old(self).members(),
                slot as int,
                old(self).cache().entries(),
                final(self).cache().entries(),
                outcome.0@,
                outcome.1,
            ),
    {
        self.colony.evolve_at(&mut self.memo, slot, plan)
    }

    /// Runs the plan for `epoch` generations, asking the problem for every score.
    pub(crate) fn run_plain(&mut self, epoch: usize, plan: &Plan)
        requires
            epoch > 0 && old(self).members().len() > 0 ==> workable(old(self).members(), *plan)
                && old(self).members()[0].genes.len() > 0,
        ensures
            final(self).encoding() == old(self).encoding(),
            final(self).cache() == old(self).cache(),
            ran(
                &old(self).encoding(),
                false,
                *plan,
                epoch,
                old(self).members(),
                Map::empty(),
                final(self).members(),
                Map::empty(),
            ),
    {
        let mut ledger = Blank;
        run(
            &self.colony.problem,
            &mut ledger,
            &mut self.colony.individuals,
            &mut self.colony.stream,
            epoch,
            plan,
        );
        assert(ledger.entries() =~= Map::<Seq<i64>, Seq<i64>>::empty());
    }

    /// Runs the plan for `epoch` generations through the memo.
    pub(crate) fn run_memoized(&mut self, epoch: usize, plan: &Plan)
        requires
            old(self).cache().well_formed(),
            epoch > 0 && old(self).members().len() > 0 ==> workable(old(self).members(), *plan)
                && old(self).members()[0].genes.len() > 0,
        ensures
            final(self).encoding() == old(self).encoding(),
            final(self).cache().well_formed(),
            old(self).cache().entries().submap_of(final(self).cache().entries()),
            ran(
                &old(self).encoding(),
                true,
                *plan,
                epoch,
                old(self).members(),
                old(self).cache().entries(),
                final(self).members(),
                final(self).cache().entries(),
            ),
    {
        run(
            &self.colony.problem,
            &mut self.memo,
            &mut self.colony.individuals,
            &mut self.colony.stream,
            epoch,
            plan,
        );
    }
}

/// What a group can do with its candidates and its stream.
pub trait ExtMinimum<I: individual::Minimum>: Minimum<I> {
    /// Starts the random stream anew from a seed: whatever was drawn
    /// before, the stream is the one that the seed starts.
    fn set_random_seed(&mut self, random_seed: u64)
        ensures
            final(self).stream() == seeded_stream(random_seed),
            final(self).members() == old(self).members(),
            final(self).cache() == old(self).cache(),
            final(self).encoding() == old(self).encoding(),
    ;

    /// A group of the given candidates, with an empty memo. Its stream is
    /// seeded with a number drawn from `random_generator`.
    fn from_individuals(individuals: Vec<Individual>, random_generator: StdRng) -> (group: Self)
        ensures
            group.members() == portraits(individuals@),
            exists|seed: u64| group.stream() == seeded_stream(seed),
            group.cache().well_formed(),
            group.cache()@ == Map::<Seq<char>, Seq<i64>>::empty(),
    ;

    /// A group of `individuals_len` candidates with `gene_len` genes each,
    /// drawn from a stream that `random_seed` starts. No candidate has a
    /// score. The stream of the group is seeded with a number drawn after
    /// the last gene.
    fn from_shape(individuals_len: usize, gene_len: usize, random_seed: u64) -> (group: Self)
        ensures
            fresh(group.members(), individuals_len as nat, gene_len as nat),
            exists|seed: u64| group.stream() == seeded_stream(seed),
            group.cache().well_formed(),
            group.cache()@ == Map::<Seq<char>, Seq<i64>>::empty(),
    ;

    /// The best candidate and its place. Among candidates with equal scores
    /// the last one is the best.
    fn get_best(&self) -> (best: (usize, &Individual))
        requires
            self.members().len() > 0,
        ensures
            is_best(self.members(), best.0 as int),
            best.1@ == self.members()[best.0 as int],
    ;

    /// The number of genes of the first candidate.
    fn get_gene_len(&self) -> (length: usize)
        requires
            self.members().len() > 0,
        ensures
            length == self.members()[0].genes.len(),
    ;
}

impl<I: individual::Minimum> ExtMinimum<I> for Group<I> {
    fn set_random_seed(&mut self, random_seed: u64) {
        self.set_random_generator(seeded(random_seed));
    }

    fn from_individuals(individuals: Vec<Individual>, random_generator: StdRng) -> (group: Self) {
        let mut random_generator = random_generator;
        let mut group = Self::new();
        let seed = draw_seed(&mut random_generator);
        group.set_individuals(individuals);
        group.set_random_seed(seed);
        group
    }

    fn from_shape(individuals_len: usize, gene_len: usize, random_seed: u64) -> (group: Self) {
        let mut stream = seeded(random_seed);
        let individuals = draw_population(individuals_len, gene_len, &mut stream);
        Self::from_individuals(individuals, stream)
    }

    fn get_best(&self) -> (best: (usize, &Individual)) {
        let place = best_index(&self.colony.individuals);
        (place, &self.colony.individuals[place])
    }

    fn get_gene_len(&self) -> (length: usize) {
        self.colony.individuals[0].genes.len()
    }
}

/// A group as a snapshot: the candidates alone. The random stream and the
/// memo are no part of it, so a group restored from one starts with an
/// empty memo and a stream that a seed of its own starts.
pub trait ExtSaveGroup<I: individual::Minimum>: Minimum<I> {
    /// A copy of the candidates, to be written out.
    fn snapshot(&self) -> (individuals: Vec<Individual>)
        ensures
            portraits(individuals@) == self.members(),
    ;

    /// A group of the candidates that were read back, with a stream that
    /// `random_seed` starts.
    fn restore(individuals: Vec<Individual>, random_seed: u64) -> (group: Self)
        ensures
            group.members() == portraits(individuals@),
            group.stream() == seeded_stream(random_seed),
            group.cache().well_formed(),
            group.cache()@ == Map::<Seq<char>, Seq<i64>>::empty(),
    ;
}

impl<I: individual::Minimum> ExtSaveGroup<I> for Group<I> {
    fn snapshot(&self) -> (individuals: Vec<Individual>) {
        let mut individuals: Vec<Individual> = Vec::new();
        let mut i: usize = 0;
        while i < self.colony.individuals.len()
            invariant
                i <= self.colony.individuals.len(),
                individuals.len() == i,
                forall|j: int| 0 <= j < i ==> (#[trigger] individuals[j])@ == self.colony.individuals[j]@,
            decreases self.colony.individuals.len() - i,
        {
            individuals.push(self.colony.individuals[i].clone());
            i += 1;
        }
        assert(portraits(individuals@) =~= self.members());
        individuals
    }

    fn restore(individuals: Vec<Individual>, random_seed: u64) -> (group: Self) {
        let mut group = Self::new();
        group.set_individuals(individuals);
        group.set_random_seed(random_seed);
        group
    }
}

/// Access to the memo of a group.
pub trait Memoization<I: individual::Minimum>: Minimum<I> {
    /// The memo, to change.
    fn memo_as_mut(&mut self) -> (memo: &mut Memo)
        ensures
            *memo == old(self).cache(),
            final(self).cache() == *final(memo),
            final(self).members() == old(self).members(),
            final(self).stream() == old(self).stream(),
            final(self).encoding() == old(self).encoding(),
    ;

    /// The memo, to read.
    fn memo_as_ref(&self) -> (memo: &Memo)
        ensures
            *memo == self.cache(),
    ;
}

impl<I: individual::Minimum> Memoization<I> for Group<I> {
    fn memo_as_mut(&mut self) -> (memo: &mut Memo) {
        &mut self.memo
    }

    fn memo_as_ref(&self) -> (memo: &Memo) {
        &self.memo
    }
}

/// The memo of a group as text and in order.
pub trait ExtMemoization<I: individual::Minimum>: Memoization<I> {
    /// The text to save the memo as: one record on each line, in the order
    /// in which the keys came.
    fn save_memo_to_csv(&self) -> (content: String)
        requires
            self.cache().well_formed(),
        ensures
            content@ == records_text(
                self.cache()@,
                self.cache().order(),
                self.cache().order().len(),
            ),
    ;

    /// Reads saved text into the memo, line by line. Unless every line is a
    /// record, nothing is read.
    fn load_memo_from_csv(&mut self, content: &str) -> (outcome: Result<(), LoadError>)
        requires
            old(self).cache().well_formed(),
        ensures
            final(self).cache().well_formed(),
            final(self).members() == old(self).members(),
            final(self).stream() == old(self).stream(),
            final(self).encoding() == old(self).encoding(),
            load_outcome(content@, outcome),
            outcome is Ok ==> final(self).cache()@ == absorbed(
                old(self).cache()@,
                lines_of(content@),
                lines_of(content@).len(),
            ),
            outcome is Err ==> final(self).cache()@ == old(self).cache()@,
    ;

    /// The records of the memo, best score first.
    fn get_sorted_memo(&self) -> (records: Vec<(String, Vec<i64>)>)
        requires
            self.cache().well_formed(),
        ensures
            records.len() == self.cache().order().len(),
            best_first_order(records@),
            forall|i: int|
                0 <= i < records.len() ==> self.cache()@.dom().contains((#[trigger] records[i]).0@)
                    && records[i].1@ == self.cache()@[records[i].0@],
            forall|key: Seq<char>|
                self.cache()@.dom().contains(key) ==> exists|i: int|
                    0 <= i < records.len() && (#[trigger] records[i]).0@ == key,
    ;
}

impl<I: individual::Minimum> ExtMemoization<I> for Group<I> {
    fn save_memo_to_csv(&self) -> (content: String) {
        self.memo.to_csv()
    }

    fn load_memo_from_csv(&mut self, content: &str) -> (outcome: Result<(), LoadError>) {
        self.memo.load_csv(content)
    }

    fn get_sorted_memo(&self) -> (records: Vec<(String, Vec<i64>)>) {
        self.memo.sorted()
    }
}

/// The draws that mutation is made of.
pub trait BaseDE<I: individual::Minimum>: ExtMinimum<I> {
    /// Draws `count` different places of candidates.
    fn choice_factor_indexes(&mut self, count: usize) -> (indexes: Vec<usize>)
        requires
            count < old(self).members().len(),
        ensures
            indexes.len() == count,
            distinct_below(indexes@, old(self).members().len()),
            final(self).members() == old(self).members(),
            final(self).cache() == old(self).cache(),
            final(self).encoding() == old(self).encoding(),
    ;

    /// Makes a mutant: a base candidate moved by `f_scale` times the sum of
    /// `difference_vector_count` differences between candidates, each gene
    /// clamped into its range. Under `"best"` the base is the best candidate,
    /// under `"rand"` it is drawn. The mutant has genes alone.
    fn de_mutate(&mut self, best_or_rand: &str, difference_vector_count: usize, f_scale: i64) -> (mutant:
        Individual)
        requires
            named_strategy(best_or_rand@) is Some,
            workable(
                old(self).members(),
                plan_of(best_or_rand@, difference_vector_count, f_scale, 0),
            ),
        ensures
            is_mutant(
                old(self).members(),
                plan_of(best_or_rand@, difference_vector_count, f_scale, 0),
                mutant.genes@,
            ),
            mutant.genes.len() == old(self).members()[0].genes.len(),
            all_genes(mutant.genes@),
            mutant.features.len() == 0,
            mutant.evaluations.len() == 0,
            final(self).members() == old(self).members(),
            final(self).cache() == old(self).cache(),
            final(self).encoding() == old(self).encoding(),
    ;
}

impl<I: individual::Minimum> BaseDE<I> for Group<I> {
    fn choice_factor_indexes(&mut self, count: usize) -> (indexes: Vec<usize>) {
        let size = self.colony.individuals.len();
        let offsets = draw_offsets(&mut self.colony.stream, size, count);
        select_indexes(size, &offsets)
    }

    fn de_mutate(&mut self, best_or_rand: &str, difference_vector_count: usize, f_scale: i64) -> (mutant:
        Individual) {
        let strategy = match strategy_named(best_or_rand) {
            Some(strategy) => strategy,
            None => Strategy::Rand,
        };
        let plan = Plan { strategy, pairs: difference_vector_count, factor: f_scale, rate: 0 };
        assert(self.members()[0] == self.colony.individuals[0]@);
        let genes = make_mutant(&self.colony.individuals, &mut self.colony.stream, &plan);
        Individual::from_genes(genes)
    }
}

} // verus!
