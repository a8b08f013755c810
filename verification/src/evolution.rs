//! One generation after another: breeding a trial for each candidate,
//! scoring it through a ledger, and keeping the better of the two.

use vstd::prelude::*;
use rand::rngs::StdRng;
use crate::individual::decodes_to;
use crate::individual::ExtMinimum;
use crate::individual::Individual;
use crate::individual::Minimum;
use crate::individual::Portrait;
use crate::individual::portraits;
use crate::individual::scores_as;
use crate::individual::uniform_length;
use crate::ledger::Ledger;
use crate::operators::compete;
use crate::operators::distinct_below;
use crate::operators::draw_offsets;
use crate::operators::force_best;
use crate::operators::is_trial;
use crate::operators::lemma_trial_genes;
use crate::operators::make_trial;
use crate::operators::unit_variates;
use crate::operators::winner;
use crate::operators::mutant_genes;
use crate::operators::mutate;
use crate::operators::names_members;
use crate::operators::select_indexes;
use crate::random::seeded;
use crate::random::seeded_stream;
use crate::ranking::holds_against;
use crate::ranking::is_ahead;
use crate::ranking::outranks;
use crate::scalar::all_genes;

verus! {

/// Where the base of a mutant comes from.
#[derive(Debug, Clone, Copy, PartialEq, Eq, Structural)]
pub enum Strategy {
    /// The base is drawn like every other index.
    Rand,
    /// The base is the best candidate of the generation.
    Best,
}

/// The strategy that a name stands for: `"rand"` or `"best"`.
pub open spec fn named_strategy(name: Seq<char>) -> Option<Strategy> {
    if name == "rand"@ {
        Some(Strategy::Rand)
    } else if name == "best"@ {
        Some(Strategy::Best)
    } else {
        None
    }
}

/// Reads a strategy from its name.
pub fn strategy_named(name: &str) -> (strategy: Option<Strategy>)
    ensures
        strategy == named_strategy(name@),
{
    let owned = name.to_owned();
    if owned == "rand".to_owned() {
        Some(Strategy::Rand)
    } else if owned == "best".to_owned() {
        Some(Strategy::Best)
    } else {
        None
    }
}

/// The settings of a run.
#[derive(Debug, Clone, Copy)]
pub struct Plan {
    /// Where the base of each mutant comes from.
    pub strategy: Strategy,
    /// The number of difference pairs that move the base.
    pub pairs: usize,
    /// The scale of the differences, in ticks of one whole.
    pub factor: i64,
    /// The crossover rate, in ticks of one whole.
    pub rate: i64,
}

/// The plan that the settings of a run make. A name that is no strategy
/// stands for `Rand`; no run is started on such a plan.
pub open spec fn plan_of(
    best_or_rand: Seq<char>,
    difference_vector_count: usize,
    f_scale: i64,
    crossover_rate: i64,
) -> Plan {
    Plan {
        strategy: match named_strategy(best_or_rand) {
            Some(strategy) => strategy,
            None => Strategy::Rand,
        },
        pairs: difference_vector_count,
        factor: f_scale,
        rate: crossover_rate,
    }
}

/// Whether `at` names the best candidate: none is strictly better, and every
/// later one is strictly worse. Among equals the last one is the best.
pub open spec fn is_best(members: Seq<Portrait>, at: int) -> bool {
    &&& 0 <= at < members.len()
    &&& forall|j: int|
        0 <= j < members.len() ==> holds_against(
            members[at].evaluations,
            (#[trigger] members[j]).evaluations,
        )
    &&& forall|j: int|
        at < j < members.len() ==> outranks(
            members[at].evaluations,
            (#[trigger] members[j]).evaluations,
        )
}

/// There is one best candidate and no other.
pub proof fn lemma_best_unique(members: Seq<Portrait>, a: int, b: int)
    requires
        is_best(members, a),
        is_best(members, b),
    ensures
        a == b,
{
    if a < b {
        assert(outranks(members[a].evaluations, members[b].evaluations));
        assert(holds_against(members[b].evaluations, members[a].evaluations));
    } else if b < a {
        assert(outranks(members[b].evaluations, members[a].evaluations));
        assert(holds_against(members[a].evaluations, members[b].evaluations));
    }
}

/// Finds the best candidate of a population.
pub fn best_index(population: &Vec<Individual>) -> (best: usize)
    requires
        population.len() > 0,
    ensures
        is_best(portraits(population@), best as int),
{
    let ghost members = portraits(population@);
    let mut best: usize = 0;
    let mut i: usize = 1;
    proof {
        crate::ranking::lemma_outranks_irreflexive(members[0].evaluations);
    }
    while i < population.len()
        invariant
            1 <= i <= population.len(),
            best < i,
            members == portraits(population@),
            forall|j: int|
                0 <= j < i ==> holds_against(
                    members[best as int].evaluations,
                    (#[trigger] members[j]).evaluations,
                ),
            forall|j: int|
                best < j < i ==> outranks(
                    members[best as int].evaluations,
                    (#[trigger] members[j]).evaluations,
                ),
        decreases population.len() - i,
    {
        assert(members[i as int] == population[i as int]@);
        assert(members[best as int] == population[best as int]@);
        if !is_ahead(&population[best].evaluations, &population[i].evaluations) {
            proof {
                let top = members[i as int].evaluations;
                let was = members[best as int].evaluations;
                crate::ranking::lemma_outranks_irreflexive(top);
                assert forall|j: int| 0 <= j < i + 1 implies holds_against(
                    top,
                    (#[trigger] members[j]).evaluations,
                ) by {
                    if j < i {
                        crate::ranking::lemma_holds_against_transitive(
                            top,
                            was,
                            members[j].evaluations,
                        );
                    }
                }
            }
            best = i;
        } else {
            proof {
                crate::ranking::lemma_outranks_asymmetric(
                    members[best as int].evaluations,
                    members[i as int].evaluations,
                );
            }
        }
        i += 1;
    }
    best
}

/// Whether the indexes suit the plan: one base and two for each pair, all
/// different, each naming a candidate, and under the strategy `Best` the
/// base is the best candidate.
pub open spec fn fits_plan(members: Seq<Portrait>, plan: Plan, indexes: Seq<usize>) -> bool {
    &&& names_members(indexes, plan.pairs as nat, members.len())
    &&& distinct_below(indexes, members.len())
    &&& plan.strategy == Strategy::Best ==> is_best(members, indexes[0] as int)
}

/// Whether `genes` is a mutant that the plan can make of the candidates.
pub open spec fn is_mutant(members: Seq<Portrait>, plan: Plan, genes: Seq<i64>) -> bool {
    exists|indexes: Seq<usize>|
        fits_plan(members, plan, indexes) && genes == #[trigger] mutant_genes(
            members,
            indexes,
            plan.factor,
            members[0].genes.len(),
        )
}

/// What a population must be for the plan to work on it: more candidates
/// than the plan draws indexes, all with the same number of genes.
pub open spec fn workable(members: Seq<Portrait>, plan: Plan) -> bool {
    &&& 1 + 2 * plan.pairs < members.len()
    &&& uniform_length(members, members[0].genes.len())
}

/// Builds a mutant from candidates that the stream picks.
pub fn make_mutant(population: &Vec<Individual>, stream: &mut StdRng, plan: &Plan) -> (genes: Vec<
    i64,
>)
    requires
        workable(portraits(population@), *plan),
    ensures
        is_mutant(portraits(population@), *plan, genes@),
        genes.len() == population[0].genes.len(),
        all_genes(genes@),
{
    let ghost members = portraits(population@);
    let size: usize = population.len();
    let count: usize = 1 + 2 * plan.pairs;
    let offsets = draw_offsets(stream, size, count);
    let mut indexes = select_indexes(size, &offsets);
    match plan.strategy {
        Strategy::Best => {
            let best = best_index(population);
            indexes = force_best(&indexes, best);
        },
        Strategy::Rand => {},
    }
    assert(members[indexes[0] as int] == population[indexes[0] as int]@);
    assert(members[0] == population[0]@);
    let genes = mutate(population, &indexes, plan.pairs, plan.factor);
    assert(fits_plan(members, *plan, indexes@));
    genes
}

/// The scores that a ledger holds, by feature vector.
pub type Scores = Map<Seq<i64>, Seq<i64>>;

/// How a ledger relates to what it held before: nothing is lost or
/// changed, a ledger that keeps nothing holds what it held, and every new
/// record holds a score that the problem may give for its key.
pub open spec fn grown<I: Minimum>(problem: &I, keeps: bool, earlier: Scores, later: Scores) -> bool {
    &&& earlier.submap_of(later)
    &&& !keeps ==> later == earlier
    &&& forall|features: Seq<i64>|
        #![trigger later.dom().contains(features)]
        later.dom().contains(features) && !earlier.dom().contains(features) ==> scores_as(
            problem,
            features,
            later[features],
        )
}

/// What scoring a feature vector through a ledger comes to. A score that
/// the ledger holds is taken as it is, the ledger stays as it was and the
/// problem is not asked. Else the problem is asked, and a ledger that keeps
/// records takes the score under the features, while one that does not
/// stays as it was.
pub open spec fn scored<I: Minimum>(
    problem: &I,
    keeps: bool,
    earlier: Scores,
    later: Scores,
    features: Seq<i64>,
    evaluations: Seq<i64>,
    asked: bool,
) -> bool {
    &&& asked == !earlier.dom().contains(features)
    &&& !asked ==> evaluations == earlier[features] && later == earlier
    &&& asked ==> scores_as(problem, features, evaluations) && later == if keeps {
        earlier.insert(features, evaluations)
    } else {
        earlier
    }
}

/// Whether a candidate is decoded by the problem and its score resolved
/// through a ledger that held `earlier` and now holds `later`: a key that
/// the ledger held gave its stored score, any other score is one that the
/// problem may give, and a ledger that keeps records holds the score under
/// the candidate's features.
pub open spec fn resolved<I: Minimum>(
    problem: &I,
    keeps: bool,
    earlier: Scores,
    later: Scores,
    member: Portrait,
) -> bool {
    &&& decodes_to(problem, member.genes, member.features)
    &&& if earlier.dom().contains(member.features) {
        member.evaluations == earlier[member.features]
    } else {
        scores_as(problem, member.features, member.evaluations)
    }
    &&& keeps ==> later.dom().contains(member.features) && later[member.features]
        == member.evaluations
}

/// What one map holds, a map that it is part of holds too.
pub proof fn lemma_held_on(earlier: Scores, later: Scores, features: Seq<i64>)
    requires
        earlier.submap_of(later),
        earlier.dom().contains(features),
    ensures
        later.dom().contains(features),
        later[features] == earlier[features],
{
    assert(later.dom().contains(features) && earlier[features] == later[features]);
}

/// A ledger has grown from itself.
pub proof fn lemma_grown_itself<I: Minimum>(problem: &I, keeps: bool, entries: Scores)
    ensures
        grown(problem, keeps, entries, entries),
{
    assert(entries.submap_of(entries));
}

/// A ledger that grew twice has grown from what it held at first.
pub proof fn lemma_grown_chain<I: Minimum>(
    problem: &I,
    keeps: bool,
    a: Scores,
    b: Scores,
    c: Scores,
)
    requires
        grown(problem, keeps, a, b),
        grown(problem, keeps, b, c),
    ensures
        grown(problem, keeps, a, c),
{
    vstd::map_lib::lemma_submap_of_trans(a, b, c);
    assert forall|features: Seq<i64>|
        #![trigger c.dom().contains(features)]
        c.dom().contains(features) && !a.dom().contains(features) implies scores_as(
        problem,
        features,
        c[features],
    ) by {
        if b.dom().contains(features) {
            lemma_held_on(b, c, features);
        }
    }
}

/// Scoring a feature vector lets the ledger grow.
pub proof fn lemma_scored_grows<I: Minimum>(
    problem: &I,
    keeps: bool,
    earlier: Scores,
    later: Scores,
    features: Seq<i64>,
    evaluations: Seq<i64>,
    asked: bool,
)
    requires
        scored(problem, keeps, earlier, later, features, evaluations, asked),
    ensures
        grown(problem, keeps, earlier, later),
{
    assert(earlier.submap_of(earlier));
    if asked && keeps {
        assert(earlier.submap_of(later));
    }
}

/// What is resolved stays resolved while the ledger grows.
pub proof fn lemma_resolved_stays<I: Minimum>(
    problem: &I,
    keeps: bool,
    start: Scores,
    mid: Scores,
    later: Scores,
    member: Portrait,
)
    requires
        resolved(problem, keeps, start, mid, member),
        mid.submap_of(later),
    ensures
        resolved(problem, keeps, start, later, member),
{
    if keeps {
        lemma_held_on(mid, later, member.features);
    }
}

/// A candidate scored through a ledger that has grown since the start is
/// resolved with respect to the start.
pub proof fn lemma_scored_resolves<I: Minimum>(
    problem: &I,
    keeps: bool,
    start: Scores,
    mid: Scores,
    later: Scores,
    member: Portrait,
    asked: bool,
)
    requires
        grown(problem, keeps, start, mid),
        decodes_to(problem, member.genes, member.features),
        scored(problem, keeps, mid, later, member.features, member.evaluations, asked),
    ensures
        resolved(problem, keeps, start, later, member),
        grown(problem, keeps, start, later),
{
    lemma_scored_grows(problem, keeps, mid, later, member.features, member.evaluations, asked);
    lemma_grown_chain(problem, keeps, start, mid, later);
    if start.dom().contains(member.features) {
        lemma_held_on(start, mid, member.features);
    }
    if keeps && !asked {
        assert(later.dom().contains(member.features));
    }
}

/// What is resolved with respect to a later ledger is resolved with respect
/// to the one that it grew from.
pub proof fn lemma_resolved_from_the_start<I: Minimum>(
    problem: &I,
    keeps: bool,
    start: Scores,
    mid: Scores,
    later: Scores,
    member: Portrait,
)
    requires
        grown(problem, keeps, start, mid),
        resolved(problem, keeps, mid, later, member),
    ensures
        resolved(problem, keeps, start, later, member),
{
    if start.dom().contains(member.features) {
        lemma_held_on(start, mid, member.features);
    }
}

/// Scores a feature vector through the ledger: a score that the ledger
/// holds is used as it is and the ledger stays as it was; else the problem
/// scores the features and the ledger records the score. The flag tells
/// whether the problem was asked.
pub fn score<I: Minimum, L: Ledger>(problem: &I, ledger: &mut L, features: &Vec<i64>) -> (outcome:
    (Vec<i64>, bool))
    requires
        old(ledger).sound(),
    ensures
        final(ledger).sound(),
        final(ledger).keeps() == old(ledger).keeps(),
        scored(
            problem,
            old(ledger).keeps(),
            old(ledger).entries(),
            final(ledger).entries(),
            features@,
            outcome.0@,
            outcome.1,
        ),
{
    match ledger.lookup(features) {
        Some(stored) => (stored, false),
        None => {
            let fresh = problem.evaluate(features);
            ledger.record(features, &fresh);
            (fresh, true)
        },
    }
}

/// What settling one candidate comes to. A candidate with a score stays as
/// it is, and so does the ledger. One without keeps its genes, is decoded
/// by the problem, and its features are scored through the ledger.
pub open spec fn readied<I: Minimum>(
    problem: &I,
    keeps: bool,
    earlier: Scores,
    later: Scores,
    before: Portrait,
    after: Portrait,
    asked: bool,
) -> bool {
    if before.evaluations.len() > 0 {
        after == before && !asked && later == earlier
    } else {
        &&& after.genes == before.genes
        &&& decodes_to(problem, after.genes, after.features)
        &&& scored(problem, keeps, earlier, later, after.features, after.evaluations, asked)
    }
}

/// Settles a candidate that has no score: decodes its genes and scores the
/// features through the ledger. A candidate with a score is left as it is.
/// The flag tells whether the problem was asked for a score.
pub fn settle<I: Minimum, L: Ledger>(problem: &I, ledger: &mut L, member: Individual) -> (outcome: (
    Individual,
    bool,
))
    requires
        old(ledger).sound(),
    ensures
        final(ledger).sound(),
        final(ledger).keeps() == old(ledger).keeps(),
        readied(
            problem,
            old(ledger).keeps(),
            old(ledger).entries(),
            final(ledger).entries(),
            member@,
            outcome.0@,
            outcome.1,
        ),
{
    if member.evaluations.len() > 0 {
        return (member, false);
    }
    let features = problem.identificate(&member.genes);
    let (evaluations, fresh) = score(problem, ledger, &features);
    (Individual { genes: member.genes, features, evaluations }, fresh)
}

/// Settling a candidate lets the ledger grow.
pub proof fn lemma_readied_grows<I: Minimum>(
    problem: &I,
    keeps: bool,
    earlier: Scores,
    later: Scores,
    before: Portrait,
    after: Portrait,
    asked: bool,
)
    requires
        readied(problem, keeps, earlier, later, before, after, asked),
    ensures
        grown(problem, keeps, earlier, later),
{
    if before.evaluations.len() > 0 {
        lemma_grown_itself(problem, keeps, earlier);
    } else {
        lemma_scored_grows(problem, keeps, earlier, later, after.features, after.evaluations, asked);
    }
}

/// Whether `child` is a trial that the plan can breed for the candidate at
/// `slot`, decoded by the problem.
pub open spec fn offspring<I: Minimum>(
    problem: &I,
    members: Seq<Portrait>,
    slot: int,
    plan: Plan,
    child: Portrait,
) -> bool {
    &&& decodes_to(problem, child.genes, child.features)
    &&& exists|mutant: Seq<i64>|
        #![trigger is_mutant(members, plan, mutant)]
        {
            &&& is_mutant(members, plan, mutant)
            &&& mutant.len() == members[slot].genes.len()
            &&& all_genes(mutant)
            &&& is_trial(members[slot].genes, mutant, plan.rate, child.genes)
        }
}

/// What taking one candidate through a generation comes to: a trial is
/// bred for it from the population, the trial's features are scored
/// through the ledger, and the winner between the candidate and the trial
/// survives.
pub open spec fn stepped<I: Minimum>(
    problem: &I,
    keeps: bool,
    plan: Plan,
    members: Seq<Portrait>,
    slot: int,
    earlier: Scores,
    later: Scores,
    survivor: Portrait,
    asked: bool,
) -> bool {
    exists|trial: Portrait|
        #![trigger offspring(problem, members, slot, plan, trial)]
        {
            &&& offspring(problem, members, slot, plan, trial)
            &&& scored(problem, keeps, earlier, later, trial.features, trial.evaluations, asked)
            &&& survivor == winner(members[slot], trial)
        }
}

/// Whether `survivor` may stand at `slot` after one generation: the parent
/// itself, or a trial bred for it that is strictly better and resolved.
pub open spec fn succeeds<I: Minimum>(
    problem: &I,
    keeps: bool,
    plan: Plan,
    members: Seq<Portrait>,
    slot: int,
    earlier: Scores,
    later: Scores,
    survivor: Portrait,
) -> bool {
    ||| survivor == members[slot]
    ||| {
        &&& offspring(problem, members, slot, plan, survivor)
        &&& resolved(problem, keeps, earlier, later, survivor)
        &&& outranks(survivor.evaluations, members[slot].evaluations)
    }
}

/// The survivor of a step succeeds its parent, with respect to what the
/// ledger held at the start of the generation.
pub proof fn lemma_stepped_succeeds<I: Minimum>(
    problem: &I,
    keeps: bool,
    plan: Plan,
    members: Seq<Portrait>,
    slot: int,
    start: Scores,
    mid: Scores,
    later: Scores,
    survivor: Portrait,
    asked: bool,
)
    requires
        grown(problem, keeps, start, mid),
        stepped(problem, keeps, plan, members, slot, mid, later, survivor, asked),
    ensures
        succeeds(problem, keeps, plan, members, slot, start, later, survivor),
        grown(problem, keeps, start, later),
{
    let trial = choose|trial: Portrait|
        #![trigger offspring(problem, members, slot, plan, trial)]
        {
            &&& offspring(problem, members, slot, plan, trial)
            &&& scored(problem, keeps, mid, later, trial.features, trial.evaluations, asked)
            &&& survivor == winner(members[slot], trial)
        };
    lemma_scored_resolves(problem, keeps, start, mid, later, trial, asked);
    if survivor != members[slot] {
        crate::ranking::lemma_outranks_total(trial.evaluations, members[slot].evaluations);
    }
}

/// Under the strategy `Best` and without a difference pair, the mutant is
/// the best candidate's genes, clamped. So where those are in range, every
/// gene of the survivor is the parent's or the best candidate's, and the
/// best candidate keeps its genes.
pub proof fn lemma_best_is_the_base<I: Minimum>(
    problem: &I,
    keeps: bool,
    plan: Plan,
    members: Seq<Portrait>,
    slot: int,
    earlier: Scores,
    later: Scores,
    survivor: Portrait,
    asked: bool,
    best: int,
)
    requires
        stepped(problem, keeps, plan, members, slot, earlier, later, survivor, asked),
        plan.strategy == Strategy::Best,
        plan.pairs == 0,
        0 <= slot < members.len(),
        workable(members, plan),
        is_best(members, best),
        all_genes(members[best].genes),
    ensures
        survivor.genes.len() == members[slot].genes.len(),
        forall|j: int|
            0 <= j < survivor.genes.len() ==> {
                ||| (#[trigger] survivor.genes[j]) == members[slot].genes[j]
                ||| survivor.genes[j] == members[best].genes[j]
            },
        slot == best ==> survivor.genes == members[best].genes,
{
    let trial = choose|trial: Portrait|
        #![trigger offspring(problem, members, slot, plan, trial)]
        {
            &&& offspring(problem, members, slot, plan, trial)
            &&& scored(problem, keeps, earlier, later, trial.features, trial.evaluations, asked)
            &&& survivor == winner(members[slot], trial)
        };
    let mutant = choose|mutant: Seq<i64>|
        #![trigger is_mutant(members, plan, mutant)]
        {
            &&& is_mutant(members, plan, mutant)
            &&& mutant.len() == members[slot].genes.len()
            &&& all_genes(mutant)
            &&& is_trial(members[slot].genes, mutant, plan.rate, trial.genes)
        };
    let indexes = choose|indexes: Seq<usize>|
        fits_plan(members, plan, indexes) && mutant == #[trigger] mutant_genes(
            members,
            indexes,
            plan.factor,
            members[0].genes.len(),
        );
    lemma_best_unique(members, best, indexes[0] as int);
    assert(members[best].genes.len() == members[0].genes.len());
    assert(members[slot].genes.len() == members[0].genes.len());
    assert forall|j: int| 0 <= j < mutant.len() implies mutant[j] == members[best].genes[j] by {
        assert(plan.factor as int * 0 == 0) by (nonlinear_arith);
        assert(crate::operators::spread(members, indexes, 0, j) == 0);
        assert(crate::scalar::is_gene(members[best].genes[j]));
    }
    assert(mutant =~= members[best].genes);
    lemma_trial_genes(members[slot].genes, mutant, plan.rate, trial.genes);
    if slot == best {
        assert(trial.genes =~= members[best].genes);
    }
}

/// Breeds the trial for one candidate: a mutant crossed with the candidate,
/// then decoded. The trial has no score yet.
pub fn breed<I: Minimum>(
    problem: &I,
    population: &Vec<Individual>,
    slot: usize,
    stream: &mut StdRng,
    plan: &Plan,
) -> (trial: Individual)
    requires
        slot < population.len(),
        workable(portraits(population@), *plan),
        population[0].genes.len() > 0,
    ensures
        offspring(problem, portraits(population@), slot as int, *plan, trial@),
        trial.genes.len() == population[0].genes.len(),
        trial.evaluations.len() == 0,
{
    let ghost members = portraits(population@);
    assert(members[slot as int] == population[slot as int]@);
    assert(members[0] == population[0]@);
    let mutant = make_mutant(population, stream, plan);
    let genes = make_trial(&population[slot].genes, &mutant, plan.rate, stream);
    let features = problem.identificate(&genes);
    Individual { genes, features, evaluations: Vec::new() }
}

/// Takes one candidate through a generation: breeds its trial, scores the
/// trial through the ledger and lets the two compete. The flag tells whether
/// the problem was asked for the score.
pub fn evolve_slot<I: Minimum, L: Ledger>(
    problem: &I,
    ledger: &mut L,
    population: &Vec<Individual>,
    slot: usize,
    stream: &mut StdRng,
    plan: &Plan,
) -> (outcome: (Individual, bool))
    requires
        old(ledger).sound(),
        slot < population.len(),
        workable(portraits(population@), *plan),
        population[0].genes.len() > 0,
    ensures
        final(ledger).sound(),
        final(ledger).keeps() == old(ledger).keeps(),
        stepped(
            problem,
            old(ledger).keeps(),
            *plan,
            portraits(population@),
            slot as int,
            old(ledger).entries(),
            final(ledger).entries(),
            outcome.0@,
            outcome.1,
        ),
{
    let ghost members = portraits(population@);
    assert(members[slot as int] == population[slot as int]@);
    let bred = breed(problem, population, slot, stream, plan);
    let (evaluations, fresh) = score(problem, ledger, &bred.features);
    let trial = Individual { genes: bred.genes, features: bred.features, evaluations };
    assert(offspring(problem, members, slot as int, *plan, trial@));
    (compete(&population[slot], trial), fresh)
}

/// Whether every gene of every candidate is in range.
pub open spec fn all_in_range(members: Seq<Portrait>) -> bool {
    forall|i: int| 0 <= i < members.len() ==> all_genes((#[trigger] members[i]).genes)
}

/// How a population relates to the one it came from, however many
/// generations lie between: slot by slot the number of genes stays, a score
/// never gets worse, genes stay in range where all were, and a candidate
/// either is the one that stood there or is resolved through the ledger.
pub open spec fn follows<I: Minimum>(
    problem: &I,
    keeps: bool,
    earlier: Scores,
    later: Scores,
    before: Seq<Portrait>,
    after: Seq<Portrait>,
) -> bool {
    &&& after.len() == before.len()
    &&& forall|i: int|
        0 <= i < before.len() ==> (#[trigger] after[i]).genes.len() == before[i].genes.len()
    &&& forall|i: int|
        0 <= i < before.len() && before[i].evaluations.len() > 0 ==> holds_against(
            (#[trigger] after[i]).evaluations,
            before[i].evaluations,
        )
    &&& forall|i: int|
        0 <= i < before.len() ==> (#[trigger] after[i]) == before[i] || resolved(
            problem,
            keeps,
            earlier,
            later,
            after[i],
        )
    &&& all_in_range(before) ==> all_in_range(after)
}

/// A population follows itself.
pub proof fn lemma_follows_itself<I: Minimum>(
    problem: &I,
    keeps: bool,
    earlier: Scores,
    later: Scores,
    members: Seq<Portrait>,
)
    ensures
        follows(problem, keeps, earlier, later, members, members),
{
    assert forall|i: int|
        0 <= i < members.len() && members[i].evaluations.len() > 0 implies holds_against(
        (#[trigger] members[i]).evaluations,
        members[i].evaluations,
    ) by {
        crate::ranking::lemma_outranks_irreflexive(members[i].evaluations);
    }
}

/// Following carries over a chain of two, under a ledger that grows.
pub proof fn lemma_follows_chain<I: Minimum>(
    problem: &I,
    keeps: bool,
    start: Scores,
    mid: Scores,
    later: Scores,
    a: Seq<Portrait>,
    b: Seq<Portrait>,
    c: Seq<Portrait>,
)
    requires
        follows(problem, keeps, start, mid, a, b),
        follows(problem, keeps, mid, later, b, c),
        grown(problem, keeps, start, mid),
        grown(problem, keeps, mid, later),
    ensures
        follows(problem, keeps, start, later, a, c),
{
    assert forall|i: int| 0 <= i < a.len() implies (#[trigger] c[i]).genes.len()
        == a[i].genes.len() by {
        assert(b[i].genes.len() == a[i].genes.len());
    }
    assert forall|i: int| 0 <= i < a.len() && a[i].evaluations.len() > 0 implies holds_against(
        (#[trigger] c[i]).evaluations,
        a[i].evaluations,
    ) by {
        assert(holds_against(b[i].evaluations, a[i].evaluations));
        assert(b[i].evaluations.len() > 0);
        assert(holds_against(c[i].evaluations, b[i].evaluations));
        crate::ranking::lemma_holds_against_transitive(
            c[i].evaluations,
            b[i].evaluations,
            a[i].evaluations,
        );
    }
    assert forall|i: int| 0 <= i < a.len() implies (#[trigger] c[i]) == a[i] || resolved(
        problem,
        keeps,
        start,
        later,
        c[i],
    ) by {
        assert(b[i] == a[i] || resolved(problem, keeps, start, mid, b[i]));
        assert(c[i] == b[i] || resolved(problem, keeps, mid, later, c[i]));
        if c[i] == b[i] {
            if b[i] != a[i] {
                lemma_resolved_stays(problem, keeps, start, mid, later, b[i]);
            }
        } else {
            lemma_resolved_from_the_start(problem, keeps, start, mid, later, c[i]);
        }
    }
}

/// The best score of a population is at least the best score of the one it
/// follows, where every candidate of that one had a score.
pub proof fn lemma_best_never_falls<I: Minimum>(
    problem: &I,
    keeps: bool,
    earlier: Scores,
    later: Scores,
    before: Seq<Portrait>,
    after: Seq<Portrait>,
    was: int,
    now: int,
)
    requires
        follows(problem, keeps, earlier, later, before, after),
        forall|i: int| 0 <= i < before.len() ==> (#[trigger] before[i]).evaluations.len() > 0,
        is_best(before, was),
        is_best(after, now),
    ensures
        holds_against(after[now].evaluations, before[was].evaluations),
{
    assert(before[was].evaluations.len() > 0);
    assert(holds_against(after[was].evaluations, before[was].evaluations));
    assert(holds_against(after[now].evaluations, after[was].evaluations));
    crate::ranking::lemma_holds_against_transitive(
        after[now].evaluations,
        after[was].evaluations,
        before[was].evaluations,
    );
}

/// A population whose every slot holds a successor of the candidate that
/// stood there follows the population before.
pub proof fn lemma_generation_follows<I: Minimum>(
    problem: &I,
    keeps: bool,
    plan: Plan,
    earlier: Scores,
    later: Scores,
    before: Seq<Portrait>,
    after: Seq<Portrait>,
)
    requires
        after.len() == before.len(),
        workable(before, plan),
        forall|i: int|
            0 <= i < before.len() ==> succeeds(
                problem,
                keeps,
                plan,
                before,
                i,
                earlier,
                later,
                #[trigger] after[i],
            ),
    ensures
        follows(problem, keeps, earlier, later, before, after),
{
    assert forall|i: int| 0 <= i < before.len() implies {
        &&& (#[trigger] after[i]).genes.len() == before[i].genes.len()
        &&& holds_against(after[i].evaluations, before[i].evaluations)
        &&& (after[i] == before[i] || resolved(problem, keeps, earlier, later, after[i]))
        &&& (all_in_range(before) ==> all_genes(after[i].genes))
    } by {
        assert(succeeds(problem, keeps, plan, before, i, earlier, later, after[i]));
        if after[i] == before[i] {
            crate::ranking::lemma_outranks_irreflexive(before[i].evaluations);
        } else {
            let mutant = choose|mutant: Seq<i64>|
                #![trigger is_mutant(before, plan, mutant)]
                {
                    &&& is_mutant(before, plan, mutant)
                    &&& mutant.len() == before[i].genes.len()
                    &&& all_genes(mutant)
                    &&& is_trial(before[i].genes, mutant, plan.rate, after[i].genes)
                };
            lemma_trial_genes(before[i].genes, mutant, plan.rate, after[i].genes);
            crate::ranking::lemma_outranks_asymmetric(after[i].evaluations, before[i].evaluations);
        }
    }
}

/// Whether settling the candidates in order takes the ledger along the
/// given path: the step for each candidate starts from the ledger as the
/// step before left it.
pub open spec fn readied_along<I: Minimum>(
    problem: &I,
    keeps: bool,
    before: Seq<Portrait>,
    after: Seq<Portrait>,
    asked: Seq<bool>,
    path: Seq<Scores>,
) -> bool {
    &&& path.len() == before.len() + 1
    &&& forall|i: int|
        0 <= i < before.len() ==> readied(
            problem,
            keeps,
            #[trigger] path[i],
            path[i + 1],
            before[i],
            after[i],
            asked[i],
        )
}

/// What settling a whole population comes to: every candidate in order,
/// each from the ledger as the one before left it, with one flag for each
/// that tells whether the problem was asked.
pub open spec fn readied_all<I: Minimum>(
    problem: &I,
    keeps: bool,
    before: Seq<Portrait>,
    after: Seq<Portrait>,
    asked: Seq<bool>,
    earlier: Scores,
    later: Scores,
) -> bool {
    &&& after.len() == before.len()
    &&& asked.len() == before.len()
    &&& exists|path: Seq<Scores>|
        {
            &&& #[trigger] readied_along(problem, keeps, before, after, asked, path)
            &&& path[0] == earlier
            &&& path[before.len() as int] == later
        }
}

/// Whether taking the candidates through a generation in order takes the
/// ledger along the given path: every trial is bred from the population as
/// it stood at the start, and the step for each candidate starts from the
/// ledger as the step before left it.
pub open spec fn stepped_along<I: Minimum>(
    problem: &I,
    keeps: bool,
    plan: Plan,
    before: Seq<Portrait>,
    after: Seq<Portrait>,
    asked: Seq<bool>,
    path: Seq<Scores>,
) -> bool {
    &&& path.len() == before.len() + 1
    &&& forall|i: int|
        0 <= i < before.len() ==> stepped(
            problem,
            keeps,
            plan,
            before,
            i,
            #[trigger] path[i],
            path[i + 1],
            after[i],
            asked[i],
        )
}

/// What one generation comes to: every candidate in order is taken through
/// it, each from the ledger as the one before left it, with one flag for
/// each that tells whether the problem was asked.
pub open spec fn bred<I: Minimum>(
    problem: &I,
    keeps: bool,
    plan: Plan,
    before: Seq<Portrait>,
    after: Seq<Portrait>,
    asked: Seq<bool>,
    earlier: Scores,
    later: Scores,
) -> bool {
    &&& after.len() == before.len()
    &&& asked.len() == before.len()
    &&& exists|path: Seq<Scores>|
        {
            &&& #[trigger] stepped_along(problem, keeps, plan, before, after, asked, path)
            &&& path[0] == earlier
            &&& path[before.len() as int] == later
        }
}

/// What `rounds` generations come to, one after the other: each is bred
/// from the population and the ledger as the one before left them.
pub open spec fn evolved<I: Minimum>(
    problem: &I,
    keeps: bool,
    plan: Plan,
    start: Seq<Portrait>,
    earlier: Scores,
    end: Seq<Portrait>,
    later: Scores,
    rounds: nat,
) -> bool
    decreases rounds,
{
    if rounds == 0 {
        end == start && later == earlier
    } else {
        exists|middle: Seq<Portrait>, mid: Scores, asked: Seq<bool>|
            {
                &&& evolved(
                    problem,
                    keeps,
                    plan,
                    start,
                    earlier,
                    middle,
                    mid,
                    (rounds - 1) as nat,
                )
                &&& #[trigger] bred(problem, keeps, plan, middle, end, asked, mid, later)
            }
    }
}

/// Settles every candidate that has no score yet, in order. The second
/// part of the outcome holds one flag for each slot, which tells whether
/// the problem was asked for the score of the candidate there.
pub fn settle_all<I: Minimum, L: Ledger>(
    problem: &I,
    ledger: &mut L,
    population: Vec<Individual>,
) -> (outcome: (Vec<Individual>, Vec<bool>))
    requires
        old(ledger).sound(),
    ensures
        final(ledger).sound(),
        final(ledger).keeps() == old(ledger).keeps(),
        readied_all(
            problem,
            old(ledger).keeps(),
            portraits(population@),
            portraits(outcome.0@),
            outcome.1@,
            old(ledger).entries(),
            final(ledger).entries(),
        ),
        grown(problem, old(ledger).keeps(), old(ledger).entries(), final(ledger).entries()),
        follows(
            problem,
            old(ledger).keeps(),
            old(ledger).entries(),
            final(ledger).entries(),
            portraits(population@),
            portraits(outcome.0@),
        ),
        forall|i: int|
            0 <= i < population.len() ==> (#[trigger] outcome.0[i]).genes@ == population[i].genes@,
        forall|i: int|
            0 <= i < population.len() && population[i].evaluations.len() > 0 ==> (
            #[trigger] outcome.0[i])@ == population[i]@,
        forall|i: int|
            0 <= i < population.len() && population[i].evaluations.len() == 0 ==> resolved(
                problem,
                old(ledger).keeps(),
                old(ledger).entries(),
                final(ledger).entries(),
                (#[trigger] outcome.0[i])@,
            ),
{
    let mut settled_ones: Vec<Individual> = Vec::new();
    let mut asked: Vec<bool> = Vec::new();
    let mut population = population;
    let ghost start = population@;
    let ghost before = portraits(start);
    let ghost keeps = ledger.keeps();
    let ghost first = ledger.entries();
    let size: usize = population.len();
    // Candidates are taken from the back and put back in order afterwards.
    let mut taken: Vec<Individual> = Vec::new();
    while population.len() > 0
        invariant
            population.len() + taken.len() == size,
            size == start.len(),
            forall|i: int| 0 <= i < population.len() ==> population[i] == start[i],
            forall|i: int| 0 <= i < taken.len() ==> (#[trigger] taken[i]) == start[size - 1 - i],
        decreases population.len(),
    {
        let member = population.pop().unwrap();
        taken.push(member);
    }
    proof {
        lemma_grown_itself(problem, keeps, first);
    }
    let ghost mut path: Seq<Scores> = seq![first];
    let mut i: usize = 0;
    while i < size
        invariant
            i <= size,
            size == start.len(),
            before == portraits(start),
            taken.len() == size - i,
            settled_ones.len() == i,
            asked.len() == i,
            forall|j: int| 0 <= j < taken.len() ==> (#[trigger] taken[j]) == start[size - 1 - j],
            ledger.sound(),
            ledger.keeps() == keeps,
            grown(problem, keeps, first, ledger.entries()),
            path.len() == i + 1,
            path[0] == first,
            path[i as int] == ledger.entries(),
            forall|j: int|
                0 <= j < i ==> readied(
                    problem,
                    keeps,
                    #[trigger] path[j],
                    path[j + 1],
                    before[j],
                    settled_ones[j]@,
                    asked[j],
                ),
            forall|j: int| 0 <= j < i ==> (#[trigger] settled_ones[j]).genes@ == start[j].genes@,
            forall|j: int|
                0 <= j < i && start[j].evaluations.len() > 0 ==> (#[trigger] settled_ones[j])@
                    == start[j]@,
            forall|j: int|
                0 <= j < i && start[j].evaluations.len() == 0 ==> resolved(
                    problem,
                    keeps,
                    first,
                    ledger.entries(),
                    (#[trigger] settled_ones[j])@,
                ),
        decreases size - i,
    {
        let member = taken.pop().unwrap();
        assert(member == start[i as int]);
        assert(before[i as int] == start[i as int]@);
        let ghost mid = ledger.entries();
        let (ready, fresh) = settle(problem, ledger, member);
        proof {
            let later = ledger.entries();
            if start[i as int].evaluations.len() == 0 {
                lemma_scored_resolves(problem, keeps, first, mid, later, ready@, fresh);
            }
            assert forall|j: int|
                0 <= j < i && start[j].evaluations.len() == 0 implies resolved(
                problem,
                keeps,
                first,
                later,
                (#[trigger] settled_ones[j])@,
            ) by {
                lemma_resolved_stays(problem, keeps, first, mid, later, settled_ones[j]@);
            }
        }
        settled_ones.push(ready);
        asked.push(fresh);
        proof {
            path = path.push(ledger.entries());
        }
        i += 1;
    }
    proof {
        let after = portraits(settled_ones@);
        assert forall|j: int| 0 <= j < before.len() implies readied(
            problem,
            keeps,
            #[trigger] path[j],
            path[j + 1],
            before[j],
            after[j],
            asked@[j],
        ) by {
            assert(after[j] == settled_ones[j]@);
        }
        assert(readied_along(problem, keeps, before, after, asked@, path));
        assert forall|j: int| 0 <= j < before.len() implies {
            &&& (#[trigger] after[j]).genes.len() == before[j].genes.len()
            &&& (before[j].evaluations.len() > 0 ==> holds_against(
                after[j].evaluations,
                before[j].evaluations,
            ))
            &&& (after[j] == before[j] || resolved(problem, keeps, first, ledger.entries(), after[j]))
            &&& after[j].genes == before[j].genes
        } by {
            assert(after[j] == settled_ones[j]@);
            assert(before[j] == start[j]@);
            crate::ranking::lemma_outranks_irreflexive(before[j].evaluations);
        }
        if all_in_range(before) {
            assert forall|j: int| 0 <= j < after.len() implies all_genes(
                (#[trigger] after[j]).genes,
            ) by {
                assert(after[j].genes == before[j].genes);
                assert(all_genes(before[j].genes));
            }
        }
    }
    (settled_ones, asked)
}

/// Takes a population through one generation. Every trial is bred from the
/// population as it stood at the start: the survivors go to a buffer, slot
/// by slot. The second part of the outcome holds one flag for each slot,
/// which tells whether the problem was asked for the score of the trial.
pub fn advance_generation<I: Minimum, L: Ledger>(
    problem: &I,
    ledger: &mut L,
    population: &Vec<Individual>,
    stream: &mut StdRng,
    plan: &Plan,
) -> (outcome: (Vec<Individual>, Vec<bool>))
    requires
        old(ledger).sound(),
        workable(portraits(population@), *plan),
        population[0].genes.len() > 0,
    ensures
        final(ledger).sound(),
        final(ledger).keeps() == old(ledger).keeps(),
        bred(
            problem,
            old(ledger).keeps(),
            *plan,
            portraits(population@),
            portraits(outcome.0@),
            outcome.1@,
            old(ledger).entries(),
            final(ledger).entries(),
        ),
        grown(problem, old(ledger).keeps(), old(ledger).entries(), final(ledger).entries()),
        forall|i: int|
            0 <= i < population.len() ==> succeeds(
                problem,
                old(ledger).keeps(),
                *plan,
                portraits(population@),
                i,
                old(ledger).entries(),
                final(ledger).entries(),
                (#[trigger] outcome.0[i])@,
            ),
        follows(
            problem,
            old(ledger).keeps(),
            old(ledger).entries(),
            final(ledger).entries(),
            portraits(population@),
            portraits(outcome.0@),
        ),
{
    let ghost members = portraits(population@);
    let ghost keeps = ledger.keeps();
    let ghost first = ledger.entries();
    let mut next: Vec<Individual> = Vec::new();
    let mut asked: Vec<bool> = Vec::new();
    let mut slot: usize = 0;
    proof {
        lemma_grown_itself(problem, keeps, first);
    }
    let ghost mut path: Seq<Scores> = seq![first];
    while slot < population.len()
        invariant
            slot <= population.len(),
            next.len() == slot,
            asked.len() == slot,
            members == portraits(population@),
            workable(members, *plan),
            population[0].genes.len() > 0,
            ledger.sound(),
            ledger.keeps() == keeps,
            grown(problem, keeps, first, ledger.entries()),
            path.len() == slot + 1,
            path[0] == first,
            path[slot as int] == ledger.entries(),
            forall|i: int|
                0 <= i < slot ==> stepped(
                    problem,
                    keeps,
                    *plan,
                    members,
                    i,
                    #[trigger] path[i],
                    path[i + 1],
                    next[i]@,
                    asked[i],
                ),
            forall|i: int|
                0 <= i < slot ==> succeeds(
                    problem,
                    keeps,
                    *plan,
                    members,
                    i,
                    first,
                    ledger.entries(),
                    (#[trigger] next[i])@,
                ),
        decreases population.len() - slot,
    {
        let ghost mid = ledger.entries();
        let (survivor, fresh) = evolve_slot(problem, ledger, population, slot, stream, plan);
        proof {
            let later = ledger.entries();
            lemma_stepped_succeeds(
                problem,
                keeps,
                *plan,
                members,
                slot as int,
                first,
                mid,
                later,
                survivor@,
                fresh,
            );
            assert forall|i: int| 0 <= i < slot implies succeeds(
                problem,
                keeps,
                *plan,
                members,
                i,
                first,
                later,
                (#[trigger] next[i])@,
            ) by {
                assert(succeeds(problem, keeps, *plan, members, i, first, mid, next[i]@));
                if next[i]@ != members[i] {
                    lemma_resolved_stays(problem, keeps, first, mid, later, next[i]@);
                }
            }
        }
        next.push(survivor);
        asked.push(fresh);
        proof {
            path = path.push(ledger.entries());
        }
        slot += 1;
    }
    proof {
        let after = portraits(next@);
        assert forall|i: int| 0 <= i < members.len() implies stepped(
            problem,
            keeps,
            *plan,
            members,
            i,
            #[trigger] path[i],
            path[i + 1],
            after[i],
            asked@[i],
        ) by {
            assert(after[i] == next[i]@);
        }
        assert(stepped_along(problem, keeps, *plan, members, after, asked@, path));
        assert forall|i: int| 0 <= i < members.len() implies succeeds(
            problem,
            keeps,
            *plan,
            members,
            i,
            first,
            ledger.entries(),
            #[trigger] after[i],
        ) by {
            assert(after[i] == next[i]@);
        }
        lemma_generation_follows(problem, keeps, *plan, first, ledger.entries(), members, after);
    }
    (next, asked)
}

/// What a run comes to: the candidates without a score are settled in
/// order, then `epoch` generations follow one after the other, each bred
/// from the one before. Of an empty population nothing is bred. Whatever
/// the draws were, the ledger has grown, the population follows the one
/// before, every candidate that had no score is resolved through the
/// ledger, and without a generation the genes stay and so does every
/// candidate that had a score.
pub open spec fn ran<I: Minimum>(
    problem: &I,
    keeps: bool,
    plan: Plan,
    epoch: usize,
    before: Seq<Portrait>,
    earlier: Scores,
    after: Seq<Portrait>,
    later: Scores,
) -> bool {
    &&& exists|ready: Seq<Portrait>, asked: Seq<bool>, mid: Scores|
        {
            &&& #[trigger] readied_all(problem, keeps, before, ready, asked, earlier, mid)
            &&& if before.len() == 0 {
                after == ready && later == mid
            } else {
                evolved(problem, keeps, plan, ready, mid, after, later, epoch as nat)
            }
        }
    &&& grown(problem, keeps, earlier, later)
    &&& follows(problem, keeps, earlier, later, before, after)
    &&& forall|i: int|
        0 <= i < before.len() && before[i].evaluations.len() == 0 ==> resolved(
            problem,
            keeps,
            earlier,
            later,
            #[trigger] after[i],
        )
    &&& epoch == 0 ==> forall|i: int|
        0 <= i < before.len() ==> (#[trigger] after[i]).genes == before[i].genes
    &&& epoch == 0 ==> forall|i: int|
        0 <= i < before.len() && before[i].evaluations.len() > 0 ==> (#[trigger] after[i])
            == before[i]
}

/// Runs `epoch` generations on a population, after settling every candidate
/// that has no score yet. With `epoch` 0 nothing else happens, and of an
/// empty population nothing is bred.
pub fn advance<I: Minimum, L: Ledger>(
    problem: &I,
    ledger: &mut L,
    population: Vec<Individual>,
    stream: &mut StdRng,
    epoch: usize,
    plan: &Plan,
) -> (next: Vec<Individual>)
    requires
        old(ledger).sound(),
        epoch > 0 && population.len() > 0 ==> workable(portraits(population@), *plan)
            && population[0].genes.len() > 0,
    ensures
        final(ledger).sound(),
        final(ledger).keeps() == old(ledger).keeps(),
        old(ledger).entries().submap_of(final(ledger).entries()),
        ran(
            problem,
            old(ledger).keeps(),
            *plan,
            epoch,
            portraits(population@),
            old(ledger).entries(),
            portraits(next@),
            final(ledger).entries(),
        ),
{
    let ghost start = portraits(population@);
    let ghost keeps = ledger.keeps();
    let ghost first = ledger.entries();
    let size = population.len();
    let (mut current, flags) = settle_all(problem, ledger, population);
    let ghost ready = portraits(current@);
    let ghost mid = ledger.entries();
    let ghost asked = flags@;
    if size == 0 || epoch == 0 {
        assert(evolved(problem, keeps, *plan, ready, mid, ready, mid, 0));
        assert(readied_all(problem, keeps, start, ready, asked, first, mid));
        return current;
    }
    let mut round: usize = 0;
    while round < epoch
        invariant
            round <= epoch,
            start == portraits(population@),
            start.len() > 0,
            workable(start, *plan),
            start[0].genes.len() > 0,
            ledger.sound(),
            ledger.keeps() == keeps,
            grown(problem, keeps, first, ledger.entries()),
            follows(problem, keeps, first, ledger.entries(), start, portraits(current@)),
            evolved(
                problem,
                keeps,
                *plan,
                ready,
                mid,
                portraits(current@),
                ledger.entries(),
                round as nat,
            ),
            forall|i: int|
                0 <= i < start.len() && start[i].evaluations.len() == 0 ==> resolved(
                    problem,
                    keeps,
                    first,
                    ledger.entries(),
                    (#[trigger] current[i])@,
                ),
        decreases epoch - round,
    {
        let ghost entries_before = ledger.entries();
        let ghost before = portraits(current@);
        proof {
            assert(before.len() == start.len());
            assert forall|i: int| 0 <= i < before.len() implies (#[trigger] before[i]).genes.len()
                == before[0].genes.len() by {
                assert(before[i].genes.len() == start[i].genes.len());
                assert(before[0].genes.len() == start[0].genes.len());
            }
            assert(before[0] == current[0]@);
        }
        let (next, flags) = advance_generation(problem, ledger, &current, stream, plan);
        proof {
            let entries = ledger.entries();
            let after = portraits(next@);
            lemma_grown_chain(problem, keeps, first, entries_before, entries);
            lemma_follows_chain(problem, keeps, first, entries_before, entries, start, before, after);
            assert forall|i: int|
                0 <= i < start.len() && start[i].evaluations.len() == 0 implies resolved(
                problem,
                keeps,
                first,
                entries,
                (#[trigger] next[i])@,
            ) by {
                assert(before[i] == current[i]@);
                assert(after[i] == next[i]@);
                assert(succeeds(
                    problem,
                    keeps,
                    *plan,
                    before,
                    i,
                    entries_before,
                    entries,
                    next[i]@,
                ));
                if next[i]@ == before[i] {
                    lemma_resolved_stays(problem, keeps, first, entries_before, entries, current[i]@);
                } else {
                    lemma_resolved_from_the_start(
                        problem,
                        keeps,
                        first,
                        entries_before,
                        entries,
                        next[i]@,
                    );
                }
            }
            assert(bred(problem, keeps, *plan, before, after, flags@, entries_before, entries));
            assert(evolved(
                problem,
                keeps,
                *plan,
                ready,
                mid,
                before,
                entries_before,
                round as nat,
            ));
        }
        current = next;
        round += 1;
    }
    assert(readied_all(problem, keeps, start, ready, asked, first, mid));
    current
}

/// Why a run cannot start.
#[derive(Debug, Clone, Copy, PartialEq, Eq, Structural)]
pub enum RunError {
    /// The strategy is neither `"rand"` nor `"best"`.
    UnknownStrategy,
    /// A mutant draws on as many candidates as there are, or on more.
    TooFewCandidates,
    /// Not all candidates have the same number of genes.
    GeneLengthMismatch,
    /// The candidates have no genes.
    NoGenes,
    /// The store holds a key or a row that is not made of numbers.
    CorruptStore,
}

/// What a run asks of its settings and of the candidates. Without a
/// generation to run, and of an empty population, it asks nothing. Else it
/// asks for a strategy by one of its two names and for more candidates than
/// a mutant draws on, all with the same number of genes, at least one.
pub open spec fn runnable(
    members: Seq<Portrait>,
    epoch: usize,
    best_or_rand: Seq<char>,
    difference_vector_count: usize,
    f_scale: i64,
    crossover_rate: i64,
) -> bool {
    epoch > 0 && members.len() > 0 ==> {
        &&& named_strategy(best_or_rand) is Some
        &&& workable(
            members,
            plan_of(best_or_rand, difference_vector_count, f_scale, crossover_rate),
        )
        &&& members[0].genes.len() > 0
    }
}

/// What vetting a run must come to. The checks are made in the order of the
/// errors, and the first that fails decides.
pub open spec fn vetted(
    members: Seq<Portrait>,
    epoch: usize,
    best_or_rand: Seq<char>,
    difference_vector_count: usize,
    f_scale: i64,
    crossover_rate: i64,
    outcome: Result<Plan, RunError>,
) -> bool {
    let plan = plan_of(best_or_rand, difference_vector_count, f_scale, crossover_rate);
    match outcome {
        Ok(made) => {
            &&& runnable(
                members,
                epoch,
                best_or_rand,
                difference_vector_count,
                f_scale,
                crossover_rate,
            )
            &&& made == plan
        },
        Err(RunError::UnknownStrategy) => {
            &&& epoch > 0
            &&& members.len() > 0
            &&& named_strategy(best_or_rand) is None
        },
        Err(RunError::TooFewCandidates) => {
            &&& epoch > 0
            &&& members.len() > 0
            &&& named_strategy(best_or_rand) is Some
            &&& 1 + 2 * difference_vector_count >= members.len()
        },
        Err(RunError::GeneLengthMismatch) => {
            &&& epoch > 0
            &&& named_strategy(best_or_rand) is Some
            &&& 1 + 2 * difference_vector_count < members.len()
            &&& !uniform_length(members, members[0].genes.len())
        },
        Err(RunError::NoGenes) => {
            &&& epoch > 0
            &&& named_strategy(best_or_rand) is Some
            &&& workable(members, plan)
            &&& members[0].genes.len() == 0
        },
        Err(RunError::CorruptStore) => false,
    }
}

/// Vets the settings of a run against the candidates and makes the plan.
#[verifier::loop_isolation(false)]
pub fn vet(
    population: &Vec<Individual>,
    epoch: usize,
    best_or_rand: &str,
    difference_vector_count: usize,
    f_scale: i64,
    crossover_rate: i64,
) -> (outcome: Result<Plan, RunError>)
    ensures
        vetted(
            portraits(population@),
            epoch,
            best_or_rand@,
            difference_vector_count,
            f_scale,
            crossover_rate,
            outcome,
        ),
{
    let ghost members = portraits(population@);
    let named = strategy_named(best_or_rand);
    let size = population.len();
    if epoch == 0 || size == 0 {
        let strategy = match named {
            Some(strategy) => strategy,
            None => Strategy::Rand,
        };
        return Ok(
            Plan {
                strategy,
                pairs: difference_vector_count,
                factor: f_scale,
                rate: crossover_rate,
            },
        );
    }
    let strategy = match named {
        Some(strategy) => strategy,
        None => {
            return Err(RunError::UnknownStrategy);
        },
    };
    if difference_vector_count > (size - 1) / 2 || 1 + 2 * difference_vector_count >= size {
        return Err(RunError::TooFewCandidates);
    }
    let length = population[0].genes.len();
    assert(members[0] == population[0]@);
    let mut i: usize = 0;
    while i < size
        invariant
            i <= size,
            size == population.len(),
            members == portraits(population@),
            length == population[0].genes.len(),
            forall|j: int| 0 <= j < i ==> (#[trigger] members[j]).genes.len() == length,
        decreases size - i,
    {
        assert(members[i as int] == population[i as int]@);
        if population[i].genes.len() != length {
            assert(members[i as int].genes.len() != members[0].genes.len());
            return Err(RunError::GeneLengthMismatch);
        }
        i += 1;
    }
    if length == 0 {
        return Err(RunError::NoGenes);
    }
    Ok(Plan { strategy, pairs: difference_vector_count, factor: f_scale, rate: crossover_rate })
}

/// Runs a plan on candidates in place: settles those without a score, then
/// runs `epoch` generations through the ledger.
pub fn run<I: Minimum, L: Ledger>(
    problem: &I,
    ledger: &mut L,
    individuals: &mut Vec<Individual>,
    stream: &mut StdRng,
    epoch: usize,
    plan: &Plan,
)
    requires
        old(ledger).sound(),
        epoch > 0 && old(individuals).len() > 0 ==> workable(portraits(old(individuals)@), *plan)
            && portraits(old(individuals)@)[0].genes.len() > 0,
    ensures
        final(ledger).sound(),
        final(ledger).keeps() == old(ledger).keeps(),
        old(ledger).entries().submap_of(final(ledger).entries()),
        ran(
            problem,
            old(ledger).keeps(),
            *plan,
            epoch,
            portraits(old(individuals)@),
            old(ledger).entries(),
            portraits(final(individuals)@),
            final(ledger).entries(),
        ),
{
    let mut taken: Vec<Individual> = Vec::new();
    core::mem::swap(individuals, &mut taken);
    let ghost start = taken@;
    assert(start.len() > 0 ==> portraits(start)[0] == start[0]@);
    let next = advance(problem, ledger, taken, stream, epoch, plan);
    *individuals = next;
}

/// Candidates fresh from a stream: `size` of them with `length` genes
/// each, every gene drawn from 0 up to but not including one whole.
pub open spec fn fresh(members: Seq<Portrait>, size: nat, length: nat) -> bool {
    &&& members.len() == size
    &&& uniform_length(members, length)
    &&& all_in_range(members)
    &&& forall|i: int| 0 <= i < size ==> unit_variates((#[trigger] members[i]).genes, length)
    &&& forall|i: int|
        0 <= i < size ==> (#[trigger] members[i]).features.len() == 0 && members[i].evaluations.len()
            == 0
}

/// Draws a population from the stream.
pub fn draw_population(size: usize, length: usize, stream: &mut StdRng) -> (population: Vec<
    Individual,
>)
    ensures
        fresh(portraits(population@), size as nat, length as nat),
{
    let mut population: Vec<Individual> = Vec::new();
    let mut i: usize = 0;
    while i < size
        invariant
            i <= size,
            population.len() == i,
            forall|j: int|
                0 <= j < i ==> {
                    &&& (#[trigger] population[j]).genes.len() == length
                    &&& unit_variates(population[j].genes@, length as nat)
                    &&& all_genes(population[j].genes@)
                    &&& population[j].features.len() == 0
                    &&& population[j].evaluations.len() == 0
                },
        decreases size - i,
    {
        population.push(Individual::from_length(length, stream));
        i += 1;
    }
    proof {
        let members = portraits(population@);
        assert forall|j: int| 0 <= j < members.len() implies {
            &&& (#[trigger] members[j]).genes.len() == length
            &&& unit_variates(members[j].genes, length as nat)
            &&& all_genes(members[j].genes)
            &&& members[j].features.len() == 0
            &&& members[j].evaluations.len() == 0
        } by {
            assert(members[j] == population[j]@);
        }
    }
    population
}

/// What settling one slot comes to: every other candidate stays as it
/// was, and the one at the slot is settled through the ledger.
pub open spec fn settled_at<I: Minimum>(
    problem: &I,
    keeps: bool,
    earlier: Scores,
    later: Scores,
    before: Seq<Portrait>,
    after: Seq<Portrait>,
    slot: int,
    asked: bool,
) -> bool {
    &&& after.len() == before.len()
    &&& forall|i: int| 0 <= i < before.len() && i != slot ==> (#[trigger] after[i]) == before[i]
    &&& readied(problem, keeps, earlier, later, before[slot], after[slot], asked)
}

/// Candidates with the stream they draw from and the problem they encode.
pub struct Colony<I: Minimum> {
    pub individuals: Vec<Individual>,
    pub stream: StdRng,
    pub problem: I,
}

impl<I: Minimum> Colony<I> {
    /// The candidates, in order.
    pub open spec fn members(&self) -> Seq<Portrait> {
        portraits(self.individuals@)
    }

    /// A colony of the given candidates with a fresh problem. Its stream
    /// is seeded with 0.
    pub fn of(individuals: Vec<Individual>) -> (colony: Self)
        ensures
            colony.individuals@ == individuals@,
            colony.stream == seeded_stream(0),
    {
        Colony { individuals, stream: seeded(0), problem: I::new() }
    }

    /// A colony of candidates drawn from a stream that the seed starts.
    pub fn of_shape(size: usize, length: usize, random_seed: u64) -> (colony: Self)
        ensures
            fresh(colony.members(), size as nat, length as nat),
    {
        let mut stream = seeded(random_seed);
        let individuals = draw_population(size, length, &mut stream);
        Colony { individuals, stream, problem: I::new() }
    }

    /// The place of the best candidate.
    pub fn best(&self) -> (place: usize)
        requires
            self.members().len() > 0,
        ensures
            is_best(self.members(), place as int),
    {
        best_index(&self.individuals)
    }

    /// Settles the candidate at `slot` if it has no score yet, and tells
    /// whether the problem was asked for one.
    pub fn settle_at<L: Ledger>(&mut self, ledger: &mut L, slot: usize) -> (fresh: bool)
        requires
            old(ledger).sound(),
            slot < old(self).members().len(),
        ensures
            final(self).problem == old(self).problem,
            final(ledger).sound(),
            final(ledger).keeps() == old(ledger).keeps(),
            old(ledger).entries().submap_of(final(ledger).entries()),
            settled_at(
                &old(self).problem,
                old(ledger).keeps(),
                old(ledger).entries(),
                final(ledger).entries(),
                old(self).members(),
                final(self).members(),
                slot as int,
                fresh,
            ),
    {
        let ghost before = self.individuals@;
        let member = self.individuals[slot].clone();
        let (ready, fresh) = settle(&self.problem, ledger, member);
        self.individuals.set(slot, ready);
        proof {
            lemma_readied_grows(
                &self.problem,
                ledger.keeps(),
                old(ledger).entries(),
                ledger.entries(),
                before[slot as int]@,
                ready@,
                fresh,
            );
            let after = self.individuals@;
            assert(portraits(after)[slot as int] == after[slot as int]@);
            assert(portraits(before)[slot as int] == before[slot as int]@);
            assert forall|i: int| 0 <= i < before.len() && i != slot implies (#[trigger] portraits(
                after,
            )[i]) == portraits(before)[i] by {}
        }
        fresh
    }

    /// Takes the candidate at `slot` through a generation and hands out the
    /// survivor; the colony itself stays as it was, but for its stream. The
    /// flag tells whether the problem was asked for the score of the trial.
    pub fn evolve_at<L: Ledger>(&mut self, ledger: &mut L, slot: usize, plan: &Plan) -> (outcome: (
        Individual,
        bool,
    ))
        requires
            old(ledger).sound(),
            slot < old(self).members().len(),
            workable(old(self).members(), *plan),
            old(self).members()[0].genes.len() > 0,
        ensures
            final(self).problem == old(self).problem,
            final(self).members() == old(self).members(),
            final(ledger).sound(),
            final(ledger).keeps() == old(ledger).keeps(),
            old(ledger).entries().submap_of(final(ledger).entries()),
            stepped(
                &old(self).problem,
                old(ledger).keeps(),
                *plan,
                old(self).members(),
                slot as int,
                old(ledger).entries(),
                final(ledger).entries(),
                outcome.0@,
                outcome.1,
            ),
    {
        assert(self.members()[0] == self.individuals[0]@);
        evolve_slot(&self.problem, ledger, &self.individuals, slot, &mut self.stream, plan)
    }

    /// Runs `epoch` generations through the ledger, under settings that
    /// have been vetted.
    pub fn advance<L: Ledger>(
        &mut self,
        ledger: &mut L,
        epoch: usize,
        best_or_rand: &str,
        difference_vector_count: usize,
        f_scale: i64,
        crossover_rate: i64,
    )
        requires
            old(ledger).sound(),
            runnable(
                old(self).members(),
                epoch,
                best_or_rand@,
                difference_vector_count,
                f_scale,
                crossover_rate,
            ),
        ensures
            final(self).problem == old(self).problem,
            final(ledger).sound(),
            final(ledger).keeps() == old(ledger).keeps(),
            old(ledger).entries().submap_of(final(ledger).entries()),
            ran(
                &old(self).problem,
                old(ledger).keeps(),
                plan_of(best_or_rand@, difference_vector_count, f_scale, crossover_rate),
                epoch,
                old(self).members(),
                old(ledger).entries(),
                final(self).members(),
                final(ledger).entries(),
            ),
    {
        let plan = vet(
            &self.individuals,
            epoch,
            best_or_rand,
            difference_vector_count,
            f_scale,
            crossover_rate,
        );
        match plan {
            Ok(plan) => {
                run(&self.problem, ledger, &mut self.individuals, &mut self.stream, epoch, &plan);
            },
            Err(_) => {},
        }
    }

    /// Vets the settings first and runs the generations where they pass.
    /// Where they do not, the colony and the ledger stay as they were.
    pub fn try_advance<L: Ledger>(
        &mut self,
        ledger: &mut L,
        epoch: usize,
        best_or_rand: &str,
        difference_vector_count: usize,
        f_scale: i64,
        crossover_rate: i64,
    ) -> (outcome: Result<(), RunError>)
        requires
            old(ledger).sound(),
        ensures
            final(self).problem == old(self).problem,
            final(ledger).sound(),
            final(ledger).keeps() == old(ledger).keeps(),
            old(ledger).entries().submap_of(final(ledger).entries()),
            outcome is Ok == runnable(
                old(self).members(),
                epoch,
                best_or_rand@,
                difference_vector_count,
                f_scale,
                crossover_rate,
            ),
            outcome is Ok ==> ran(
                &old(self).problem,
                old(ledger).keeps(),
                plan_of(best_or_rand@, difference_vector_count, f_scale, crossover_rate),
                epoch,
                old(self).members(),
                old(ledger).entries(),
                final(self).members(),
                final(ledger).entries(),
            ),
            outcome matches Err(error) ==> {
                &&& final(self).members() == old(self).members()
                &&& *final(ledger) == *old(ledger)
                &&& vetted(
                    old(self).members(),
                    epoch,
                    best_or_rand@,
                    difference_vector_count,
                    f_scale,
                    crossover_rate,
                    Err(error),
                )
            },
    {
        let plan = vet(
            &self.individuals,
            epoch,
            best_or_rand,
            difference_vector_count,
            f_scale,
            crossover_rate,
        );
        match plan {
            Ok(plan) => {
                run(&self.problem, ledger, &mut self.individuals, &mut self.stream, epoch, &plan);
                Ok(())
            },
            Err(error) => {
                assert(ledger.entries().submap_of(ledger.entries()));
                Err(error)
            },
        }
    }
}

} // verus!
