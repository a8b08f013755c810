//! The three operators of differential evolution, each as a function of the
//! random draws that drive it, and the rule by which two candidates compete.

use vstd::prelude::*;
use rand::rngs::StdRng;
use crate::individual::Individual;
use crate::individual::Portrait;
use crate::individual::portraits;
use crate::individual::uniform_length;
use crate::random::draw_below;
use crate::ranking::holds_against;
use crate::ranking::is_level_or_ahead;
use crate::scalar::all_genes;
use crate::scalar::mutate_gene;
use crate::scalar::mutated;
use crate::scalar::UNIT;

verus! {

/// The indexes 0, 1, .., n - 1 in order.
pub open spec fn identity_pool(n: nat) -> Seq<usize> {
    Seq::new(n, |i: int| i as usize)
}

/// The pool with the entries at `i` and `j` exchanged.
pub open spec fn exchanged(pool: Seq<usize>, i: int, j: int) -> Seq<usize> {
    pool.update(i, pool[j]).update(j, pool[i])
}

/// Offsets that drive a selection from `n` indexes: the offset of step `i`
/// points into the `n - i` indexes that are still to be had.
pub open spec fn valid_offsets(n: nat, offsets: Seq<usize>) -> bool {
    &&& offsets.len() <= n
    &&& forall|i: int| 0 <= i < offsets.len() ==> (#[trigger] offsets[i]) < n - i
}

/// The pool after the first `steps` exchanges: step `i` exchanges entry `i`
/// with the entry `offsets[i]` places further on.
pub open spec fn shuffled(n: nat, offsets: Seq<usize>, steps: nat) -> Seq<usize>
    decreases steps,
{
    if steps == 0 {
        identity_pool(n)
    } else {
        let at: int = steps - 1;
        exchanged(shuffled(n, offsets, at as nat), at, at + offsets[at])
    }
}

/// The indexes that the offsets select from 0, 1, .., n - 1, in the order drawn.
pub open spec fn selection(n: nat, offsets: Seq<usize>) -> Seq<usize> {
    shuffled(n, offsets, offsets.len()).take(offsets.len() as int)
}

/// All entries are below `n`, and no two entries are equal.
pub open spec fn distinct_below(indexes: Seq<usize>, n: nat) -> bool {
    &&& forall|i: int| 0 <= i < indexes.len() ==> (#[trigger] indexes[i]) < n
    &&& forall|i: int, j: int|
        0 <= i < indexes.len() && 0 <= j < indexes.len() && i != j ==> indexes[i] != indexes[j]
}

/// Each step of the shuffle keeps the pool a rearrangement of 0, 1, .., n - 1.
pub proof fn lemma_shuffled_distinct(n: nat, offsets: Seq<usize>, steps: nat)
    requires
        n <= usize::MAX,
        valid_offsets(n, offsets),
        steps <= offsets.len(),
    ensures
        shuffled(n, offsets, steps).len() == n,
        distinct_below(shuffled(n, offsets, steps), n),
    decreases steps,
{
    if steps > 0 {
        let at: int = steps - 1;
        let other: int = at + offsets[at];
        let before = shuffled(n, offsets, at as nat);
        let after = shuffled(n, offsets, steps);
        lemma_shuffled_distinct(n, offsets, at as nat);
        assert(after == exchanged(before, at, other));
        assert(0 <= at < n && 0 <= other < n);
        assert forall|i: int| 0 <= i < after.len() implies (#[trigger] after[i]) < n by {
            if i == other {
                assert(after[i] == before[at]);
            } else if i == at {
                assert(after[i] == before[other]);
            } else {
                assert(after[i] == before[i]);
            }
        }
        assert forall|i: int, j: int|
            0 <= i < after.len() && 0 <= j < after.len() && i != j implies after[i] != after[j] by {
            let pi: int = if i == other { at } else if i == at { other } else { i };
            let pj: int = if j == other { at } else if j == at { other } else { j };
            assert(after[i] == before[pi]);
            assert(after[j] == before[pj]);
            assert(pi != pj);
        }
    } else {
        assert(shuffled(n, offsets, steps) == identity_pool(n));
    }
}

/// A selection holds as many indexes as there are offsets, all below `n` and
/// no two of them equal.
pub proof fn lemma_selection_distinct(n: nat, offsets: Seq<usize>)
    requires
        n <= usize::MAX,
        valid_offsets(n, offsets),
    ensures
        selection(n, offsets).len() == offsets.len(),
        distinct_below(selection(n, offsets), n),
{
    lemma_shuffled_distinct(n, offsets, offsets.len());
}

/// Selects `offsets.len()` distinct indexes below `n`: a partial shuffle of
/// 0, 1, .., n - 1 that the offsets drive.
pub fn select_indexes(n: usize, offsets: &Vec<usize>) -> (chosen: Vec<usize>)
    requires
        valid_offsets(n as nat, offsets@),
    ensures
        chosen@ == selection(n as nat, offsets@),
        chosen.len() == offsets.len(),
        distinct_below(chosen@, n as nat),
{
    let mut pool: Vec<usize> = Vec::new();
    let mut i: usize = 0;
    while i < n
        invariant
            i <= n,
            pool@ == identity_pool(i as nat),
        decreases n - i,
    {
        pool.push(i);
        i += 1;
        assert(pool@ =~= identity_pool(i as nat));
    }
    let mut step: usize = 0;
    while step < offsets.len()
        invariant
            step <= offsets.len(),
            valid_offsets(n as nat, offsets@),
            pool@ == shuffled(n as nat, offsets@, step as nat),
            pool.len() == n,
        decreases offsets.len() - step,
    {
        let other: usize = step + offsets[step];
        let here: usize = pool[step];
        let there: usize = pool[other];
        pool.set(step, there);
        pool.set(other, here);
        step += 1;
        proof {
            lemma_shuffled_distinct(n as nat, offsets@, step as nat);
            assert(pool@ =~= shuffled(n as nat, offsets@, step as nat));
        }
    }
    pool.truncate(offsets.len());
    proof {
        lemma_selection_distinct(n as nat, offsets@);
        assert(pool@ =~= selection(n as nat, offsets@));
    }
    pool
}

/// Draws the offsets for a selection of `count` indexes out of `n`.
pub fn draw_offsets(stream: &mut StdRng, n: usize, count: usize) -> (offsets: Vec<usize>)
    requires
        count <= n,
    ensures
        offsets.len() == count,
        valid_offsets(n as nat, offsets@),
{
    let mut offsets: Vec<usize> = Vec::new();
    let mut i: usize = 0;
    while i < count
        invariant
            i <= count,
            count <= n,
            offsets.len() == i,
            valid_offsets(n as nat, offsets@),
        decreases count - i,
    {
        let drawn: usize = draw_below(stream, n - i);
        offsets.push(drawn);
        i += 1;
    }
    offsets
}

/// Whether `at` is the first place at which `value` stands in `indexes`.
pub open spec fn first_place(indexes: Seq<usize>, value: usize, at: int) -> bool {
    &&& 0 <= at < indexes.len()
    &&& indexes[at] == value
    &&& forall|j: int| 0 <= j < at ==> indexes[j] != value
}

/// The selection with `best` forced to the front. Where `best` was drawn, its
/// first occurrence moves to the front; where it was not, the index drawn
/// last gives way. Either way the number of indexes stays.
pub open spec fn best_first(indexes: Seq<usize>, best: usize, forced: Seq<usize>) -> bool {
    if indexes.contains(best) {
        exists|at: int| first_place(indexes, best, at) && forced == seq![best] + indexes.remove(at)
    } else {
        forced == seq![best] + indexes.drop_last()
    }
}

/// Forces `best` to the front of a selection.
pub fn force_best(indexes: &Vec<usize>, best: usize) -> (forced: Vec<usize>)
    requires
        indexes.len() > 0,
    ensures
        best_first(indexes@, best, forced@),
        forced.len() == indexes.len(),
        forced[0] == best,
        forall|n: nat| distinct_below(indexes@, n) && best < n ==> distinct_below(forced@, n),
{
    let mut place: usize = 0;
    while place < indexes.len() && indexes[place] != best
        invariant
            place <= indexes.len(),
            forall|j: int| 0 <= j < place ==> indexes[j] != best,
        decreases indexes.len() - place,
    {
        place += 1;
    }
    let skipped: usize = if place < indexes.len() {
        place
    } else {
        indexes.len() - 1
    };
    let mut forced: Vec<usize> = Vec::new();
    forced.push(best);
    let mut i: usize = 0;
    while i < indexes.len()
        invariant
            i <= indexes.len(),
            skipped < indexes.len(),
            forced@ == seq![best] + if i <= skipped {
                indexes@.take(i as int)
            } else {
                indexes@.take(i as int).remove(skipped as int)
            },
        decreases indexes.len() - i,
    {
        if i != skipped {
            forced.push(indexes[i]);
        }
        i += 1;
        assert(forced@ =~= seq![best] + if i <= skipped {
            indexes@.take(i as int)
        } else {
            indexes@.take(i as int).remove(skipped as int)
        });
    }
    proof {
        assert(indexes@.take(indexes.len() as int) =~= indexes@);
        let rest = indexes@.remove(skipped as int);
        assert(forced@ == seq![best] + rest);
        if place < indexes.len() {
            assert(first_place(indexes@, best, place as int));
            assert(indexes@.contains(best));
        } else {
            assert(!indexes@.contains(best));
            assert(rest =~= indexes@.drop_last());
        }
        assert forall|n: nat| distinct_below(indexes@, n) && best < n implies distinct_below(
            forced@,
            n,
        ) by {
            assert forall|a: int| 0 <= a < forced@.len() implies (#[trigger] forced@[a]) < n by {
                if a > 0 {
                    let from: int = if a - 1 < skipped { a - 1 } else { a };
                    assert(forced@[a] == indexes@[from]);
                }
            }
            assert forall|a: int, b: int|
                0 <= a < forced@.len() && 0 <= b < forced@.len() && a != b implies forced@[a]
                != forced@[b] by {
                let from_a: int = if a - 1 < skipped { a - 1 } else { a };
                let from_b: int = if b - 1 < skipped { b - 1 } else { b };
                if a > 0 {
                    assert(forced@[a] == indexes@[from_a]);
                }
                if b > 0 {
                    assert(forced@[b] == indexes@[from_b]);
                }
            }
        }
    }
    forced
}

/// The sum, at one gene position, of the first `pairs` differences: pair `j`
/// subtracts the gene of candidate `indexes[2 + 2j]` from that of `indexes[1 + 2j]`.
pub open spec fn spread(members: Seq<Portrait>, indexes: Seq<usize>, pairs: nat, position: int) -> int
    decreases pairs,
{
    if pairs == 0 {
        0
    } else {
        spread(members, indexes, (pairs - 1) as nat, position)
            + members[indexes[2 * pairs - 1] as int].genes[position]
            - members[indexes[2 * pairs as int] as int].genes[position]
    }
}

/// The gene of the mutant at one position: the base candidate's gene moved
/// by the scaled sum of the differences, clamped into the range of a gene.
pub open spec fn mutant_gene(
    members: Seq<Portrait>,
    indexes: Seq<usize>,
    factor: i64,
    position: int,
) -> int {
    mutated(
        members[indexes[0] as int].genes[position] as int,
        factor as int,
        spread(members, indexes, ((indexes.len() - 1) / 2) as nat, position),
    )
}

/// The genes of the mutant that the indexes build: `indexes[0]` names the
/// base, the rest the pairs whose differences move it.
pub open spec fn mutant_genes(
    members: Seq<Portrait>,
    indexes: Seq<usize>,
    factor: i64,
    length: nat,
) -> Seq<i64> {
    Seq::new(length, |position: int| mutant_gene(members, indexes, factor, position) as i64)
}

/// What `mutate` asks of its indexes: an odd number of them, each naming a candidate.
pub open spec fn names_members(indexes: Seq<usize>, pairs: nat, size: nat) -> bool {
    &&& indexes.len() == 1 + 2 * pairs
    &&& forall|i: int| 0 <= i < indexes.len() ==> (#[trigger] indexes[i]) < size
}

proof fn lemma_spread_step_bounded(sum: int, pairs: int, done: int, a: int, b: int)
    requires
        0 <= done < pairs,
        1 + 2 * pairs <= usize::MAX,
        -done * 0xffff_ffff_ffff_ffff <= sum <= done * 0xffff_ffff_ffff_ffff,
        i64::MIN <= a <= i64::MAX,
        i64::MIN <= b <= i64::MAX,
    ensures
        -(done + 1) * 0xffff_ffff_ffff_ffff <= sum + a - b <= (done + 1) * 0xffff_ffff_ffff_ffff,
        i128::MIN < sum + a - b <= i128::MAX,
{
    assert((done + 1) * 0xffff_ffff_ffff_ffff == done * 0xffff_ffff_ffff_ffff + 0xffff_ffff_ffff_ffff)
        by (nonlinear_arith);
    assert(-(done + 1) * 0xffff_ffff_ffff_ffff == -done * 0xffff_ffff_ffff_ffff
        - 0xffff_ffff_ffff_ffff) by (nonlinear_arith);
    assert((done + 1) * 0xffff_ffff_ffff_ffff <= 0x7fff_ffff_ffff_ffff * 0xffff_ffff_ffff_ffff)
        by (nonlinear_arith)
        requires
            0 <= done + 1 <= 0x7fff_ffff_ffff_ffff,
    ;
}

/// Builds the genes of a mutant from the candidates that `indexes` names.
pub fn mutate(population: &Vec<Individual>, indexes: &Vec<usize>, pairs: usize, factor: i64) -> (genes:
    Vec<i64>)
    requires
        names_members(indexes@, pairs as nat, population.len() as nat),
        uniform_length(portraits(population@), population[indexes[0] as int].genes.len() as nat),
    ensures
        genes.len() == population[indexes[0] as int].genes.len(),
        genes@ == mutant_genes(portraits(population@), indexes@, factor, genes.len() as nat),
        all_genes(genes@),
{
    let ghost members = portraits(population@);
    let count: usize = indexes.len();
    let length: usize = population[indexes[0]].genes.len();
    let mut genes: Vec<i64> = Vec::new();
    let mut position: usize = 0;
    while position < length
        invariant
            position <= length,
            count == indexes.len(),
            members == portraits(population@),
            names_members(indexes@, pairs as nat, population.len() as nat),
            uniform_length(members, length as nat),
            genes.len() == position,
            forall|p: int|
                0 <= p < position ==> genes[p] == mutant_gene(members, indexes@, factor, p),
            all_genes(genes@),
        decreases length - position,
    {
        assert(members[indexes[0] as int] == population[indexes[0] as int]@);
        let base: i64 = population[indexes[0]].genes[position];
        let mut sum: i128 = 0;
        let mut done: usize = 0;
        while done < pairs
            invariant
                done <= pairs,
                position < length,
                count == indexes.len(),
                members == portraits(population@),
                names_members(indexes@, pairs as nat, population.len() as nat),
                uniform_length(members, length as nat),
                sum == spread(members, indexes@, done as nat, position as int),
                -done * 0xffff_ffff_ffff_ffff <= sum <= done * 0xffff_ffff_ffff_ffff,
            decreases pairs - done,
        {
            let first: usize = indexes[1 + 2 * done];
            let second: usize = indexes[2 + 2 * done];
            assert(members[first as int] == population[first as int]@);
            assert(members[second as int] == population[second as int]@);
            let a: i64 = population[first].genes[position];
            let b: i64 = population[second].genes[position];
            proof {
                lemma_spread_step_bounded(sum as int, pairs as int, done as int, a as int, b as int);
            }
            sum = sum + a as i128 - b as i128;
            done += 1;
        }
        assert((indexes@.len() - 1) / 2 == pairs);
        let gene: i64 = mutate_gene(base, factor, sum);
        genes.push(gene);
        position += 1;
    }
    assert(genes@ =~= mutant_genes(members, indexes@, factor, genes.len() as nat));
    genes
}

/// The genes of the trial at each position: the mutant's gene at the forced
/// position and wherever the variate is below the rate, else the parent's.
pub open spec fn crossed(
    parent: Seq<i64>,
    mutant: Seq<i64>,
    forced: int,
    variates: Seq<i64>,
    rate: i64,
) -> Seq<i64> {
    Seq::new(
        parent.len(),
        |i: int|
            if variates[i] < rate || i == forced {
                mutant[i]
            } else {
                parent[i]
            },
    )
}

/// The trial takes the mutant's gene at the forced position, whatever the
/// rate and the variates are, and so differs from the parent wherever the
/// mutant does there. Every other gene of it is the parent's or the mutant's.
pub proof fn lemma_crossed_takes_donor(
    parent: Seq<i64>,
    mutant: Seq<i64>,
    forced: int,
    variates: Seq<i64>,
    rate: i64,
)
    requires
        0 <= forced < parent.len(),
    ensures
        crossed(parent, mutant, forced, variates, rate).len() == parent.len(),
        crossed(parent, mutant, forced, variates, rate)[forced] == mutant[forced],
        mutant[forced] != parent[forced] ==> crossed(parent, mutant, forced, variates, rate)
            != parent,
        forall|i: int|
            0 <= i < parent.len() ==> {
                ||| (#[trigger] crossed(parent, mutant, forced, variates, rate)[i]) == parent[i]
                ||| crossed(parent, mutant, forced, variates, rate)[i] == mutant[i]
            },
{
}

/// Crosses a parent with a mutant, given the forced position and one variate
/// for each gene.
pub fn cross_genes(
    parent: &Vec<i64>,
    mutant: &Vec<i64>,
    forced: usize,
    variates: &Vec<i64>,
    rate: i64,
) -> (genes: Vec<i64>)
    requires
        mutant.len() == parent.len(),
        variates.len() == parent.len(),
    ensures
        genes@ == crossed(parent@, mutant@, forced as int, variates@, rate),
{
    let mut genes: Vec<i64> = Vec::new();
    let mut i: usize = 0;
    while i < parent.len()
        invariant
            i <= parent.len(),
            mutant.len() == parent.len(),
            variates.len() == parent.len(),
            genes.len() == i,
            forall|j: int|
                0 <= j < i ==> genes[j] == crossed(
                    parent@,
                    mutant@,
                    forced as int,
                    variates@,
                    rate,
                )[j],
        decreases parent.len() - i,
    {
        let gene: i64 = if variates[i] < rate || i == forced {
            mutant[i]
        } else {
            parent[i]
        };
        genes.push(gene);
        i += 1;
    }
    assert(genes@ =~= crossed(parent@, mutant@, forced as int, variates@, rate));
    genes
}

/// Draws one variate for each of `length` genes, each from 0 up to but not
/// including `whole`.
pub fn draw_variates(stream: &mut StdRng, length: usize, whole: i64) -> (variates: Vec<i64>)
    requires
        0 < whole <= u32::MAX,
    ensures
        variates.len() == length,
        forall|i: int| 0 <= i < length ==> 0 <= (#[trigger] variates[i]) < whole,
        whole == UNIT ==> unit_variates(variates@, length as nat),
{
    let mut variates: Vec<i64> = Vec::new();
    let mut i: usize = 0;
    while i < length
        invariant
            i <= length,
            0 < whole <= u32::MAX,
            variates.len() == i,
            forall|j: int| 0 <= j < i ==> 0 <= (#[trigger] variates[j]) < whole,
        decreases length - i,
    {
        let drawn: usize = draw_below(stream, whole as usize);
        variates.push(drawn as i64);
        i += 1;
    }
    variates
}

/// Variates as they are drawn: one for each gene, each from 0 up to but
/// not including one whole.
pub open spec fn unit_variates(variates: Seq<i64>, length: nat) -> bool {
    &&& variates.len() == length
    &&& forall|i: int| 0 <= i < variates.len() ==> 0 <= (#[trigger] variates[i]) < UNIT
}

/// Whether `genes` is a trial that crossing the parent with the mutant can
/// give: for some forced position and some variates as they are drawn.
pub open spec fn is_trial(parent: Seq<i64>, mutant: Seq<i64>, rate: i64, genes: Seq<i64>) -> bool {
    exists|forced: int, variates: Seq<i64>|
        0 <= forced < parent.len() && unit_variates(variates, parent.len()) && genes
            == #[trigger] crossed(parent, mutant, forced, variates, rate)
}

/// A trial holds, at some position, the gene of the mutant, and at every
/// position the gene of the parent or of the mutant; so it keeps the number
/// of genes, and its genes are in range where those of both are.
pub proof fn lemma_trial_genes(parent: Seq<i64>, mutant: Seq<i64>, rate: i64, genes: Seq<i64>)
    requires
        is_trial(parent, mutant, rate, genes),
        mutant.len() == parent.len(),
    ensures
        genes.len() == parent.len(),
        exists|at: int| 0 <= at < genes.len() && genes[at] == mutant[at],
        (forall|i: int| 0 <= i < parent.len() ==> mutant[i] != parent[i]) ==> genes != parent,
        forall|i: int| 0 <= i < genes.len() ==> genes[i] == parent[i] || genes[i] == mutant[i],
        all_genes(parent) && all_genes(mutant) ==> all_genes(genes),
{
    let (forced, variates) = choose|forced: int, variates: Seq<i64>|
        0 <= forced < parent.len() && unit_variates(variates, parent.len()) && genes
            == #[trigger] crossed(parent, mutant, forced, variates, rate);
    lemma_crossed_takes_donor(parent, mutant, forced, variates, rate);
    assert(genes[forced] == mutant[forced]);
}

/// At a rate of 0 or less no variate is below the rate, so a trial takes
/// the mutant's gene at one position and the parent's everywhere else. At
/// a rate of one whole or more it is the mutant.
pub proof fn lemma_trial_at_the_ends(parent: Seq<i64>, mutant: Seq<i64>, rate: i64, genes: Seq<i64>)
    requires
        is_trial(parent, mutant, rate, genes),
        mutant.len() == parent.len(),
    ensures
        rate <= 0 ==> exists|at: int|
            0 <= at < genes.len() && #[trigger] genes[at] == mutant[at] && forall|i: int|
                0 <= i < genes.len() && i != at ==> genes[i] == parent[i],
        rate >= UNIT ==> genes == mutant,
{
    let (forced, variates) = choose|forced: int, variates: Seq<i64>|
        0 <= forced < parent.len() && unit_variates(variates, parent.len()) && genes
            == #[trigger] crossed(parent, mutant, forced, variates, rate);
    if rate <= 0 {
        assert(genes[forced] == mutant[forced]);
        assert forall|i: int| 0 <= i < genes.len() && i != forced implies genes[i]
            == parent[i] by {
            assert(0 <= variates[i]);
        }
    }
    if rate >= UNIT {
        assert forall|i: int| 0 <= i < genes.len() implies genes[i] == mutant[i] by {
            assert(variates[i] < UNIT);
        }
        assert(genes =~= mutant);
    }
}

/// Crosses a parent with a mutant as the stream decides.
pub fn make_trial(parent: &Vec<i64>, mutant: &Vec<i64>, rate: i64, stream: &mut StdRng) -> (genes:
    Vec<i64>)
    requires
        parent.len() > 0,
        mutant.len() == parent.len(),
    ensures
        is_trial(parent@, mutant@, rate, genes@),
        genes.len() == parent.len(),
{
    let forced = draw_below(stream, parent.len());
    let variates = draw_variates(stream, parent.len(), UNIT);
    let genes = cross_genes(parent, mutant, forced, &variates, rate);
    assert(genes@ == crossed(parent@, mutant@, forced as int, variates@, rate));
    genes
}

/// The winner between a parent and its trial: the parent unless the trial
/// is strictly better. A tie keeps the parent.
pub open spec fn winner(parent: Portrait, trial: Portrait) -> Portrait {
    if holds_against(parent.evaluations, trial.evaluations) {
        parent
    } else {
        trial
    }
}

/// Lets a parent and its trial compete and returns the winner.
pub fn compete(parent: &Individual, trial: Individual) -> (survivor: Individual)
    ensures
        survivor@ == winner(parent@, trial@),
{
    if is_level_or_ahead(&parent.evaluations, &trial.evaluations) {
        parent.clone()
    } else {
        trial
    }
}

/// A candidate that competes with a copy of itself wins: the outcome of a
/// competition is a function of the two candidates alone, and a tie keeps
/// the parent.
pub proof fn lemma_tie_keeps_parent(parent: Portrait, trial: Portrait)
    requires
        trial.evaluations == parent.evaluations,
    ensures
        winner(parent, trial) == parent,
{
    crate::ranking::lemma_outranks_irreflexive(parent.evaluations);
}

/// The winner is never worse than the parent.
pub proof fn lemma_winner_holds(parent: Portrait, trial: Portrait)
    ensures
        holds_against(winner(parent, trial).evaluations, parent.evaluations),
        holds_against(winner(parent, trial).evaluations, trial.evaluations),
{
    crate::ranking::lemma_outranks_irreflexive(parent.evaluations);
    crate::ranking::lemma_outranks_irreflexive(trial.evaluations);
    if !holds_against(parent.evaluations, trial.evaluations) {
        crate::ranking::lemma_outranks_asymmetric(trial.evaluations, parent.evaluations);
    }
}

} // verus!
