use rand::rngs::StdRng;
use rand::SeedableRng;
use ys_differential_evolution::individual::{ExtMinimum, Individual};
use ys_differential_evolution::operators::{
    compete, cross_genes, draw_offsets, draw_variates, force_best, make_trial, mutate,
    select_indexes,
};
use ys_differential_evolution::scalar::UNIT;

fn candidate(genes: Vec<i64>, evaluations: Vec<i64>) -> Individual {
    Individual { genes, features: vec![], evaluations }
}

#[test]
fn select_indexes_follows_its_offsets() {
    assert_eq!(select_indexes(5, &vec![0, 0, 0]), vec![0, 1, 2]);
    assert_eq!(select_indexes(5, &vec![4, 0, 2]), vec![4, 1, 0]);
    assert_eq!(select_indexes(5, &vec![1, 0, 0, 0, 0]), vec![1, 0, 2, 3, 4]);
    assert_eq!(select_indexes(3, &vec![2, 1, 0]), vec![2, 0, 1]);
    assert_eq!(select_indexes(4, &vec![]), Vec::<usize>::new());
    assert_eq!(select_indexes(0, &vec![]), Vec::<usize>::new());
}

#[test]
fn drawn_offsets_select_distinct_indexes() {
    let mut stream = StdRng::seed_from_u64(7);
    for _ in 0..200 {
        let offsets = draw_offsets(&mut stream, 6, 5);
        assert_eq!(offsets.len(), 5);
        for (i, offset) in offsets.iter().enumerate() {
            assert!(*offset < 6 - i);
        }
        let chosen = select_indexes(6, &offsets);
        assert_eq!(chosen.len(), 5);
        for (i, a) in chosen.iter().enumerate() {
            assert!(*a < 6);
            for b in &chosen[i + 1..] {
                assert_ne!(a, b);
            }
        }
    }
}

#[test]
fn every_index_can_be_drawn_first() {
    let mut stream = StdRng::seed_from_u64(3);
    let mut seen = vec![false; 4];
    for _ in 0..200 {
        let offsets = draw_offsets(&mut stream, 4, 1);
        seen[select_indexes(4, &offsets)[0]] = true;
    }
    assert_eq!(seen, vec![true; 4]);
}

#[test]
fn force_best_moves_a_drawn_best_to_the_front() {
    assert_eq!(force_best(&vec![3, 1, 2], 1), vec![1, 3, 2]);
    assert_eq!(force_best(&vec![3, 1, 2], 2), vec![2, 3, 1]);
    assert_eq!(force_best(&vec![1, 3, 2], 1), vec![1, 3, 2]);
}

#[test]
fn force_best_drops_the_last_index_for_a_best_not_drawn() {
    assert_eq!(force_best(&vec![3, 1, 2], 0), vec![0, 3, 1]);
    assert_eq!(force_best(&vec![4], 0), vec![0]);
    assert_eq!(force_best(&vec![4, 5, 6, 7, 8], 9), vec![9, 4, 5, 6, 7]);
}

#[test]
fn force_best_removes_the_first_of_two_occurrences() {
    assert_eq!(force_best(&vec![3, 1, 2, 1], 1), vec![1, 3, 2, 1]);
}

#[test]
fn mutate_adds_the_scaled_difference_to_the_base() {
    let population = vec![
        candidate(vec![500_000_000, 100_000_000], vec![]),
        candidate(vec![900_000_000, 400_000_000], vec![]),
        candidate(vec![300_000_000, 800_000_000], vec![]),
    ];
    // 0.5 + 0.5 * (0.9 - 0.3) = 0.8 and 0.1 + 0.5 * (0.4 - 0.8) = -0.1
    assert_eq!(mutate(&population, &vec![0, 1, 2], 1, UNIT / 2), vec![800_000_000, 0]);
    // 0.3 + 1.0 * (0.5 - 0.9) = -0.1 and 0.8 + 1.0 * (0.1 - 0.4) = 0.5
    assert_eq!(mutate(&population, &vec![2, 0, 1], 1, UNIT), vec![0, 500_000_000]);
}

#[test]
fn mutate_without_pairs_copies_the_base() {
    let population = vec![
        candidate(vec![500_000_000, 100_000_000], vec![]),
        candidate(vec![300_000_000, 800_000_000], vec![]),
    ];
    assert_eq!(mutate(&population, &vec![1], 0, UNIT / 2), vec![300_000_000, 800_000_000]);
}

#[test]
fn mutate_sums_the_differences_of_all_pairs() {
    let population = vec![
        candidate(vec![100_000_000], vec![]),
        candidate(vec![600_000_000], vec![]),
        candidate(vec![500_000_000], vec![]),
        candidate(vec![900_000_000], vec![]),
        candidate(vec![700_000_000], vec![]),
    ];
    // 0.1 + 0.5 * ((0.6 - 0.5) + (0.9 - 0.7)) = 0.25
    assert_eq!(mutate(&population, &vec![0, 1, 2, 3, 4], 2, UNIT / 2), vec![250_000_000]);
}

#[test]
fn mutated_genes_are_in_range_whatever_the_factor() {
    let population = vec![
        candidate(vec![0, UNIT, 1], vec![]),
        candidate(vec![UNIT, 0, 2], vec![]),
        candidate(vec![0, UNIT, 3], vec![]),
        candidate(vec![i64::MAX, i64::MIN, 0], vec![]),
        candidate(vec![i64::MIN, i64::MAX, 0], vec![]),
    ];
    for factor in [i64::MIN, -UNIT, -1, 0, 1, UNIT / 2, UNIT, 5 * UNIT, i64::MAX] {
        for indexes in [vec![0, 1, 2], vec![3, 4, 0], vec![4, 3, 1], vec![2, 3, 4, 1, 0]] {
            let pairs = (indexes.len() - 1) / 2;
            let genes = mutate(&population, &indexes, pairs, factor);
            assert_eq!(genes.len(), 3);
            assert!(genes.iter().all(|gene| 0 <= *gene && *gene <= UNIT));
        }
    }
}

#[test]
fn cross_genes_takes_the_mutant_below_the_rate_and_at_the_forced_place() {
    let parent = vec![1, 2, 3];
    let mutant = vec![10, 20, 30];
    assert_eq!(cross_genes(&parent, &mutant, 1, &vec![5, 9, 0], 5), vec![1, 20, 30]);
    assert_eq!(cross_genes(&parent, &mutant, 1, &vec![5, 9, 0], 6), vec![10, 20, 30]);
    assert_eq!(cross_genes(&parent, &mutant, 0, &vec![9, 9, 9], 9), vec![10, 2, 3]);
}

#[test]
fn cross_genes_at_rate_zero_takes_the_forced_gene_alone() {
    let parent = vec![1, 2, 3];
    let mutant = vec![10, 20, 30];
    assert_eq!(cross_genes(&parent, &mutant, 1, &vec![0, 0, 0], 0), vec![1, 20, 3]);
    assert_eq!(cross_genes(&parent, &mutant, 2, &vec![0, 5, 7], 0), vec![1, 2, 30]);
}

#[test]
fn a_trial_differs_from_its_parent_at_every_rate() {
    let mut stream = StdRng::seed_from_u64(11);
    let parent = vec![100, 200, 300, 400];
    let mutant = vec![101, 201, 301, 401];
    for rate in [0, 1, UNIT / 2, UNIT - 1, UNIT] {
        for _ in 0..100 {
            let trial = make_trial(&parent, &mutant, rate, &mut stream);
            assert_eq!(trial.len(), 4);
            assert_ne!(trial, parent);
            for i in 0..4 {
                assert!(trial[i] == parent[i] || trial[i] == mutant[i]);
            }
        }
    }
}

#[test]
fn a_trial_at_rate_zero_takes_one_gene() {
    let mut stream = StdRng::seed_from_u64(5);
    let parent = vec![100, 200, 300, 400];
    let mutant = vec![101, 201, 301, 401];
    for _ in 0..100 {
        let trial = make_trial(&parent, &mutant, 0, &mut stream);
        let taken = (0..4).filter(|i| trial[*i] == mutant[*i]).count();
        assert_eq!(taken, 1);
    }
}

#[test]
fn a_trial_at_full_rate_is_the_mutant() {
    let mut stream = StdRng::seed_from_u64(5);
    let parent = vec![100, 200, 300, 400];
    let mutant = vec![101, 201, 301, 401];
    assert_eq!(make_trial(&parent, &mutant, UNIT, &mut stream), mutant);
}

#[test]
fn variates_are_below_the_whole() {
    let mut stream = StdRng::seed_from_u64(1);
    let variates = draw_variates(&mut stream, 500, 10);
    assert_eq!(variates.len(), 500);
    assert!(variates.iter().all(|v| 0 <= *v && *v < 10));
    for value in 0..10 {
        assert!(variates.contains(&value));
    }
}

#[test]
fn compete_keeps_the_parent_on_a_tie() {
    let parent = candidate(vec![1, 1], vec![5, 5]);
    let trial = candidate(vec![2, 2], vec![5, 5]);
    assert_eq!(compete(&parent, trial).genes, vec![1, 1]);
}

#[test]
fn compete_with_a_copy_returns_the_candidate() {
    let parent = candidate(vec![3, 4], vec![7, -2]);
    let copy = parent.clone();
    let first = compete(&parent, copy);
    let second = compete(&parent, parent.clone());
    assert_eq!(first.genes, parent.genes);
    assert_eq!(first.evaluations, parent.evaluations);
    assert_eq!(second.genes, first.genes);
    assert_eq!(second.evaluations, first.evaluations);
}

#[test]
fn compete_promotes_a_strictly_better_trial() {
    let parent = candidate(vec![1, 1], vec![5, 5]);
    let trial = candidate(vec![2, 2], vec![5, 6]);
    assert_eq!(compete(&parent, trial).genes, vec![2, 2]);
    let worse = candidate(vec![3, 3], vec![4, 9]);
    assert_eq!(compete(&parent, worse).genes, vec![1, 1]);
}

#[test]
fn compete_ranks_a_candidate_without_a_score_last() {
    let parent = candidate(vec![1], vec![]);
    let trial = candidate(vec![2], vec![i64::MIN]);
    assert_eq!(compete(&parent, trial).genes, vec![2]);
}

#[test]
fn individual_from_genes_has_genes_alone() {
    let made = Individual::from_genes(vec![1, 2, 3]);
    assert_eq!(made.genes, vec![1, 2, 3]);
    assert!(made.features.is_empty());
    assert!(made.evaluations.is_empty());
}

#[test]
fn individual_from_length_draws_genes_in_range() {
    let mut stream = StdRng::seed_from_u64(2);
    let made = Individual::from_length(50, &mut stream);
    assert_eq!(made.genes.len(), 50);
    assert!(made.genes.iter().all(|gene| 0 <= *gene && *gene < UNIT));
    assert!(made.features.is_empty());
    assert!(made.evaluations.is_empty());
    let mut again = StdRng::seed_from_u64(2);
    assert_eq!(Individual::from_length(50, &mut again).genes, made.genes);
}

#[test]
fn individual_is_better_than_counts_a_tie_as_better() {
    let a = candidate(vec![], vec![1, 2]);
    let b = candidate(vec![], vec![1, 2]);
    let c = candidate(vec![], vec![1, 3]);
    assert!(a.is_better_than(&b));
    assert!(!a.is_better_than(&c));
    assert!(c.is_better_than(&a));
}

#[test]
fn individual_cross_gives_a_child_with_genes_alone() {
    let mut stream = StdRng::seed_from_u64(9);
    let parent = Individual { genes: vec![1, 2, 3], features: vec![9], evaluations: vec![8] };
    let other = Individual { genes: vec![4, 5, 6], features: vec![7], evaluations: vec![6] };
    let child = parent.cross(&other, UNIT / 2, &mut stream);
    assert_eq!(child.genes.len(), 3);
    assert!(child.features.is_empty());
    assert!(child.evaluations.is_empty());
    assert_ne!(child.genes, parent.genes);
}

#[test]
fn drawn_genes_are_below_one_whole() {
    let mut stream = StdRng::seed_from_u64(12);
    for _ in 0..20 {
        let made = Individual::from_length(200, &mut stream);
        assert!(made.genes.iter().all(|gene| 0 <= *gene && *gene < UNIT));
    }
}
