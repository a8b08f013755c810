use rand::rngs::StdRng;
use rand::Rng;
use rand::SeedableRng;
use ys_differential_evolution::evolution::RunError;
use ys_differential_evolution::group::{
    BaseDE, ExtMemoization, ExtMinimum, ExtSaveGroup, Group, Memoization, Minimum,
};
use ys_differential_evolution::individual;
use ys_differential_evolution::individual::Individual;
use ys_differential_evolution::ledger::LoadError;
use ys_differential_evolution::method::{ExtDefaultDE, ExtMemoizationDE};
use ys_differential_evolution::scalar::UNIT;

/// Features are the genes in thousandths; the score is the sum of the features.
struct Climb;

impl individual::Minimum for Climb {
    fn new() -> Self {
        Climb
    }

    fn identificate(&self, genes: &Vec<i64>) -> Vec<i64> {
        genes.iter().map(|gene| gene / 1_000_000).collect()
    }

    fn evaluate(&self, features: &Vec<i64>) -> Vec<i64> {
        vec![features.iter().sum()]
    }
}

fn candidate(genes: Vec<i64>, evaluations: Vec<i64>) -> Individual {
    Individual { genes, features: vec![], evaluations }
}

fn genes_of(group: &Group<Climb>) -> Vec<Vec<i64>> {
    group.get_individuals().iter().map(|individual| individual.genes.clone()).collect()
}

#[test]
fn a_new_group_is_empty() {
    let mut group = Group::<Climb>::new();
    assert!(group.get_individuals().is_empty());
    assert_eq!(group.memo_as_ref().len(), 0);
    assert_eq!(group.memo_as_mut().len(), 0);
    assert_eq!(group.save_memo_to_csv(), "");
}

#[test]
fn a_group_holds_the_candidates_it_is_given() {
    let mut group = Group::<Climb>::new();
    group.set_individuals(vec![candidate(vec![1, 2], vec![]), candidate(vec![3, 4], vec![5])]);
    assert_eq!(genes_of(&group), vec![vec![1, 2], vec![3, 4]]);
    assert_eq!(group.get_gene_len(), 2);
    let other = Group::<Climb>::from_individuals(
        vec![candidate(vec![7], vec![])],
        StdRng::seed_from_u64(1),
    );
    assert_eq!(genes_of(&other), vec![vec![7]]);
    assert_eq!(other.get_gene_len(), 1);
}

#[test]
fn a_group_from_individuals_seeds_its_stream_from_the_one_given() {
    let start = vec![
        candidate(vec![100_000_000, 900_000_000], vec![]),
        candidate(vec![200_000_000, 800_000_000], vec![]),
        candidate(vec![300_000_000, 700_000_000], vec![]),
        candidate(vec![400_000_000, 600_000_000], vec![]),
        candidate(vec![500_000_000, 500_000_000], vec![]),
    ];
    let mut given = Group::<Climb>::from_individuals(start.clone(), StdRng::seed_from_u64(6));
    let seed: u64 = StdRng::seed_from_u64(6).gen();
    let mut seeded = Group::<Climb>::new();
    seeded.set_individuals(start.clone());
    seeded.set_random_seed(seed);
    let mut other = Group::<Climb>::new();
    other.set_individuals(start);
    other.set_random_seed(6);
    ExtDefaultDE::advance_epoch(&mut given, 8, "rand", 1, UNIT / 2, UNIT / 2);
    ExtDefaultDE::advance_epoch(&mut seeded, 8, "rand", 1, UNIT / 2, UNIT / 2);
    ExtDefaultDE::advance_epoch(&mut other, 8, "rand", 1, UNIT / 2, UNIT / 2);
    assert_eq!(genes_of(&given), genes_of(&seeded));
    assert_ne!(genes_of(&given), genes_of(&other));
}

#[test]
fn a_restored_group_has_the_candidates_of_the_snapshot_alone() {
    let mut group = Group::<Climb>::from_shape(6, 2, 3);
    ExtMemoizationDE::advance_epoch(&mut group, 5, "rand", 1, UNIT / 2, UNIT / 2);
    assert!(group.memo_as_ref().len() > 0);
    let snapshot = group.snapshot();
    assert_eq!(snapshot.len(), 6);
    for (copy, individual) in snapshot.iter().zip(group.get_individuals()) {
        assert_eq!(copy.genes, individual.genes);
        assert_eq!(copy.features, individual.features);
        assert_eq!(copy.evaluations, individual.evaluations);
    }
    let mut restored = Group::<Climb>::restore(snapshot, 50);
    assert_eq!(genes_of(&restored), genes_of(&group));
    assert_eq!(restored.memo_as_ref().len(), 0);
    let mut twin = Group::<Climb>::restore(group.snapshot(), 50);
    group.set_random_seed(50);
    ExtDefaultDE::advance_epoch(&mut restored, 5, "best", 1, UNIT / 2, UNIT / 2);
    ExtDefaultDE::advance_epoch(&mut twin, 5, "best", 1, UNIT / 2, UNIT / 2);
    ExtDefaultDE::advance_epoch(&mut group, 5, "best", 1, UNIT / 2, UNIT / 2);
    assert_eq!(genes_of(&restored), genes_of(&twin));
    assert_eq!(genes_of(&restored), genes_of(&group));
}

#[test]
fn a_group_from_shape_has_that_shape() {
    let group = Group::<Climb>::from_shape(6, 4, 3);
    assert_eq!(group.get_individuals().len(), 6);
    assert_eq!(group.get_gene_len(), 4);
    for individual in group.get_individuals() {
        assert_eq!(individual.genes.len(), 4);
        assert!(individual.genes.iter().all(|gene| 0 <= *gene && *gene < UNIT));
        assert!(individual.evaluations.is_empty());
    }
    assert!(Group::<Climb>::from_shape(0, 4, 3).get_individuals().is_empty());
}

#[test]
fn a_group_from_shape_follows_its_seed() {
    let a = Group::<Climb>::from_shape(6, 4, 3);
    let b = Group::<Climb>::from_shape(6, 4, 3);
    let c = Group::<Climb>::from_shape(6, 4, 4);
    assert_eq!(genes_of(&a), genes_of(&b));
    assert_ne!(genes_of(&a), genes_of(&c));
}

#[test]
fn a_reseeded_group_repeats_its_run() {
    let mut a = Group::<Climb>::from_shape(8, 3, 1);
    let mut b = Group::<Climb>::from_shape(8, 3, 1);
    a.set_random_seed(99);
    b.set_random_generator(StdRng::seed_from_u64(99));
    ExtDefaultDE::advance_epoch(&mut a, 10, "rand", 1, UNIT / 2, UNIT / 2);
    ExtDefaultDE::advance_epoch(&mut b, 10, "rand", 1, UNIT / 2, UNIT / 2);
    assert_eq!(genes_of(&a), genes_of(&b));
    let mut c = Group::<Climb>::from_shape(8, 3, 1);
    c.set_random_seed(100);
    ExtDefaultDE::advance_epoch(&mut c, 10, "rand", 1, UNIT / 2, UNIT / 2);
    assert_ne!(genes_of(&a), genes_of(&c));
}

#[test]
fn the_borrowed_stream_is_the_stream_of_the_group() {
    let mut a = Group::<Climb>::from_shape(8, 3, 1);
    let mut b = Group::<Climb>::from_shape(8, 3, 1);
    let mut c = Group::<Climb>::from_shape(8, 3, 1);
    *a.borrowed_random_generator() = StdRng::seed_from_u64(41);
    b.set_random_seed(41);
    let drawn: u64 = a.borrowed_random_generator().gen();
    let expected: u64 = StdRng::seed_from_u64(41).gen();
    assert_eq!(drawn, expected);
    let _: u64 = b.borrowed_random_generator().gen();
    ExtDefaultDE::advance_epoch(&mut a, 5, "rand", 1, UNIT / 2, UNIT / 2);
    ExtDefaultDE::advance_epoch(&mut b, 5, "rand", 1, UNIT / 2, UNIT / 2);
    ExtDefaultDE::advance_epoch(&mut c, 5, "rand", 1, UNIT / 2, UNIT / 2);
    assert_eq!(genes_of(&a), genes_of(&b));
    assert_ne!(genes_of(&a), genes_of(&c));
}

#[test]
fn get_best_gives_the_last_of_the_greatest() {
    let mut group = Group::<Climb>::new();
    group.set_individuals(vec![
        candidate(vec![1], vec![4]),
        candidate(vec![2], vec![8]),
        candidate(vec![3], vec![8]),
        candidate(vec![4], vec![7, 100]),
    ]);
    let (place, best) = group.get_best();
    assert_eq!(place, 2);
    assert_eq!(best.genes, vec![3]);
}

#[test]
fn choice_factor_indexes_are_distinct_places() {
    let mut group = Group::<Climb>::from_shape(7, 2, 5);
    for count in 0..7 {
        for _ in 0..50 {
            let indexes = group.choice_factor_indexes(count);
            assert_eq!(indexes.len(), count);
            for (i, a) in indexes.iter().enumerate() {
                assert!(*a < 7);
                assert!(!indexes[i + 1..].contains(a));
            }
        }
    }
    assert_eq!(group.get_individuals().len(), 7);
}

#[test]
fn de_mutate_under_best_starts_from_the_best_in_every_generation() {
    let mut group = Group::<Climb>::from_shape(10, 4, 17);
    ExtDefaultDE::advance_epoch(&mut group, 0, "best", 1, 0, 0);
    for _ in 0..40 {
        let best = group.get_best().1.genes.clone();
        let mutant = group.de_mutate("best", 1, 0);
        assert_eq!(mutant.genes, best);
        assert!(mutant.features.is_empty());
        assert!(mutant.evaluations.is_empty());
        ExtDefaultDE::advance_epoch(&mut group, 1, "best", 1, UNIT / 2, UNIT / 2);
    }
}

#[test]
fn de_mutate_gives_genes_in_range() {
    let mut group = Group::<Climb>::from_shape(10, 4, 17);
    for name in ["rand", "best"] {
        for pairs in 0..4 {
            let mutant = group.de_mutate(name, pairs, 7 * UNIT);
            assert_eq!(mutant.genes.len(), 4);
            assert!(mutant.genes.iter().all(|gene| 0 <= *gene && *gene <= UNIT));
        }
    }
}

#[test]
fn advance_epoch_climbs() {
    let mut group = Group::<Climb>::from_shape(12, 3, 2);
    ExtDefaultDE::advance_epoch(&mut group, 0, "rand", 1, UNIT / 2, UNIT / 2);
    let before = group.get_best().1.evaluations.clone();
    let scores: Vec<Vec<i64>> =
        group.get_individuals().iter().map(|i| i.evaluations.clone()).collect();
    ExtDefaultDE::advance_epoch(&mut group, 60, "rand", 1, UNIT / 2, UNIT / 2);
    let after = group.get_best().1.evaluations.clone();
    assert!(after > before);
    assert!(after[0] > 2_700);
    for (slot, individual) in group.get_individuals().iter().enumerate() {
        assert!(individual.evaluations >= scores[slot]);
        assert_eq!(individual.genes.len(), 3);
    }
    assert_eq!(group.memo_as_ref().len(), 0);
}

#[test]
fn advance_epoch_without_a_generation_keeps_the_genes() {
    let mut group = Group::<Climb>::from_shape(2, 1, 0);
    let genes = genes_of(&group);
    ExtDefaultDE::advance_epoch(&mut group, 0, "rand", 1, UNIT / 2, UNIT / 2);
    assert_eq!(genes_of(&group), genes);
    for individual in group.get_individuals() {
        assert_eq!(individual.features, vec![individual.genes[0] / 1_000_000]);
        assert_eq!(individual.evaluations, individual.features);
    }
}

#[test]
fn advance_epoch_keeps_a_score_that_is_there() {
    let mut group = Group::<Climb>::new();
    group.set_individuals(vec![candidate(vec![5_000_000], vec![77]), candidate(vec![6_000_000], vec![])]);
    ExtDefaultDE::advance_epoch(&mut group, 0, "rand", 1, 0, 0);
    assert_eq!(group.get_individuals()[0].evaluations, vec![77]);
    assert!(group.get_individuals()[0].features.is_empty());
    assert_eq!(group.get_individuals()[1].evaluations, vec![6]);
    assert_eq!(group.get_individuals()[1].features, vec![6]);
}

#[test]
fn memoized_advance_epoch_fills_the_memo() {
    let mut group = Group::<Climb>::from_shape(8, 2, 6);
    ExtMemoizationDE::advance_epoch(&mut group, 20, "best", 1, UNIT / 2, UNIT / 2);
    assert!(group.memo_as_ref().len() >= 8);
    for individual in group.get_individuals() {
        let key: Vec<String> = individual.features.iter().map(|f| f.to_string()).collect();
        assert_eq!(group.memo_as_ref().get(&key.join(",")), Some(&individual.evaluations));
    }
}

#[test]
fn memoized_advance_epoch_takes_the_score_from_the_memo() {
    let mut group = Group::<Climb>::new();
    group.set_individuals(vec![candidate(vec![5_000_000, 1_000_000], vec![])]);
    group.memo_as_mut().insert("5,1".to_string(), vec![-1000]);
    ExtMemoizationDE::advance_epoch(&mut group, 0, "rand", 1, 0, 0);
    assert_eq!(group.get_individuals()[0].evaluations, vec![-1000]);
    assert_eq!(group.memo_as_ref().len(), 1);
}

#[test]
fn the_memo_of_a_group_is_saved_and_read_as_text() {
    let mut group = Group::<Climb>::new();
    group.set_individuals(vec![
        candidate(vec![5_000_000, 1_000_000], vec![]),
        candidate(vec![2_000_000, 3_000_000], vec![]),
    ]);
    ExtMemoizationDE::advance_epoch(&mut group, 0, "rand", 1, 0, 0);
    assert_eq!(group.save_memo_to_csv(), "5,1:6\n2,3:5\n");
    let mut other = Group::<Climb>::new();
    assert_eq!(other.load_memo_from_csv("5,1:6\n2,3:5\n"), Ok(()));
    assert_eq!(other.save_memo_to_csv(), "5,1:6\n2,3:5\n");
    assert_eq!(
        other.get_sorted_memo(),
        vec![("5,1".to_string(), vec![6]), ("2,3".to_string(), vec![5])]
    );
}

#[test]
fn a_group_refuses_a_malformed_memo() {
    let mut group = Group::<Climb>::new();
    assert_eq!(group.load_memo_from_csv("1:2\n3\n"), Err(LoadError::Malformed(1)));
    assert_eq!(group.load_memo_from_csv("1:2\n3:z\n"), Err(LoadError::UnreadableValue(1)));
    assert_eq!(group.load_memo_from_csv("1:2,\n"), Err(LoadError::UnreadableValue(0)));
    assert_eq!(group.memo_as_ref().len(), 0);
    assert_eq!(group.load_memo_from_csv("ü:2\r\n"), Ok(()));
    assert_eq!(group.memo_as_ref().get("ü"), Some(&vec![2]));
}

#[test]
fn try_advance_epoch_runs_where_the_settings_pass() {
    let mut group = Group::<Climb>::from_shape(8, 2, 6);
    assert_eq!(ExtDefaultDE::try_advance_epoch(&mut group, 5, "rand", 1, UNIT / 2, UNIT / 2), Ok(()));
    assert_eq!(
        ExtMemoizationDE::try_advance_epoch(&mut group, 5, "best", 3, UNIT / 2, UNIT / 2),
        Ok(())
    );
    assert!(group.get_individuals().iter().all(|i| i.evaluations.len() == 1));
}

#[test]
fn try_advance_epoch_refuses_settings_that_do_not_pass() {
    let mut group = Group::<Climb>::from_shape(5, 2, 6);
    let genes = genes_of(&group);
    assert_eq!(
        ExtDefaultDE::try_advance_epoch(&mut group, 1, "good", 1, 0, 0),
        Err(RunError::UnknownStrategy)
    );
    assert_eq!(
        ExtDefaultDE::try_advance_epoch(&mut group, 1, "rand", 2, 0, 0),
        Err(RunError::TooFewCandidates)
    );
    assert_eq!(
        ExtMemoizationDE::try_advance_epoch(&mut group, 1, "rand", 2, 0, 0),
        Err(RunError::TooFewCandidates)
    );
    assert_eq!(genes_of(&group), genes);
    assert!(group.get_individuals().iter().all(|i| i.evaluations.is_empty()));

    let mut uneven = Group::<Climb>::new();
    uneven.set_individuals(vec![
        candidate(vec![1], vec![]),
        candidate(vec![1, 2], vec![]),
        candidate(vec![1], vec![]),
        candidate(vec![1], vec![]),
    ]);
    assert_eq!(
        ExtMemoizationDE::try_advance_epoch(&mut uneven, 1, "rand", 1, 0, 0),
        Err(RunError::GeneLengthMismatch)
    );
    let mut bare = Group::<Climb>::from_shape(4, 0, 0);
    assert_eq!(
        ExtDefaultDE::try_advance_epoch(&mut bare, 1, "rand", 1, 0, 0),
        Err(RunError::NoGenes)
    );
    assert_eq!(ExtDefaultDE::try_advance_epoch(&mut bare, 0, "none", 9, 0, 0), Ok(()));
}
