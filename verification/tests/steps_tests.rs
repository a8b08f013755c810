use ys_differential_evolution::group::{ExtMinimum, Group, Memoization, Minimum};
use ys_differential_evolution::individual;
use ys_differential_evolution::individual::Individual;
use ys_differential_evolution::ledger::Memo;
use ys_differential_evolution::method::{ExtMemoizationDE, ExtMemoizationSteps};
use ys_differential_evolution::populations::common::GetterSetter;
use ys_differential_evolution::populations::using_db::{Population, Specific};
use ys_differential_evolution::scalar::UNIT;
use ys_simple_db::DB;

/// Features are the genes in tenths; the score is the sum of the features.
struct Coarse;

impl individual::Minimum for Coarse {
    fn new() -> Self {
        Coarse
    }

    fn identificate(&self, genes: &Vec<i64>) -> Vec<i64> {
        genes.iter().map(|gene| gene / 100_000_000).collect()
    }

    fn evaluate(&self, features: &Vec<i64>) -> Vec<i64> {
        vec![features.iter().sum()]
    }
}

fn candidate(genes: Vec<i64>, evaluations: Vec<i64>) -> Individual {
    Individual { genes, features: vec![], evaluations }
}

#[test]
fn last_record_is_the_line_of_the_newest_key() {
    let mut memo = Memo::new();
    assert_eq!(memo.last_record(), None);
    memo.insert("1,2".to_string(), vec![3]);
    assert_eq!(memo.last_record(), Some("1,2:3\n".to_string()));
    memo.insert("4".to_string(), vec![5, -6]);
    assert_eq!(memo.last_record(), Some("4:5,-6\n".to_string()));
    memo.insert("1,2".to_string(), vec![7]);
    assert_eq!(memo.last_record(), Some("4:5,-6\n".to_string()));
}

#[test]
fn a_group_settles_slot_by_slot() {
    let mut group = Group::<Coarse>::new();
    group.set_individuals(vec![
        candidate(vec![100_000_000, 200_000_000], vec![]),
        candidate(vec![150_000_000, 250_000_000], vec![]),
        candidate(vec![900_000_000, 900_000_000], vec![44]),
        candidate(vec![500_000_000, 0], vec![]),
    ]);
    let mut journal = String::new();
    for slot in 0..4 {
        if group.settle_at(slot) {
            journal += &group.memo_as_ref().last_record().unwrap();
        }
    }
    assert_eq!(journal, "1,2:3\n5,0:5\n");
    assert_eq!(journal, group.memo_as_ref().to_csv());
    let scores: Vec<Vec<i64>> =
        group.get_individuals().iter().map(|i| i.evaluations.clone()).collect();
    assert_eq!(scores, vec![vec![3], vec![3], vec![44], vec![5]]);
    assert!(!group.settle_at(0));
}

#[test]
fn stepping_a_group_is_the_same_as_running_it() {
    let mut stepped = Group::<Coarse>::from_shape(6, 3, 12);
    let mut run = Group::<Coarse>::from_shape(6, 3, 12);
    let mut journal = String::new();
    for slot in 0..6 {
        if stepped.settle_at(slot) {
            journal += &stepped.memo_as_ref().last_record().unwrap();
        }
    }
    for _ in 0..12 {
        let mut next = vec![];
        for slot in 0..6 {
            let (survivor, fresh) = stepped.evolve_slot(slot, "best", 1, UNIT / 2, UNIT / 2);
            if fresh {
                journal += &stepped.memo_as_ref().last_record().unwrap();
            }
            next.push(survivor);
        }
        stepped.set_individuals(next);
    }
    ExtMemoizationDE::advance_epoch(&mut run, 12, "best", 1, UNIT / 2, UNIT / 2);
    for (a, b) in stepped.get_individuals().iter().zip(run.get_individuals()) {
        assert_eq!(a.genes, b.genes);
        assert_eq!(a.evaluations, b.evaluations);
    }
    assert_eq!(journal, run.memo_as_ref().to_csv());
    assert_eq!(stepped.get_best().0, run.get_best().0);
}

#[test]
fn stepping_a_population_with_a_store_is_the_same_as_running_it() {
    let mut stepped = Population::<Coarse>::new_from_shape(6, 3, "scores.csv", 12);
    let mut run = Population::<Coarse>::new_from_shape(6, 3, "scores.csv", 12);
    let mut stepped_db = DB::new();
    let mut run_db = DB::new();
    let mut flushes = 0;
    for slot in 0..6 {
        if stepped.settle_at(&mut stepped_db, slot) {
            flushes += 1;
            assert_eq!(stepped_db.len(), flushes);
        }
    }
    for _ in 0..12 {
        let mut next = vec![];
        for slot in 0..6 {
            let (survivor, fresh) =
                stepped.evolve_slot(&mut stepped_db, slot, "rand", 2, UNIT / 2, UNIT / 2);
            if fresh {
                flushes += 1;
            }
            assert_eq!(stepped_db.len(), flushes);
            next.push(survivor);
        }
        stepped.set_individuals(next);
    }
    run.advance_epoch(&mut run_db, 12, "rand", 2, UNIT / 2, UNIT / 2);
    for (a, b) in stepped.get_individuals().iter().zip(run.get_individuals()) {
        assert_eq!(a.genes, b.genes);
        assert_eq!(a.evaluations, b.evaluations);
    }
    assert_eq!(stepped_db.len(), run_db.len());
    let mut a = stepped_db.to_vec();
    let mut b = run_db.to_vec();
    a.sort();
    b.sort();
    assert_eq!(a, b);
}
