use rand::rngs::StdRng;
use rand::SeedableRng;
use ys_differential_evolution::group::{ExtMinimum, Group, Minimum};
use ys_differential_evolution::individual::{ExtMinimum as CandidateExt, Individual};
use ys_differential_evolution::individual;
use ys_differential_evolution::method::ExtDefaultDE;
use ys_differential_evolution::scalar::UNIT;

struct Car;

impl individual::Minimum for Car {
    fn new() -> Self {
        Car
    }

    fn identificate(&self, genes: &Vec<i64>) -> Vec<i64> {
        genes
            .iter()
            .map(|x| (((*x as f64 / UNIT as f64) - 0.5) * 1000.0).round() as i64)
            .collect()
    }

    fn evaluate(&self, features: &Vec<i64>) -> Vec<i64> {
        vec![features.iter().fold(0, |a, b| a - b * b)]
    }
}

#[test]
fn sphere() {
    let mut g = Group::<Car>::from_shape(10, 10, 0);
    println!("{:#?}", g.get_best().1);
    g.advance_epoch(100, "rand", 1, UNIT / 2, UNIT / 2);
    println!("{:#?}", g.get_best().1);
}

#[test]
fn sphere_improves_on_its_start() {
    let mut g = Group::<Car>::from_shape(10, 10, 0);
    g.advance_epoch(0, "rand", 1, UNIT / 2, UNIT / 2);
    let before = g.get_best().1.evaluations.clone();
    g.advance_epoch(100, "rand", 1, UNIT / 2, UNIT / 2);
    let after = g.get_best().1.evaluations.clone();
    assert!(after >= before);
    assert!(after[0] > -2_500_000);
}

#[test]
fn a_copy_of_the_best_replaces_a_worse_parent() {
    let mut g = Group::<Car>::from_individuals(
        vec![Individual::from_genes(vec![UNIT / 4]), Individual::from_genes(vec![UNIT / 2])],
        StdRng::seed_from_u64(0),
    );
    g.advance_epoch(1, "best", 0, UNIT / 2, 0);
    let genes: Vec<Vec<i64>> = g.get_individuals().iter().map(|i| i.genes.clone()).collect();
    let scores: Vec<Vec<i64>> = g.get_individuals().iter().map(|i| i.evaluations.clone()).collect();
    assert_eq!(genes, vec![vec![UNIT / 2], vec![UNIT / 2]]);
    assert_eq!(scores, vec![vec![0], vec![0]]);
}
