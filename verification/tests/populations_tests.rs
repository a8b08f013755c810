use ys_differential_evolution::evolution::RunError;
use ys_differential_evolution::individual;
use ys_differential_evolution::individual::Individual;
use ys_differential_evolution::population::individual::IndividualMinimumBase;
use ys_differential_evolution::population::using_db::{PopulationUsingDB, PopulationUsingDBInterface};
use ys_differential_evolution::population::{PopulationMinimum, PopulationMinimumInterface};
use ys_differential_evolution::populations::common::{GetterSetter, Utility};
use ys_differential_evolution::populations::minimum;
use ys_differential_evolution::populations::minimum::Specific as PlainSpecific;
use ys_differential_evolution::populations::using_db;
use ys_differential_evolution::populations::using_db::Specific as StoreSpecific;
use ys_differential_evolution::scalar::UNIT;
use ys_simple_db::DB;

/// Features are the genes in hundredths; the score is minus the spread of the features.
struct Level;

impl individual::Minimum for Level {
    fn new() -> Self {
        Level
    }

    fn identificate(&self, genes: &Vec<i64>) -> Vec<i64> {
        genes.iter().map(|gene| gene / 10_000_000).collect()
    }

    fn evaluate(&self, features: &Vec<i64>) -> Vec<i64> {
        let most = features.iter().max().copied().unwrap_or(0);
        let least = features.iter().min().copied().unwrap_or(0);
        vec![least - most, most]
    }
}

fn candidate(genes: Vec<i64>, evaluations: Vec<i64>) -> Individual {
    Individual { genes, features: vec![], evaluations }
}

fn strings(texts: &[&str]) -> Vec<String> {
    texts.iter().map(|text| text.to_string()).collect()
}

#[test]
fn a_candidate_gives_and_takes_its_parts() {
    let mut made = <Individual as IndividualMinimumBase>::new();
    assert!(made.get_genes().is_empty());
    assert!(made.get_evaluation_values().is_empty());
    assert!(made.get_features().is_empty());
    made.set_genes(vec![1, 2]);
    made.set_evaluation_values(vec![3]);
    made.set_features(vec![4, 5]);
    assert_eq!(made.get_genes(), &vec![1, 2]);
    assert_eq!(made.get_evaluation_values(), &vec![3]);
    assert_eq!(made.get_features(), &vec![4, 5]);
    assert_eq!(made.get_evaluations(), &vec![3]);
    made.set_evaluations(vec![]);
    assert!(made.get_evaluation_values().is_empty());
    assert_eq!(made.get_genes(), &vec![1, 2]);
}

#[test]
fn a_minimum_population_has_the_shape_asked_for() {
    let population = minimum::Population::<Level>::new_from_shape(5, 3, 11);
    assert_eq!(population.get_individuals().len(), 5);
    assert_eq!(population.get_length_of_gene(), 3);
    assert_eq!(population.get_length_of_converted_gene(), 0);
    let again = minimum::Population::<Level>::new_from_shape(5, 3, 11);
    for (a, b) in population.get_individuals().iter().zip(again.get_individuals()) {
        assert_eq!(a.genes, b.genes);
    }
    assert!(minimum::Population::<Level>::new().get_individuals().is_empty());
}

#[test]
fn a_minimum_population_finds_its_best() {
    let mut population = minimum::Population::<Level>::new_from_individuals(vec![
        candidate(vec![1], vec![0, 5]),
        candidate(vec![2], vec![0, 9]),
        candidate(vec![3], vec![-1, 99]),
    ]);
    assert_eq!(population.get_index_best(), 1);
    assert_eq!(population.get_individual_best().genes, vec![2]);
    population.set_individuals(vec![candidate(vec![4], vec![1]), candidate(vec![5], vec![1])]);
    assert_eq!(population.get_index_best(), 1);
    assert_eq!(population.get_individual_best().genes, vec![5]);
}

#[test]
fn a_minimum_population_advances() {
    let mut population = minimum::Population::<Level>::new_from_shape(10, 3, 4);
    population.advance_epoch(0, "rand", 1, UNIT / 2, UNIT / 4);
    assert_eq!(population.get_length_of_converted_gene(), 3);
    let before = population.get_individual_best().evaluations.clone();
    population.advance_epoch(40, "rand", 1, UNIT / 2, UNIT / 4);
    let after = population.get_individual_best().evaluations.clone();
    assert!(after >= before);
    assert_eq!(population.get_individuals().len(), 10);
    assert!(population.get_individuals().iter().all(|i| i.genes.len() == 3));
}

#[test]
fn a_minimum_population_repeats_its_run_from_a_seed() {
    let mut a = minimum::Population::<Level>::new_from_shape(10, 3, 4);
    let mut b = minimum::Population::<Level>::new_from_shape(10, 3, 4);
    a.set_random_seed(8);
    b.set_random_seed(8);
    a.advance_epoch(10, "best", 2, UNIT / 2, UNIT / 4);
    b.advance_epoch(10, "best", 2, UNIT / 2, UNIT / 4);
    for (x, y) in a.get_individuals().iter().zip(b.get_individuals()) {
        assert_eq!(x.genes, y.genes);
    }
}

#[test]
fn a_minimum_population_vets_its_settings() {
    let mut population = minimum::Population::<Level>::new_from_shape(3, 2, 4);
    assert_eq!(population.try_advance_epoch(1, "rand", 1, 0, 0), Err(RunError::TooFewCandidates));
    assert_eq!(population.try_advance_epoch(1, "", 0, 0, 0), Err(RunError::UnknownStrategy));
    assert!(population.get_individuals().iter().all(|i| i.evaluations.is_empty()));
    assert_eq!(population.try_advance_epoch(1, "rand", 0, 0, 0), Ok(()));
    assert!(population.get_individuals().iter().all(|i| i.evaluations.len() == 2));
}

#[test]
fn a_population_with_a_store_keeps_its_name() {
    let population = using_db::Population::<Level>::new("scores.csv");
    assert_eq!(population.get_db_name(), "scores.csv");
    assert!(population.get_individuals().is_empty());
    let shaped = using_db::Population::<Level>::new_from_shape(4, 2, "a.csv", 1);
    assert_eq!(shaped.get_db_name(), "a.csv");
    assert_eq!(shaped.get_individuals().len(), 4);
    assert_eq!(shaped.get_length_of_gene(), 2);
    let given = using_db::Population::<Level>::new_from_individuals(vec![candidate(vec![1], vec![])], "b");
    assert_eq!(given.get_db_name(), "b");
    assert_eq!(given.get_individuals().len(), 1);
}

#[test]
fn a_population_with_a_store_fills_the_store() {
    let mut population = using_db::Population::<Level>::new_from_shape(8, 2, "scores.csv", 9);
    let mut db = DB::new();
    population.advance_epoch(&mut db, 15, "best", 1, UNIT / 2, UNIT / 2);
    assert!(db.len() >= 1);
    for individual in population.get_individuals() {
        let key: Vec<String> = individual.features.iter().map(|f| f.to_string()).collect();
        let row: Vec<String> = individual.evaluations.iter().map(|e| e.to_string()).collect();
        assert_eq!(db.get(&key), Some(&row));
    }
}

#[test]
fn a_population_with_a_store_takes_scores_from_the_store() {
    let mut population = using_db::Population::<Level>::new_from_individuals(
        vec![candidate(vec![250_000_000, 750_000_000], vec![])],
        "scores.csv",
    );
    let mut db = DB::from_str("25,75,1000,7", 2, ",");
    population.advance_epoch(&mut db, 0, "rand", 1, 0, 0);
    assert_eq!(population.get_individuals()[0].evaluations, vec![1000, 7]);
    assert_eq!(db.len(), 1);
    population.set_random_seed(3);
    assert_eq!(population.get_individuals()[0].evaluations, vec![1000, 7]);
}

#[test]
fn a_population_with_a_store_refuses_a_corrupt_store() {
    let mut population = using_db::Population::<Level>::new_from_shape(8, 2, "scores.csv", 9);
    let mut db = DB::from_str("25,75,high", 2, ",");
    assert_eq!(
        population.try_advance_epoch(&mut db, 3, "rand", 1, 0, 0),
        Err(RunError::CorruptStore)
    );
    assert_eq!(
        population.try_advance_epoch(&mut db, 0, "rand", 1, 0, 0),
        Err(RunError::CorruptStore)
    );
    assert!(population.get_individuals().iter().all(|i| i.evaluations.is_empty()));
    assert_eq!(db.len(), 1);
    let mut clean = DB::new();
    assert_eq!(
        population.try_advance_epoch(&mut clean, 3, "much", 1, 0, 0),
        Err(RunError::UnknownStrategy)
    );
    assert_eq!(
        population.try_advance_epoch(&mut clean, 3, "rand", 4, 0, 0),
        Err(RunError::TooFewCandidates)
    );
    assert_eq!(clean.len(), 0);
    assert_eq!(population.try_advance_epoch(&mut clean, 3, "rand", 1, UNIT, UNIT / 2), Ok(()));
    assert!(clean.len() >= 1);
}

#[test]
fn a_population_with_a_store_lists_the_store_in_order() {
    let population = using_db::Population::<Level>::new_from_individuals(
        vec![candidate(vec![1, 2], vec![])],
        "scores.csv",
    );
    let db = DB::from_str("1,2,-5,9\n3,4,-1,2\n5,6,-5,10", 2, ",");
    assert_eq!(
        population.get_sorted_db(&db),
        Some(vec![
            strings(&["1", "2", "-5", "9"]),
            strings(&["5", "6", "-5", "10"]),
            strings(&["3", "4", "-1", "2"]),
        ])
    );
    let corrupt = DB::from_str("1,2,x", 2, ",");
    assert_eq!(population.get_sorted_db(&corrupt), None);
}

#[test]
fn a_population_minimum_has_the_shape_asked_for() {
    let population = PopulationMinimum::<Level>::new_from_shape(5, 3, 11);
    let same = minimum::Population::<Level>::new_from_shape(5, 3, 11);
    let best = population.get_individual_best();
    assert_eq!(best.genes.len(), 3);
    assert_eq!(population.get_index_best(), 4);
    assert_eq!(best.genes, same.get_individuals()[4].genes);
}

#[test]
fn a_population_minimum_advances() {
    let mut population = PopulationMinimum::<Level>::new_from_individuals(vec![
        candidate(vec![100_000_000, 900_000_000], vec![]),
        candidate(vec![200_000_000, 800_000_000], vec![]),
        candidate(vec![300_000_000, 700_000_000], vec![]),
        candidate(vec![400_000_000, 600_000_000], vec![]),
        candidate(vec![500_000_000, 550_000_000], vec![]),
    ]);
    population.advance_epoch(0, "rand", 1, 0, 0);
    assert_eq!(population.get_index_best(), 4);
    assert_eq!(population.get_individual_best().evaluations, vec![-5, 55]);
    population.advance_epoch(30, "rand", 1, UNIT / 2, UNIT / 2);
    assert!(population.get_individual_best().evaluations >= vec![-5, 55]);
    assert_eq!(
        population.try_advance_epoch(1, "rand", 2, 0, 0),
        Err(RunError::TooFewCandidates)
    );
    assert_eq!(population.try_advance_epoch(1, "best", 1, 0, 0), Ok(()));
}

#[test]
fn a_population_using_db_runs_through_its_store() {
    let mut population = PopulationUsingDB::<Level>::new_from_shape(6, 2, "old.csv", 2);
    assert_eq!(population.get_db_name(), "old.csv");
    let mut db = DB::new();
    population.advance_epoch(&mut db, 10, "rand", 1, UNIT / 2, UNIT / 2);
    let best = population.get_individual_best();
    let key: Vec<String> = best.features.iter().map(|f| f.to_string()).collect();
    let row: Vec<String> = best.evaluations.iter().map(|e| e.to_string()).collect();
    assert_eq!(db.get(&key), Some(&row));
    assert!(population.get_index_best() < 6);
    let mut corrupt = DB::from_str("1,2,?", 2, ",");
    assert_eq!(
        population.try_advance_epoch(&mut corrupt, 1, "rand", 1, 0, 0),
        Err(RunError::CorruptStore)
    );
    assert_eq!(population.try_advance_epoch(&mut db, 1, "rand", 1, 0, 0), Ok(()));
    let given = PopulationUsingDB::<Level>::new_from_individuals(vec![candidate(vec![9], vec![4])], "x");
    assert_eq!(given.get_db_name(), "x");
    assert_eq!(given.get_individual_best().genes, vec![9]);
}

#[test]
fn a_population_with_a_store_repeats_its_run_from_a_seed() {
    let mut a = using_db::Population::<Level>::new_from_shape(10, 3, "scores.csv", 4);
    let mut b = using_db::Population::<Level>::new_from_shape(10, 3, "scores.csv", 4);
    let mut c = using_db::Population::<Level>::new_from_shape(10, 3, "scores.csv", 4);
    a.set_random_seed(8);
    b.advance_epoch(&mut DB::new(), 3, "rand", 1, UNIT / 2, UNIT / 4);
    b.set_individuals(a.get_individuals().clone());
    b.set_random_seed(8);
    c.set_random_seed(9);
    a.advance_epoch(&mut DB::new(), 10, "best", 2, UNIT / 2, UNIT / 4);
    b.advance_epoch(&mut DB::new(), 10, "best", 2, UNIT / 2, UNIT / 4);
    c.advance_epoch(&mut DB::new(), 10, "best", 2, UNIT / 2, UNIT / 4);
    let genes = |p: &using_db::Population<Level>| -> Vec<Vec<i64>> {
        p.get_individuals().iter().map(|i| i.genes.clone()).collect()
    };
    assert_eq!(genes(&a), genes(&b));
    assert_ne!(genes(&a), genes(&c));
}
