use ys_differential_evolution::group::{ExtMinimum, Group, Minimum};
use ys_differential_evolution::individual;
use ys_differential_evolution::method::ExtMemoizationDE;
use ys_differential_evolution::scalar::UNIT;

#[derive(Debug, Clone)]
struct Item {
    value: u64,
    weight: u64,
    stock: u64,
}

#[derive(Debug, Clone)]
struct Knapsack {
    capacity: u64,
    items: Vec<Item>,
}

impl Knapsack {
    fn new() -> Self {
        Self {
            capacity: 11000,
            items: vec![
                Item { value: 10, weight: 1, stock: 10000 },
                Item { value: 9, weight: 2, stock: 10000 },
                Item { value: 8, weight: 3, stock: 10000 },
                Item { value: 7, weight: 4, stock: 10000 },
                Item { value: 6, weight: 5, stock: 10000 },
                Item { value: 5, weight: 6, stock: 10000 },
                Item { value: 4, weight: 7, stock: 10000 },
                Item { value: 3, weight: 8, stock: 10000 },
                Item { value: 2, weight: 9, stock: 10000 },
                Item { value: 1, weight: 10, stock: 10000 },
            ],
        }
    }
}

impl individual::Minimum for Knapsack {
    fn new() -> Self {
        Knapsack::new()
    }

    fn identificate(&self, genes: &Vec<i64>) -> Vec<i64> {
        let len = genes.len();
        let mut features = Vec::with_capacity(len);
        for i in 0..len {
            let gene = genes[i] as f64 / UNIT as f64;
            let stock = self.items[i].stock;
            features.push((gene * stock as f64) as i64);
        }
        features
    }

    fn evaluate(&self, features: &Vec<i64>) -> Vec<i64> {
        let mut weight_sum: i64 = 0;
        let mut value_sum: i64 = 0;
        for i in 0..features.len() {
            let count = features[i];
            weight_sum += self.items[i].weight as i64 * count;
            value_sum += self.items[i].value as i64 * count;
        }
        let mut evals = vec![];
        if weight_sum <= self.capacity as i64 {
            evals.push(i64::MAX);
        } else {
            evals.push(-weight_sum);
        }
        evals.push(value_sum);
        evals
    }
}

#[test]
fn knapsack() {
    let knapsack = Knapsack::new();
    println!("{:#?}", knapsack);

    let kind_of_item = knapsack.items.len();
    let mut g = Group::<Knapsack>::from_shape(10, kind_of_item, 0);
    g.advance_epoch(100, "rand", 1, UNIT / 10 * 8, UNIT / 10 * 8);
    g.advance_epoch(100, "rand", 1, UNIT / 2, UNIT / 2);
    g.advance_epoch(5, "best", 1, UNIT / 10 * 8, UNIT / 10 * 8);
    g.advance_epoch(5, "best", 1, UNIT / 10 * 3, UNIT / 10 * 3);
    println!("{:#?}", g.get_best().1);
}

#[test]
fn knapsack_keeps_its_shape() {
    let mut g = Group::<Knapsack>::from_shape(10, 10, 0);
    g.advance_epoch(20, "best", 2, UNIT / 10 * 8, UNIT / 10 * 8);
    assert_eq!(g.get_individuals().len(), 10);
    for individual in g.get_individuals() {
        assert_eq!(individual.genes.len(), 10);
        assert_eq!(individual.features.len(), 10);
        assert_eq!(individual.evaluations.len(), 2);
        assert!(individual.genes.iter().all(|gene| 0 <= *gene && *gene <= UNIT));
    }
}
