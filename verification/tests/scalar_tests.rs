use ys_differential_evolution::scalar::{mutate_gene, UNIT};

#[test]
fn one_whole_is_a_billion_ticks() {
    assert_eq!(UNIT, 1_000_000_000);
}

#[test]
fn mutate_gene_moves_the_base_by_the_scaled_spread() {
    // 0.5 + 0.5 * 0.2 = 0.6
    assert_eq!(mutate_gene(500_000_000, 500_000_000, 200_000_000), 600_000_000);
    // 0.25 + 2.0 * 0.125 = 0.5
    assert_eq!(mutate_gene(250_000_000, 2_000_000_000, 125_000_000), 500_000_000);
    // 0.5 + 0.5 * -0.2 = 0.4
    assert_eq!(mutate_gene(500_000_000, 500_000_000, -200_000_000), 400_000_000);
    // 0.5 + -0.5 * 0.2 = 0.4
    assert_eq!(mutate_gene(500_000_000, -500_000_000, 200_000_000), 400_000_000);
    // 0.5 + -0.5 * -0.2 = 0.6
    assert_eq!(mutate_gene(500_000_000, -500_000_000, -200_000_000), 600_000_000);
}

#[test]
fn mutate_gene_clamps_into_the_range_of_a_gene() {
    // 0.9 + 0.5 * 0.4 = 1.1
    assert_eq!(mutate_gene(900_000_000, 500_000_000, 400_000_000), UNIT);
    // 0.1 + 0.5 * -0.4 = -0.1
    assert_eq!(mutate_gene(100_000_000, 500_000_000, -400_000_000), 0);
    assert_eq!(mutate_gene(UNIT, UNIT, 0), UNIT);
    assert_eq!(mutate_gene(0, UNIT, 0), 0);
    assert_eq!(mutate_gene(UNIT, UNIT, 1), UNIT);
    assert_eq!(mutate_gene(0, UNIT, -1), 0);
}

#[test]
fn mutate_gene_rounds_the_step_toward_zero() {
    // half a whole times 3 ticks is 1.5 ticks
    assert_eq!(mutate_gene(10, 500_000_000, 3), 11);
    assert_eq!(mutate_gene(10, 500_000_000, -3), 9);
    assert_eq!(mutate_gene(10, -500_000_000, 3), 9);
    assert_eq!(mutate_gene(10, -500_000_000, -3), 11);
    // less than one tick is no step
    assert_eq!(mutate_gene(10, 999_999_999, 1), 10);
    assert_eq!(mutate_gene(10, 999_999_999, -1), 10);
}

#[test]
fn mutate_gene_without_a_step_clamps_the_base() {
    assert_eq!(mutate_gene(-5, 0, 100), 0);
    assert_eq!(mutate_gene(7, 0, i128::MIN), 7);
    assert_eq!(mutate_gene(7, i64::MIN, 0), 7);
    assert_eq!(mutate_gene(UNIT + 1, 0, 0), UNIT);
}

#[test]
fn mutate_gene_takes_every_input() {
    assert_eq!(mutate_gene(i64::MIN, i64::MAX, i128::MAX), UNIT);
    assert_eq!(mutate_gene(i64::MAX, i64::MAX, i128::MIN), 0);
    assert_eq!(mutate_gene(i64::MAX, i64::MIN, i128::MIN), UNIT);
    assert_eq!(mutate_gene(i64::MIN, i64::MIN, i128::MAX), 0);
    // a step of 2^63 + 5 ticks from the least base
    let spread: i128 = (9_223_372_036_854_775_808i128 + 5) * 1_000_000_000;
    assert_eq!(mutate_gene(i64::MIN, 1_000_000_000, spread / 1_000_000_000), 5);
    assert_eq!(mutate_gene(i64::MIN, 1, spread), 5);
    // a step of -(2^63 - 1) ticks from the greatest base
    let back: i128 = -9_223_372_036_854_775_807i128;
    assert_eq!(mutate_gene(i64::MAX, 1_000_000_000, back), 0);
    assert_eq!(mutate_gene(i64::MAX, 1_000_000_000, back + 7), 7);
}
