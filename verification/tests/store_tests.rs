use ys_differential_evolution::ledger::Ledger;
use ys_differential_evolution::store::{audit, parse_row, render_row, sorted_lines};
use ys_simple_db::DB;

fn strings(texts: &[&str]) -> Vec<String> {
    texts.iter().map(|text| text.to_string()).collect()
}

#[test]
fn render_row_writes_each_number_as_a_text() {
    assert_eq!(render_row(&vec![1, -2, 30]), strings(&["1", "-2", "30"]));
    assert_eq!(render_row(&vec![]), Vec::<String>::new());
}

#[test]
fn parse_row_reads_each_text_as_a_number() {
    assert_eq!(parse_row(&strings(&["1", "-2", "30"])), Some(vec![1, -2, 30]));
    assert_eq!(parse_row(&vec![]), Some(vec![]));
    assert_eq!(parse_row(&strings(&["1", "x"])), None);
    assert_eq!(parse_row(&strings(&["1.5"])), None);
    assert_eq!(parse_row(&strings(&[""])), None);
}

#[test]
fn a_store_holds_what_was_recorded() {
    let mut db = DB::new();
    assert_eq!(db.lookup(&vec![1, 2]), None);
    db.record(&vec![1, 2], &vec![7, -8]);
    assert_eq!(db.lookup(&vec![1, 2]), Some(vec![7, -8]));
    assert_eq!(db.lookup(&vec![2, 1]), None);
    assert_eq!(db.lookup(&vec![1]), None);
    assert_eq!(db.len(), 1);
    assert_eq!(db.get(&["1", "2"]), Some(&strings(&["7", "-8"])));
}

#[test]
fn a_store_replaces_the_score_of_a_key_it_holds() {
    let mut db = DB::new();
    db.record(&vec![1], &vec![7]);
    db.record(&vec![2], &vec![8]);
    db.record(&vec![1], &vec![9]);
    assert_eq!(db.len(), 2);
    assert_eq!(db.lookup(&vec![1]), Some(vec![9]));
    assert_eq!(db.lookup(&vec![2]), Some(vec![8]));
}

#[test]
fn a_store_reads_what_its_file_form_held() {
    let db = DB::from_str("1,2,30\n3,4,-5", 2, ",");
    assert!(audit(&db));
    assert_eq!(db.lookup(&vec![1, 2]), Some(vec![30]));
    assert_eq!(db.lookup(&vec![3, 4]), Some(vec![-5]));
    assert_eq!(db.lookup(&vec![3]), None);
}

#[test]
fn audit_passes_a_store_of_numbers() {
    let mut db = DB::new();
    assert!(audit(&db));
    db.record(&vec![1, 2], &vec![3]);
    db.record(&vec![], &vec![]);
    assert!(audit(&db));
}

#[test]
fn audit_fails_a_store_with_other_text() {
    let mut db = DB::new();
    db.record(&vec![1, 2], &vec![3]);
    db.insert(&["4"], &["x"]);
    assert!(!audit(&db));
    let mut other = DB::new();
    other.insert(&["k"], &["1"]);
    assert!(!audit(&other));
    let mut third = DB::new();
    third.insert(&["1"], &["2.5"]);
    assert!(!audit(&third));
}

#[test]
fn sorted_lines_come_worst_first() {
    let mut db = DB::new();
    db.record(&vec![1, 1], &vec![5]);
    db.record(&vec![2, 2], &vec![9, 0]);
    db.record(&vec![3, 3], &vec![-4]);
    db.record(&vec![4, 4], &vec![9]);
    let lines = sorted_lines(&db, 2);
    assert_eq!(
        lines,
        Some(vec![
            strings(&["3", "3", "-4"]),
            strings(&["1", "1", "5"]),
            strings(&["4", "4", "9"]),
            strings(&["2", "2", "9", "0"]),
        ])
    );
}

#[test]
fn sorted_lines_of_an_empty_store_are_none_at_all() {
    let db = DB::new();
    assert_eq!(sorted_lines(&db, 3), Some(vec![]));
}

#[test]
fn sorted_lines_need_scores_on_every_line() {
    let mut db = DB::new();
    db.record(&vec![1, 1], &vec![5]);
    db.insert(&["2", "2"], &["x"]);
    assert_eq!(sorted_lines(&db, 2), None);
    let mut short = DB::new();
    short.record(&vec![1], &vec![5]);
    assert_eq!(sorted_lines(&short, 3), None);
    assert!(sorted_lines(&short, 2).is_some());
}

#[test]
fn sorted_lines_take_the_key_length_as_given() {
    let mut db = DB::new();
    db.record(&vec![9, 1], &vec![5]);
    db.record(&vec![1, 2], &vec![4]);
    // with one text for the key, the scores are [1, 5] and [2, 4]
    assert_eq!(
        sorted_lines(&db, 1),
        Some(vec![strings(&["9", "1", "5"]), strings(&["1", "2", "4"])])
    );
    // with two, they are [5] and [4]
    assert_eq!(
        sorted_lines(&db, 2),
        Some(vec![strings(&["1", "2", "4"]), strings(&["9", "1", "5"])])
    );
}
