//! The store of scores that outlives a run: a `ys_simple_db::DB`, which
//! keeps rows of text, each under a key that is a row of text itself.

use vstd::prelude::*;
use ys_simple_db::DB;
use crate::ledger::Ledger;
use crate::ranking::holds_against;
use crate::ranking::names;
use crate::ranking::rearranged;
use crate::ranking::sort_best_first;
use crate::text::decimal;
use crate::text::lemma_decimal_round_trip;
use crate::text::number_texts;
use crate::text::parse_number;
use crate::text::parsed_fields;
use crate::text::parsed_number;
use crate::text::render_number;
use crate::text::texts;

verus! {

#[verifier::external_type_specification]
#[verifier::external_body]
pub struct ExDB(ys_simple_db::DB);

/// The rows that a store holds, each under its key.
pub uninterp spec fn db_rows(db: DB) -> Map<Seq<Seq<char>>, Seq<Seq<char>>>;

/// Calls `DB::contains_key` with the strings as the key. The store turns
/// each part of a key into text by `to_string`, which leaves a string as it
/// is, and asks its map for the row of texts: the claim is that answer.
#[verifier::external_body]
pub(crate) fn db_contains_key(db: &DB, key: &Vec<String>) -> (present: bool)
    ensures
        present == db_rows(*db).dom().contains(texts(key@)),
{
    db.contains_key(key.as_slice())
}

/// Calls `DB::get` with the strings as the key and copies the row found.
/// The claim is the row that the store's map holds under the key, or none
/// where the key is not in it.
#[verifier::external_body]
pub(crate) fn db_get(db: &DB, key: &Vec<String>) -> (found: Option<Vec<String>>)
    ensures
        match found {
            Some(row) => db_rows(*db).dom().contains(texts(key@)) && texts(row@) == db_rows(
                *db,
            )[texts(key@)],
            None => !db_rows(*db).dom().contains(texts(key@)),
        },
{
    db.get(key.as_slice()).cloned()
}

/// Calls `DB::insert` with the strings as key and as row. The claim is that
/// the store's map then holds the row under the key, in place of any
/// earlier one, and is otherwise as it was.
#[verifier::external_body]
pub(crate) fn db_insert(db: &mut DB, key: &Vec<String>, row: &Vec<String>)
    ensures
        db_rows(*final(db)) == db_rows(*old(db)).insert(texts(key@), texts(row@)),
{
    db.insert(key.as_slice(), row.as_slice());
}

/// Whether the texts are, for some key of the store, the key followed by its row.
pub open spec fn is_line_of(rows: Map<Seq<Seq<char>>, Seq<Seq<char>>>, line: Seq<Seq<char>>) -> bool {
    exists|key: Seq<Seq<char>>| #[trigger] rows.dom().contains(key) && line == key + rows[key]
}

/// What each line of a list holds.
pub open spec fn line_texts(lines: Seq<Vec<String>>) -> Seq<Seq<Seq<char>>> {
    Seq::new(lines.len(), |i: int| texts(lines[i]@))
}

/// Whether the lines are those of the store: each is a key followed by its
/// row, and each key has its line.
pub open spec fn covers(
    rows: Map<Seq<Seq<char>>, Seq<Seq<char>>>,
    lines: Seq<Seq<Seq<char>>>,
) -> bool {
    &&& forall|i: int| 0 <= i < lines.len() ==> is_line_of(rows, #[trigger] lines[i])
    &&& forall|key: Seq<Seq<char>>| #[trigger]
        rows.dom().contains(key) ==> lines.contains(key + rows[key])
}

/// Whether the lines are those of the keys in order: the keys are the keys
/// of the store, each once, and each line is its key followed by its row.
pub open spec fn enumerates(
    rows: Map<Seq<Seq<char>>, Seq<Seq<char>>>,
    keys: Seq<Seq<Seq<char>>>,
    lines: Seq<Seq<Seq<char>>>,
) -> bool {
    &&& keys.no_duplicates()
    &&& forall|key: Seq<Seq<char>>| #[trigger] rows.dom().contains(key) <==> keys.contains(key)
    &&& lines.len() == keys.len()
    &&& forall|i: int| 0 <= i < lines.len() ==> (#[trigger] lines[i]) == keys[i] + rows[keys[i]]
}

/// Whether the lines tell the store: one line for each key, in some order
/// of the keys, each the key followed by its row.
pub open spec fn tells(
    rows: Map<Seq<Seq<char>>, Seq<Seq<char>>>,
    lines: Seq<Seq<Seq<char>>>,
) -> bool {
    exists|keys: Seq<Seq<Seq<char>>>| enumerates(rows, keys, lines)
}

/// Lines that tell the store cover it.
pub proof fn lemma_tells_covers(
    rows: Map<Seq<Seq<char>>, Seq<Seq<char>>>,
    lines: Seq<Seq<Seq<char>>>,
)
    requires
        tells(rows, lines),
    ensures
        covers(rows, lines),
{
    let keys = choose|keys: Seq<Seq<Seq<char>>>| enumerates(rows, keys, lines);
    assert forall|i: int| 0 <= i < lines.len() implies is_line_of(rows, #[trigger] lines[i]) by {
        assert(keys.contains(keys[i]));
        assert(rows.dom().contains(keys[i]));
    }
    assert forall|key: Seq<Seq<char>>| #[trigger] rows.dom().contains(key) implies lines.contains(
        key + rows[key],
    ) by {
        assert(keys.contains(key));
        let i = choose|i: int| 0 <= i < keys.len() && keys[i] == key;
        assert(lines[i] == key + rows[key]);
    }
}

/// Lines in another order tell the store as well.
pub proof fn lemma_rearranged_tells(
    rows: Map<Seq<Seq<char>>, Seq<Seq<char>>>,
    before: Seq<Seq<Seq<char>>>,
    after: Seq<Seq<Seq<char>>>,
    from: Seq<int>,
)
    requires
        tells(rows, before),
        rearranged(from, after, before),
    ensures
        tells(rows, after),
{
    let keys = choose|keys: Seq<Seq<Seq<char>>>| enumerates(rows, keys, before);
    let moved = Seq::new(after.len(), |i: int| keys[from[i]]);
    assert forall|i: int, j: int|
        0 <= i < moved.len() && 0 <= j < moved.len() && i != j implies moved[i] != moved[j] by {
        assert(from[i] != from[j]);
    }
    assert forall|key: Seq<Seq<char>>| #[trigger] rows.dom().contains(key) <==> moved.contains(
        key,
    ) by {
        if rows.dom().contains(key) {
            assert(keys.contains(key));
            let j = choose|j: int| 0 <= j < keys.len() && keys[j] == key;
            assert(names(from, j));
            let k = choose|k: int| 0 <= k < from.len() && #[trigger] from[k] == j;
            assert(moved[k] == key);
        }
        if moved.contains(key) {
            let k = choose|k: int| 0 <= k < moved.len() && moved[k] == key;
            assert(keys.contains(keys[from[k]]));
        }
    }
    assert forall|i: int| 0 <= i < after.len() implies (#[trigger] after[i]) == moved[i]
        + rows[moved[i]] by {
        assert(after[i] == before[from[i]]);
    }
    assert(enumerates(rows, moved, after));
}

/// Calls `DB::to_vec`, which walks the store's map and hands out, for each
/// key, the key followed by its row. The claim leaves the order of the
/// walk open: there is one line for each key, in some order of the keys,
/// and each line is its key followed by its row.
#[verifier::external_body]
pub(crate) fn db_to_vec(db: &DB) -> (lines: Vec<Vec<String>>)
    ensures
        tells(db_rows(*db), line_texts(lines@)),
{
    db.to_vec()
}

/// Whether every text of the row is a number.
pub open spec fn numeric(row: Seq<Seq<char>>) -> bool {
    parsed_fields(row) is Some
}

/// Whether every key and every row of the store is made of numbers.
pub open spec fn all_numeric(rows: Map<Seq<Seq<char>>, Seq<Seq<char>>>) -> bool {
    forall|key: Seq<Seq<char>>| #[trigger]
        rows.dom().contains(key) ==> numeric(key) && numeric(rows[key])
}

/// Writes each number of a vector as a text of its own.
pub fn render_row(values: &Vec<i64>) -> (row: Vec<String>)
    ensures
        texts(row@) == number_texts(values@),
{
    let mut row: Vec<String> = Vec::new();
    let mut i: usize = 0;
    while i < values.len()
        invariant
            i <= values.len(),
            row.len() == i,
            forall|j: int| 0 <= j < i ==> (#[trigger] row[j])@ == decimal(values[j] as int),
        decreases values.len() - i,
    {
        row.push(render_number(values[i]));
        i += 1;
    }
    assert(texts(row@) =~= number_texts(values@));
    row
}

/// Reads a row of texts as a vector of numbers. Gives none unless every
/// text is a number.
pub fn parse_row(row: &Vec<String>) -> (values: Option<Vec<i64>>)
    ensures
        match values {
            Some(v) => parsed_fields(texts(row@)) == Some(v@),
            None => !numeric(texts(row@)),
        },
{
    let ghost fields = texts(row@);
    let mut values: Vec<i64> = Vec::new();
    let mut i: usize = 0;
    while i < row.len()
        invariant
            i <= row.len(),
            values.len() == i,
            fields == texts(row@),
            forall|j: int|
                #![trigger values[j]]
                #![trigger parsed_number(fields[j])]
                0 <= j < i ==> parsed_number(fields[j]) == Some(values[j]),
        decreases row.len() - i,
    {
        assert(fields[i as int] == row[i as int]@);
        match parse_number(row[i].as_str()) {
            Some(value) => {
                values.push(value);
            },
            None => {
                return None;
            },
        }
        i += 1;
    }
    assert(parsed_fields(fields)->0 =~= values@);
    Some(values)
}

/// The texts of a vector read back as numbers give the vector, and two
/// vectors with the same texts are the same.
pub proof fn lemma_row_round_trip(values: Seq<i64>)
    ensures
        parsed_fields(number_texts(values)) == Some(values),
        forall|other: Seq<i64>| number_texts(other) == number_texts(values) ==> other == values,
{
    let row = number_texts(values);
    assert forall|i: int| 0 <= i < row.len() implies (#[trigger] parsed_number(row[i])) == Some(
        values[i],
    ) by {
        lemma_decimal_round_trip(values[i] as int);
    }
    assert(parsed_fields(row)->0 =~= values);
    assert forall|other: Seq<i64>| number_texts(other) == row implies other == values by {
        assert(other.len() == values.len());
        assert forall|i: int| 0 <= i < other.len() implies other[i] == values[i] by {
            lemma_decimal_round_trip(other[i] as int);
            assert(number_texts(other)[i] == row[i]);
        }
        assert(other =~= values);
    }
}

/// A row of texts is made of numbers where both of its parts are.
pub proof fn lemma_numeric_parts(head: Seq<Seq<char>>, tail: Seq<Seq<char>>)
    ensures
        numeric(head + tail) <==> numeric(head) && numeric(tail),
{
    let whole = head + tail;
    if numeric(head) && numeric(tail) {
        assert forall|i: int| 0 <= i < whole.len() implies (#[trigger] parsed_number(
            whole[i],
        )) is Some by {
            if i < head.len() {
                assert(whole[i] == head[i]);
            } else {
                assert(whole[i] == tail[i - head.len()]);
            }
        }
    }
    if numeric(whole) {
        assert forall|i: int| 0 <= i < head.len() implies (#[trigger] parsed_number(
            head[i],
        )) is Some by {
            assert(whole[i] == head[i]);
        }
        assert forall|i: int| 0 <= i < tail.len() implies (#[trigger] parsed_number(
            tail[i],
        )) is Some by {
            assert(whole[i + head.len()] == tail[i]);
        }
    }
}

/// A store made of numbers alone can be read back wherever it is looked up.
pub proof fn lemma_numeric_is_sound(db: DB)
    requires
        all_numeric(db_rows(db)),
    ensures
        db.sound(),
{
}

/// Checks that every key and every row of the store is made of numbers.
#[verifier::loop_isolation(false)]
pub fn audit(db: &DB) -> (clean: bool)
    ensures
        clean == all_numeric(db_rows(*db)),
        clean ==> db.sound(),
{
    let lines = db_to_vec(db);
    let ghost rows = db_rows(*db);
    let ghost views = line_texts(lines@);
    proof {
        lemma_tells_covers(rows, views);
    }
    let mut i: usize = 0;
    while i < lines.len()
        invariant
            i <= lines.len(),
            views == line_texts(lines@),
            forall|j: int| 0 <= j < i ==> numeric(#[trigger] views[j]),
        decreases lines.len() - i,
    {
        assert(views[i as int] == texts(lines[i as int]@));
        match parse_row(&lines[i]) {
            Some(_) => {},
            None => {
                proof {
                    assert(is_line_of(rows, views[i as int]));
                    let key = choose|key: Seq<Seq<char>>| #[trigger]
                        rows.dom().contains(key) && views[i as int] == key + rows[key];
                    lemma_numeric_parts(key, rows[key]);
                }
                return false;
            },
        }
        i += 1;
    }
    proof {
        assert forall|key: Seq<Seq<char>>| #[trigger] rows.dom().contains(key) implies numeric(key)
            && numeric(rows[key]) by {
            assert(views.contains(key + rows[key]));
            let j = choose|j: int| 0 <= j < views.len() && views[j] == key + rows[key];
            assert(numeric(views[j]));
            lemma_numeric_parts(key, rows[key]);
        }
    }
    true
}

/// The scores that a line of the store ends in, after a key of `key_length` texts.
pub open spec fn line_scores(line: Seq<Seq<char>>, key_length: int) -> Option<Seq<i64>> {
    if 0 <= key_length <= line.len() {
        parsed_fields(line.skip(key_length))
    } else {
        None
    }
}

/// Whether every line of the store ends in scores after `key_length` texts.
pub open spec fn all_scored(rows: Map<Seq<Seq<char>>, Seq<Seq<char>>>, key_length: int) -> bool {
    forall|key: Seq<Seq<char>>| #[trigger]
        rows.dom().contains(key) ==> line_scores(key + rows[key], key_length) is Some
}

/// Whether the lines come worst first: none is outranked by an earlier one.
pub open spec fn worst_first(lines: Seq<Seq<Seq<char>>>, key_length: int) -> bool {
    forall|i: int, j: int|
        0 <= i < j < lines.len() ==> holds_against(
            line_scores(lines[j], key_length)->0,
            line_scores(lines[i], key_length)->0,
        )
}

/// What listing the store in order must come to: one line for each key of
/// the store, worst first, where every line ends in scores, and else none.
pub open spec fn listed(
    rows: Map<Seq<Seq<char>>, Seq<Seq<char>>>,
    key_length: int,
    outcome: Option<Vec<Vec<String>>>,
) -> bool {
    match outcome {
        Some(lines) => {
            &&& all_scored(rows, key_length)
            &&& tells(rows, line_texts(lines@))
            &&& worst_first(line_texts(lines@), key_length)
        },
        None => !all_scored(rows, key_length),
    }
}

fn line_tail(line: &Vec<String>, key_length: usize) -> (tail: Vec<String>)
    requires
        key_length <= line.len(),
    ensures
        texts(tail@) == texts(line@).skip(key_length as int),
{
    let mut tail: Vec<String> = Vec::new();
    let mut i: usize = key_length;
    while i < line.len()
        invariant
            key_length <= i <= line.len(),
            tail.len() == i - key_length,
            forall|j: int| 0 <= j < tail.len() ==> (#[trigger] tail[j])@ == line[key_length + j]@,
        decreases line.len() - i,
    {
        tail.push(line[i].clone());
        i += 1;
    }
    assert(texts(tail@) =~= texts(line@).skip(key_length as int));
    tail
}

/// Pairs each line with the scores it ends in. Gives none at the first line
/// that does not end in scores.
#[verifier::loop_isolation(false)]
fn pair_with_scores(lines: Vec<Vec<String>>, key_length: usize) -> (outcome: Option<
    Vec<(Vec<String>, Vec<i64>)>,
>)
    ensures
        match outcome {
            Some(paired) => {
                &&& paired.len() == lines.len()
                &&& forall|j: int|
                    0 <= j < paired.len() ==> (#[trigger] paired[j]).0 == lines[lines.len() - 1 - j]
                        && line_scores(texts(paired[j].0@), key_length as int) == Some(
                        paired[j].1@,
                    )
            },
            None => exists|i: int|
                0 <= i < lines.len() && line_scores(
                    #[trigger] line_texts(lines@)[i],
                    key_length as int,
                ) is None,
        },
{
    let mut rest = lines;
    let ghost listed = rest@;
    let count = rest.len();
    let mut paired: Vec<(Vec<String>, Vec<i64>)> = Vec::new();
    while rest.len() > 0
        invariant
            rest.len() + paired.len() == count,
            forall|j: int| 0 <= j < rest.len() ==> rest[j] == listed[j],
            forall|j: int|
                0 <= j < paired.len() ==> (#[trigger] paired[j]).0 == listed[count - 1 - j]
                    && line_scores(texts(paired[j].0@), key_length as int) == Some(paired[j].1@),
        decreases rest.len(),
    {
        let line = rest.pop().unwrap();
        let ghost at = rest.len() as int;
        assert(line == listed[at]);
        assert(line_texts(listed)[at] == texts(line@));
        if line.len() < key_length {
            assert(line_scores(line_texts(listed)[at], key_length as int) is None);
            return None;
        }
        let tail = line_tail(&line, key_length);
        match parse_row(&tail) {
            Some(scores) => {
                paired.push((line, scores));
            },
            None => {
                assert(line_scores(line_texts(listed)[at], key_length as int) is None);
                return None;
            },
        }
    }
    Some(paired)
}

/// Takes the lines out of their pairs, last pair first.
fn unpair_reversed(ranked: Vec<(Vec<String>, Vec<i64>)>) -> (lines: Vec<Vec<String>>)
    ensures
        lines.len() == ranked.len(),
        forall|j: int| 0 <= j < lines.len() ==> (#[trigger] lines[j]) == ranked[ranked.len() - 1 - j].0,
{
    let mut ranked = ranked;
    let ghost ranking = ranked@;
    let count = ranked.len();
    let mut lines: Vec<Vec<String>> = Vec::new();
    while ranked.len() > 0
        invariant
            ranked.len() + lines.len() == count,
            count == ranking.len(),
            forall|j: int| 0 <= j < ranked.len() ==> ranked[j] == ranking[j],
            forall|j: int| 0 <= j < lines.len() ==> (#[trigger] lines[j]) == ranking[count - 1 - j].0,
        decreases ranked.len(),
    {
        let (line, _) = ranked.pop().unwrap();
        lines.push(line);
    }
    lines
}

/// The lines of the store, each a key followed by its row, in the order of
/// their scores: worst first, best last. The scores of a line are what
/// follows its first `key_length` texts. Gives none unless every line ends
/// in scores there.
pub fn sorted_lines(db: &DB, key_length: usize) -> (outcome: Option<Vec<Vec<String>>>)
    ensures
        listed(db_rows(*db), key_length as int, outcome),
{
    let ghost rows = db_rows(*db);
    let listed = db_to_vec(db);
    let ghost before = line_texts(listed@);
    proof {
        lemma_tells_covers(rows, before);
    }
    let paired = match pair_with_scores(listed, key_length) {
        Some(paired) => paired,
        None => {
            proof {
                let i = choose|i: int|
                    0 <= i < before.len() && line_scores(#[trigger] before[i], key_length as int)
                        is None;
                assert(is_line_of(rows, before[i]));
            }
            return None;
        },
    };
    let ghost pairs = paired@;
    let ranked = sort_best_first(paired);
    let ghost ranking = ranked@;
    let sorted = unpair_reversed(ranked);
    proof {
        let after = line_texts(sorted@);
        let count = before.len() as int;
        let from = choose|from: Seq<int>| rearranged(from, ranking, pairs);
        let path = Seq::new(count as nat, |i: int| count - 1 - from[count - 1 - i]);
        assert forall|i: int|
            #![trigger path[i]]
            #![trigger after[i]]
            0 <= i < count implies 0 <= path[i] < count && after[i] == before[path[i]]
            && line_scores(after[i], key_length as int) == Some(ranking[count - 1 - i].1@) by {
            let k: int = count - 1 - i;
            assert(0 <= from[k] < count);
            assert(sorted[i] == ranking[k].0);
            assert(ranking[k] == pairs[from[k]]);
            assert(before[count - 1 - from[k]] == texts(pairs[from[k]].0@));
        }
        assert forall|i: int, j: int|
            0 <= i < count && 0 <= j < count && i != j implies path[i] != path[j] by {
            assert(from[count - 1 - i] != from[count - 1 - j]);
        }
        assert forall|j: int| 0 <= j < count implies #[trigger] names(path, j) by {
            assert(names(from, count - 1 - j));
            let k = choose|k: int| 0 <= k < from.len() && #[trigger] from[k] == count - 1 - j;
            assert(path[count - 1 - k] == j);
        }
        assert(rearranged(path, after, before));
        lemma_rearranged_tells(rows, before, after, path);
        lemma_tells_covers(rows, after);
        assert forall|key: Seq<Seq<char>>| #[trigger] rows.dom().contains(key) implies line_scores(
            key + rows[key],
            key_length as int,
        ) is Some by {
            assert(after.contains(key + rows[key]));
            let i = choose|i: int| 0 <= i < after.len() && after[i] == key + rows[key];
            assert(line_scores(after[i], key_length as int) is Some);
        }
        assert forall|i: int, j: int| 0 <= i < j < after.len() implies holds_against(
            line_scores(after[j], key_length as int)->0,
            line_scores(after[i], key_length as int)->0,
        ) by {
            assert(line_scores(after[i], key_length as int) == Some(ranking[count - 1 - i].1@));
            assert(line_scores(after[j], key_length as int) == Some(ranking[count - 1 - j].1@));
        }
    }
    Some(sorted)
}

impl Ledger for DB {
    open spec fn entries(&self) -> Map<Seq<i64>, Seq<i64>> {
        Map::new(
            |features: Seq<i64>| db_rows(*self).dom().contains(number_texts(features)),
            |features: Seq<i64>| parsed_fields(db_rows(*self)[number_texts(features)])->0,
        )
    }

    open spec fn sound(&self) -> bool {
        forall|features: Seq<i64>| #[trigger]
            db_rows(*self).dom().contains(number_texts(features)) ==> numeric(
                db_rows(*self)[number_texts(features)],
            )
    }

    open spec fn keeps(&self) -> bool {
        true
    }

    fn lookup(&self, features: &Vec<i64>) -> (found: Option<Vec<i64>>) {
        let key = render_row(features);
        if !db_contains_key(self, &key) {
            return None;
        }
        match db_get(self, &key) {
            Some(row) => parse_row(&row),
            None => None,
        }
    }

    fn record(&mut self, features: &Vec<i64>, evaluations: &Vec<i64>) {
        let key = render_row(features);
        let row = render_row(evaluations);
        db_insert(self, &key, &row);
        proof {
            lemma_row_round_trip(features@);
            lemma_row_round_trip(evaluations@);
            let after = self.entries();
            let expected = old(self).entries().insert(features@, evaluations@);
            assert forall|f: Seq<i64>| after.dom().contains(f) <==> expected.dom().contains(f) by {}
            assert forall|f: Seq<i64>| after.dom().contains(f) implies after[f] == expected[f] by {}
            assert(after =~= expected);
            assert forall|f: Seq<i64>| #[trigger]
                db_rows(*self).dom().contains(number_texts(f)) implies numeric(
                db_rows(*self)[number_texts(f)],
            ) by {
                if number_texts(f) != number_texts(features@) {
                    assert(db_rows(*old(self)).dom().contains(number_texts(f)));
                }
            }
        }
    }
}

} // verus!
