//! Where scores are kept so that no feature vector is scored twice.

use vstd::prelude::*;
use vstd::hash_map::StringHashMap;
use crate::ranking::best_first_order;
use crate::ranking::sort_best_first;
use crate::text::framed;
use crate::text::joined;
use crate::text::lemma_joined_push;
use crate::text::lemma_vector_text_injective;
use crate::text::parse_record;
use crate::text::parsed_record;
use crate::text::record_text;
use crate::text::RecordError;
use crate::text::render_record;
use crate::text::render_vector;
use crate::text::split;
use crate::text::split_fields;
use crate::text::texts;
use crate::text::vector_text;

verus! {

/// A store of scores, keyed by feature vector.
pub trait Ledger {
    /// The scores that the store holds, by feature vector.
    spec fn entries(&self) -> Map<Seq<i64>, Seq<i64>>;

    /// Whether every score in the store can be read back.
    spec fn sound(&self) -> bool;

    /// Whether the store keeps what is recorded in it.
    spec fn keeps(&self) -> bool;

    /// Looks up the score of a feature vector.
    fn lookup(&self, features: &Vec<i64>) -> (found: Option<Vec<i64>>)
        requires
            self.sound(),
        ensures
            match found {
                Some(score) => self.entries().dom().contains(features@) && score@
                    == self.entries()[features@],
                None => !self.entries().dom().contains(features@),
            },
    ;

    /// Records the score of a feature vector, in place of any earlier one.
    fn record(&mut self, features: &Vec<i64>, evaluations: &Vec<i64>)
        requires
            old(self).sound(),
        ensures
            final(self).sound(),
            final(self).keeps() == old(self).keeps(),
            final(self).entries() == if old(self).keeps() {
                old(self).entries().insert(features@, evaluations@)
            } else {
                old(self).entries()
            },
    ;
}

/// The store that keeps nothing: every lookup misses.
pub struct Blank;

impl Ledger for Blank {
    open spec fn entries(&self) -> Map<Seq<i64>, Seq<i64>> {
        Map::empty()
    }

    open spec fn sound(&self) -> bool {
        true
    }

    open spec fn keeps(&self) -> bool {
        false
    }

    fn lookup(&self, features: &Vec<i64>) -> (found: Option<Vec<i64>>) {
        None
    }

    fn record(&mut self, features: &Vec<i64>, evaluations: &Vec<i64>) {
    }
}

/// Scores in memory, keyed by text. Keys keep the order in which they came.
pub struct Memo {
    map: StringHashMap<Vec<i64>>,
    keys: Vec<String>,
}

impl View for Memo {
    type V = Map<Seq<char>, Seq<i64>>;

    closed spec fn view(&self) -> Map<Seq<char>, Seq<i64>> {
        Map::new(|key: Seq<char>| self.map@.dom().contains(key), |key: Seq<char>| self.map@[key]@)
    }
}

impl Memo {
    /// The order holds the keys of the map, each once.
    pub closed spec fn well_formed(&self) -> bool {
        &&& forall|i: int, j: int|
            0 <= i < j < self.keys.len() ==> self.keys[i]@ != self.keys[j]@
        &&& forall|key: Seq<char>|
            self.map@.dom().contains(key) <==> texts(self.keys@).contains(key)
    }

    /// The keys in the order in which they were first inserted.
    pub closed spec fn order(&self) -> Seq<Seq<char>> {
        texts(self.keys@)
    }

    /// An empty memo.
    pub fn new() -> (memo: Self)
        ensures
            memo.well_formed(),
            memo@ == Map::<Seq<char>, Seq<i64>>::empty(),
            memo.order() == Seq::<Seq<char>>::empty(),
    {
        let memo = Memo { map: StringHashMap::new(), keys: Vec::new() };
        assert(memo@ =~= Map::<Seq<char>, Seq<i64>>::empty());
        assert(memo.order() =~= Seq::<Seq<char>>::empty());
        memo
    }

    /// The number of keys. The order holds the keys of the map, each once.
    pub fn len(&self) -> (count: usize)
        ensures
            count == self.order().len(),
            self.well_formed() ==> forall|key: Seq<char>|
                self@.dom().contains(key) <==> self.order().contains(key),
            self.well_formed() ==> forall|i: int, j: int|
                0 <= i < j < self.order().len() ==> self.order()[i] != self.order()[j],
    {
        self.keys.len()
    }

    /// Whether the key has a score.
    pub fn contains_key(&self, key: &str) -> (present: bool)
        ensures
            present == self@.dom().contains(key@),
    {
        self.map.contains_key(key)
    }

    /// The score under the key.
    pub fn get(&self, key: &str) -> (found: Option<&Vec<i64>>)
        ensures
            match found {
                Some(score) => self@.dom().contains(key@) && score@ == self@[key@],
                None => !self@.dom().contains(key@),
            },
    {
        self.map.get(key)
    }

    /// The key at a place in the order.
    pub fn key_at(&self, place: usize) -> (key: &String)
        requires
            self.well_formed(),
            place < self.order().len(),
        ensures
            key@ == self.order()[place as int],
            self@.dom().contains(key@),
    {
        proof {
            assert(texts(self.keys@)[place as int] == self.keys[place as int]@);
            assert(texts(self.keys@).contains(self.keys[place as int]@));
        }
        &self.keys[place]
    }

    /// Puts a score under a key, in place of any earlier one. A new key goes
    /// to the end of the order.
    pub fn insert(&mut self, key: String, value: Vec<i64>)
        requires
            old(self).well_formed(),
        ensures
            final(self).well_formed(),
            final(self)@ == old(self)@.insert(key@, value@),
            final(self).order() == if old(self)@.dom().contains(key@) {
                old(self).order()
            } else {
                old(self).order().push(key@)
            },
    {
        let ghost before = self.keys@;
        let ghost name = key@;
        if !self.map.contains_key(key.as_str()) {
            self.keys.push(key.clone());
            assert(texts(self.keys@) =~= texts(before).push(name));
        }
        self.map.insert(key, value);
        proof {
            assert(self@ =~= old(self)@.insert(name, value@));
            assert forall|k: Seq<char>| self.map@.dom().contains(k) <==> texts(
                self.keys@,
            ).contains(k) by {
                if texts(self.keys@).contains(k) {
                    let i = choose|i: int| 0 <= i < self.keys.len() && texts(self.keys@)[i] == k;
                    if i < before.len() {
                        assert(texts(before)[i] == k);
                        assert(texts(before).contains(k));
                    }
                }
                if texts(before).contains(k) {
                    let i = choose|i: int| 0 <= i < before.len() && texts(before)[i] == k;
                    assert(texts(self.keys@)[i] == k);
                }
                if k == name {
                    if old(self).map@.dom().contains(name) {
                    } else {
                        assert(texts(self.keys@)[before.len() as int] == name);
                    }
                }
            }
            assert forall|i: int, j: int| 0 <= i < j < self.keys.len() implies self.keys[i]@
                != self.keys[j]@ by {
                if j == before.len() {
                    assert(texts(before)[i] == self.keys[i]@);
                    assert(texts(before).contains(self.keys[i]@));
                }
            }
        }
    }
}

/// A line without the carriage return that it ends in, if it ends in one.
pub open spec fn without_return(line: Seq<char>) -> Seq<char> {
    if line.len() > 0 && line.last() == '\r' {
        line.drop_last()
    } else {
        line
    }
}

/// The lines of a text. Each line ends with a line feed, or with a carriage
/// return and a line feed, which are no part of it. What follows the last
/// line feed is a line of its own unless it is empty.
pub open spec fn lines_of(content: Seq<char>) -> Seq<Seq<char>> {
    let fields = split(content, '\n');
    let closed = Seq::new((fields.len() - 1) as nat, |i: int| without_return(fields[i]));
    if fields.last().len() == 0 {
        closed
    } else {
        closed.push(fields.last())
    }
}

/// The records of the first `upto` keys, each on a line of its own that
/// ends in a line feed.
pub open spec fn records_text(
    scores: Map<Seq<char>, Seq<i64>>,
    order: Seq<Seq<char>>,
    upto: nat,
) -> Seq<char>
    decreases upto,
{
    if upto == 0 {
        Seq::empty()
    } else {
        records_text(scores, order, (upto - 1) as nat) + record_text(
            order[upto - 1],
            scores[order[upto - 1]],
        ) + seq!['\n']
    }
}

/// The scores after the first `upto` lines were read into them, one after
/// the other, a later line replacing an earlier one with the same key.
pub open spec fn absorbed(
    scores: Map<Seq<char>, Seq<i64>>,
    lines: Seq<Seq<char>>,
    upto: nat,
) -> Map<Seq<char>, Seq<i64>>
    decreases upto,
{
    if upto == 0 {
        scores
    } else {
        let record = parsed_record(lines[upto - 1])->0;
        absorbed(scores, lines, (upto - 1) as nat).insert(record.0, record.1)
    }
}

/// The lines of the records of the first `upto` keys.
pub open spec fn record_lines(
    scores: Map<Seq<char>, Seq<i64>>,
    order: Seq<Seq<char>>,
    upto: nat,
) -> Seq<Seq<char>> {
    Seq::new(upto, |i: int| record_text(order[i], scores[order[i]]))
}

/// Whether the first `upto` keys and their scores come back from text: no
/// key holds a `:` or a line feed, and no score is empty.
pub open spec fn savable(
    scores: Map<Seq<char>, Seq<i64>>,
    order: Seq<Seq<char>>,
    upto: nat,
) -> bool {
    forall|i: int|
        0 <= i < upto ==> {
            &&& !(#[trigger] order[i]).contains(':')
            &&& !order[i].contains('\n')
            &&& scores[order[i]].len() > 0
        }
}

proof fn lemma_records_text_joined(
    scores: Map<Seq<char>, Seq<i64>>,
    order: Seq<Seq<char>>,
    upto: nat,
)
    ensures
        records_text(scores, order, upto) == joined(
            record_lines(scores, order, upto).push(Seq::empty()),
            seq!['\n'],
        ),
    decreases upto,
{
    let mark = seq!['\n'];
    let lines = record_lines(scores, order, upto);
    if upto == 0 {
        assert(lines.push(Seq::empty()) =~= seq![Seq::<char>::empty()]);
    } else {
        let fewer = record_lines(scores, order, (upto - 1) as nat);
        let line = record_text(order[upto - 1], scores[order[upto - 1]]);
        lemma_records_text_joined(scores, order, (upto - 1) as nat);
        assert(lines =~= fewer.push(line));
        lemma_joined_push(lines, Seq::empty(), mark);
        if upto == 1 {
            assert(fewer.push(Seq::<char>::empty()) =~= seq![Seq::<char>::empty()]);
            assert(lines =~= seq![line]);
            assert(records_text(scores, order, upto) =~= joined(lines, mark) + mark
                + Seq::<char>::empty());
        } else {
            lemma_joined_push(fewer, Seq::empty(), mark);
            lemma_joined_push(fewer, line, mark);
            assert(records_text(scores, order, upto) =~= joined(lines, mark) + mark
                + Seq::<char>::empty());
        }
    }
}

proof fn lemma_absorbed_records(
    scores: Map<Seq<char>, Seq<i64>>,
    order: Seq<Seq<char>>,
    lines: Seq<Seq<char>>,
    upto: nat,
)
    requires
        upto <= lines.len(),
        forall|i: int|
            0 <= i < upto ==> (#[trigger] parsed_record(lines[i])) == Some(
                (order[i], scores[order[i]]),
            ),
    ensures
        forall|key: Seq<char>|
            absorbed(Map::empty(), lines, upto).dom().contains(key) <==> exists|i: int|
                0 <= i < upto && #[trigger] order[i] == key,
        forall|key: Seq<char>|
            absorbed(Map::empty(), lines, upto).dom().contains(key) ==> #[trigger] absorbed(
                Map::empty(),
                lines,
                upto,
            )[key] == scores[key],
    decreases upto,
{
    if upto > 0 {
        lemma_absorbed_records(scores, order, lines, (upto - 1) as nat);
        let before = absorbed(Map::empty(), lines, (upto - 1) as nat);
        let after = absorbed(Map::empty(), lines, upto);
        assert(parsed_record(lines[upto - 1]) == Some((order[upto - 1], scores[order[upto - 1]])));
        assert(after == before.insert(order[upto - 1], scores[order[upto - 1]]));
        assert forall|key: Seq<char>| after.dom().contains(key) <==> exists|i: int|
            0 <= i < upto && #[trigger] order[i] == key by {
            if after.dom().contains(key) {
                if key == order[upto - 1] {
                } else {
                    assert(before.dom().contains(key));
                    let i = choose|i: int| 0 <= i < upto - 1 && #[trigger] order[i] == key;
                    assert(0 <= i < upto && order[i] == key);
                }
            }
            if exists|i: int| 0 <= i < upto && #[trigger] order[i] == key {
                let i = choose|i: int| 0 <= i < upto && #[trigger] order[i] == key;
                if i < upto - 1 {
                    assert(0 <= i < upto - 1 && order[i] == key);
                    assert(before.dom().contains(key));
                }
            }
        }
    }
}

/// A memo comes back from the text it is saved as: the text is read
/// without an error, and what is read into an empty memo is the memo.
pub proof fn lemma_saved_memo_loads_back(scores: Map<Seq<char>, Seq<i64>>, order: Seq<Seq<char>>)
    requires
        forall|key: Seq<char>| scores.dom().contains(key) <==> order.contains(key),
        savable(scores, order, order.len()),
    ensures
        lines_of(records_text(scores, order, order.len())) == record_lines(
            scores,
            order,
            order.len(),
        ),
        load_outcome(records_text(scores, order, order.len()), Ok(())),
        absorbed(
            Map::empty(),
            lines_of(records_text(scores, order, order.len())),
            order.len(),
        ) == scores,
{
    let count = order.len();
    let text = records_text(scores, order, count);
    let lines = record_lines(scores, order, count);
    let parts = lines.push(Seq::empty());
    lemma_records_text_joined(scores, order, count);
    assert forall|i: int| 0 <= i < parts.len() implies !(#[trigger] parts[i]).contains('\n') by {
        if i < count {
            assert(!order[i].contains(':'));
            crate::text::lemma_record_round_trip(order[i], scores[order[i]]);
        }
    }
    crate::text::lemma_split_joined(parts, '\n');
    assert(parts.last().len() == 0);
    assert forall|i: int| 0 <= i < count implies (#[trigger] parsed_record(lines[i])) == Some(
        (order[i], scores[order[i]]),
    ) && without_return(lines[i]) == lines[i] by {
        assert(!order[i].contains(':'));
        crate::text::lemma_record_round_trip(order[i], scores[order[i]]);
    }
    assert(lines_of(text) =~= lines) by {
        let fields = split(text, '\n');
        assert(fields == parts);
        assert forall|i: int| 0 <= i < count implies without_return(fields[i]) == lines[i] by {
            assert(fields[i] == lines[i]);
            assert(parsed_record(lines[i]) is Some);
        }
    }
    lemma_absorbed_records(scores, order, lines, count);
    let read = absorbed(Map::empty(), lines, count);
    assert forall|key: Seq<char>| read.dom().contains(key) <==> scores.dom().contains(key) by {
        if order.contains(key) {
            let i = choose|i: int| 0 <= i < order.len() && order[i] == key;
            assert(0 <= i < count && order[i] == key);
        }
        if read.dom().contains(key) {
            let i = choose|i: int| 0 <= i < count && #[trigger] order[i] == key;
            assert(order.contains(key));
        }
    }
    assert(read =~= scores);
}

/// Why a text could not be read into a memo.
#[derive(Debug, Clone, Copy, PartialEq, Eq, Structural)]
pub enum LoadError {
    /// The line with this number, counted from 0, does not hold exactly
    /// one `:`.
    Malformed(usize),
    /// On the line with this number, counted from 0, what follows the `:` is
    /// not a vector of numbers.
    UnreadableValue(usize),
}

/// What reading a text into a memo must come to: the first line that is no
/// record decides the error, and without one the text is read.
pub open spec fn load_outcome(content: Seq<char>, outcome: Result<(), LoadError>) -> bool {
    let lines = lines_of(content);
    match outcome {
        Ok(()) => forall|i: int|
            0 <= i < lines.len() ==> (#[trigger] parsed_record(lines[i])) is Some,
        Err(LoadError::Malformed(line)) => {
            &&& line < lines.len()
            &&& !framed(lines[line as int])
            &&& forall|i: int| 0 <= i < line ==> (#[trigger] parsed_record(lines[i])) is Some
        },
        Err(LoadError::UnreadableValue(line)) => {
            &&& line < lines.len()
            &&& framed(lines[line as int])
            &&& parsed_record(lines[line as int]) is None
            &&& forall|i: int| 0 <= i < line ==> (#[trigger] parsed_record(lines[i])) is Some
        },
    }
}

/// Takes the carriage return off the end of a line that ends in one.
fn strip_return(line: String) -> (bare: String)
    ensures
        bare@ == without_return(line@),
{
    let length = line.as_str().unicode_len();
    if length > 0 && line.as_str().get_char(length - 1) == '\r' {
        let bare = line.as_str().substring_char(0, length - 1).to_owned();
        assert(bare@ =~= line@.drop_last());
        bare
    } else {
        line
    }
}

/// Makes lines of the fields between the line feeds of a text.
fn lines_of_fields(fields: Vec<String>) -> (lines: Vec<String>)
    requires
        fields.len() > 0,
    ensures
        texts(lines@) == ({
            let closed = Seq::new(
                (fields.len() - 1) as nat,
                |i: int| without_return(texts(fields@)[i]),
            );
            if texts(fields@).last().len() == 0 {
                closed
            } else {
                closed.push(texts(fields@).last())
            }
        }),
{
    let ghost given = texts(fields@);
    let count = fields.len();
    let mut fields = fields;
    let mut taken: Vec<String> = Vec::new();
    while fields.len() > 0
        invariant
            fields.len() + taken.len() == count,
            count == given.len(),
            forall|j: int| 0 <= j < fields.len() ==> fields[j]@ == given[j],
            forall|j: int| 0 <= j < taken.len() ==> (#[trigger] taken[j])@ == given[count - 1 - j],
        decreases fields.len(),
    {
        let ghost at = fields.len() - 1;
        assert(texts(fields@)[at] == fields[at]@);
        let field = fields.pop().unwrap();
        taken.push(field);
    }
    let mut lines: Vec<String> = Vec::new();
    let mut i: usize = 0;
    while i + 1 < count
        invariant
            i + 1 <= count,
            count == given.len(),
            taken.len() == count - i,
            lines.len() == i,
            forall|j: int| 0 <= j < taken.len() ==> (#[trigger] taken[j])@ == given[count - 1 - j],
            forall|j: int| 0 <= j < i ==> (#[trigger] lines[j])@ == without_return(given[j]),
        decreases count - i,
    {
        let field = taken.pop().unwrap();
        lines.push(strip_return(field));
        i += 1;
    }
    let last = taken.pop().unwrap();
    assert(last@ == given[count - 1]);
    let ghost closed = Seq::new((count - 1) as nat, |i: int| without_return(given[i]));
    assert(texts(lines@) =~= closed);
    if !last.as_str().is_empty() {
        lines.push(last);
        assert(texts(lines@) =~= closed.push(given.last()));
    }
    lines
}

impl Memo {
    /// The memo as text: one record on each line, in the order of the keys.
    pub fn to_csv(&self) -> (content: String)
        requires
            self.well_formed(),
        ensures
            content@ == records_text(self@, self.order(), self.order().len()),
    {
        let mut content = String::new();
        let mut i: usize = 0;
        let count = self.len();
        proof {
            reveal_strlit("\n");
            assert("\n"@ =~= seq!['\n']);
        }
        while i < count
            invariant
                i <= count,
                count == self.order().len(),
                self.well_formed(),
                "\n"@ == seq!['\n'],
                content@ == records_text(self@, self.order(), i as nat),
            decreases count - i,
        {
            let key = self.key_at(i);
            let ghost before = content@;
            match self.get(key.as_str()) {
                Some(values) => {
                    let line = render_record(key.as_str(), values);
                    content.append(line.as_str());
                    content.append("\n");
                },
                None => {},
            }
            i += 1;
            assert(content@ =~= records_text(self@, self.order(), i as nat));
        }
        content
    }

    /// Reads a text of records into the memo, line by line. Unless every
    /// line is a record, nothing is read and the memo stays as it was.
    #[verifier::loop_isolation(false)]
    pub fn load_csv(&mut self, content: &str) -> (outcome: Result<(), LoadError>)
        requires
            old(self).well_formed(),
        ensures
            final(self).well_formed(),
            load_outcome(content@, outcome),
            outcome is Ok ==> final(self)@ == absorbed(
                old(self)@,
                lines_of(content@),
                lines_of(content@).len(),
            ),
            outcome is Err ==> final(self)@ == old(self)@ && final(self).order() == old(
                self,
            ).order(),
    {
        let fields = split_fields(content, 10u8);
        assert(10u8 as char == '\n');
        let lines = lines_of_fields(fields);
        let ghost wanted = lines_of(content@);
        assert(texts(lines@) == wanted);
        let mut records: Vec<(String, Vec<i64>)> = Vec::new();
        let mut i: usize = 0;
        while i < lines.len()
            invariant
                i <= lines.len(),
                records.len() == i,
                texts(lines@) == wanted,
                forall|j: int|
                    #![trigger records[j]]
                    #![trigger parsed_record(wanted[j])]
                    0 <= j < i ==> parsed_record(wanted[j]) == Some((records[j].0@, records[j].1@)),
            decreases lines.len() - i,
        {
            assert(wanted[i as int] == lines[i as int]@);
            match parse_record(lines[i].as_str()) {
                Ok(record) => {
                    records.push(record);
                },
                Err(RecordError::Malformed) => {
                    return Err(LoadError::Malformed(i));
                },
                Err(RecordError::UnreadableValue) => {
                    return Err(LoadError::UnreadableValue(i));
                },
            }
            i += 1;
        }
        let ghost parsed = records@;
        let count = records.len();
        let mut taken: Vec<(String, Vec<i64>)> = Vec::new();
        while records.len() > 0
            invariant
                records.len() + taken.len() == count,
                count == parsed.len(),
                forall|j: int| 0 <= j < records.len() ==> records[j] == parsed[j],
                forall|j: int| 0 <= j < taken.len() ==> (#[trigger] taken[j]) == parsed[count - 1 - j],
            decreases records.len(),
        {
            let record = records.pop().unwrap();
            taken.push(record);
        }
        let mut done: usize = 0;
        while done < count
            invariant
                done <= count,
                count == parsed.len(),
                count == wanted.len(),
                taken.len() == count - done,
                forall|j: int| 0 <= j < taken.len() ==> (#[trigger] taken[j]) == parsed[count - 1 - j],
                forall|j: int|
                    #![trigger parsed[j]]
                    #![trigger parsed_record(wanted[j])]
                    0 <= j < count ==> parsed_record(wanted[j]) == Some((parsed[j].0@, parsed[j].1@)),
                self.well_formed(),
                self@ == absorbed(old(self)@, wanted, done as nat),
            decreases count - done,
        {
            let (key, values) = taken.pop().unwrap();
            assert((key, values) == parsed[done as int]);
            self.insert(key, values);
            done += 1;
        }
        Ok(())
    }

    /// The record of the key that came last, as the line to append to
    /// what was saved before. Gives none for an empty memo.
    pub fn last_record(&self) -> (line: Option<String>)
        requires
            self.well_formed(),
        ensures
            match line {
                Some(text) => self.order().len() > 0 && text@ == record_text(
                    self.order().last(),
                    self@[self.order().last()],
                ) + seq!['\n'],
                None => self.order().len() == 0,
            },
    {
        let count = self.len();
        if count == 0 {
            return None;
        }
        let key = self.key_at(count - 1);
        match self.get(key.as_str()) {
            Some(values) => {
                let mut line = render_record(key.as_str(), values);
                proof {
                    reveal_strlit("\n");
                    assert("\n"@ =~= seq!['\n']);
                }
                line.append("\n");
                Some(line)
            },
            None => None,
        }
    }

    /// The records of the memo, best score first.
    pub fn sorted(&self) -> (records: Vec<(String, Vec<i64>)>)
        requires
            self.well_formed(),
        ensures
            records.len() == self.order().len(),
            best_first_order(records@),
            forall|i: int|
                0 <= i < records.len() ==> self@.dom().contains((#[trigger] records[i]).0@)
                    && records[i].1@ == self@[records[i].0@],
            forall|key: Seq<char>|
                self@.dom().contains(key) ==> exists|i: int|
                    0 <= i < records.len() && (#[trigger] records[i]).0@ == key,
    {
        let mut records: Vec<(String, Vec<i64>)> = Vec::new();
        let count = self.len();
        let mut i: usize = 0;
        while i < count
            invariant
                i <= count,
                count == self.order().len(),
                self.well_formed(),
                records.len() == i,
                forall|j: int|
                    0 <= j < i ==> (#[trigger] records[j]).0@ == self.order()[j] && self@.dom().contains(
                        records[j].0@,
                    ) && records[j].1@ == self@[records[j].0@],
            decreases count - i,
        {
            let key = self.key_at(i);
            match self.get(key.as_str()) {
                Some(values) => {
                    records.push((key.clone(), values.clone()));
                },
                None => {},
            }
            i += 1;
        }
        let ghost listed = records@;
        let sorted = sort_best_first(records);
        proof {
            broadcast use vstd::seq_lib::group_to_multiset_ensures;

            assert forall|k: int| 0 <= k < sorted.len() implies self@.dom().contains(
                (#[trigger] sorted[k]).0@,
            ) && sorted[k].1@ == self@[sorted[k].0@] by {
                assert(sorted@.contains(sorted[k]));
                assert(sorted@.to_multiset().count(sorted[k]) > 0);
                assert(listed.to_multiset().count(sorted[k]) > 0);
                assert(listed.contains(sorted[k]));
                let j = choose|j: int| 0 <= j < listed.len() && listed[j] == sorted[k];
                assert(listed[j].0@ == self.order()[j]);
            }
            assert forall|key: Seq<char>| self@.dom().contains(key) implies exists|k: int|
                0 <= k < sorted.len() && (#[trigger] sorted[k]).0@ == key by {
                assert(self.order().contains(key));
                let j = choose|j: int| 0 <= j < self.order().len() && self.order()[j] == key;
                assert(listed[j].0@ == key);
                assert(listed.contains(listed[j]));
                assert(listed.to_multiset().count(listed[j]) > 0);
                assert(sorted@.to_multiset().count(listed[j]) > 0);
                assert(sorted@.contains(listed[j]));
                let k = choose|k: int| 0 <= k < sorted.len() && sorted[k] == listed[j];
                assert(sorted[k].0@ == key);
            }
        }
        sorted
    }
}

impl Ledger for Memo {
    open spec fn entries(&self) -> Map<Seq<i64>, Seq<i64>> {
        Map::new(
            |features: Seq<i64>| self@.dom().contains(vector_text(features)),
            |features: Seq<i64>| self@[vector_text(features)],
        )
    }

    open spec fn sound(&self) -> bool {
        self.well_formed()
    }

    open spec fn keeps(&self) -> bool {
        true
    }

    fn lookup(&self, features: &Vec<i64>) -> (found: Option<Vec<i64>>) {
        let key = render_vector(features);
        match self.get(key.as_str()) {
            Some(score) => Some(score.clone()),
            None => None,
        }
    }

    fn record(&mut self, features: &Vec<i64>, evaluations: &Vec<i64>) {
        let key = render_vector(features);
        self.insert(key, evaluations.clone());
        proof {
            let after = self.entries();
            let expected = old(self).entries().insert(features@, evaluations@);
            assert forall|f: Seq<i64>| after.dom().contains(f) <==> expected.dom().contains(f) by {
                if vector_text(f) == vector_text(features@) {
                    lemma_vector_text_injective(f, features@);
                }
            }
            assert forall|f: Seq<i64>| after.dom().contains(f) implies after[f] == expected[f] by {
                if vector_text(f) == vector_text(features@) {
                    lemma_vector_text_injective(f, features@);
                }
            }
            assert(after =~= expected);
        }
    }
}

} // verus!
