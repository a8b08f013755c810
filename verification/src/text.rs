//! The text form of numbers, vectors and cache records.
//!
//! A number is written in decimal, with a leading `-` when it is negative.
//! A vector is its numbers joined by `,`. A record is a key, a `:` and a
//! vector. A key may hold any character but `:` and the line feed.

use vstd::prelude::*;
use vstd::string::is_ascii_spec_bytes;
use vstd::utf8::is_ascii_chars;

verus! {

/// Whether the character is one of the ten decimal digits.
pub open spec fn is_digit(c: char) -> bool {
    '0' <= c <= '9'
}

/// The value of a decimal digit.
pub open spec fn digit_value(c: char) -> int {
    c as int - '0' as int
}

/// The character of a decimal digit.
pub open spec fn digit_char(d: int) -> char {
    if d == 0 {
        '0'
    } else if d == 1 {
        '1'
    } else if d == 2 {
        '2'
    } else if d == 3 {
        '3'
    } else if d == 4 {
        '4'
    } else if d == 5 {
        '5'
    } else if d == 6 {
        '6'
    } else if d == 7 {
        '7'
    } else if d == 8 {
        '8'
    } else {
        '9'
    }
}

/// The decimal digits of a natural number, most significant first, without
/// leading zeros.
pub open spec fn natural_digits(n: nat) -> Seq<char>
    decreases n,
{
    if n < 10 {
        seq![digit_char(n as int)]
    } else {
        natural_digits(n / 10).push(digit_char((n % 10) as int))
    }
}

/// The text of an integer.
pub open spec fn decimal(n: int) -> Seq<char> {
    if n < 0 {
        seq!['-'] + natural_digits((-n) as nat)
    } else {
        natural_digits(n as nat)
    }
}

/// Whether the text is made of decimal digits alone.
pub open spec fn all_digits(s: Seq<char>) -> bool {
    forall|i: int| 0 <= i < s.len() ==> is_digit(#[trigger] s[i])
}

/// The number that a run of digits stands for.
pub open spec fn digits_value(s: Seq<char>) -> int
    decreases s.len(),
{
    if s.len() == 0 {
        0
    } else {
        digits_value(s.drop_last()) * 10 + digit_value(s.last())
    }
}

/// The integer that a text stands for: digits, at least one, after an
/// optional `-`. Any other text stands for none.
pub open spec fn parsed_integer(s: Seq<char>) -> Option<int> {
    if s.len() > 0 && s[0] == '-' {
        if s.len() > 1 && all_digits(s.skip(1)) {
            Some(-digits_value(s.skip(1)))
        } else {
            None
        }
    } else if s.len() > 0 && all_digits(s) {
        Some(digits_value(s))
    } else {
        None
    }
}

/// The number that a text stands for, where it fits the machine's integers.
pub open spec fn parsed_number(s: Seq<char>) -> Option<i64> {
    match parsed_integer(s) {
        Some(v) => if i64::MIN <= v <= i64::MAX {
            Some(v as i64)
        } else {
            None
        },
        None => None,
    }
}

proof fn lemma_natural_digits(n: nat)
    ensures
        natural_digits(n).len() > 0,
        all_digits(natural_digits(n)),
        digits_value(natural_digits(n)) == n,
    decreases n,
{
    if n < 10 {
        let s = natural_digits(n);
        assert(s.drop_last() =~= Seq::<char>::empty());
        assert(digits_value(s.drop_last()) == 0);
    } else {
        lemma_natural_digits(n / 10);
        let s = natural_digits(n);
        assert(s.drop_last() =~= natural_digits(n / 10));
    }
}

/// Reading the text of an integer gives the integer back.
pub proof fn lemma_decimal_round_trip(n: int)
    ensures
        parsed_integer(decimal(n)) == Some(n),
        is_ascii_chars(decimal(n)),
        !decimal(n).contains(','),
        !decimal(n).contains(':'),
        !decimal(n).contains('\n'),
        decimal(n).len() > 0,
{
    if n < 0 {
        lemma_natural_digits((-n) as nat);
        assert(decimal(n).skip(1) =~= natural_digits((-n) as nat));
    } else {
        lemma_natural_digits(n as nat);
    }
}

fn push_digit(out: &mut String, d: u64)
    requires
        d < 10,
    ensures
        final(out)@ == old(out)@.push(digit_char(d as int)),
{
    proof {
        reveal_strlit("0");
        reveal_strlit("1");
        reveal_strlit("2");
        reveal_strlit("3");
        reveal_strlit("4");
        reveal_strlit("5");
        reveal_strlit("6");
        reveal_strlit("7");
        reveal_strlit("8");
        reveal_strlit("9");
    }
    let ghost before = out@;
    if d == 0 {
        out.append("0");
    } else if d == 1 {
        out.append("1");
    } else if d == 2 {
        out.append("2");
    } else if d == 3 {
        out.append("3");
    } else if d == 4 {
        out.append("4");
    } else if d == 5 {
        out.append("5");
    } else if d == 6 {
        out.append("6");
    } else if d == 7 {
        out.append("7");
    } else if d == 8 {
        out.append("8");
    } else {
        out.append("9");
    }
    assert(out@ =~= before.push(digit_char(d as int)));
}

fn push_natural(out: &mut String, n: u64)
    ensures
        final(out)@ == old(out)@ + natural_digits(n as nat),
    decreases n,
{
    let ghost before = out@;
    if n >= 10 {
        push_natural(out, n / 10);
    }
    push_digit(out, n % 10);
    assert(out@ =~= before + natural_digits(n as nat));
}

/// Writes a number as text.
pub fn render_number(value: i64) -> (text: String)
    ensures
        text@ == decimal(value as int),
{
    let mut text = String::new();
    if value < 0 {
        proof {
            reveal_strlit("-");
        }
        text.append("-");
        let size: u64 = (-(value as i128)) as u64;
        push_natural(&mut text, size);
        assert(text@ =~= decimal(value as int));
    } else {
        push_natural(&mut text, value as u64);
        assert(text@ =~= decimal(value as int));
    }
    text
}

/// Reads a number from text. Gives none where the text is not a number or
/// the number does not fit.
#[verifier::loop_isolation(false)]
pub fn parse_number(text: &str) -> (number: Option<i64>)
    ensures
        number == parsed_number(text@),
{
    if !text.is_ascii() {
        proof {
            let s = text@;
            let i = choose|i: int| 0 <= i < s.len() && !('\0' <= #[trigger] s[i] <= '\u{7f}');
            assert(!is_digit(s[i]));
            assert(s[i] != '-');
            if i > 0 {
                assert(s.skip(1)[i - 1] == s[i]);
            }
        }
        return None;
    }
    let bytes = text.as_bytes();
    proof {
        is_ascii_spec_bytes(text);
    }
    let length: usize = bytes.len();
    if length == 0 {
        return None;
    }
    let negative: bool = bytes[0] == 45u8;
    assert(negative == (text@[0] == '-'));
    let start: usize = if negative {
        1
    } else {
        0
    };
    if start == length {
        return None;
    }
    let ghost body = text@.skip(start as int);
    // The magnitude never passes 2^63, the size of the least machine integer.
    let mut size: u64 = 0;
    let mut i: usize = start;
    while i < length
        invariant
            start <= i <= length,
            length == text@.len(),
            bytes@.len() == length,
            forall|j: int| 0 <= j < length ==> bytes@[j] == text@[j] as u8,
            is_ascii_chars(text@),
            body == text@.skip(start as int),
            all_digits(body.take(i - start)),
            size == digits_value(body.take(i - start)),
            size <= 0x8000_0000_0000_0000,
        decreases length - i,
    {
        let byte: u8 = bytes[i];
        let ghost c = text@[i as int];
        assert(body[i - start] == c);
        if byte < 48u8 || byte > 57u8 {
            assert(!is_digit(c));
            assert(!all_digits(body));
            proof {
                if !negative {
                    assert(body =~= text@);
                }
            }
            return None;
        }
        assert(is_digit(c));
        let digit: u64 = (byte - 48u8) as u64;
        assert(digit == digit_value(c));
        proof {
            let next = body.take(i - start + 1);
            assert(next.drop_last() =~= body.take(i - start));
            assert(next.last() == c);
            assert(all_digits(next));
            assert(digits_value(next) == size * 10 + digit);
        }
        if size > 922_337_203_685_477_580u64 || size * 10 + digit > 0x8000_0000_0000_0000u64 {
            proof {
                if !negative {
                    assert(body =~= text@);
                }
                if all_digits(body) {
                    lemma_digits_value_grows(body, i - start + 1);
                }
            }
            return None;
        }
        size = size * 10 + digit;
        i += 1;
    }
    assert(body.take(length - start) =~= body);
    proof {
        if !negative {
            assert(body =~= text@);
        }
    }
    if negative {
        if size == 0x8000_0000_0000_0000u64 {
            Some(i64::MIN)
        } else {
            Some(-(size as i64))
        }
    } else if size > 0x7fff_ffff_ffff_ffffu64 {
        None
    } else {
        Some(size as i64)
    }
}

proof fn lemma_digits_value_grows(s: Seq<char>, upto: int)
    requires
        0 <= upto <= s.len(),
        all_digits(s),
    ensures
        0 <= digits_value(s.take(upto)) <= digits_value(s),
    decreases s.len() - upto,
{
    if upto < s.len() {
        let next = s.take(upto + 1);
        assert(next.drop_last() =~= s.take(upto));
        assert(is_digit(next.last()));
        lemma_digits_nonnegative(s.take(upto));
        lemma_digits_value_grows(s, upto + 1);
    } else {
        assert(s.take(upto) =~= s);
        lemma_digits_nonnegative(s);
    }
}

proof fn lemma_digits_nonnegative(s: Seq<char>)
    requires
        all_digits(s),
    ensures
        0 <= digits_value(s),
    decreases s.len(),
{
    if s.len() > 0 {
        assert(is_digit(s.last()));
        lemma_digits_nonnegative(s.drop_last());
    }
}

/// The number of characters before the first `mark`, or the whole length
/// where there is none.
pub open spec fn span(s: Seq<char>, mark: char) -> int
    decreases s.len(),
{
    if s.len() == 0 || s[0] == mark {
        0
    } else {
        1 + span(s.drop_first(), mark)
    }
}

/// The fields of a text: the pieces between one `mark` and the next. A text
/// without a `mark` is one field, and so is the empty text.
pub open spec fn split(s: Seq<char>, mark: char) -> Seq<Seq<char>>
    decreases s.len(),
{
    let first: int = span(s, mark);
    if 0 <= first < s.len() {
        seq![s.take(first)] + split(s.skip(first + 1), mark)
    } else {
        seq![s]
    }
}

/// The parts written one after the other with `mark` between each two.
pub open spec fn joined(parts: Seq<Seq<char>>, mark: Seq<char>) -> Seq<char>
    decreases parts.len(),
{
    if parts.len() == 0 {
        Seq::empty()
    } else if parts.len() == 1 {
        parts[0]
    } else {
        parts[0] + mark + joined(parts.drop_first(), mark)
    }
}

/// What each string of a vector holds.
pub open spec fn texts(parts: Seq<String>) -> Seq<Seq<char>> {
    Seq::new(parts.len(), |i: int| parts[i]@)
}

proof fn lemma_span_found(s: Seq<char>, mark: char, at: int)
    requires
        0 <= at <= s.len(),
        forall|j: int| 0 <= j < at ==> s[j] != mark,
        at == s.len() || s[at] == mark,
    ensures
        span(s, mark) == at,
    decreases s.len(),
{
    if at > 0 {
        let rest = s.drop_first();
        assert forall|j: int| 0 <= j < at - 1 implies rest[j] != mark by {
            assert(rest[j] == s[j + 1]);
        }
        lemma_span_found(rest, mark, at - 1);
    }
}

proof fn lemma_split_whole(s: Seq<char>, mark: char)
    requires
        !s.contains(mark),
    ensures
        split(s, mark) == seq![s],
{
    assert forall|j: int| 0 <= j < s.len() implies s[j] != mark by {
        assert(s.contains(s[j]));
    }
    lemma_span_found(s, mark, s.len() as int);
}

proof fn lemma_split_at(s: Seq<char>, mark: char, at: int)
    requires
        0 <= at < s.len(),
        forall|j: int| 0 <= j < at ==> s[j] != mark,
        s[at] == mark,
    ensures
        split(s, mark) == seq![s.take(at)] + split(s.skip(at + 1), mark),
{
    lemma_span_found(s, mark, at);
}

/// Splitting what was joined gives the parts back, where there is at least
/// one part and no part holds the mark.
pub proof fn lemma_split_joined(parts: Seq<Seq<char>>, mark: char)
    requires
        parts.len() > 0,
        forall|i: int| 0 <= i < parts.len() ==> !(#[trigger] parts[i]).contains(mark),
    ensures
        split(joined(parts, seq![mark]), mark) == parts,
    decreases parts.len(),
{
    if parts.len() == 1 {
        lemma_split_whole(parts[0], mark);
        assert(seq![parts[0]] =~= parts);
    } else {
        let head = parts[0];
        let rest = parts.drop_first();
        let whole = joined(parts, seq![mark]);
        assert(whole == head + seq![mark] + joined(rest, seq![mark]));
        assert forall|j: int| 0 <= j < head.len() implies whole[j] != mark by {
            assert(whole[j] == head[j]);
            assert(head.contains(head[j]));
        }
        assert(whole[head.len() as int] == mark);
        lemma_split_at(whole, mark, head.len() as int);
        assert(whole.take(head.len() as int) =~= head);
        assert(whole.skip(head.len() as int + 1) =~= joined(rest, seq![mark]));
        assert forall|i: int| 0 <= i < rest.len() implies !(#[trigger] rest[i]).contains(mark) by {
            assert(rest[i] == parts[i + 1]);
        }
        lemma_split_joined(rest, mark);
        assert(seq![head] + rest =~= parts);
    }
}

/// Joining one part more puts the mark and the part at the end.
pub proof fn lemma_joined_push(parts: Seq<Seq<char>>, last: Seq<char>, mark: Seq<char>)
    requires
        parts.len() >= 1,
    ensures
        joined(parts.push(last), mark) == joined(parts, mark) + mark + last,
    decreases parts.len(),
{
    let longer = parts.push(last);
    assert(longer.drop_first() =~= parts.drop_first().push(last));
    if parts.len() == 1 {
        assert(longer.drop_first() =~= seq![last]);
        assert(joined(longer.drop_first(), mark) == last);
        assert(joined(longer, mark) =~= joined(parts, mark) + mark + last);
    } else {
        lemma_joined_push(parts.drop_first(), last, mark);
        assert(joined(longer, mark) =~= joined(parts, mark) + mark + last);
    }
}

/// Calls `itertools::Itertools::join` on the strings in order. The claim is
/// what its documentation says of elements that display as themselves: the
/// strings one after the other, with the separator between each two, and
/// the empty string where there is none.
#[verifier::external_body]
pub(crate) fn join_with(parts: &Vec<String>, mark: &str) -> (text: String)
    ensures
        text@ == joined(texts(parts@), mark@),
{
    itertools::Itertools::join(&mut parts.iter(), mark)
}

/// Cuts an ASCII text into its fields, byte by byte.
fn split_ascii(text: &str, mark: u8) -> (fields: Vec<String>)
    requires
        is_ascii_chars(text@),
        mark < 128,
    ensures
        texts(fields@) == split(text@, mark as char),
        fields.len() > 0,
{
    let bytes = text.as_bytes();
    proof {
        is_ascii_spec_bytes(text);
    }
    let length: usize = bytes.len();
    let ghost sep = mark as char;
    let mut fields: Vec<String> = Vec::new();
    let mut start: usize = 0;
    let mut i: usize = 0;
    proof {
        assert(text@.skip(0) =~= text@);
        assert(texts(fields@) + split(text@, sep) =~= split(text@, sep));
    }
    while i < length
        invariant
            start <= i <= length,
            length == text@.len(),
            bytes@.len() == length,
            mark < 128,
            sep == mark as char,
            is_ascii_chars(text@),
            forall|j: int| 0 <= j < length ==> bytes@[j] == text@[j] as u8,
            forall|j: int| start <= j < i ==> text@[j] != sep,
            split(text@, sep) == texts(fields@) + split(text@.skip(start as int), sep),
        decreases length - i,
    {
        if bytes[i] == mark {
            let ghost rest = text@.skip(start as int);
            assert(text@[i as int] == sep);
            let piece = text.substring_ascii(start, i);
            let ghost before = texts(fields@);
            fields.push(piece.to_owned());
            proof {
                assert forall|j: int| 0 <= j < i - start implies rest[j] != sep by {
                    assert(rest[j] == text@[start + j]);
                }
                assert(rest[i - start] == sep);
                lemma_split_at(rest, sep, i - start);
                assert(rest.take(i - start) =~= text@.subrange(start as int, i as int));
                assert(rest.skip(i - start + 1) =~= text@.skip(i + 1));
                assert(texts(fields@) =~= before + seq![piece@]);
            }
            start = i + 1;
        }
        i += 1;
    }
    let ghost rest = text@.skip(start as int);
    let piece = text.substring_ascii(start, length);
    let ghost before = texts(fields@);
    fields.push(piece.to_owned());
    proof {
        assert forall|j: int| 0 <= j < rest.len() implies rest[j] != sep by {
            assert(rest[j] == text@[start + j]);
        }
        lemma_span_found(rest, sep, rest.len() as int);
        assert(rest =~= text@.subrange(start as int, length as int));
        assert(texts(fields@) =~= before + seq![piece@]);
    }
    fields
}

/// Cuts any other text into its fields, character by character.
fn split_chars(text: &str, mark: u8) -> (fields: Vec<String>)
    requires
        mark < 128,
    ensures
        texts(fields@) == split(text@, mark as char),
        fields.len() > 0,
{
    let length: usize = text.unicode_len();
    let sep: char = mark as char;
    let mut fields: Vec<String> = Vec::new();
    let mut start: usize = 0;
    let mut i: usize = 0;
    proof {
        assert(text@.skip(0) =~= text@);
        assert(texts(fields@) + split(text@, sep) =~= split(text@, sep));
    }
    while i < length
        invariant
            start <= i <= length,
            length == text@.len(),
            sep == mark as char,
            forall|j: int| start <= j < i ==> text@[j] != sep,
            split(text@, sep) == texts(fields@) + split(text@.skip(start as int), sep),
        decreases length - i,
    {
        if text.get_char(i) == sep {
            let ghost rest = text@.skip(start as int);
            let piece = text.substring_char(start, i);
            let ghost before = texts(fields@);
            fields.push(piece.to_owned());
            proof {
                assert forall|j: int| 0 <= j < i - start implies rest[j] != sep by {
                    assert(rest[j] == text@[start + j]);
                }
                assert(rest[i - start] == sep);
                lemma_split_at(rest, sep, i - start);
                assert(rest.take(i - start) =~= text@.subrange(start as int, i as int));
                assert(rest.skip(i - start + 1) =~= text@.skip(i + 1));
                assert(texts(fields@) =~= before + seq![piece@]);
            }
            start = i + 1;
        }
        i += 1;
    }
    let ghost rest = text@.skip(start as int);
    let piece = text.substring_char(start, length);
    let ghost before = texts(fields@);
    fields.push(piece.to_owned());
    proof {
        assert forall|j: int| 0 <= j < rest.len() implies rest[j] != sep by {
            assert(rest[j] == text@[start + j]);
        }
        lemma_span_found(rest, sep, rest.len() as int);
        assert(rest =~= text@.subrange(start as int, length as int));
        assert(texts(fields@) =~= before + seq![piece@]);
    }
    fields
}

/// Cuts a text into its fields at every `mark`. A text of ASCII alone is
/// cut byte by byte; any other text is cut character by character, which
/// takes longer.
pub fn split_fields(text: &str, mark: u8) -> (fields: Vec<String>)
    requires
        mark < 128,
    ensures
        texts(fields@) == split(text@, mark as char),
        fields.len() > 0,
{
    if text.is_ascii() {
        split_ascii(text, mark)
    } else {
        split_chars(text, mark)
    }
}

/// The text of each number of a vector.
pub open spec fn number_texts(values: Seq<i64>) -> Seq<Seq<char>> {
    Seq::new(values.len(), |i: int| decimal(values[i] as int))
}

/// The text of a vector: its numbers joined by `,`. The empty vector is the
/// empty text.
pub open spec fn vector_text(values: Seq<i64>) -> Seq<char> {
    joined(number_texts(values), seq![','])
}

/// The numbers that fields stand for, where every field is a number.
pub open spec fn parsed_fields(fields: Seq<Seq<char>>) -> Option<Seq<i64>> {
    if forall|i: int| 0 <= i < fields.len() ==> (#[trigger] parsed_number(fields[i])) is Some {
        Some(Seq::new(fields.len(), |i: int| parsed_number(fields[i])->0))
    } else {
        None
    }
}

/// The vector that a text stands for: a text whose fields between the `,`
/// are all numbers.
pub open spec fn parsed_vector(s: Seq<char>) -> Option<Seq<i64>> {
    parsed_fields(split(s, ','))
}

/// The text of a record: the key, a `:` and the text of the values.
pub open spec fn record_text(key: Seq<char>, values: Seq<i64>) -> Seq<char> {
    key + seq![':'] + vector_text(values)
}

/// Whether a line has the frame of a record: a text with exactly one `:`.
pub open spec fn framed(line: Seq<char>) -> bool {
    split(line, ':').len() == 2
}

/// The key and the values that a line stands for.
pub open spec fn parsed_record(line: Seq<char>) -> Option<(Seq<char>, Seq<i64>)> {
    if framed(line) {
        match parsed_vector(split(line, ':')[1]) {
            Some(values) => Some((split(line, ':')[0], values)),
            None => None,
        }
    } else {
        None
    }
}

/// Parts of ASCII joined by an ASCII mark are ASCII.
pub proof fn lemma_joined_is_ascii(parts: Seq<Seq<char>>, mark: char)
    requires
        '\0' <= mark <= '\u{7f}',
        forall|i: int| 0 <= i < parts.len() ==> is_ascii_chars(#[trigger] parts[i]),
    ensures
        is_ascii_chars(joined(parts, seq![mark])),
    decreases parts.len(),
{
    if parts.len() > 1 {
        let rest = parts.drop_first();
        assert forall|i: int| 0 <= i < rest.len() implies is_ascii_chars(#[trigger] rest[i]) by {
            assert(rest[i] == parts[i + 1]);
        }
        lemma_joined_is_ascii(rest, mark);
    }
}

proof fn lemma_joined_free_of(parts: Seq<Seq<char>>, mark: char, other: char)
    requires
        mark != other,
        forall|i: int| 0 <= i < parts.len() ==> !(#[trigger] parts[i]).contains(other),
    ensures
        !joined(parts, seq![mark]).contains(other),
    decreases parts.len(),
{
    let whole = joined(parts, seq![mark]);
    if parts.len() == 1 {
    } else if parts.len() > 1 {
        let rest = parts.drop_first();
        assert forall|i: int| 0 <= i < rest.len() implies !(#[trigger] rest[i]).contains(other) by {
            assert(rest[i] == parts[i + 1]);
        }
        lemma_joined_free_of(rest, mark, other);
        let tail = joined(rest, seq![mark]);
        if whole.contains(other) {
            let j = choose|j: int| 0 <= j < whole.len() && whole[j] == other;
            if j < parts[0].len() {
                assert(parts[0].contains(whole[j]));
            } else if j > parts[0].len() {
                assert(tail[j - parts[0].len() - 1] == whole[j]);
                assert(tail.contains(whole[j]));
            }
        }
    }
}

/// Reading the text of a vector gives the vector back, unless it is empty:
/// then its text is empty, and no number is read from that.
pub proof fn lemma_vector_round_trip(values: Seq<i64>)
    ensures
        values.len() > 0 ==> parsed_vector(vector_text(values)) == Some(values),
        is_ascii_chars(vector_text(values)),
        !vector_text(values).contains(':'),
        !vector_text(values).contains('\n'),
        values.len() > 0 ==> vector_text(values).len() > 0,
{
    let parts = number_texts(values);
    assert forall|i: int| 0 <= i < parts.len() implies is_ascii_chars(#[trigger] parts[i])
        && !parts[i].contains(',') && !parts[i].contains(':') && !parts[i].contains('\n')
        && parsed_number(parts[i]) == Some(values[i]) by {
        lemma_decimal_round_trip(values[i] as int);
    }
    lemma_joined_is_ascii(parts, ',');
    lemma_joined_free_of(parts, ',', ':');
    lemma_joined_free_of(parts, ',', '\n');
    if values.len() > 0 {
        lemma_split_joined(parts, ',');
        assert(parsed_fields(parts)->0 =~= values);
        lemma_decimal_round_trip(values[0] as int);
        if parts.len() > 1 {
            assert(vector_text(values) == parts[0] + seq![','] + joined(
                parts.drop_first(),
                seq![','],
            ));
        }
    }
}

proof fn lemma_natural_ends_in_digit(n: nat)
    ensures
        natural_digits(n).len() > 0,
        is_digit(natural_digits(n).last()),
    decreases n,
{
}

proof fn lemma_joined_last(parts: Seq<Seq<char>>, mark: Seq<char>)
    requires
        parts.len() > 0,
        parts.last().len() > 0,
    ensures
        joined(parts, mark).len() > 0,
        joined(parts, mark).last() == parts.last().last(),
    decreases parts.len(),
{
    if parts.len() > 1 {
        let rest = parts.drop_first();
        assert(rest.last() == parts.last());
        lemma_joined_last(rest, mark);
    }
}

/// The text of a vector that is not empty ends in a digit.
pub proof fn lemma_vector_text_ends_in_digit(values: Seq<i64>)
    requires
        values.len() > 0,
    ensures
        vector_text(values).len() > 0,
        is_digit(vector_text(values).last()),
{
    let parts = number_texts(values);
    let last = values.last() as int;
    if last < 0 {
        lemma_natural_ends_in_digit((-last) as nat);
        assert(decimal(last).last() == natural_digits((-last) as nat).last());
    } else {
        lemma_natural_ends_in_digit(last as nat);
    }
    assert(parts.last() == decimal(last));
    lemma_joined_last(parts, seq![',']);
}

/// Two vectors with the same text are the same vector: the text of a feature
/// vector can key a cache.
pub proof fn lemma_vector_text_injective(a: Seq<i64>, b: Seq<i64>)
    requires
        vector_text(a) == vector_text(b),
    ensures
        a == b,
{
    lemma_vector_round_trip(a);
    lemma_vector_round_trip(b);
    if a.len() == 0 || b.len() == 0 {
        assert(vector_text(Seq::<i64>::empty()).len() == 0);
        assert(a.len() == 0 ==> a =~= Seq::<i64>::empty());
        assert(b.len() == 0 ==> b =~= Seq::<i64>::empty());
        assert(a =~= b);
    }
}

/// Reading the text of a record gives the key and the values back, where
/// the key holds no `:` and there is at least one value. The text holds a
/// line feed only where the key does, and it ends in a digit.
pub proof fn lemma_record_round_trip(key: Seq<char>, values: Seq<i64>)
    requires
        !key.contains(':'),
        values.len() > 0,
    ensures
        parsed_record(record_text(key, values)) == Some((key, values)),
        !key.contains('\n') ==> !record_text(key, values).contains('\n'),
        record_text(key, values).len() > 0,
        is_digit(record_text(key, values).last()),
{
    let tail = vector_text(values);
    let line = record_text(key, values);
    lemma_vector_round_trip(values);
    assert forall|j: int| 0 <= j < key.len() implies line[j] != ':' by {
        assert(line[j] == key[j]);
        assert(key.contains(key[j]));
    }
    assert(line[key.len() as int] == ':');
    lemma_split_at(line, ':', key.len() as int);
    assert(line.take(key.len() as int) =~= key);
    assert(line.skip(key.len() as int + 1) =~= tail);
    lemma_split_whole(tail, ':');
    assert(split(line, ':') =~= seq![key, tail]);
    lemma_vector_text_ends_in_digit(values);
    assert(line.last() == tail.last());
    if !key.contains('\n') && line.contains('\n') {
        let j = choose|j: int| 0 <= j < line.len() && line[j] == '\n';
        if j < key.len() {
            assert(line[j] == key[j]);
            assert(key.contains(key[j]));
        } else if j > key.len() {
            assert(line[j] == tail[j - key.len() - 1]);
            assert(tail.contains(tail[j - key.len() - 1]));
        }
    }
}

/// Writes a vector as text.
pub fn render_vector(values: &Vec<i64>) -> (text: String)
    ensures
        text@ == vector_text(values@),
{
    let mut parts: Vec<String> = Vec::new();
    let mut i: usize = 0;
    while i < values.len()
        invariant
            i <= values.len(),
            parts.len() == i,
            forall|j: int| 0 <= j < i ==> (#[trigger] parts[j])@ == decimal(values[j] as int),
        decreases values.len() - i,
    {
        parts.push(render_number(values[i]));
        i += 1;
    }
    assert(texts(parts@) =~= number_texts(values@));
    proof {
        reveal_strlit(",");
        assert(","@ =~= seq![',']);
    }
    join_with(&parts, ",")
}

/// Reads a vector from text. Gives none unless every field between the `,`
/// is a number.
pub fn parse_vector(text: &str) -> (values: Option<Vec<i64>>)
    ensures
        match values {
            Some(v) => parsed_vector(text@) == Some(v@),
            None => parsed_vector(text@) is None,
        },
{
    let fields = split_fields(text, 44u8);
    assert(44u8 as char == ',');
    let mut values: Vec<i64> = Vec::new();
    let mut i: usize = 0;
    while i < fields.len()
        invariant
            i <= fields.len(),
            values.len() == i,
            texts(fields@) == split(text@, ','),
            forall|j: int|
                0 <= j < i ==> parsed_number(split(text@, ',')[j]) == Some(#[trigger] values[j]),
        decreases fields.len() - i,
    {
        assert(texts(fields@)[i as int] == fields[i as int]@);
        match parse_number(fields[i].as_str()) {
            Some(value) => {
                values.push(value);
            },
            None => {
                return None;
            },
        }
        i += 1;
    }
    proof {
        let pieces = split(text@, ',');
        assert(texts(fields@).len() == fields.len());
        assert forall|k: int| 0 <= k < pieces.len() implies (#[trigger] parsed_number(
            pieces[k],
        )) == Some(values[k]) by {
            assert(parsed_number(pieces[k]) == Some(values[k]));
        }
        assert(parsed_fields(pieces)->0 =~= values@);
    }
    Some(values)
}

/// Writes a record as text.
pub fn render_record(key: &str, values: &Vec<i64>) -> (line: String)
    ensures
        line@ == record_text(key@, values@),
{
    let mut line = key.to_owned();
    proof {
        reveal_strlit(":");
        assert(":"@ =~= seq![':']);
    }
    line.append(":");
    let tail = render_vector(values);
    line.append(tail.as_str());
    line
}

/// Why a line is no record.
#[derive(Debug, Clone, Copy, PartialEq, Eq, Structural)]
pub enum RecordError {
    /// The line does not hold exactly one `:`.
    Malformed,
    /// What follows the `:` is not a vector of numbers.
    UnreadableValue,
}

/// Reads a record from a line: the key before the `:` and the values after it.
pub fn parse_record(line: &str) -> (record: Result<(String, Vec<i64>), RecordError>)
    ensures
        match record {
            Ok((key, values)) => parsed_record(line@) == Some((key@, values@)),
            Err(RecordError::Malformed) => !framed(line@),
            Err(RecordError::UnreadableValue) => framed(line@) && parsed_record(line@) is None,
        },
{
    let mut parts = split_fields(line, 58u8);
    assert(58u8 as char == ':');
    if parts.len() != 2 {
        return Err(RecordError::Malformed);
    }
    assert(texts(parts@)[0] == parts[0]@);
    assert(texts(parts@)[1] == parts[1]@);
    let tail = parts.pop().unwrap();
    let key = parts.pop().unwrap();
    match parse_vector(tail.as_str()) {
        Some(values) => Ok((key, values)),
        None => Err(RecordError::UnreadableValue),
    }
}

} // verus!
