//! The flat text format of the store: one record on each line, written as
//! `code,character,rating`.

use vstd::prelude::*;
use vstd::string::StringExecFns;
use crate::database::{entries, CJDatabase, Chinese, Entry};

verus! {

/// What `str::to_lowercase` of std makes of a text.
pub uninterp spec fn lowercase_of(text: Seq<char>) -> Seq<char>;

/// `str::to_lowercase` of std: the lower-case form of the text, which depends
/// on the text alone.
pub assume_specification[ str::to_lowercase ](text: &str) -> (lower: String)
    ensures
        lower@ == lowercase_of(text@),
;

/// `String::push` of std appends one character.
pub assume_specification[ String::push ](text: &mut String, c: char)
    ensures
        final(text)@ == old(text)@.push(c),
;

/// Whether `c` is white space: a character with the Unicode property
/// `White_Space`.
pub open spec fn is_space(c: char) -> bool {
    ||| '\u{9}' <= c <= '\u{d}'
    ||| c == ' '
    ||| c == '\u{85}'
    ||| c == '\u{a0}'
    ||| c == '\u{1680}'
    ||| '\u{2000}' <= c <= '\u{200a}'
    ||| c == '\u{2028}'
    ||| c == '\u{2029}'
    ||| c == '\u{202f}'
    ||| c == '\u{205f}'
    ||| c == '\u{3000}'
}

/// Whether `c` is one of the ten decimal digits.
pub open spec fn is_digit(c: char) -> bool {
    '0' <= c <= '9'
}

/// The position of the first `c` in `s`, or the length of `s` where it holds none.
pub open spec fn index_of(s: Seq<char>, c: char) -> nat
    decreases s.len(),
{
    if s.len() == 0 {
        0
    } else if s[0] == c {
        0
    } else {
        1 + index_of(s.drop_first(), c)
    }
}

/// `s` without the white space at its start.
pub open spec fn trimmed_start(s: Seq<char>) -> Seq<char>
    decreases s.len(),
{
    if s.len() > 0 && is_space(s[0]) {
        trimmed_start(s.drop_first())
    } else {
        s
    }
}

/// `s` without the white space at its end.
pub open spec fn trimmed_end(s: Seq<char>) -> Seq<char>
    decreases s.len(),
{
    if s.len() > 0 && is_space(s.last()) {
        trimmed_end(s.drop_last())
    } else {
        s
    }
}

/// `s` without the white space at its start and at its end.
pub open spec fn trimmed(s: Seq<char>) -> Seq<char> {
    trimmed_end(trimmed_start(s))
}

/// The number that the decimal digits `s` write.
pub open spec fn digits_value(s: Seq<char>) -> int
    decreases s.len(),
{
    if s.len() == 0 {
        0
    } else {
        digits_value(s.drop_last()) * 10 + (s.last() as int - '0' as int)
    }
}

/// Whether `s` holds decimal digits only.
pub open spec fn all_digits(s: Seq<char>) -> bool {
    forall|i: int| 0 <= i < s.len() ==> is_digit(#[trigger] s[i])
}

/// The rating that `s` writes: decimal digits, after a minus sign for a
/// negative one, with a value that a rating can hold. Anything else writes none.
pub open spec fn rating_of(s: Seq<char>) -> Option<int> {
    let negative = s.len() > 0 && s[0] == '-';
    let digits = if negative { s.drop_first() } else { s };
    let value = if negative { -digits_value(digits) } else { digits_value(digits) };
    if digits.len() > 0 && all_digits(digits) && i16::MIN <= value <= i16::MAX {
        Some(value)
    } else {
        None
    }
}

/// What a line of the text holds.
pub ghost enum LineValue {
    /// Fewer than three fields: the line is passed over.
    Skipped,
    /// Three fields or more, the third of which writes no rating.
    Malformed,
    /// A record.
    Record(Entry),
}

/// What the line `line` holds before its code is put in lower case. Its
/// fields are separated by commas; the first three are the code, the character
/// and the rating, each without the white space around it.
pub open spec fn split_line(line: Seq<char>) -> LineValue {
    let a = index_of(line, ',');
    let second = line.skip(a as int + 1);
    let b = index_of(second, ',');
    let third = second.skip(b as int + 1);
    let c = index_of(third, ',');
    if a >= line.len() || b >= second.len() {
        LineValue::Skipped
    } else {
        match rating_of(trimmed(third.take(c as int))) {
            Some(rating) => LineValue::Record(
                Entry {
                    character: trimmed(second.take(b as int)),
                    code: trimmed(line.take(a as int)),
                    rating: rating,
                },
            ),
            None => LineValue::Malformed,
        }
    }
}

/// What the line `line` holds: its three fields, the code in lower case.
pub open spec fn parse_line(line: Seq<char>) -> LineValue {
    match split_line(line) {
        LineValue::Record(entry) => LineValue::Record(
            Entry { code: lowercase_of(entry.code), ..entry },
        ),
        other => other,
    }
}

/// The records that the text `t` holds, line by line, or the number of its
/// first malformed line, counted from one.
pub open spec fn parse_text(t: Seq<char>) -> Result<Seq<Entry>, nat>
    decreases t.len(),
{
    let end = index_of(t, '\n');
    let rest = if end < t.len() {
        parse_text(t.skip(end as int + 1))
    } else {
        Ok(Seq::empty())
    };
    match parse_line(t.take(end as int)) {
        LineValue::Malformed => Err(1),
        LineValue::Skipped => match rest {
            Ok(records) => Ok(records),
            Err(line) => Err(line + 1),
        },
        LineValue::Record(entry) => match rest {
            Ok(records) => Ok(seq![entry] + records),
            Err(line) => Err(line + 1),
        },
    }
}

/// The character that writes the digit `d`.
pub open spec fn digit_char(d: int) -> char {
    if d == 0 {
        '0'
    } else if d == 1 {
        '1'
    } else if d == 2 {
        '2'
    } else if d == 3 {
        '3'
    } else if d == 4 {
        '4'
    } else if d == 5 {
        '5'
    } else if d == 6 {
        '6'
    } else if d == 7 {
        '7'
    } else if d == 8 {
        '8'
    } else {
        '9'
    }
}

/// The decimal digits of `n`, without leading zeros.
pub open spec fn decimal(n: nat) -> Seq<char>
    decreases n,
{
    if n < 10 {
        seq![digit_char(n as int)]
    } else {
        decimal(n / 10).push(digit_char((n % 10) as int))
    }
}

/// How a rating is written: in decimal, a negative one after a minus sign.
pub open spec fn rating_text(rating: int) -> Seq<char> {
    if rating < 0 {
        seq!['-'] + decimal((-rating) as nat)
    } else {
        decimal(rating as nat)
    }
}

/// The line that writes a record: code, character and rating, separated by
/// commas and closed by a line feed.
pub open spec fn record_line(e: Entry) -> Seq<char> {
    e.code + seq![','] + e.character + seq![','] + rating_text(e.rating) + seq!['\n']
}

/// The text that writes the records `s`, one line each, in their order.
pub open spec fn serialized(s: Seq<Entry>) -> Seq<char>
    decreases s.len(),
{
    if s.len() == 0 {
        Seq::empty()
    } else {
        serialized(s.drop_last()) + record_line(s.last())
    }
}

/// Whether `s` can stand in a field: it holds neither a comma nor a line feed,
/// and no white space at its start or end.
pub open spec fn is_plain(s: Seq<char>) -> bool {
    &&& forall|i: int| 0 <= i < s.len() ==> #[trigger] s[i] != ',' && s[i] != '\n'
    &&& s.len() > 0 ==> !is_space(s[0]) && !is_space(s.last())
}

/// Whether a record is read back as it was written: its code and its
/// character can stand in a field, lower case leaves the code as it is, and
/// the rating is one that a record can hold.
pub open spec fn is_storable(e: Entry) -> bool {
    &&& is_plain(e.code)
    &&& is_plain(e.character)
    &&& lowercase_of(e.code) == e.code
    &&& i16::MIN <= e.rating <= i16::MAX
}

/// The first `c` of a text is where its first part ends, if that part holds
/// none and the rest starts with one.
pub proof fn lemma_index_of_split(a: Seq<char>, rest: Seq<char>, c: char)
    requires
        forall|i: int| 0 <= i < a.len() ==> #[trigger] a[i] != c,
        rest.len() > 0 ==> rest[0] == c,
    ensures
        index_of(a + rest, c) == a.len(),
    decreases a.len(),
{
    if a.len() > 0 {
        assert((a + rest).drop_first() =~= a.drop_first() + rest);
        assert((a + rest)[0] == a[0]);
        assert forall|i: int| 0 <= i < a.drop_first().len() implies #[trigger] a.drop_first()[i]
            != c by {
            assert(a.drop_first()[i] == a[i + 1]);
        }
        lemma_index_of_split(a.drop_first(), rest, c);
    } else {
        assert(a + rest =~= rest);
    }
}

/// The digits of a number are digits, at least one, and write that number.
pub proof fn lemma_decimal(n: nat)
    ensures
        decimal(n).len() > 0,
        all_digits(decimal(n)),
        digits_value(decimal(n)) == n,
    decreases n,
{
    if n >= 10 {
        lemma_decimal(n / 10);
        let front = decimal(n / 10);
        let d = digit_char((n % 10) as int);
        assert(decimal(n).drop_last() =~= front);
        assert(decimal(n).last() == d);
        assert(d as int - '0' as int == n % 10);
        assert(digits_value(decimal(n)) == digits_value(front) * 10 + (n % 10));
        assert forall|i: int| 0 <= i < decimal(n).len() implies is_digit(#[trigger] decimal(n)[i]) by {
            if i < front.len() {
                assert(decimal(n)[i] == front[i]);
            }
        }
    } else {
        let d = digit_char(n as int);
        assert(decimal(n) =~= seq![d]);
        assert(decimal(n).drop_last() =~= Seq::<char>::empty());
        assert(digits_value(Seq::<char>::empty()) == 0);
        assert(decimal(n).last() == d);
        assert(d as int - '0' as int == n);
    }
}

/// A rating is read back from its text, and the text can stand in a field.
pub proof fn lemma_rating_text(rating: int)
    requires
        i16::MIN <= rating <= i16::MAX,
    ensures
        rating_of(rating_text(rating)) == Some(rating),
        is_plain(rating_text(rating)),
{
    let text = rating_text(rating);
    if rating < 0 {
        let digits = decimal((-rating) as nat);
        lemma_decimal((-rating) as nat);
        assert(text.drop_first() =~= digits);
        assert(text[0] == '-');
        assert(text.last() == digits.last());
        assert(is_digit(digits[digits.len() - 1]));
        assert forall|i: int| 0 <= i < text.len() implies #[trigger] text[i] != ',' && text[i]
            != '\n' by {
            if i > 0 {
                assert(text[i] == digits[i - 1]);
                assert(is_digit(digits[i - 1]));
            }
        }
    } else {
        lemma_decimal(rating as nat);
        assert(is_digit(text[0]));
        assert(is_digit(text[text.len() - 1]));
        assert forall|i: int| 0 <= i < text.len() implies #[trigger] text[i] != ',' && text[i]
            != '\n' by {
            assert(is_digit(text[i]));
        }
    }
}

/// What can stand in a field has nothing to trim.
pub proof fn lemma_plain_trimmed(s: Seq<char>)
    requires
        is_plain(s),
    ensures
        trimmed(s) == s,
{
}

/// The line that writes a record is read as that record.
pub proof fn lemma_line_round_trip(e: Entry)
    requires
        is_storable(e),
    ensures
        split_line(e.code + seq![','] + e.character + seq![','] + rating_text(e.rating))
            == LineValue::Record(e),
        parse_line(e.code + seq![','] + e.character + seq![','] + rating_text(e.rating))
            == LineValue::Record(e),
{
    let rating = rating_text(e.rating);
    let line = e.code + seq![','] + e.character + seq![','] + rating;
    let second = e.character + seq![','] + rating;
    lemma_rating_text(e.rating);
    lemma_plain_trimmed(e.code);
    lemma_plain_trimmed(e.character);
    lemma_plain_trimmed(rating);
    assert(line =~= e.code + (seq![','] + second));
    lemma_index_of_split(e.code, seq![','] + second, ',');
    assert(line.take(e.code.len() as int) =~= e.code);
    assert(line.skip(e.code.len() as int + 1) =~= second);
    assert(second =~= e.character + (seq![','] + rating));
    lemma_index_of_split(e.character, seq![','] + rating, ',');
    assert(second.take(e.character.len() as int) =~= e.character);
    assert(second.skip(e.character.len() as int + 1) =~= rating);
    assert(rating + Seq::<char>::empty() =~= rating);
    lemma_index_of_split(rating, Seq::<char>::empty(), ',');
    assert(rating.take(rating.len() as int) =~= rating);
}

/// A text that starts with the line of a record holds that record and what
/// the rest of the text holds.
pub proof fn lemma_first_line(e: Entry, rest: Seq<char>)
    requires
        is_storable(e),
    ensures
        parse_text(record_line(e) + rest) == after_lines(seq![e], 1, parse_text(rest)),
{
    let line = e.code + seq![','] + e.character + seq![','] + rating_text(e.rating);
    let t = record_line(e) + rest;
    lemma_line_round_trip(e);
    lemma_rating_text(e.rating);
    assert(t =~= line + (seq!['\n'] + rest));
    assert forall|i: int| 0 <= i < line.len() implies #[trigger] line[i] != '\n' by {
        let a = e.code.len() as int;
        let b = a + 1 + e.character.len();
        if i < a {
            assert(line[i] == e.code[i]);
        } else if i == a {
        } else if i < b {
            assert(line[i] == e.character[i - a - 1]);
        } else if i == b {
        } else {
            assert(line[i] == rating_text(e.rating)[i - b - 1]);
        }
    }
    lemma_index_of_split(line, seq!['\n'] + rest, '\n');
    assert(t.take(line.len() as int) =~= line);
    assert(t.skip(line.len() as int + 1) =~= rest);
}

/// The text of a sequence of records starts with the line of its first record.
pub proof fn lemma_serialized_front(s: Seq<Entry>)
    requires
        s.len() > 0,
    ensures
        serialized(s) == record_line(s[0]) + serialized(s.drop_first()),
    decreases s.len(),
{
    if s.len() == 1 {
        assert(s.drop_last() =~= Seq::<Entry>::empty());
        assert(s.drop_first() =~= Seq::<Entry>::empty());
        assert(serialized(s) =~= record_line(s[0]) + serialized(s.drop_first()));
    } else {
        lemma_serialized_front(s.drop_last());
        assert(s.drop_last().drop_first() =~= s.drop_first().drop_last());
        assert(s.drop_first().last() == s.last());
        assert(s.drop_last()[0] == s[0]);
        assert(serialized(s) =~= record_line(s[0]) + serialized(s.drop_first()));
    }
}

/// Writing a store and loading the text gives the records back, in their
/// order, provided each is read back as it was written.
pub proof fn lemma_round_trip(s: Seq<Entry>)
    requires
        forall|i: int| 0 <= i < s.len() ==> is_storable(#[trigger] s[i]),
    ensures
        parse_text(serialized(s)) == Ok::<Seq<Entry>, nat>(s),
    decreases s.len(),
{
    if s.len() == 0 {
        let t = serialized(s);
        assert(t.take(0) =~= t);
        assert(parse_line(t) == LineValue::Skipped);
        assert(parse_text(t) == Ok::<Seq<Entry>, nat>(Seq::empty()));
        assert(s =~= Seq::empty());
    } else {
        let rest = s.drop_first();
        assert forall|i: int| 0 <= i < rest.len() implies is_storable(#[trigger] rest[i]) by {
            assert(rest[i] == s[i + 1]);
        }
        lemma_round_trip(rest);
        lemma_serialized_front(s);
        lemma_first_line(s[0], serialized(rest));
        assert(seq![s[0]] + rest =~= s);
    }
}

/// Why a text could not be loaded.
#[derive(Clone, Copy, Debug, PartialEq, Eq)]
pub struct LoadError {
    /// The number, counted from one, of the first line whose third field
    /// writes no rating.
    pub line: usize,
}

/// What a line was read as.
pub enum Line {
    /// Fewer than three fields.
    Skipped,
    /// A third field that writes no rating.
    Malformed,
    /// A record.
    Record(Chinese),
}

impl View for Line {
    type V = LineValue;

    open spec fn view(&self) -> LineValue {
        match self {
            Line::Skipped => LineValue::Skipped,
            Line::Malformed => LineValue::Malformed,
            Line::Record(record) => LineValue::Record(record@),
        }
    }
}

/// The characters of `text`, one by one.
pub fn chars_of(text: &str) -> (chars: Vec<char>)
    ensures
        chars@ == text@,
{
    broadcast use vstd::string::group_string_axioms;

    let mut chars: Vec<char> = Vec::new();
    for c in it: text.chars()
        invariant
            it.seq() == text@,
            chars@ == it.seq().take(it.index() as int),
    {
        chars.push(c);
        assert(it.seq().take(it.index() + 1) == it.seq().take(it.index() as int).push(c));
    }
    assert(text@.take(text@.len() as int) == text@);
    chars
}

/// Whether `c` is white space.
pub fn is_space_char(c: char) -> (space: bool)
    ensures
        space == is_space(c),
{
    ('\u{9}' <= c && c <= '\u{d}') || c == ' ' || c == '\u{85}' || c == '\u{a0}' || c == '\u{1680}'
        || ('\u{2000}' <= c && c <= '\u{200a}') || c == '\u{2028}' || c == '\u{2029}' || c
        == '\u{202f}' || c == '\u{205f}' || c == '\u{3000}'
}

/// The position of the first `c` among `chars[from..to]`, or `to` where there
/// is none.
pub fn find_char(chars: &Vec<char>, from: usize, to: usize, c: char) -> (at: usize)
    requires
        from <= to <= chars@.len(),
    ensures
        from <= at <= to,
        at - from == index_of(chars@.subrange(from as int, to as int), c),
{
    let mut at: usize = from;
    while at < to && chars[at] != c
        invariant
            from <= at <= to <= chars@.len(),
            index_of(chars@.subrange(from as int, to as int), c) == (at - from) + index_of(
                chars@.subrange(at as int, to as int),
                c,
            ),
        decreases to - at,
    {
        assert(chars@.subrange(at as int, to as int).drop_first() == chars@.subrange(
            at + 1,
            to as int,
        ));
        at += 1;
    }
    at
}

/// The bounds of `chars[from..to]` without the white space around it.
pub fn trim_range(chars: &Vec<char>, from: usize, to: usize) -> (bounds: (usize, usize))
    requires
        from <= to <= chars@.len(),
    ensures
        from <= bounds.0 <= bounds.1 <= to,
        chars@.subrange(bounds.0 as int, bounds.1 as int) == trimmed(
            chars@.subrange(from as int, to as int),
        ),
{
    let mut a: usize = from;
    while a < to && is_space_char(chars[a])
        invariant
            from <= a <= to <= chars@.len(),
            trimmed_start(chars@.subrange(from as int, to as int)) == trimmed_start(
                chars@.subrange(a as int, to as int),
            ),
        decreases to - a,
    {
        assert(chars@.subrange(a as int, to as int).drop_first() == chars@.subrange(
            a + 1,
            to as int,
        ));
        a += 1;
    }
    let mut b: usize = to;
    while b > a && is_space_char(chars[b - 1])
        invariant
            a <= b <= to <= chars@.len(),
            trimmed_end(chars@.subrange(a as int, to as int)) == trimmed_end(
                chars@.subrange(a as int, b as int),
            ),
        decreases b,
    {
        assert(chars@.subrange(a as int, b as int).drop_last() == chars@.subrange(
            a as int,
            b - 1,
        ));
        b -= 1;
    }
    (a, b)
}

/// The text that `chars[from..to]` holds.
pub fn text_of(chars: &Vec<char>, from: usize, to: usize) -> (text: String)
    requires
        from <= to <= chars@.len(),
    ensures
        text@ == chars@.subrange(from as int, to as int),
{
    let mut text = String::new();
    let mut i: usize = from;
    while i < to
        invariant
            from <= i <= to <= chars@.len(),
            text@ == chars@.subrange(from as int, i as int),
        decreases to - i,
    {
        text.push(chars[i]);
        i += 1;
        assert(chars@.subrange(from as int, i as int) == chars@.subrange(from as int, i - 1).push(
            chars@[i - 1],
        ));
    }
    text
}

/// The rating that `chars[from..to]` writes, if it writes one.
pub fn parse_rating(chars: &Vec<char>, from: usize, to: usize) -> (rating: Option<i16>)
    requires
        from <= to <= chars@.len(),
    ensures
        match rating {
            Some(r) => rating_of(chars@.subrange(from as int, to as int)) == Some(r as int),
            None => rating_of(chars@.subrange(from as int, to as int)) is None,
        },
{
    let ghost s = chars@.subrange(from as int, to as int);
    let negative = from < to && chars[from] == '-';
    let start = if negative { from + 1 } else { from };
    let ghost digits = chars@.subrange(start as int, to as int);
    assert(digits == if negative { s.drop_first() } else { s });
    if start == to {
        return None;
    }
    let mut value: u32 = 0;
    let mut i: usize = start;
    while i < to
        invariant
            from <= start <= i <= to <= chars@.len(),
            s == chars@.subrange(from as int, to as int),
            negative == (s.len() > 0 && s[0] == '-'),
            digits == if negative { s.drop_first() } else { s },
            digits == chars@.subrange(start as int, to as int),
            all_digits(digits.take(i - start)),
            value <= 32769,
            value <= 32768 ==> value == digits_value(digits.take(i - start)),
            value == 32769 ==> digits_value(digits.take(i - start)) >= 32769,
        decreases to - i,
    {
        let c = chars[i];
        assert(digits[i - start] == c);
        assert(digits.take(i - start + 1).drop_last() == digits.take(i - start));
        if !('0' <= c && c <= '9') {
            assert(!is_digit(digits[i - start]));
            return None;
        }
        let d: u32 = c as u32 - '0' as u32;
        value = value * 10 + d;
        if value > 32769 {
            value = 32769;
        }
        i += 1;
    }
    assert(digits.take(to - start) == digits);
    if negative {
        if value <= 32768 {
            Some((-(value as i32)) as i16)
        } else {
            None
        }
    } else {
        if value <= 32767 {
            Some(value as i16)
        } else {
            None
        }
    }
}

/// What the line `chars[from..to]` holds, its code as it is written.
pub fn read_fields(chars: &Vec<char>, from: usize, to: usize) -> (line: Line)
    requires
        from <= to <= chars@.len(),
    ensures
        line@ == split_line(chars@.subrange(from as int, to as int)),
{
    let ghost line = chars@.subrange(from as int, to as int);
    let a = find_char(chars, from, to, ',');
    if a >= to {
        return Line::Skipped;
    }
    let ghost second = chars@.subrange(a + 1, to as int);
    assert(second == line.skip(a - from + 1));
    let b = find_char(chars, a + 1, to, ',');
    if b >= to {
        return Line::Skipped;
    }
    let ghost third = chars@.subrange(b + 1, to as int);
    assert(third == second.skip(b - (a + 1) + 1));
    let c = find_char(chars, b + 1, to, ',');
    assert(chars@.subrange(from as int, a as int) == line.take(a - from));
    assert(chars@.subrange(a + 1, b as int) == second.take(b - (a + 1)));
    assert(chars@.subrange(b + 1, c as int) == third.take(c - (b + 1)));
    let (code_from, code_to) = trim_range(chars, from, a);
    let (char_from, char_to) = trim_range(chars, a + 1, b);
    let (rating_from, rating_to) = trim_range(chars, b + 1, c);
    match parse_rating(chars, rating_from, rating_to) {
        Some(rating) => {
            let code = text_of(chars, code_from, code_to);
            let character = text_of(chars, char_from, char_to);
            Line::Record(Chinese { char: character, code: code, rating: rating })
        },
        None => Line::Malformed,
    }
}

/// What the line `chars[from..to]` holds, its code in lower case.
pub fn read_line(chars: &Vec<char>, from: usize, to: usize) -> (line: Line)
    requires
        from <= to <= chars@.len(),
    ensures
        line@ == parse_line(chars@.subrange(from as int, to as int)),
{
    match read_fields(chars, from, to) {
        Line::Record(record) => {
            let code = record.code.as_str().to_lowercase();
            Line::Record(Chinese { char: record.char, code: code, rating: record.rating })
        },
        other => other,
    }
}

/// What a text holds when `lines` lines with the records `prefix` precede the
/// lines that hold `rest`.
pub open spec fn after_lines(prefix: Seq<Entry>, lines: nat, rest: Result<Seq<Entry>, nat>) -> Result<
    Seq<Entry>,
    nat,
> {
    match rest {
        Ok(records) => Ok(prefix + records),
        Err(line) => Err(line + lines),
    }
}

/// The records that `text` holds, or its first malformed line.
pub fn parse(text: &str) -> (records: Result<Vec<Chinese>, LoadError>)
    ensures
        match records {
            Ok(list) => parse_text(text@) == Ok::<Seq<Entry>, nat>(entries(list@)),
            Err(error) => parse_text(text@) == Err::<Seq<Entry>, nat>(error.line as nat),
        },
{
    let chars = chars_of(text);
    let n = chars.len();
    let mut list: Vec<Chinese> = Vec::new();
    let mut pos: usize = 0;
    let mut lines: usize = 0;
    assert(chars@.skip(0) == chars@);
    assert(Seq::<Entry>::empty() + parse_text(chars@)->Ok_0 == parse_text(chars@)->Ok_0);
    loop
        invariant
            n == chars@.len(),
            chars@ == text@,
            lines <= pos <= n,
            parse_text(chars@) == after_lines(
                entries(list@),
                lines as nat,
                parse_text(chars@.skip(pos as int)),
            ),
        decreases n - pos,
    {
        let ghost t = chars@.skip(pos as int);
        let ghost before = entries(list@);
        let end = find_char(&chars, pos, n, '\n');
        assert(chars@.subrange(pos as int, n as int) == t);
        assert(chars@.subrange(pos as int, end as int) == t.take(end - pos));
        let ghost rest = if end < n {
            parse_text(chars@.skip(end + 1))
        } else {
            Ok(Seq::empty())
        };
        proof {
            if end < n {
                assert(t.skip(end - pos + 1) == chars@.skip(end + 1));
            }
        }
        match read_line(&chars, pos, end) {
            Line::Malformed => {
                return Err(LoadError { line: lines + 1 });
            },
            Line::Skipped => {},
            Line::Record(record) => {
                list.push(record);
                proof {
                    assert(entries(list@) =~= before.push(record@));
                    if rest is Ok {
                        assert(before + (seq![record@] + rest->Ok_0) =~= entries(list@)
                            + rest->Ok_0);
                    }
                }
            },
        }
        if end >= n {
            assert(entries(list@) + Seq::<Entry>::empty() == entries(list@));
            return Ok(list);
        }
        pos = end + 1;
        lines += 1;
    }
}

/// The character that writes the digit `d`.
pub fn digit_of(d: u32) -> (c: char)
    requires
        d < 10,
    ensures
        c == digit_char(d as int),
{
    if d == 0 {
        '0'
    } else if d == 1 {
        '1'
    } else if d == 2 {
        '2'
    } else if d == 3 {
        '3'
    } else if d == 4 {
        '4'
    } else if d == 5 {
        '5'
    } else if d == 6 {
        '6'
    } else if d == 7 {
        '7'
    } else if d == 8 {
        '8'
    } else {
        '9'
    }
}

/// Appends the decimal digits of `n` to `text`.
pub fn push_decimal(text: &mut String, n: u32)
    ensures
        final(text)@ == old(text)@ + decimal(n as nat),
    decreases n,
{
    if n >= 10 {
        push_decimal(text, n / 10);
    }
    text.push(digit_of(n % 10));
}

/// Appends a rating to `text` as it is written in the store's format.
pub fn push_rating(text: &mut String, rating: i16)
    ensures
        final(text)@ == old(text)@ + rating_text(rating as int),
{
    if rating < 0 {
        text.push('-');
        push_decimal(text, (-(rating as i32)) as u32);
    } else {
        push_decimal(text, rating as u32);
    }
}

impl CJDatabase {
    /// Appends the records that `text` holds to the store. A line with fewer
    /// than three fields is passed over; a third field that writes no rating
    /// fails the whole load and leaves the store as it was.
    pub fn load(&mut self, text: &str) -> (outcome: Result<(), LoadError>)
        ensures
            match outcome {
                Ok(_) => parse_text(text@) is Ok && final(self)@ == old(self)@ + parse_text(
                    text@,
                )->Ok_0,
                Err(error) => parse_text(text@) == Err::<Seq<Entry>, nat>(error.line as nat)
                    && final(self)@ == old(self)@,
            },
    {
        match parse(text) {
            Ok(list) => {
                let mut list = list;
                let ghost added = entries(list@);
                self.v.append(&mut list);
                assert(self@ =~= old(self)@ + added);
                Ok(())
            },
            Err(error) => Err(error),
        }
    }

    /// The text that writes the store: each record on a line of its own, as
    /// code, character and rating with commas between them.
    pub fn save(&self) -> (text: String)
        ensures
            text@ == serialized(self@),
    {
        let mut text = String::new();
        let mut i: usize = 0;
        while i < self.v.len()
            invariant
                i <= self.v@.len(),
                text@ == serialized(self@.take(i as int)),
            decreases self.v@.len() - i,
        {
            let ghost before = text@;
            text.append(self.v[i].code.as_str());
            text.push(',');
            text.append(self.v[i].char.as_str());
            text.push(',');
            push_rating(&mut text, self.v[i].rating);
            text.push('\n');
            proof {
                assert(self@.take(i + 1).drop_last() == self@.take(i as int));
                assert(text@ =~= before + record_line(self@[i as int]));
            }
            i += 1;
        }
        proof {
            assert(self@.take(i as int) == self@);
        }
        text
    }
}

} // verus!
