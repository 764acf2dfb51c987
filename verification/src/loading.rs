//! The text formats of the word lists and of the frequency table.
//!
//! A word list holds one word per line. A frequency table holds rows of a word, a comma
//! and a whole number.

use vstd::prelude::*;
use vstd::std_specs::iter::IteratorSpec;
use crate::word::Word;

verus! {

/// The pieces of `s` between the occurrences of `sep`: one more piece than there are
/// occurrences, some of them empty where two occurrences meet or one stands at an end.
pub open spec fn split(s: Seq<char>, sep: char) -> Seq<Seq<char>>
    decreases s.len(),
{
    if s.len() == 0 {
        seq![Seq::empty()]
    } else {
        let before = split(s.drop_last(), sep);
        if s.last() == sep {
            before.push(Seq::empty())
        } else {
            before.drop_last().push(before.last().push(s.last()))
        }
    }
}

/// The lines of `text`.
pub open spec fn lines(text: Seq<char>) -> Seq<Seq<char>> {
    split(text, '\n')
}

/// The lines of `text` that are exactly five characters long, in their order.
pub open spec fn words_in(text: Seq<char>) -> Seq<Seq<char>> {
    lines(text).filter(|line: Seq<char>| line.len() == 5)
}

/// The characters of each word of `words`.
pub open spec fn spellings(words: Seq<Word>) -> Seq<Seq<char>> {
    words.map_values(|w: Word| w@)
}

/// The pieces put together again, with `sep` between one piece and the next.
pub open spec fn join(pieces: Seq<Seq<char>>, sep: char) -> Seq<char>
    decreases pieces.len(),
{
    if pieces.len() == 0 {
        Seq::empty()
    } else if pieces.len() == 1 {
        pieces[0]
    } else {
        join(pieces.drop_last(), sep).push(sep) + pieces.last()
    }
}

/// A split has at least one piece.
pub proof fn lemma_split_nonempty(s: Seq<char>, sep: char)
    ensures
        split(s, sep).len() >= 1,
    decreases s.len(),
{
    if s.len() > 0 {
        lemma_split_nonempty(s.drop_last(), sep);
    }
}

/// No piece of a split holds the separator, and the pieces joined by it are the string
/// that was split.
pub proof fn lemma_split_joins_back(s: Seq<char>, sep: char)
    ensures
        join(split(s, sep), sep) == s,
        forall|k: int, j: int|
            0 <= k < split(s, sep).len() && 0 <= j < split(s, sep)[k].len() ==> split(s, sep)[k][j]
                != sep,
    decreases s.len(),
{
    let pieces = split(s, sep);
    if s.len() == 0 {
        assert(join(pieces, sep) =~= s);
    } else {
        let before = split(s.drop_last(), sep);
        lemma_split_nonempty(s.drop_last(), sep);
        lemma_split_joins_back(s.drop_last(), sep);
        assert(pieces.drop_last() =~= if s.last() == sep {
            before
        } else {
            before.drop_last()
        });
        assert(join(pieces, sep) =~= join(before, sep).push(s.last()));
        assert(s =~= s.drop_last().push(s.last()));
        assert forall|k: int, j: int|
            0 <= k < pieces.len() && 0 <= j < pieces[k].len() implies pieces[k][j] != sep by {
            if k < pieces.len() - 1 {
                assert(pieces[k] == before[k]);
            } else if s.last() != sep && j < before.last().len() {
                assert(pieces[k][j] == before[before.len() - 1][j]);
            }
        }
    }
}

/// The characters of `text`.
fn chars_of(text: &str) -> (r: Vec<char>)
    ensures
        r@ == text@,
{
    let mut chars: Vec<char> = Vec::new();
    let mut it = text.chars();
    loop
        invariant
            chars@ + it.remaining() == text@,
            it.decrease() is Some,
        decreases it.decrease()->0,
    {
        let ghost before = it.remaining();
        match it.next() {
            Some(c) => {
                assert(chars@.push(c) + before.drop_first() =~= chars@ + before);
                chars.push(c);
            },
            None => {
                assert(chars@ + before =~= chars@);
                return chars;
            },
        }
    }
}

/// The five characters of `chars` from position `start` on.
fn word_at(chars: &Vec<char>, start: usize) -> (r: Word)
    requires
        start + 5 <= chars@.len() <= usize::MAX,
    ensures
        r@ == chars@.subrange(start as int, start + 5),
{
    let r = [chars[start], chars[start + 1], chars[start + 2], chars[start + 3], chars[start + 4]];
    assert(r@ =~= chars@.subrange(start as int, start + 5));
    r
}

/// Reads a word list: every line of `text` that is exactly five characters long is a
/// word, and every other line is passed over.
pub fn parse_words(text: &str) -> (r: Vec<Word>)
    ensures
        spellings(r@) == words_in(text@),
{
    let chars = chars_of(text);
    let n = chars.len();
    let ghost five = |line: Seq<char>| line.len() == 5;
    let mut words: Vec<Word> = Vec::new();
    let mut start: usize = 0;
    let mut i: usize = 0;
    proof {
        reveal(Seq::filter);
        assert(chars@.take(0) =~= Seq::<char>::empty());
        assert(chars@.subrange(0, 0) =~= Seq::<char>::empty());
        assert(lines(chars@.take(0)).drop_last() =~= Seq::<Seq<char>>::empty());
        assert(spellings(words@) =~= Seq::<Seq<char>>::empty());
    }
    while i < n
        invariant
            start <= i <= n == chars@.len(),
            five == |line: Seq<char>| line.len() == 5,
            lines(chars@.take(i as int)).len() >= 1,
            lines(chars@.take(i as int)).last() == chars@.subrange(start as int, i as int),
            spellings(words@) == lines(chars@.take(i as int)).drop_last().filter(five),
        decreases chars@.len() - i,
    {
        let ghost before = lines(chars@.take(i as int));
        proof {
            assert(chars@.take(i + 1).drop_last() =~= chars@.take(i as int));
            assert(chars@.take(i + 1).last() == chars@[i as int]);
        }
        if chars[i] == '\n' {
            proof {
                assert(lines(chars@.take(i + 1)) == before.push(Seq::empty()));
                assert(before.push(Seq::<char>::empty()).drop_last() =~= before);
                assert(before =~= before.drop_last().push(before.last()));
                before.drop_last().lemma_filter_push(before.last(), five);
            }
            if i - start == 5 {
                let w = word_at(&chars, start);
                proof {
                    assert(spellings(words@.push(w)) =~= spellings(words@).push(w@));
                }
                words.push(w);
            }
            start = i + 1;
            proof {
                assert(chars@.subrange(i + 1, i + 1) =~= Seq::<char>::empty());
            }
        } else {
            proof {
                let extended = before.drop_last().push(before.last().push(chars@[i as int]));
                assert(lines(chars@.take(i + 1)) == extended);
                assert(extended.drop_last() =~= before.drop_last());
                assert(chars@.subrange(start as int, i + 1) =~= chars@.subrange(
                    start as int,
                    i as int,
                ).push(chars@[i as int]));
            }
        }
        i += 1;
    }
    proof {
        let all = lines(chars@.take(i as int));
        assert(chars@.take(i as int) =~= chars@);
        assert(all =~= all.drop_last().push(all.last()));
        all.drop_last().lemma_filter_push(all.last(), five);
    }
    if i - start == 5 {
        let w = word_at(&chars, start);
        proof {
            assert(spellings(words@.push(w)) =~= spellings(words@).push(w@));
        }
        words.push(w);
    }
    words
}

/// Whether `c` is one of the digits `0` to `9`.
pub open spec fn is_digit(c: char) -> bool {
    '0' <= c <= '9'
}

/// Whether `s` consists of digits only.
pub open spec fn all_digits(s: Seq<char>) -> bool {
    forall|i: int| 0 <= i < s.len() ==> is_digit(#[trigger] s[i])
}

/// The number that the digits of `s` write in base ten.
pub open spec fn decimal(s: Seq<char>) -> int
    decreases s.len(),
{
    if s.len() == 0 {
        0
    } else {
        10 * decimal(s.drop_last()) + (s.last() as int - 48)
    }
}

/// The whole number that `s` writes: an optional sign `+` or `-`, then one digit or
/// more, of a value that fits 64 bits. Nothing else writes a number.
pub open spec fn integer_of(s: Seq<char>) -> Option<i64> {
    let signed = s.len() > 0 && (s[0] == '-' || s[0] == '+');
    let digits = if signed {
        s.skip(1)
    } else {
        s
    };
    let value = if s.len() > 0 && s[0] == '-' {
        -decimal(digits)
    } else {
        decimal(digits)
    };
    if digits.len() > 0 && all_digits(digits) && i64::MIN <= value <= i64::MAX {
        Some(value as i64)
    } else {
        None
    }
}

/// The number that a prefix of a string of digits writes is not negative and not above
/// the number that the whole string writes.
proof fn lemma_decimal_grows(s: Seq<char>, j: int)
    requires
        all_digits(s),
        0 <= j <= s.len(),
    ensures
        0 <= decimal(s.take(j)) <= decimal(s),
    decreases s.len() - j,
{
    if j == s.len() {
        assert(s.take(j) =~= s);
        lemma_decimal_positive(s);
    } else {
        lemma_decimal_grows(s, j + 1);
        assert(s.take(j + 1).drop_last() =~= s.take(j));
        lemma_decimal_positive(s.take(j));
        assert(is_digit(s[j]));
        assert(s.take(j + 1).last() == s[j]);
    }
}

/// A string of digits writes a number that is not negative.
proof fn lemma_decimal_positive(s: Seq<char>)
    requires
        all_digits(s),
    ensures
        0 <= decimal(s),
    decreases s.len(),
{
    if s.len() > 0 {
        lemma_decimal_positive(s.drop_last());
        assert(is_digit(s[s.len() - 1]));
    }
}

/// Reads the whole number that the characters of `chars` from `from` up to `to` write.
#[verifier::loop_isolation(false)]
fn parse_integer(chars: &Vec<char>, from: usize, to: usize) -> (r: Option<i64>)
    requires
        from <= to <= chars@.len(),
    ensures
        r == integer_of(chars@.subrange(from as int, to as int)),
{
    let ghost s = chars@.subrange(from as int, to as int);
    if from == to {
        return None;
    }
    let negative = chars[from] == '-';
    let first = if negative || chars[from] == '+' {
        from + 1
    } else {
        from
    };
    let ghost digits = chars@.subrange(first as int, to as int);
    proof {
        assert(s[0] == chars@[from as int]);
        if first == from {
            assert(digits =~= s);
        } else {
            assert(digits =~= s.skip(1));
        }
    }
    if first == to {
        return None;
    }
    let limit: u64 = if negative {
        0x8000_0000_0000_0000
    } else {
        0x7fff_ffff_ffff_ffff
    };
    let mut acc: u64 = 0;
    let mut i: usize = first;
    proof {
        assert(digits.take(0) =~= Seq::<char>::empty());
    }
    while i < to
        invariant
            first <= i <= to <= chars@.len(),
            digits == chars@.subrange(first as int, to as int),
            all_digits(digits.take(i - first)),
            acc == decimal(digits.take(i - first)),
            acc <= limit <= 0x8000_0000_0000_0000,
        decreases to - i,
    {
        let c = chars[i];
        proof {
            assert(digits[i - first] == c);
            assert(digits.take(i - first + 1).drop_last() =~= digits.take(i - first));
            assert(digits.take(i - first + 1).last() == c);
        }
        if !('0' <= c && c <= '9') {
            return None;
        }
        let d = (c as u64) - 48;
        let next: u128 = (acc as u128) * 10 + (d as u128);
        if next > limit as u128 {
            proof {
                if all_digits(digits) {
                    lemma_decimal_grows(digits, i - first + 1);
                }
            }
            return None;
        }
        acc = next as u64;
        i += 1;
    }
    proof {
        assert(digits.take(to - first) =~= digits);
    }
    if negative {
        if acc == 0x8000_0000_0000_0000 {
            Some(i64::MIN)
        } else {
            Some(-(acc as i64))
        }
    } else {
        Some(acc as i64)
    }
}

/// Every piece of a split but the last stays as it is when the string goes on.
pub proof fn lemma_split_keeps(s: Seq<char>, sep: char, i: int, j: int)
    requires
        0 <= i <= j <= s.len(),
    ensures
        1 <= split(s.take(i), sep).len() <= split(s.take(j), sep).len(),
        forall|k: int|
            0 <= k < split(s.take(i), sep).len() - 1 ==> #[trigger] split(s.take(j), sep)[k]
                == split(s.take(i), sep)[k],
    decreases j - i,
{
    lemma_split_nonempty(s.take(i), sep);
    if i < j {
        lemma_split_keeps(s, sep, i, j - 1);
        lemma_split_nonempty(s.take(j - 1), sep);
        assert(s.take(j).drop_last() =~= s.take(j - 1));
    }
}

/// A line that tells a word from its frequency.
pub open spec fn has_comma(line: Seq<char>) -> bool {
    split(line, ',').len() >= 2
}

/// The word of a row: what stands before the first comma.
pub open spec fn row_word(line: Seq<char>) -> Seq<char> {
    split(line, ',')[0]
}

/// The frequency of a row: the number between the first comma and the second, or the
/// end of the line.
pub open spec fn row_frequency(line: Seq<char>) -> Option<i64> {
    integer_of(split(line, ',')[1])
}

/// Whether a line has a comma and no number behind it.
pub open spec fn is_malformed(line: Seq<char>) -> bool {
    has_comma(line) && row_frequency(line) is None
}

/// Whether a line is a row of the table: a word of exactly five characters, a comma and
/// a number.
pub open spec fn is_row(line: Seq<char>) -> bool {
    has_comma(line) && row_frequency(line) is Some && row_word(line).len() == 5
}

/// The word and the frequency of a row.
pub open spec fn row_of(line: Seq<char>) -> (Seq<char>, i64) {
    (row_word(line), row_frequency(line).unwrap())
}

/// The rows of `text`, in their order.
pub open spec fn rows_in(text: Seq<char>) -> Seq<(Seq<char>, i64)> {
    lines(text).filter(|line: Seq<char>| is_row(line)).map_values(|line: Seq<char>| row_of(line))
}

/// The characters of the word of each row of `rows`, with its frequency.
pub open spec fn row_spellings(rows: Seq<(Word, i64)>) -> Seq<(Seq<char>, i64)> {
    rows.map_values(|r: (Word, i64)| (r.0@, r.1))
}

/// A frequency table that cannot be read.
#[derive(Copy, Clone, Debug, PartialEq, Eq, Structural)]
pub struct ParseError {
    /// The first line, counted from 0, whose frequency is no number.
    pub line: usize,
}

/// What one line of a frequency table holds.
enum RowOutcome {
    /// No row: no comma, or a word that is not five characters long.
    Skip,
    /// A comma and no number behind it.
    Malformed,
    /// A row.
    Keep(Word, i64),
}

/// Reads the line that the characters of `chars` from `start` up to `end` make.
#[verifier::loop_isolation(false)]
fn read_row(chars: &Vec<char>, start: usize, end: usize) -> (r: RowOutcome)
    requires
        start <= end <= chars@.len(),
    ensures
        ({
            let line = chars@.subrange(start as int, end as int);
            match r {
                RowOutcome::Skip => !is_malformed(line) && !is_row(line),
                RowOutcome::Malformed => is_malformed(line),
                RowOutcome::Keep(w, f) => is_row(line) && row_of(line) == (w@, f),
            }
        }),
{
    let n = chars.len();
    let ghost line = chars@.subrange(start as int, end as int);
    let mut a: usize = start;
    proof {
        assert(line.take(0) =~= Seq::<char>::empty());
    }
    while a < end && chars[a] != ','
        invariant
            start <= a <= end,
            split(line.take(a - start), ',') == seq![line.take(a - start)],
        decreases end - a,
    {
        proof {
            assert(line.take(a - start + 1).drop_last() =~= line.take(a - start));
            assert(line.take(a - start + 1).last() == chars@[a as int]);
            assert(line.take(a - start).push(chars@[a as int]) =~= line.take(a - start + 1));
            assert(seq![line.take(a - start)].drop_last().push(
                line.take(a - start).push(chars@[a as int]),
            ) =~= seq![line.take(a - start + 1)]);
        }
        a += 1;
    }
    if a == end {
        proof {
            assert(line.take(a - start) =~= line);
        }
        return RowOutcome::Skip;
    }
    let ghost word = line.take(a - start);
    let mut b: usize = a + 1;
    proof {
        assert(line.take(b - start).drop_last() =~= line.take(a - start));
        assert(line.take(b - start).last() == ',');
        assert(line.subrange(a + 1 - start, b - start) =~= Seq::<char>::empty());
    }
    while b < end && chars[b] != ','
        invariant
            a < b <= end,
            split(line.take(b - start), ',') == seq![word, line.subrange(a + 1 - start, b - start)],
        decreases end - b,
    {
        proof {
            let field = line.subrange(a + 1 - start, b - start);
            assert(line.take(b - start + 1).drop_last() =~= line.take(b - start));
            assert(line.take(b - start + 1).last() == chars@[b as int]);
            assert(field.push(chars@[b as int]) =~= line.subrange(a + 1 - start, b - start + 1));
            assert(seq![word, field].drop_last().push(field.push(chars@[b as int])) =~= seq![
                word,
                line.subrange(a + 1 - start, b - start + 1),
            ]);
        }
        b += 1;
    }
    let ghost field = line.subrange(a + 1 - start, b - start);
    proof {
        if b < end {
            assert(line.take(b - start + 1).drop_last() =~= line.take(b - start));
            assert(line.take(b - start + 1).last() == ',');
            assert(split(line.take(b - start + 1), ',') == seq![word, field].push(Seq::empty()));
            lemma_split_keeps(line, ',', b - start + 1, line.len() as int);
            assert(split(line.take(b - start + 1), ',')[0] == word);
            assert(split(line.take(b - start + 1), ',')[1] == field);
        }
        assert(line.take(line.len() as int) =~= line);
        assert(has_comma(line));
        assert(row_word(line) == word);
        assert(split(line, ',')[1] == field);
        assert(chars@.subrange(a + 1, b as int) =~= field);
    }
    match parse_integer(chars, a + 1, b) {
        None => RowOutcome::Malformed,
        Some(f) => {
            if a - start == 5 {
                let w = word_at(chars, start);
                proof {
                    assert(w@ =~= word);
                }
                RowOutcome::Keep(w, f)
            } else {
                RowOutcome::Skip
            }
        },
    }
}

/// Reads a frequency table.
///
/// A line without a comma is passed over. In every other line a whole number must stand
/// behind the first comma, up to the second comma or the end of the line: the first line
/// where none does is reported, and nothing is read. Of the lines that are left, those
/// whose word is exactly five characters long are the rows.
#[verifier::loop_isolation(false)]
pub fn parse_frequencies(text: &str) -> (r: Result<Vec<(Word, i64)>, ParseError>)
    ensures
        match r {
            Ok(rows) => {
                &&& forall|k: int|
                    0 <= k < lines(text@).len() ==> !is_malformed(#[trigger] lines(text@)[k])
                &&& row_spellings(rows@) == rows_in(text@)
            },
            Err(e) => {
                &&& e.line < lines(text@).len()
                &&& is_malformed(lines(text@)[e.line as int])
                &&& forall|k: int| 0 <= k < e.line ==> !is_malformed(#[trigger] lines(text@)[k])
            },
        },
{
    let chars = chars_of(text);
    let n = chars.len();
    let ghost keep = |line: Seq<char>| is_row(line);
    let ghost read = |line: Seq<char>| row_of(line);
    let mut rows: Vec<(Word, i64)> = Vec::new();
    let mut line_no: usize = 0;
    let mut start: usize = 0;
    let mut i: usize = 0;
    proof {
        reveal(Seq::filter);
        assert(chars@.take(0) =~= Seq::<char>::empty());
        assert(chars@.subrange(0, 0) =~= Seq::<char>::empty());
        assert(lines(chars@.take(0)).drop_last() =~= Seq::<Seq<char>>::empty());
        assert(row_spellings(rows@) =~= Seq::<(Seq<char>, i64)>::empty());
        assert(Seq::<Seq<char>>::empty().filter(keep).map_values(read) =~= Seq::<
            (Seq<char>, i64),
        >::empty());
    }
    while i < n
        invariant
            start <= i <= n,
            line_no <= i,
            lines(chars@.take(i as int)).len() == line_no + 1,
            lines(chars@.take(i as int)).last() == chars@.subrange(start as int, i as int),
            forall|k: int|
                0 <= k < line_no ==> !is_malformed(#[trigger] lines(chars@.take(i as int))[k]),
            row_spellings(rows@) == lines(chars@.take(i as int)).drop_last().filter(
                keep,
            ).map_values(read),
        decreases n - i,
    {
        let ghost before = lines(chars@.take(i as int));
        proof {
            assert(chars@.take(i + 1).drop_last() =~= chars@.take(i as int));
            assert(chars@.take(i + 1).last() == chars@[i as int]);
        }
        if chars[i] == '\n' {
            let ghost after = before.push(Seq::<char>::empty());
            proof {
                assert(lines(chars@.take(i + 1)) == after);
                assert(after.drop_last() =~= before);
                assert(before =~= before.drop_last().push(before.last()));
                before.drop_last().lemma_filter_push(before.last(), keep);
                assert(chars@.subrange(i + 1, i + 1) =~= Seq::<char>::empty());
            }
            match read_row(&chars, start, i) {
                RowOutcome::Malformed => {
                    proof {
                        lemma_split_keeps(chars@, '\n', i + 1, n as int);
                        assert(chars@.take(n as int) =~= chars@);
                        assert(lines(text@)[line_no as int] == after[line_no as int]);
                        assert forall|k: int| 0 <= k < line_no implies !is_malformed(
                            #[trigger] lines(text@)[k],
                        ) by {
                            assert(lines(text@)[k] == after[k]);
                            assert(after[k] == before[k]);
                        }
                    }
                    return Err(ParseError { line: line_no });
                },
                RowOutcome::Keep(w, f) => {
                    proof {
                        let kept = before.drop_last().filter(keep);
                        assert(kept.push(before.last()).map_values(read) =~= kept.map_values(
                            read,
                        ).push(read(before.last())));
                        assert(row_spellings(rows@.push((w, f))) =~= row_spellings(rows@).push(
                            (w@, f),
                        ));
                    }
                    rows.push((w, f));
                },
                RowOutcome::Skip => {},
            }
            proof {
                assert forall|k: int|
                    0 <= k < line_no + 1 implies !is_malformed(#[trigger] after[k]) by {
                    assert(after[k] == before[k]);
                }
            }
            line_no += 1;
            start = i + 1;
        } else {
            proof {
                let extended = before.drop_last().push(before.last().push(chars@[i as int]));
                assert(lines(chars@.take(i + 1)) == extended);
                assert(extended.drop_last() =~= before.drop_last());
                assert(chars@.subrange(start as int, i + 1) =~= chars@.subrange(
                    start as int,
                    i as int,
                ).push(chars@[i as int]));
                assert forall|k: int|
                    0 <= k < line_no implies !is_malformed(#[trigger] extended[k]) by {
                    assert(extended[k] == before[k]);
                }
            }
        }
        i += 1;
    }
    let ghost all = lines(chars@.take(i as int));
    proof {
        assert(chars@.take(i as int) =~= chars@);
        assert(all =~= all.drop_last().push(all.last()));
        all.drop_last().lemma_filter_push(all.last(), keep);
    }
    match read_row(&chars, start, n) {
        RowOutcome::Malformed => {
            return Err(ParseError { line: line_no });
        },
        RowOutcome::Keep(w, f) => {
            proof {
                let kept = all.drop_last().filter(keep);
                assert(kept.push(all.last()).map_values(read) =~= kept.map_values(read).push(
                    read(all.last()),
                ));
                assert(row_spellings(rows@.push((w, f))) =~= row_spellings(rows@).push((w@, f)));
            }
            rows.push((w, f));
        },
        RowOutcome::Skip => {},
    }
    Ok(rows)
}

} // verus!
