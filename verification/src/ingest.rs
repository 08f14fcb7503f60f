//! Reading a dictionary line by line. A line that is blank or starts with `#`
//! holds no entry. Any other line holds a word, which stands alone or is
//! followed by its frequency.

use vstd::prelude::*;
use vstd::string::*;
use crate::text::chars_of;

verus! {

/// Whether `c` is white space.
pub open spec fn is_blank(c: char) -> bool {
    ||| '\u{9}' <= c <= '\u{d}'
    ||| c == ' '
    ||| c == '\u{85}'
    ||| c == '\u{a0}'
    ||| c == '\u{1680}'
    ||| '\u{2000}' <= c <= '\u{200a}'
    ||| c == '\u{2028}'
    ||| c == '\u{2029}'
    ||| c == '\u{202f}'
    ||| c == '\u{205f}'
    ||| c == '\u{3000}'
}

/// Tells whether `c` is white space.
pub fn blank(c: char) -> (b: bool)
    ensures
        b == is_blank(c),
{
    ('\u{9}' <= c && c <= '\u{d}') || c == ' ' || c == '\u{85}' || c == '\u{a0}' || c == '\u{1680}'
        || ('\u{2000}' <= c && c <= '\u{200a}') || c == '\u{2028}' || c == '\u{2029}' || c
        == '\u{202f}' || c == '\u{205f}' || c == '\u{3000}'
}

/// The first position at or behind `from` that holds no white space; the
/// length of `s` if there is none.
pub open spec fn next_mark(s: Seq<char>, from: int) -> int
    decreases s.len() - from,
{
    if from >= s.len() {
        s.len() as int
    } else if is_blank(s[from]) {
        next_mark(s, from + 1)
    } else {
        from
    }
}

/// The first position at or behind `from` that holds white space; the length
/// of `s` if there is none.
pub open spec fn next_gap(s: Seq<char>, from: int) -> int
    decreases s.len() - from,
{
    if from >= s.len() {
        s.len() as int
    } else if is_blank(s[from]) {
        from
    } else {
        next_gap(s, from + 1)
    }
}

/// The position behind the last character before `upto` that is no white
/// space; zero if there is none.
pub open spec fn content_end(s: Seq<char>, upto: int) -> int
    decreases upto,
{
    if upto <= 0 {
        0
    } else if is_blank(s[upto - 1]) {
        content_end(s, upto - 1)
    } else {
        upto
    }
}

/// Whether `c` is a decimal digit.
pub open spec fn is_digit(c: char) -> bool {
    '0' <= c <= '9'
}

/// Whether `digits` holds decimal digits only.
pub open spec fn all_digits(digits: Seq<char>) -> bool {
    forall|i: int| 0 <= i < digits.len() ==> is_digit(#[trigger] digits[i])
}

/// The value of the decimal digit `c`; zero if it is none.
pub open spec fn digit_value(c: char) -> nat {
    if is_digit(c) {
        (c as nat - '0' as nat) as nat
    } else {
        0
    }
}

/// The number that the decimal digits `digits` write.
pub open spec fn digits_value(digits: Seq<char>) -> nat
    decreases digits.len(),
{
    if digits.len() == 0 {
        0
    } else {
        10 * digits_value(digits.drop_last()) + digit_value(digits.last())
    }
}

/// The frequency that `token` writes: decimal digits, at least one, which a
/// `+` may precede, and which give a number that fits a `usize`.
pub open spec fn frequency_written(token: Seq<char>) -> Option<usize> {
    let digits = if token.len() > 0 && token[0] == '+' {
        token.skip(1)
    } else {
        token
    };
    if digits.len() > 0 && all_digits(digits) && digits_value(digits) <= usize::MAX {
        Some(digits_value(digits) as usize)
    } else {
        None
    }
}

/// What lower-casing makes of a word.
pub uninterp spec fn lowercased(word: Seq<char>) -> Seq<char>;

/// `word` as it is entered: in lower case where that is asked for.
pub open spec fn entered(word: Seq<char>, lowercase: bool) -> Seq<char> {
    if lowercase {
        lowercased(word)
    } else {
        word
    }
}

/// Why a line holds no valid entry.
#[derive(Debug, Clone, Copy, PartialEq, Eq)]
pub enum LineError {
    /// The line should give a frequency and holds a word only.
    MissingFrequency,
    /// What stands for the frequency is no number that fits a `usize`.
    InvalidFrequency,
}

/// What the line `line` holds. It holds no entry where it is blank or where
/// its first mark is `#`. Where frequencies are expected, its entry is its
/// first run of marks as the word and its second run as the frequency, and
/// whatever follows is passed over. Where none are expected, the entry is the
/// whole line without the white space around it, with the frequency one.
pub open spec fn line_entry(line: Seq<char>, has_freq: bool, lowercase: bool) -> Result<
    Option<(Seq<char>, usize)>,
    LineError,
> {
    let start = next_mark(line, 0);
    if start >= line.len() || line[start] == '#' {
        Ok(None)
    } else if has_freq {
        let word_end = next_gap(line, start);
        let count_start = next_mark(line, word_end);
        let count_end = next_gap(line, count_start);
        if count_start >= line.len() {
            Err(LineError::MissingFrequency)
        } else {
            match frequency_written(line.subrange(count_start, count_end)) {
                Some(frequency) => Ok(
                    Some((entered(line.subrange(start, word_end), lowercase), frequency)),
                ),
                None => Err(LineError::InvalidFrequency),
            }
        }
    } else {
        Ok(
            Some((entered(line.subrange(start, content_end(line, line.len() as int)), lowercase), 1)),
        )
    }
}

/// `str::to_lowercase`, which maps each character to its lower-case form by
/// the tables of the standard library. The contract only gives the result
/// its name.
#[verifier::external_body]
fn to_lowercase(word: &str) -> (lower: String)
    ensures
        lower@ == lowercased(word@),
{
    word.to_lowercase()
}

fn enter(word: &str, lowercase: bool) -> (out: String)
    ensures
        out@ == entered(word@, lowercase),
{
    if lowercase {
        to_lowercase(word)
    } else {
        word.to_owned()
    }
}

fn find_mark(chars: &Vec<char>, from: usize) -> (at: usize)
    requires
        from <= chars.len(),
    ensures
        at == next_mark(chars@, from as int),
        from <= at <= chars.len(),
        at < chars.len() ==> !is_blank(chars@[at as int]),
{
    let mut at: usize = from;
    while at < chars.len() && blank(chars[at])
        invariant
            from <= at <= chars.len(),
            next_mark(chars@, from as int) == next_mark(chars@, at as int),
        decreases chars.len() - at,
    {
        at = at + 1;
    }
    at
}

fn find_gap(chars: &Vec<char>, from: usize) -> (at: usize)
    requires
        from <= chars.len(),
    ensures
        at == next_gap(chars@, from as int),
        from <= at <= chars.len(),
{
    let mut at: usize = from;
    while at < chars.len() && !blank(chars[at])
        invariant
            from <= at <= chars.len(),
            next_gap(chars@, from as int) == next_gap(chars@, at as int),
        decreases chars.len() - at,
    {
        at = at + 1;
    }
    at
}

fn find_content_end(chars: &Vec<char>) -> (at: usize)
    ensures
        at == content_end(chars@, chars.len() as int),
        at <= chars.len(),
{
    let mut at: usize = chars.len();
    while at > 0 && blank(chars[at - 1])
        invariant
            at <= chars.len(),
            content_end(chars@, chars.len() as int) == content_end(chars@, at as int),
        decreases at,
    {
        at = at - 1;
    }
    at
}

/// The digits written so far never give more than all of them.
proof fn lemma_digits_value_grows(digits: Seq<char>, i: int)
    requires
        0 <= i <= digits.len(),
    ensures
        digits_value(digits.take(i)) <= digits_value(digits),
    decreases digits.len(),
{
    if i == digits.len() {
        assert(digits.take(i) =~= digits);
    } else {
        lemma_digits_value_grows(digits.drop_last(), i);
        assert(digits.drop_last().take(i) =~= digits.take(i));
    }
}

/// Reads the frequency that the characters from `from` up to `to` write.
fn read_frequency(chars: &Vec<char>, from: usize, to: usize) -> (r: Option<usize>)
    requires
        from <= to <= chars.len(),
    ensures
        r == frequency_written(chars@.subrange(from as int, to as int)),
{
    let ghost token = chars@.subrange(from as int, to as int);
    let first: usize = if from < to && chars[from] == '+' {
        from + 1
    } else {
        from
    };
    let ghost digits = chars@.subrange(first as int, to as int);
    assert(digits =~= if token.len() > 0 && token[0] == '+' {
        token.skip(1)
    } else {
        token
    });
    if first == to {
        return None;
    }
    let mut value: usize = 0;
    assert(digits.take(0) =~= Seq::empty());
    for i in first..to
        invariant
            first < to <= chars.len(),
            digits == chars@.subrange(first as int, to as int),
            token == chars@.subrange(from as int, to as int),
            from <= first,
            digits == if token.len() > 0 && token[0] == '+' {
                token.skip(1)
            } else {
                token
            },
            all_digits(digits.take(i - first)),
            value == digits_value(digits.take(i - first)),
    {
        let c: char = chars[i];
        assert(digits[i - first] == c);
        if !('0' <= c && c <= '9') {
            assert(!is_digit(digits[i - first]));
            return None;
        }
        let digit: usize = (c as u32 - '0' as u32) as usize;
        assert(digits.take(i + 1 - first).drop_last() =~= digits.take(i - first));
        if value > (usize::MAX - digit) / 10 {
            proof {
                lemma_digits_value_grows(digits, i + 1 - first);
            }
            return None;
        }
        value = value * 10 + digit;
    }
    assert(digits.take(to - first) =~= digits);
    Some(value)
}

/// Reads the entry that `line` holds.
pub fn parse_line(line: &str, has_freq: bool, lowercase: bool) -> (r: Result<
    Option<(String, usize)>,
    LineError,
>)
    ensures
        match r {
            Ok(Some(entry)) => line_entry(line@, has_freq, lowercase) == Ok::<_, LineError>(
                Some((entry.0@, entry.1)),
            ),
            Ok(None) => line_entry(line@, has_freq, lowercase) == Ok::<
                Option<(Seq<char>, usize)>,
                LineError,
            >(None),
            Err(e) => line_entry(line@, has_freq, lowercase) == Err::<
                Option<(Seq<char>, usize)>,
                _,
            >(e),
        },
{
    let chars: Vec<char> = chars_of(line);
    let start: usize = find_mark(&chars, 0);
    if start >= chars.len() || chars[start] == '#' {
        return Ok(None);
    }
    if has_freq {
        let word_end: usize = find_gap(&chars, start);
        let count_start: usize = find_mark(&chars, word_end);
        let count_end: usize = find_gap(&chars, count_start);
        if count_start >= chars.len() {
            return Err(LineError::MissingFrequency);
        }
        match read_frequency(&chars, count_start, count_end) {
            Some(frequency) => Ok(
                Some((enter(line.substring_char(start, word_end), lowercase), frequency)),
            ),
            None => Err(LineError::InvalidFrequency),
        }
    } else {
        let end: usize = find_content_end(&chars);
        proof {
            lemma_content_end_behind(chars@, chars.len() as int, start as int);
        }
        Ok(Some((enter(line.substring_char(start, end), lowercase), 1)))
    }
}

/// The content ends behind every character that is no white space.
proof fn lemma_content_end_behind(s: Seq<char>, upto: int, at: int)
    requires
        0 <= at < upto <= s.len(),
        !is_blank(s[at]),
    ensures
        at < content_end(s, upto),
    decreases upto,
{
    if is_blank(s[upto - 1]) {
        lemma_content_end_behind(s, upto - 1, at);
    }
}

} // verus!
