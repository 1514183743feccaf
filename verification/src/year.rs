//! Per-year metadata: years differ in their number of racing days.
//!
//! The decoded file holds lines of the form `KEY: value`. Two keys are
//! needed: `DAYS:` with the number of days, and `DIVS:` with the number of
//! crews in each division, separated by commas.

use crate::text::{
    byte_of, bytes_of, chars_of, find, parse_all, parse_u8, split, split_at, trim, trimmed,
};
use vstd::prelude::*;

verus! {

/// What is known of one year of racing.
#[derive(Debug, PartialEq, Eq)]
pub struct Year {
    /// Number of racing days.
    pub days: u8,
    /// Number of crews in each division, first division first.
    pub crews_per_division: Vec<u8>,
}

/// Why a year file was refused.
#[derive(Debug, PartialEq, Eq, Clone, Copy)]
pub enum YearError {
    /// A needed key does not occur in the file.
    MissingField,
    /// A value is no number from 0 to 255.
    InvalidInteger,
}

/// The key of the line that gives the number of days.
pub open spec fn days_key() -> Seq<char> {
    seq!['D', 'A', 'Y', 'S', ':']
}

/// The key of the line that gives the sizes of the divisions.
pub open spec fn divs_key() -> Seq<char> {
    seq!['D', 'I', 'V', 'S', ':']
}

/// The key and the value of a line: what stands before and behind the first
/// blank of the trimmed line. A line without a blank has neither.
pub open spec fn pair_of(line: Seq<char>) -> Option<(Seq<char>, Seq<char>)> {
    let t = trimmed(line);
    match t.index_of_first(' ') {
        Some(i) => Some((t.take(i), t.skip(i + 1))),
        None => None,
    }
}

/// The value that `lines` give for `key`: that of the last line with this key.
pub open spec fn lookup(lines: Seq<Seq<char>>, key: Seq<char>) -> Option<Seq<char>>
    decreases lines.len(),
{
    if lines.len() == 0 {
        None
    } else {
        match pair_of(lines.last()) {
            Some((k, v)) if k == key => Some(v),
            _ => lookup(lines.drop_last(), key),
        }
    }
}

/// The days and division sizes that a year file gives, or why it gives none.
///
/// The days are looked at first: a file without days, or with days that are
/// no number, is refused for that, whatever it says of the divisions.
pub open spec fn year_of(text: Seq<char>) -> Result<(u8, Seq<u8>), YearError> {
    let lines = split(text, '\n');
    match lookup(lines, days_key()) {
        None => Err(YearError::MissingField),
        Some(d) => match byte_of(d) {
            None => Err(YearError::InvalidInteger),
            Some(days) => match lookup(lines, divs_key()) {
                None => Err(YearError::MissingField),
                Some(v) => match bytes_of(split(v, ',')) {
                    None => Err(YearError::InvalidInteger),
                    Some(divs) => Ok((days, divs)),
                },
            },
        },
    }
}

/// Whether `word` is the five characters `a` to `e`.
fn is_word(word: &[char], a: char, b: char, c: char, d: char, e: char) -> (r: bool)
    ensures
        r == (word@ == seq![a, b, c, d, e]),
{
    let r = word.len() == 5 && word[0] == a && word[1] == b && word[2] == c && word[3] == d
        && word[4] == e;
    proof {
        if r {
            assert(word@ == seq![a, b, c, d, e]);
        }
    }
    r
}

/// Splits a line into its key and its value.
fn key_value(line: &[char]) -> (r: Option<(&[char], &[char])>)
    ensures
        match r {
            Some((k, v)) => pair_of(line@) == Some((k@, v@)),
            None => pair_of(line@) is None,
        },
{
    let t = trim(line);
    match find(t, ' ') {
        Some(i) => {
            proof {
                t@.index_of_first_ensures(' ');
                assert(t@.index_of_first(' ') == Some(i as int));
            }
            let end = t.len();
            let key = vstd::slice::slice_subrange(t, 0, i);
            let value = vstd::slice::slice_subrange(t, i + 1, end);
            Some((key, value))
        },
        None => None,
    }
}

impl Year {
    /// Reads the decoded contents of a year file.
    pub fn from_file(file: &str) -> (r: Result<Year, YearError>)
        ensures
            match r {
                Ok(year) => year_of(file@) == Ok::<(u8, Seq<u8>), YearError>(
                    (year.days, year.crews_per_division@),
                ),
                Err(e) => year_of(file@) == Err::<(u8, Seq<u8>), YearError>(e),
            },
    {
        let chars = chars_of(file);
        let lines = split_at(chars.as_slice(), '\n');
        let ghost texts = split(file@, '\n');
        let mut days: Option<&[char]> = None;
        let mut divs: Option<&[char]> = None;
        let mut i: usize = 0;
        while i < lines.len()
            invariant
                0 <= i <= lines@.len(),
                lines@.len() == texts.len(),
                forall|k: int| 0 <= k < lines@.len() ==> (#[trigger] lines@[k])@ == texts[k],
                match days {
                    Some(d) => lookup(texts.take(i as int), days_key()) == Some(d@),
                    None => lookup(texts.take(i as int), days_key()) is None,
                },
                match divs {
                    Some(d) => lookup(texts.take(i as int), divs_key()) == Some(d@),
                    None => lookup(texts.take(i as int), divs_key()) is None,
                },
            decreases lines@.len() - i,
        {
            proof {
                assert(texts.take(i + 1).drop_last() == texts.take(i as int));
                assert(texts.take(i + 1).last() == lines@[i as int]@);
            }
            if let Some((k, v)) = key_value(lines[i]) {
                if is_word(k, 'D', 'A', 'Y', 'S', ':') {
                    days = Some(v);
                }
                if is_word(k, 'D', 'I', 'V', 'S', ':') {
                    divs = Some(v);
                }
            }
            i += 1;
        }
        proof {
            assert(texts.take(i as int) == texts);
        }
        let Some(days) = days else {
            return Err(YearError::MissingField);
        };
        let Some(days) = parse_u8(days) else {
            return Err(YearError::InvalidInteger);
        };
        let Some(divs) = divs else {
            return Err(YearError::MissingField);
        };
        let fields = split_at(divs, ',');
        proof {
            assert(fields@.map_values(|f: &[char]| f@) == split(divs@, ','));
        }
        let Some(crews_per_division) = parse_all(&fields) else {
            return Err(YearError::InvalidInteger);
        };
        Ok(Year { days, crews_per_division })
    }
}

} // verus!
