//! Looking up the history of one crew over a range of years.

use crate::results::{found, CrewTable};
use vstd::prelude::*;

verus! {

/// Why a query has no answer.
#[derive(Debug, PartialEq, Eq, Clone, Copy)]
pub enum QueryError {
    /// No crew of the table has the short name that was asked for.
    CrewNotFound,
}

/// What a crew did in one year.
#[derive(Debug, PartialEq, Eq)]
pub struct YearLine {
    pub year: u16,
    /// The stored bytes of the year, or `None` where the crew did not compete.
    pub positions: Option<Vec<u8>>,
}

/// A line as plain values.
pub struct YearLineView {
    pub year: u16,
    pub positions: Option<Seq<u8>>,
}

impl View for YearLine {
    type V = YearLineView;

    open spec fn view(&self) -> YearLineView {
        YearLineView {
            year: self.year,
            positions: match self.positions {
                Some(days) => Some(days@),
                None => None,
            },
        }
    }
}

/// The lines of a vector as plain values.
pub open spec fn line_views(lines: Seq<YearLine>) -> Seq<YearLineView> {
    lines.map_values(|l: YearLine| l@)
}

/// The number of years from `min_year` to `max_year`.
pub open spec fn years_asked(min_year: u16, max_year: u16) -> nat {
    if max_year >= min_year {
        (max_year - min_year + 1) as nat
    } else {
        0
    }
}

/// The answer for a history: one line for each of the first `count` years
/// from `min_year` on, in ascending order.
pub open spec fn answer(years: Map<u32, Seq<u8>>, min_year: u16, count: nat) -> Seq<YearLineView> {
    Seq::new(
        count,
        |i: int|
            YearLineView {
                year: (min_year + i) as u16,
                positions: if years.contains_key((min_year + i) as u32) {
                    Some(years[(min_year + i) as u32])
                } else {
                    None
                },
            },
    )
}

/// What the crew with the short name `crew` did in each year from `min_year`
/// to `max_year`.
pub fn query(table: &CrewTable, crew: &str, min_year: u16, max_year: u16) -> (r: Result<
    Vec<YearLine>,
    QueryError,
>)
    ensures
        match r {
            Ok(lines) => found(table@, crew@) matches Some(record) && line_views(lines@) == answer(
                record.years,
                min_year,
                years_asked(min_year, max_year),
            ),
            Err(e) => found(table@, crew@) is None && e == QueryError::CrewNotFound,
        },
{
    let record = match table.get(crew) {
        Some(record) => record,
        None => {
            return Err(QueryError::CrewNotFound);
        },
    };
    let ghost years = record@.years;
    let mut lines: Vec<YearLine> = Vec::new();
    let mut year: u32 = min_year as u32;
    proof {
        assert(line_views(lines@) == answer(years, min_year, 0));
    }
    while year <= max_year as u32
        invariant
            min_year <= year,
            year <= max_year + 1 || (max_year < min_year && year == min_year),
            years == record@.years,
            line_views(lines@) == answer(years, min_year, (year - min_year) as nat),
        decreases max_year + 1 - year,
    {
        let positions = match record.year(year) {
            Some(days) => Some(vstd::slice::slice_to_vec(days.as_slice())),
            None => None,
        };
        let ghost before = line_views(lines@);
        let line = YearLine { year: year as u16, positions };
        lines.push(line);
        proof {
            assert(line_views(lines@) == before.push(line@));
            assert(answer(years, min_year, (year - min_year + 1) as nat) == answer(
                years,
                min_year,
                (year - min_year) as nat,
            ).push(line@));
        }
        year += 1;
    }
    Ok(lines)
}

} // verus!
