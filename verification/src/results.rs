//! Joining the three sources into the history of every crew.
//!
//! The club directory names the crews, the race records say for each crew
//! which years it was active and where its positions start in the raw store,
//! and the year files say how many days each year had. A year takes one byte
//! for each of its days and one byte more; the years of a crew follow each
//! other in the store without a gap.

use crate::colleges::{all_crews, Clubs, Crew, CrewView};
use crate::crew::{has_result, years_well_formed, CrewRecord, CrewRecordView};
use crate::raw::Raw;
use crate::rw2::{Details, Row};
use crate::year::Year;
use std::collections::BTreeMap;
use std::collections::HashMap;
use vstd::prelude::*;

verus! {

/// Why the sources could not be joined.
#[derive(Debug, PartialEq, Eq, Clone, Copy)]
pub enum LoadError {
    /// The directory and the race records do not hold the same number of crews.
    CrewCountMismatch,
    /// No year file was given for this year, the first one that is needed
    /// and missing.
    MissingYearFile(u32),
    /// The years of a crew take more room than its record declares.
    RangeOverflow,
    /// The raw store ends before the bytes of a year do.
    ShortRead,
}

/// The histories of all crews of a directory, in its order.
#[derive(Debug)]
pub struct CrewTable {
    records: Vec<CrewRecord>,
}

/// The histories of a vector as plain values.
pub open spec fn record_views(records: Seq<CrewRecord>) -> Seq<CrewRecordView> {
    records.map_values(|r: CrewRecord| r@)
}

impl View for CrewTable {
    type V = Seq<CrewRecordView>;

    closed spec fn view(&self) -> Seq<CrewRecordView> {
        record_views(self.records@)
    }
}

/// The history that a table holds for `alias`: that of the last crew with
/// this short name.
pub open spec fn found(table: Seq<CrewRecordView>, alias: Seq<char>) -> Option<CrewRecordView>
    decreases table.len(),
{
    if table.len() == 0 {
        None
    } else if table.last().alias == alias {
        Some(table.last())
    } else {
        found(table.drop_last(), alias)
    }
}

/// The number of days of each year that has a year file.
pub open spec fn days_of(years: Map<u32, Year>) -> Map<u32, u8> {
    years.map_values(|y: Year| y.days)
}

/// The first and the last year for which a year file is needed: the least
/// first year and the greatest last year of the crews that competed. `None`
/// where no crew competed.
pub open spec fn span(rows: Seq<Row>) -> Option<(u32, u32)>
    decreases rows.len(),
{
    if rows.len() == 0 {
        None
    } else {
        let rest = span(rows.drop_last());
        match rows.last() {
            Row::DidNotCompete => rest,
            Row::Competed(d) => match rest {
                None => Some(d.years_active),
                Some((lo, hi)) => Some(
                    (
                        if d.years_active.0 < lo {
                            d.years_active.0
                        } else {
                            lo
                        },
                        if d.years_active.1 > hi {
                            d.years_active.1
                        } else {
                            hi
                        },
                    ),
                ),
            },
        }
    }
}

/// The least year from `lo` to `hi` that has no year file.
pub open spec fn first_missing(days: Map<u32, u8>, lo: int, hi: int) -> Option<u32>
    decreases hi - lo + 1,
{
    if lo > hi {
        None
    } else if !days.contains_key(lo as u32) {
        Some(lo as u32)
    } else {
        first_missing(days, lo + 1, hi)
    }
}

/// The bytes that the years from `from` up to, but without, `to` take in the
/// raw store: for each year its days and one byte more.
pub open spec fn stride_sum(days: Map<u32, u8>, from: int, to: int) -> int
    decreases to - from,
{
    if to <= from {
        0
    } else {
        stride_sum(days, from, to - 1) + days[(to - 1) as u32] + 1
    }
}

/// The number of years from a crew's first to its last.
pub open spec fn year_count(d: Details) -> nat {
    if d.years_active.1 >= d.years_active.0 {
        (d.years_active.1 - d.years_active.0 + 1) as nat
    } else {
        0
    }
}

/// The room that a crew's record declares: its offsets count both.
pub open spec fn declared_width(d: Details) -> int {
    d.indices.1 - d.indices.0 + 1
}

/// The years found for a crew after its first `n` years were walked.
///
/// The bytes of a year start where those of the year before end. A year that
/// would end behind the crew's last offset is a fault, and so is one that
/// ends behind the raw store; the first fault ends the walk. A year whose
/// bytes are all zero is left out.
pub open spec fn walked(days: Map<u32, u8>, raw: Seq<u8>, d: Details, n: nat) -> Result<
    Map<u32, Seq<u8>>,
    LoadError,
>
    decreases n,
{
    if n == 0 {
        Ok(Map::empty())
    } else {
        match walked(days, raw, d, (n - 1) as nat) {
            Err(e) => Err(e),
            Ok(kept) => {
                let first = d.years_active.0 as int;
                let year = first + n - 1;
                let from = d.indices.0 + stride_sum(days, first, year);
                let to = d.indices.0 + stride_sum(days, first, year + 1);
                if to - 1 > d.indices.1 {
                    Err(LoadError::RangeOverflow)
                } else if to > raw.len() {
                    Err(LoadError::ShortRead)
                } else if has_result(raw.subrange(from, to)) {
                    Ok(kept.insert(year as u32, raw.subrange(from, to)))
                } else {
                    Ok(kept)
                }
            },
        }
    }
}

/// The bytes of one year of a crew, by their place in the store.
pub open spec fn year_bytes(days: Map<u32, u8>, raw: Seq<u8>, d: Details, year: int) -> Seq<u8> {
    let first = d.years_active.0 as int;
    raw.subrange(
        d.indices.0 + stride_sum(days, first, year),
        d.indices.0 + stride_sum(days, first, year + 1),
    )
}

/// The years of one crew.
pub open spec fn years_of(days: Map<u32, u8>, raw: Seq<u8>, row: Row) -> Result<
    Map<u32, Seq<u8>>,
    LoadError,
> {
    match row {
        Row::DidNotCompete => Ok(Map::empty()),
        Row::Competed(d) => walked(days, raw, d, year_count(d)),
    }
}

/// The histories of the first `n` crews, or the first fault among them.
pub open spec fn histories(
    crews: Seq<CrewView>,
    rows: Seq<Row>,
    days: Map<u32, u8>,
    raw: Seq<u8>,
    n: nat,
) -> Result<Seq<CrewRecordView>, LoadError>
    decreases n,
{
    if n == 0 {
        Ok(Seq::empty())
    } else {
        match histories(crews, rows, days, raw, (n - 1) as nat) {
            Err(e) => Err(e),
            Ok(done) => match years_of(days, raw, rows[n - 1]) {
                Err(e) => Err(e),
                Ok(years) => Ok(
                    done.push(
                        CrewRecordView { name: crews[n - 1].name, alias: crews[n - 1].alias, years },
                    ),
                ),
            },
        }
    }
}

/// The histories of all crews, or why there are none.
///
/// The numbers of crews are compared first, then the year files are looked
/// for, then the crews are walked in their order.
pub open spec fn loaded(crews: Seq<CrewView>, rows: Seq<Row>, days: Map<u32, u8>, raw: Seq<u8>)
    -> Result<Seq<CrewRecordView>, LoadError> {
    if crews.len() != rows.len() {
        Err(LoadError::CrewCountMismatch)
    } else {
        let missing = match span(rows) {
            Some((lo, hi)) => first_missing(days, lo as int, hi as int),
            None => None,
        };
        match missing {
            Some(year) => Err(LoadError::MissingYearFile(year)),
            None => histories(crews, rows, days, raw, rows.len()),
        }
    }
}

/// The span holds the years of every crew that competed.
pub proof fn lemma_span_covers(rows: Seq<Row>, k: int)
    requires
        0 <= k < rows.len(),
        rows[k] is Competed,
    ensures
        span(rows) matches Some((lo, hi)) && lo <= rows[k]->Competed_0.years_active.0 && rows[k]
            ->Competed_0.years_active.1 <= hi,
    decreases rows.len(),
{
    if k < rows.len() - 1 {
        lemma_span_covers(rows.drop_last(), k);
    }
}

/// The span is no wider than needed: a crew that competed starts in its
/// first year, and one ends in its last. There is no span only where no crew
/// competed.
pub proof fn lemma_span_tight(rows: Seq<Row>)
    ensures
        match span(rows) {
            Some((lo, hi)) => {
                &&& exists|k: int|
                    0 <= k < rows.len() && (#[trigger] rows[k]) is Competed && rows[k]
                        ->Competed_0.years_active.0 == lo
                &&& exists|k: int|
                    0 <= k < rows.len() && (#[trigger] rows[k]) is Competed && rows[k]
                        ->Competed_0.years_active.1 == hi
            },
            None => forall|k: int| 0 <= k < rows.len() ==> (#[trigger] rows[k]) is DidNotCompete,
        },
    decreases rows.len(),
{
    if rows.len() > 0 {
        let head = rows.drop_last();
        let last = rows.len() - 1;
        lemma_span_tight(head);
        match span(rows) {
            Some((lo, hi)) => {
                let first_from = if rows[last] is Competed && rows[last]->Competed_0.years_active.0
                    == lo {
                    last
                } else {
                    let k = choose|k: int|
                        0 <= k < head.len() && (#[trigger] head[k]) is Competed && head[k]
                            ->Competed_0.years_active.0 == lo;
                    assert(rows[k] == head[k]);
                    k
                };
                assert(rows[first_from] is Competed && rows[first_from]->Competed_0.years_active.0
                    == lo);
                let last_to = if rows[last] is Competed && rows[last]->Competed_0.years_active.1
                    == hi {
                    last
                } else {
                    let k = choose|k: int|
                        0 <= k < head.len() && (#[trigger] head[k]) is Competed && head[k]
                            ->Competed_0.years_active.1 == hi;
                    assert(rows[k] == head[k]);
                    k
                };
                assert(rows[last_to] is Competed && rows[last_to]->Competed_0.years_active.1
                    == hi);
            },
            None => {
                assert forall|k: int| 0 <= k < rows.len() implies (#[trigger] rows[k])
                    is DidNotCompete by {
                    if k < last {
                        assert(rows[k] == head[k]);
                    }
                }
            },
        }
    }
}

/// Where no year is missing, every year of the range has a year file.
pub proof fn lemma_none_missing(days: Map<u32, u8>, lo: int, hi: int, year: int)
    requires
        first_missing(days, lo, hi) is None,
        lo <= year <= hi,
    ensures
        days.contains_key(year as u32),
    decreases hi - lo + 1,
{
    if lo < year {
        lemma_none_missing(days, lo + 1, hi, year);
    }
}

/// A missing year lies in the range, and no year before it is missing.
pub proof fn lemma_first_missing(days: Map<u32, u8>, lo: int, hi: int)
    requires
        0 <= lo,
        hi <= u32::MAX,
    ensures
        first_missing(days, lo, hi) matches Some(year) ==> lo <= year <= hi && !days.contains_key(
            year,
        ) && forall|y: u32| lo <= y < year ==> days.contains_key(y),
    decreases hi - lo + 1,
{
    if lo <= hi && days.contains_key(lo as u32) {
        lemma_first_missing(days, lo + 1, hi);
    }
}

/// Every year takes room: the sum grows from year to year.
pub proof fn lemma_stride_sum_grows(days: Map<u32, u8>, from: int, mid: int, to: int)
    requires
        from <= mid <= to,
    ensures
        stride_sum(days, from, mid) + (to - mid) <= stride_sum(days, from, to),
    decreases to - mid,
{
    if mid < to {
        lemma_stride_sum_grows(days, from, mid, to - 1);
    }
}

/// A fault ends the walk: the years behind it change nothing.
pub proof fn lemma_walked_fault(days: Map<u32, u8>, raw: Seq<u8>, d: Details, n: nat, m: nat)
    requires
        n <= m,
        walked(days, raw, d, n) is Err,
    ensures
        walked(days, raw, d, m) == walked(days, raw, d, n),
    decreases m,
{
    if n < m {
        lemma_walked_fault(days, raw, d, n, (m - 1) as nat);
    }
}

/// A fault of one crew is the fault of the whole: the crews behind it change
/// nothing.
pub proof fn lemma_histories_fault(
    crews: Seq<CrewView>,
    rows: Seq<Row>,
    days: Map<u32, u8>,
    raw: Seq<u8>,
    n: nat,
    m: nat,
)
    requires
        n <= m,
        histories(crews, rows, days, raw, n) is Err,
    ensures
        histories(crews, rows, days, raw, m) == histories(crews, rows, days, raw, n),
    decreases m,
{
    if n < m {
        lemma_histories_fault(crews, rows, days, raw, n, (m - 1) as nat);
    }
}

/// What a walk without a fault has found: the years of the walk whose bytes
/// hold a position, each with the bytes of its place in the store.
pub proof fn lemma_walked_years(days: Map<u32, u8>, raw: Seq<u8>, d: Details, n: nat)
    requires
        walked(days, raw, d, n) is Ok,
        d.years_active.0 + n <= u32::MAX + 1,
    ensures
        ({
            let kept = walked(days, raw, d, n)->Ok_0;
            let first = d.years_active.0 as int;
            &&& years_well_formed(kept)
            &&& forall|y: u32|
                kept.contains_key(y) <==> first <= y < first + n && has_result(
                    #[trigger] year_bytes(days, raw, d, y as int),
                )
            &&& forall|y: u32| kept.contains_key(y) ==> kept[y] == year_bytes(days, raw, d, y as int)
        }),
    decreases n,
{
    if n > 0 {
        lemma_walked_years(days, raw, d, (n - 1) as nat);
    }
}

/// Where the raw store holds all that a crew's record declares, a walk of
/// one year or more succeeds if the years take no more room than declared,
/// and fails with `RangeOverflow` if they take more.
pub proof fn lemma_walked_within_width(days: Map<u32, u8>, raw: Seq<u8>, d: Details, n: nat)
    requires
        raw.len() > d.indices.1,
    ensures
        ({
            let first = d.years_active.0 as int;
            let sum = stride_sum(days, first, first + n);
            if n == 0 || sum <= declared_width(d) {
                walked(days, raw, d, n) is Ok
            } else {
                walked(days, raw, d, n) == Err::<Map<u32, Seq<u8>>, LoadError>(
                    LoadError::RangeOverflow,
                )
            }
        }),
    decreases n,
{
    if n > 0 {
        let first = d.years_active.0 as int;
        lemma_walked_within_width(days, raw, d, (n - 1) as nat);
        lemma_stride_sum_grows(days, first, first + n - 1, first + n);
    }
}

/// The years of a crew that was walked without a fault take no more room
/// than its record declares.
pub proof fn lemma_walked_ok_bound(days: Map<u32, u8>, raw: Seq<u8>, d: Details, n: nat)
    requires
        walked(days, raw, d, n) is Ok,
        n > 0,
    ensures
        stride_sum(days, d.years_active.0 as int, d.years_active.0 + n) <= declared_width(d),
        d.indices.0 + stride_sum(days, d.years_active.0 as int, d.years_active.0 + n) <= raw.len(),
{
}

/// A crew whose years take exactly the declared room or more is walked
/// without a fault only if they take exactly that room; with more, the walk
/// fails with `RangeOverflow`. The raw store must hold all that the record
/// declares, and the crew must have a year.
pub proof fn lemma_stride_sum_exact_or_overflow(days: Map<u32, u8>, raw: Seq<u8>, d: Details)
    requires
        d.years_active.0 <= d.years_active.1,
        raw.len() > d.indices.1,
        stride_sum(days, d.years_active.0 as int, d.years_active.1 + 1) >= declared_width(d),
    ensures
        stride_sum(days, d.years_active.0 as int, d.years_active.1 + 1) == declared_width(d)
            || years_of(days, raw, Row::Competed(d)) == Err::<Map<u32, Seq<u8>>, LoadError>(
            LoadError::RangeOverflow,
        ),
{
    lemma_walked_within_width(days, raw, d, year_count(d));
}

/// In histories without a fault, no crew keeps a year without a position,
/// every crew has the names of its place in the directory, and the years of
/// every crew that competed take no more room than its record declares.
pub proof fn lemma_histories_sound(
    crews: Seq<CrewView>,
    rows: Seq<Row>,
    days: Map<u32, u8>,
    raw: Seq<u8>,
    n: nat,
)
    requires
        histories(crews, rows, days, raw, n) is Ok,
        n <= rows.len(),
    ensures
        ({
            let table = histories(crews, rows, days, raw, n)->Ok_0;
            &&& table.len() == n
            &&& forall|k: int|
                0 <= k < n ==> {
                    &&& (#[trigger] table[k]).name == crews[k].name
                    &&& table[k].alias == crews[k].alias
                    &&& years_of(days, raw, rows[k]) == Ok::<Map<u32, Seq<u8>>, LoadError>(
                        table[k].years,
                    )
                    &&& years_well_formed(table[k].years)
                    &&& rows[k] is DidNotCompete ==> table[k].years == Map::<u32, Seq<u8>>::empty()
                    &&& rows[k] matches Row::Competed(d) ==> d.years_active.0 <= d.years_active.1
                        ==> stride_sum(days, d.years_active.0 as int, d.years_active.1 + 1)
                        <= declared_width(d)
                }
        }),
    decreases n,
{
    if n > 0 {
        lemma_histories_sound(crews, rows, days, raw, (n - 1) as nat);
        let table = histories(crews, rows, days, raw, n)->Ok_0;
        let before = histories(crews, rows, days, raw, (n - 1) as nat)->Ok_0;
        assert forall|k: int| 0 <= k < n implies {
            &&& (#[trigger] table[k]).name == crews[k].name
            &&& table[k].alias == crews[k].alias
            &&& years_of(days, raw, rows[k]) == Ok::<Map<u32, Seq<u8>>, LoadError>(table[k].years)
            &&& years_well_formed(table[k].years)
            &&& rows[k] is DidNotCompete ==> table[k].years == Map::<u32, Seq<u8>>::empty()
            &&& rows[k] matches Row::Competed(d) ==> d.years_active.0 <= d.years_active.1
                ==> stride_sum(days, d.years_active.0 as int, d.years_active.1 + 1)
                <= declared_width(d)
        } by {
            if k < n - 1 {
                assert(table[k] == before[k]);
            } else {
                match rows[k] {
                    Row::DidNotCompete => {},
                    Row::Competed(d) => {
                        if d.years_active.0 <= d.years_active.1 {
                            lemma_walked_years(days, raw, d, year_count(d));
                            lemma_walked_ok_bound(days, raw, d, year_count(d));
                        }
                    },
                }
            }
        }
    }
}

/// Where the sources are joined without a fault, there is one history for
/// each crew of the directory, under its names and in its place; no history
/// keeps a year without a position; a crew that did not compete has no years;
/// and the years of every crew that competed take no more room than its
/// record declares.
pub proof fn lemma_loaded_sound(
    crews: Seq<CrewView>,
    rows: Seq<Row>,
    days: Map<u32, u8>,
    raw: Seq<u8>,
)
    requires
        loaded(crews, rows, days, raw) is Ok,
    ensures
        ({
            let table = loaded(crews, rows, days, raw)->Ok_0;
            &&& table.len() == crews.len()
            &&& table.len() == rows.len()
            &&& forall|k: int|
                0 <= k < table.len() ==> {
                    &&& (#[trigger] table[k]).name == crews[k].name
                    &&& table[k].alias == crews[k].alias
                    &&& years_well_formed(table[k].years)
                    &&& rows[k] is DidNotCompete ==> table[k].years == Map::<u32, Seq<u8>>::empty()
                    &&& rows[k] matches Row::Competed(d) ==> d.years_active.0 <= d.years_active.1
                        ==> stride_sum(days, d.years_active.0 as int, d.years_active.1 + 1)
                        <= declared_width(d)
                }
        }),
{
    lemma_histories_sound(crews, rows, days, raw, rows.len());
}

/// The first and the last year for which a year file is needed, if any.
pub fn year_span(rows: &Vec<Row>) -> (r: Option<(u32, u32)>)
    ensures
        r == span(rows@),
{
    let mut so_far: Option<(u32, u32)> = None;
    let mut i: usize = 0;
    while i < rows.len()
        invariant
            0 <= i <= rows@.len(),
            so_far == span(rows@.take(i as int)),
        decreases rows@.len() - i,
    {
        proof {
            assert(rows@.take(i + 1).drop_last() == rows@.take(i as int));
        }
        match &rows[i] {
            Row::DidNotCompete => {},
            Row::Competed(d) => {
                so_far = match so_far {
                    None => Some((d.years_active.0, d.years_active.1)),
                    Some((lo, hi)) => Some(
                        (
                            if d.years_active.0 < lo {
                                d.years_active.0
                            } else {
                                lo
                            },
                            if d.years_active.1 > hi {
                                d.years_active.1
                            } else {
                                hi
                            },
                        ),
                    ),
                };
            },
        }
        i += 1;
    }
    proof {
        assert(rows@.take(i as int) == rows@);
    }
    so_far
}

/// Whether the bytes of a year hold no position: all of them are zero.
pub fn is_blank(positions: &Vec<u8>) -> (r: bool)
    ensures
        r == !has_result(positions@),
{
    let mut i: usize = 0;
    while i < positions.len()
        invariant
            0 <= i <= positions@.len(),
            forall|k: int| 0 <= k < i ==> positions@[k] == 0,
        decreases positions@.len() - i,
    {
        if positions[i] != 0 {
            return false;
        }
        i += 1;
    }
    true
}

/// Walks the years of one crew and reads their bytes from the raw store.
fn crew_years(row: &Row, years: &HashMap<u32, Year>, raw: &Raw) -> (r: Result<
    BTreeMap<u32, Vec<u8>>,
    LoadError,
>)
    requires
        row matches Row::Competed(d) ==> forall|y: u32|
            d.years_active.0 <= y <= d.years_active.1 ==> years@.contains_key(y),
    ensures
        match r {
            Ok(kept) => years_of(days_of(years@), raw@, *row) == Ok::<
                Map<u32, Seq<u8>>,
                LoadError,
            >(kept@.map_values(|days: Vec<u8>| days@)),
            Err(e) => years_of(days_of(years@), raw@, *row) == Err::<Map<u32, Seq<u8>>, LoadError>(
                e,
            ),
        },
        r matches Ok(kept) ==> years_well_formed(kept@.map_values(|days: Vec<u8>| days@)),
{
    let mut kept: BTreeMap<u32, Vec<u8>> = BTreeMap::new();
    let d = match row {
        Row::DidNotCompete => {
            proof {
                assert(kept@.map_values(|days: Vec<u8>| days@) == Map::<u32, Seq<u8>>::empty());
            }
            return Ok(kept);
        },
        Row::Competed(d) => d,
    };
    let ghost days = days_of(years@);
    let ghost first = d.years_active.0 as int;
    let last: u64 = d.years_active.1 as u64;
    let mut year: u64 = d.years_active.0 as u64;
    let mut cursor: u64 = d.indices.0 as u64;
    proof {
        assert(kept@.map_values(|days: Vec<u8>| days@) == Map::<u32, Seq<u8>>::empty());
    }
    while year <= last
        invariant
            days == days_of(years@),
            *row == Row::Competed(*d),
            first == d.years_active.0,
            last == d.years_active.1,
            first <= year,
            year <= last + 1 || (last < first && year == first),
            forall|y: u32| d.years_active.0 <= y <= d.years_active.1 ==> years@.contains_key(y),
            cursor == d.indices.0 + stride_sum(days, first, year as int),
            cursor <= 0x1_0000_0000,
            walked(days, raw@, *d, (year - first) as nat) == Ok::<Map<u32, Seq<u8>>, LoadError>(
                kept@.map_values(|days: Vec<u8>| days@),
            ),
        decreases last + 1 - year,
    {
        let this_year: u32 = year as u32;
        let ghost n = (year - first + 1) as nat;
        let info = match years.get(&this_year) {
            Some(info) => info,
            None => vstd::pervasive::unreached(),
        };
        assert(days[this_year] == info.days);
        let next: u64 = cursor + info.days as u64 + 1;
        assert(next == d.indices.0 + stride_sum(days, first, year + 1));
        if next - 1 > d.indices.1 as u64 {
            proof {
                assert(walked(days, raw@, *d, n) == Err::<Map<u32, Seq<u8>>, LoadError>(
                    LoadError::RangeOverflow,
                ));
                lemma_walked_fault(days, raw@, *d, n, year_count(*d));
            }
            return Err(LoadError::RangeOverflow);
        }
        let positions = match raw.span(cursor, next) {
            Ok(positions) => positions,
            Err(_) => {
                proof {
                    assert(walked(days, raw@, *d, n) == Err::<Map<u32, Seq<u8>>, LoadError>(
                        LoadError::ShortRead,
                    ));
                    lemma_walked_fault(days, raw@, *d, n, year_count(*d));
                }
                return Err(LoadError::ShortRead);
            },
        };
        if !is_blank(&positions) {
            let ghost before = kept@.map_values(|days: Vec<u8>| days@);
            kept.insert(this_year, positions);
            proof {
                assert(kept@.map_values(|days: Vec<u8>| days@) == before.insert(
                    this_year,
                    positions@,
                ));
            }
        }
        cursor = next;
        year += 1;
    }
    proof {
        assert((year - first) as nat == year_count(*d));
        lemma_walked_years(days, raw@, *d, year_count(*d));
    }
    Ok(kept)
}

impl CrewTable {
    /// The histories, in the order of the directory.
    pub fn records(&self) -> (r: &Vec<CrewRecord>)
        ensures
            record_views(r@) == self@,
    {
        &self.records
    }

    /// The history of the crew with the short name `alias`; where several
    /// crews have it, that of the last of them.
    pub fn get(&self, alias: &str) -> (r: Option<&CrewRecord>)
        ensures
            match r {
                Some(record) => found(self@, alias@) == Some(record@),
                None => found(self@, alias@) is None,
            },
    {
        let wanted = alias.to_owned();
        let mut i: usize = self.records.len();
        proof {
            assert(self@.take(i as int) == self@);
        }
        while i > 0
            invariant
                0 <= i <= self.records@.len(),
                wanted@ == alias@,
                found(self@, alias@) == found(self@.take(i as int), alias@),
            decreases i,
        {
            proof {
                assert(self@.take(i as int).drop_last() == self@.take(i - 1));
                assert(self@.take(i as int).last() == self.records@[i - 1]@);
            }
            if self.records[i - 1].alias == wanted {
                return Some(&self.records[i - 1]);
            }
            i -= 1;
        }
        None
    }
}

/// Joins the directory, the race records, the year files and the raw store
/// into the history of every crew.
///
/// `years` holds what the year files say, by year; it must hold every year
/// from the first to the last that [`year_span`] gives.
pub fn load_years(clubs: &Clubs, rows: &Vec<Row>, years: &HashMap<u32, Year>, raw: &Raw) -> (r:
    Result<CrewTable, LoadError>)
    ensures
        match r {
            Ok(table) => loaded(all_crews(clubs@), rows@, days_of(years@), raw@) == Ok::<
                Seq<CrewRecordView>,
                LoadError,
            >(table@),
            Err(e) => loaded(all_crews(clubs@), rows@, days_of(years@), raw@) == Err::<
                Seq<CrewRecordView>,
                LoadError,
            >(e),
        },
        r matches Ok(table) ==> table@.len() == rows@.len() && forall|k: int|
            0 <= k < table@.len() ==> years_well_formed((#[trigger] table@[k]).years),
{
    let crews = clubs.crews();
    let ghost names = all_crews(clubs@);
    let ghost days = days_of(years@);
    if rows.len() != crews.len() {
        return Err(LoadError::CrewCountMismatch);
    }
    let needed = year_span(rows);
    if let Some((lo, hi)) = needed {
        let mut year: u64 = lo as u64;
        while year <= hi as u64
            invariant
                lo <= year,
                year <= hi + 1 || (hi < lo && year == lo),
                days == days_of(years@),
                names == all_crews(clubs@),
                names.len() == rows@.len(),
                span(rows@) == Some((lo, hi)),
                first_missing(days, lo as int, hi as int) == first_missing(
                    days,
                    year as int,
                    hi as int,
                ),
            decreases hi + 1 - year,
        {
            let this_year: u32 = year as u32;
            if years.get(&this_year).is_none() {
                proof {
                    assert(!days.contains_key(this_year));
                }
                return Err(LoadError::MissingYearFile(this_year));
            }
            proof {
                assert(days.contains_key(this_year));
            }
            year += 1;
        }
    }
    let mut records: Vec<CrewRecord> = Vec::new();
    let mut k: usize = 0;
    proof {
        assert(record_views(records@) == Seq::<CrewRecordView>::empty());
    }
    while k < rows.len()
        invariant
            0 <= k <= rows@.len(),
            rows@.len() == crews@.len(),
            names == all_crews(clubs@),
            crews@.map_values(|c: &Crew| c@) == names,
            days == days_of(years@),
            needed == span(rows@),
            needed matches Some((lo, hi)) ==> first_missing(days, lo as int, hi as int) is None,
            histories(names, rows@, days, raw@, k as nat) == Ok::<Seq<CrewRecordView>, LoadError>(
                record_views(records@),
            ),
        decreases rows@.len() - k,
    {
        let row = &rows[k];
        let crew = crews[k];
        proof {
            assert(names[k as int] == crews@[k as int]@);
            if row is Competed {
                let d = row->Competed_0;
                lemma_span_covers(rows@, k as int);
                let (lo, hi) = needed->Some_0;
                assert forall|y: u32|
                    d.years_active.0 <= y <= d.years_active.1 implies years@.contains_key(y) by {
                    lemma_none_missing(days, lo as int, hi as int, y as int);
                }
            }
        }
        let kept = match crew_years(row, years, raw) {
            Ok(kept) => kept,
            Err(e) => {
                proof {
                    lemma_histories_fault(names, rows@, days, raw@, (k + 1) as nat, rows@.len());
                }
                return Err(e);
            },
        };
        let ghost before = record_views(records@);
        let record = CrewRecord::new(crew.name.clone(), crew.alias.clone(), kept);
        records.push(record);
        proof {
            assert(record_views(records@) == before.push(record@));
        }
        k += 1;
    }
    proof {
        lemma_histories_sound(names, rows@, days, raw@, rows@.len());
    }
    Ok(CrewTable { records })
}

} // verus!
