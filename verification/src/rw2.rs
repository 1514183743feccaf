//! Race records: one fixed-width binary record per crew.
//!
//! The file is a flat run of 24-byte little-endian records with no header:
//! two reserved words, the first and last year of participation, and the
//! first and last byte offset of the crew's positions in the raw store.

use vstd::prelude::*;

verus! {

/// Width in bytes of one record.
pub const RECORD_LEN: usize = 24;

/// Start-year value of a padding record, which stands for no crew at all.
pub const PADDING_YEAR: u32 = 0;

/// Start-year value of a crew that never raced.
pub const ABSENT_YEAR: u32 = 9999;

/// The years a crew was active and where its positions lie in the raw store.
#[derive(Debug, PartialEq)]
pub struct Details {
    pub years_active: (u32, u32),
    pub indices: (u32, u32),
}

impl Clone for Details {
    fn clone(&self) -> (r: Self)
        ensures
            r == *self,
    {
        Details {
            years_active: (self.years_active.0, self.years_active.1),
            indices: (self.indices.0, self.indices.1),
        }
    }
}

/// What the race-record file says about one crew.
#[derive(Debug, PartialEq)]
pub enum Row {
    DidNotCompete,
    Competed(Details),
}

impl Clone for Row {
    fn clone(&self) -> (r: Self)
        ensures
            r == *self,
    {
        match self {
            Row::DidNotCompete => Row::DidNotCompete,
            Row::Competed(details) => Row::Competed(details.clone()),
        }
    }
}

/// Why a race-record file was refused.
#[derive(Debug, PartialEq, Eq, Clone, Copy)]
pub enum RecordError {
    /// The length of the file is not a whole number of records.
    TruncatedRecord,
}

/// The four words of a record that carry data, as read from the file.
pub struct RawRecord {
    pub start_year: u32,
    pub end_year: u32,
    pub start_idx: u32,
    pub end_idx: u32,
}

/// The number that four bytes spell in little-endian order.
pub open spec fn le_word(bytes: Seq<u8>) -> int
    recommends
        bytes.len() == 4,
{
    bytes[0] as int + 0x100 * (bytes[1] as int) + 0x1_0000 * (bytes[2] as int) + 0x100_0000 * (
    bytes[3] as int)
}

/// The record that starts at byte `at` of `bytes`.
pub open spec fn record_at(bytes: Seq<u8>, at: int) -> RawRecord
    recommends
        0 <= at,
        at + RECORD_LEN <= bytes.len(),
{
    RawRecord {
        start_year: le_word(bytes.subrange(at + 8, at + 12)) as u32,
        end_year: le_word(bytes.subrange(at + 12, at + 16)) as u32,
        start_idx: le_word(bytes.subrange(at + 16, at + 20)) as u32,
        end_idx: le_word(bytes.subrange(at + 20, at + 24)) as u32,
    }
}

/// All whole records of a file, in file order.
pub open spec fn records(bytes: Seq<u8>) -> Seq<RawRecord> {
    Seq::new((bytes.len() / RECORD_LEN as nat) as nat, |k: int| record_at(bytes, k * RECORD_LEN))
}

/// Whether a record stands for a crew, that is, is no padding.
pub open spec fn is_crew(record: RawRecord) -> bool {
    record.start_year != PADDING_YEAR
}

/// The row that a crew's record gives.
pub open spec fn classify(record: RawRecord) -> Row {
    if record.start_year == ABSENT_YEAR {
        Row::DidNotCompete
    } else {
        Row::Competed(
            Details {
                years_active: (record.start_year, record.end_year),
                indices: (record.start_idx, record.end_idx),
            },
        )
    }
}

/// What one record contributes to the output: nothing for padding, else its row.
pub open spec fn entry_of(record: RawRecord) -> Option<Row> {
    if is_crew(record) {
        Some(classify(record))
    } else {
        None
    }
}

/// The rows of a file: what its records contribute, in file order.
pub open spec fn rows_of(bytes: Seq<u8>) -> Seq<Row> {
    records(bytes).filter_map(|r: RawRecord| entry_of(r))
}

/// Exactly the records that are no padding give a row, each its own, and the
/// rows stand in the order of their records.
pub proof fn lemma_rows_keep_count_and_order(bytes: Seq<u8>)
    ensures
        rows_of(bytes) == records(bytes).filter(|r: RawRecord| is_crew(r)).map_values(
            |r: RawRecord| classify(r),
        ),
        rows_of(bytes).len() == records(bytes).filter(|r: RawRecord| is_crew(r)).len(),
{
    lemma_filter_map_is_filter_then_map(records(bytes));
}

/// What a run of records contributes is what its crews' records classify to.
proof fn lemma_filter_map_is_filter_then_map(all: Seq<RawRecord>)
    ensures
        all.filter_map(|r: RawRecord| entry_of(r)) == all.filter(
            |r: RawRecord| is_crew(r),
        ).map_values(|r: RawRecord| classify(r)),
    decreases all.len(),
{
    reveal(Seq::filter);
    if all.len() > 0 {
        lemma_filter_map_is_filter_then_map(all.drop_last());
        let kept = all.drop_last().filter(|r: RawRecord| is_crew(r));
        if is_crew(all.last()) {
            assert(kept.push(all.last()).map_values(|r: RawRecord| classify(r)) == kept.map_values(
                |r: RawRecord| classify(r),
            ) + seq![classify(all.last())]);
        }
    } else {
        assert(all.filter(|r: RawRecord| is_crew(r)).map_values(|r: RawRecord| classify(r))
            == Seq::<Row>::empty());
    }
}

/// Reads one little-endian word with `nom::number::complete::le_u32`.
///
/// Trusted: with four bytes or more the call yields the number that the first
/// four spell, least significant first, and the input behind them; with fewer
/// it reports an error, given here as `None`.
#[verifier::external_body]
fn le_u32(input: &[u8]) -> (r: Option<(&[u8], u32)>)
    ensures
        r is Some <==> input@.len() >= 4,
        r matches Some((rest, word)) ==> rest@ == input@.skip(4) && word as int == le_word(
            input@.take(4),
        ),
{
    match nom::number::complete::le_u32::<&[u8], nom::error::Error<&[u8]>>(input) {
        Ok((rest, word)) => Some((rest, word)),
        Err(_) => None,
    }
}

/// Parses the record at the head of `input`.
///
/// Gives the input behind the record and what the record contributes, or
/// `None` where fewer than 24 bytes are left.
pub fn entry(input: &[u8]) -> (r: Option<(&[u8], Option<Row>)>)
    ensures
        r is Some <==> input@.len() >= RECORD_LEN,
        r matches Some((rest, row)) ==> rest@ == input@.skip(RECORD_LEN as int) && row == entry_of(
            record_at(input@, 0),
        ),
{
    let Some((input1, _zero)) = le_u32(input) else {
        return None;
    };
    let Some((input2, _zero)) = le_u32(input1) else {
        return None;
    };
    let Some((input3, start_year)) = le_u32(input2) else {
        return None;
    };
    let Some((input4, end_year)) = le_u32(input3) else {
        return None;
    };
    let Some((input5, start_idx)) = le_u32(input4) else {
        return None;
    };
    let Some((input6, end_idx)) = le_u32(input5) else {
        return None;
    };
    proof {
        assert(input2@.take(4) == input@.subrange(8, 12));
        assert(input3@.take(4) == input@.subrange(12, 16));
        assert(input4@.take(4) == input@.subrange(16, 20));
        assert(input5@.take(4) == input@.subrange(20, 24));
        assert(input6@ == input@.skip(24));
    }
    let result = if start_year == PADDING_YEAR {
        None
    } else if start_year == ABSENT_YEAR {
        Some(Row::DidNotCompete)
    } else {
        Some(
            Row::Competed(
                Details { years_active: (start_year, end_year), indices: (start_idx, end_idx) },
            ),
        )
    };
    Some((input6, result))
}

impl Row {
    /// Parses the contents of a race-record file.
    ///
    /// A file whose length is no multiple of 24 is refused. Otherwise every
    /// record but the padding gives one row, in file order.
    pub fn from_file(rw2: &[u8]) -> (r: Result<Vec<Row>, RecordError>)
        ensures
            r is Ok <==> rw2@.len() % RECORD_LEN as nat == 0,
            r matches Ok(rows) ==> rows@ == rows_of(rw2@),
            r matches Err(e) ==> e == RecordError::TruncatedRecord,
    {
        let mut rows: Vec<Row> = Vec::new();
        let mut rest: &[u8] = rw2;
        let ghost all = records(rw2@);
        let ghost mut done: int = 0;
        loop
            invariant
                all == records(rw2@),
                0 <= done <= all.len(),
                rest@ == rw2@.skip(done * RECORD_LEN),
                done * RECORD_LEN <= rw2@.len(),
                rows@ == all.take(done).filter_map(|r: RawRecord| entry_of(r)),
            decreases rest@.len(),
        {
            match entry(rest) {
                None => {
                    proof {
                        assert(done == all.len());
                        assert(all.take(done) == all);
                    }
                    return if rest.len() == 0 {
                        Ok(rows)
                    } else {
                        Err(RecordError::TruncatedRecord)
                    };
                },
                Some((next, found)) => {
                    proof {
                        assert(record_at(rest@, 0) == record_at(rw2@, done * RECORD_LEN)) by {
                            let at = done * RECORD_LEN;
                            assert(rest@.subrange(8, 12) == rw2@.subrange(at + 8, at + 12));
                            assert(rest@.subrange(12, 16) == rw2@.subrange(at + 12, at + 16));
                            assert(rest@.subrange(16, 20) == rw2@.subrange(at + 16, at + 20));
                            assert(rest@.subrange(20, 24) == rw2@.subrange(at + 20, at + 24));
                        }
                        assert(next@ == rw2@.skip((done + 1) * RECORD_LEN));
                        all.lemma_filter_map_take_succ(|r: RawRecord| entry_of(r), done);
                    }
                    if let Some(row) = found {
                        rows.push(row);
                    }
                    rest = next;
                    proof {
                        done = done + 1;
                    }
                },
            }
        }
    }

    /// First year of participation, if the crew competed.
    pub fn start_year(&self) -> (r: Option<u32>)
        ensures
            r == match *self {
                Row::DidNotCompete => None,
                Row::Competed(d) => Some(d.years_active.0),
            },
    {
        match self {
            Row::DidNotCompete => None,
            Row::Competed(details) => Some(details.years_active.0),
        }
    }

    /// Last year of participation, if the crew competed.
    pub fn end_year(&self) -> (r: Option<u32>)
        ensures
            r == match *self {
                Row::DidNotCompete => None,
                Row::Competed(d) => Some(d.years_active.1),
            },
    {
        match self {
            Row::DidNotCompete => None,
            Row::Competed(details) => Some(details.years_active.1),
        }
    }

    /// Offset in the raw store of the crew's first position byte, if it competed.
    pub fn start_idx(&self) -> (r: Option<u32>)
        ensures
            r == match *self {
                Row::DidNotCompete => None,
                Row::Competed(d) => Some(d.indices.0),
            },
    {
        match self {
            Row::DidNotCompete => None,
            Row::Competed(details) => Some(details.indices.0),
        }
    }

    /// Offset in the raw store that the crew's positions must not pass, if it competed.
    pub fn end_idx(&self) -> (r: Option<u32>)
        ensures
            r == match *self {
                Row::DidNotCompete => None,
                Row::Competed(d) => Some(d.indices.1),
            },
    {
        match self {
            Row::DidNotCompete => None,
            Row::Competed(details) => Some(details.indices.1),
        }
    }
}

} // verus!
