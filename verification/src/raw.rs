//! The raw position store: the bytes of a flat file, read by range.

use vstd::prelude::*;

verus! {

/// The positions of all crews, as they lie in the raw file.
#[derive(Debug)]
pub struct Raw {
    bytes: Vec<u8>,
}

/// Why a range could not be read.
#[derive(Debug, PartialEq, Eq, Clone, Copy)]
pub enum RawError {
    /// The range ends behind the end of the store.
    ShortRead,
}

impl View for Raw {
    type V = Seq<u8>;

    closed spec fn view(&self) -> Seq<u8> {
        self.bytes@
    }
}

impl Raw {
    /// Takes the contents of a raw file.
    pub fn load(raw: Vec<u8>) -> (r: Raw)
        ensures
            r@ == raw@,
    {
        Raw { bytes: raw }
    }

    /// The bytes from `start_incl` up to, but without, `end_excl`.
    ///
    /// Every call stands for itself: it does not matter what was read before.
    pub fn range(&self, start_incl: u32, end_excl: u32) -> (r: Result<Vec<u8>, RawError>)
        requires
            start_incl <= end_excl,
        ensures
            match r {
                Ok(bytes) => end_excl <= self@.len() && bytes@ == self@.subrange(
                    start_incl as int,
                    end_excl as int,
                ),
                Err(e) => end_excl > self@.len() && e == RawError::ShortRead,
            },
    {
        self.span(start_incl as u64, end_excl as u64)
    }

    /// The bytes from `start` up to, but without, `end`, for offsets of any size.
    pub fn span(&self, start: u64, end: u64) -> (r: Result<Vec<u8>, RawError>)
        requires
            start <= end,
        ensures
            match r {
                Ok(bytes) => end <= self@.len() && bytes@ == self@.subrange(
                    start as int,
                    end as int,
                ),
                Err(e) => end > self@.len() && e == RawError::ShortRead,
            },
    {
        if end > self.bytes.len() as u64 {
            return Err(RawError::ShortRead);
        }
        let part = vstd::slice::slice_subrange(self.bytes.as_slice(), start as usize, end as usize);
        Ok(vstd::slice::slice_to_vec(part))
    }
}

} // verus!
