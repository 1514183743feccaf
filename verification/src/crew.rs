//! The reconstructed history of one crew.

use std::collections::BTreeMap;
use vstd::std_specs::cmp::OrdSpec;
use vstd::std_specs::iter::IteratorSpec;
use vstd::prelude::*;

verus! {

/// A crew and its positions, day by day, for every year in which it has any.
#[derive(Debug, PartialEq)]
pub struct CrewRecord {
    /// The long name, e.g. "King's 3".
    pub name: String,
    /// The short name, e.g. "kings3".
    pub alias: String,
    /// The stored bytes of each year: one position for each day, 0 where the
    /// crew has none, and one byte more.
    pub years: BTreeMap<u32, Vec<u8>>,
}

/// A crew's history as plain values.
pub struct CrewRecordView {
    pub name: Seq<char>,
    pub alias: Seq<char>,
    pub years: Map<u32, Seq<u8>>,
}

/// Whether a year's bytes hold a position at all: one of them is not zero.
pub open spec fn has_result(days: Seq<u8>) -> bool {
    exists|i: int| 0 <= i < days.len() && days[i] != 0
}

/// Whether no year is kept that holds no position.
pub open spec fn years_well_formed(years: Map<u32, Seq<u8>>) -> bool {
    forall|y: u32| years.contains_key(y) ==> has_result(#[trigger] years[y])
}

impl View for CrewRecord {
    type V = CrewRecordView;

    open spec fn view(&self) -> CrewRecordView {
        CrewRecordView {
            name: self.name@,
            alias: self.alias@,
            years: self.years@.map_values(|days: Vec<u8>| days@),
        }
    }
}

impl Clone for CrewRecord {
    fn clone(&self) -> (r: Self)
        ensures
            r.name == self.name,
            r.alias == self.alias,
            r.years@ == self.years@,
    {
        CrewRecord {
            name: self.name.clone(),
            alias: self.alias.clone(),
            years: self.years.clone(),
        }
    }
}

impl CrewRecord {
    /// Whether the record keeps no year without a position.
    pub open spec fn well_formed(&self) -> bool {
        years_well_formed(self@.years)
    }

    /// A record of the given names and years. No year may be all zero.
    pub fn new(name: String, alias: String, years: BTreeMap<u32, Vec<u8>>) -> (r: Self)
        requires
            years_well_formed(years@.map_values(|days: Vec<u8>| days@)),
        ensures
            r.name == name,
            r.alias == alias,
            r.years == years,
            r.well_formed(),
    {
        CrewRecord { name, alias, years }
    }

    /// The years in which the crew has a position, in ascending order.
    pub fn years_in_order(&self) -> (r: Vec<u32>)
        ensures
            forall|i: int, j: int| 0 <= i < j < r@.len() ==> r@[i] < r@[j],
            forall|y: u32| r@.contains(y) <==> self@.years.contains_key(y),
    {
        let mut out: Vec<u32> = Vec::new();
        let ghost all = vstd::std_specs::btree::spec_btree_map_iter(&self.years).remaining();
        let ghost keys = all.map_values(|kv: (&u32, &Vec<u8>)| *kv.0);
        for pair in it: self.years.iter()
            invariant
                it.seq() == all,
                keys == all.map_values(|kv: (&u32, &Vec<u8>)| *kv.0),
                vstd::std_specs::btree::increasing_seq(keys),
                out@ == keys.take(it.index()),
        {
            out.push(*pair.0);
        }
        proof {
            assert(out@ == keys);
            vstd::std_specs::btree::axiom_increasing_seq_meaning::<u32>(keys);
            assert forall|i: int, j: int| 0 <= i < j < out@.len() implies out@[i] < out@[j] by {
                assert(keys[i].cmp_spec(&keys[j]) is Less);
            }
            assert forall|y: u32| out@.contains(y) <==> self@.years.contains_key(y) by {
                if self.years@.contains_key(y) {
                    let at = choose|i: int| 0 <= i < all.len() && all[i] == (&y, &self.years@[y]);
                    assert(keys[at] == y);
                }
                if out@.contains(y) {
                    let at = choose|i: int| 0 <= i < keys.len() && keys[i] == y;
                    assert(self.years@.contains_key(*all[at].0));
                }
            }
        }
        out
    }

    /// The stored bytes of `year`, if the crew has a position in it.
    pub fn year(&self, year: u32) -> (r: Option<&Vec<u8>>)
        ensures
            match r {
                Some(days) => self@.years.contains_key(year) && days@ == self@.years[year],
                None => !self@.years.contains_key(year),
            },
    {
        self.years.get(&year)
    }
}

} // verus!
