//! The flat form of the results: one entry for every recorded day.
//!
//! This is what is handed to a store: for every crew of the directory that
//! has a history, every year in which it has a position, and every byte
//! stored for that year, in this order.

use crate::colleges::{crew_views, Club, ClubView, Clubs, Crew, CrewView};
use crate::competition::Competition;
use crate::crew::{CrewRecord, CrewRecordView};
use crate::results::{found, CrewTable};
use vstd::prelude::*;

verus! {

/// The position of one crew on one day.
#[derive(Debug, PartialEq, Eq)]
pub struct ResultEntry {
    pub year: u32,
    /// The place of the byte among those stored for the year, from 0.
    pub day: usize,
    /// The name of the crew's club.
    pub club: String,
    /// The short name of the crew.
    pub crew: String,
    pub competition: Competition,
    /// The position, or 0 where the crew has none on that day.
    pub position: u8,
}

/// An entry as plain values.
pub struct EntryView {
    pub year: u32,
    pub day: int,
    pub club: Seq<char>,
    pub crew: Seq<char>,
    pub competition: Competition,
    pub position: u8,
}

impl View for ResultEntry {
    type V = EntryView;

    open spec fn view(&self) -> EntryView {
        EntryView {
            year: self.year,
            day: self.day as int,
            club: self.club@,
            crew: self.crew@,
            competition: self.competition,
            position: self.position,
        }
    }
}

/// The entries of a vector as plain values.
pub open spec fn entry_views(entries: Seq<ResultEntry>) -> Seq<EntryView> {
    entries.map_values(|e: ResultEntry| e@)
}

/// What all entries of one crew in one competition share.
pub struct Heading {
    pub club: Seq<char>,
    pub crew: Seq<char>,
    pub competition: Competition,
}

/// The entries of one year: one for each stored byte, in their order.
pub open spec fn day_entries(h: Heading, year: u32, days: Seq<u8>) -> Seq<EntryView> {
    Seq::new(
        days.len(),
        |i: int|
            EntryView {
                year,
                day: i,
                club: h.club,
                crew: h.crew,
                competition: h.competition,
                position: days[i],
            },
    )
}

/// The entries of the years below `bound`, in ascending order of the years.
pub open spec fn entries_below(h: Heading, years: Map<u32, Seq<u8>>, bound: int) -> Seq<EntryView>
    decreases bound,
{
    if bound <= 0 {
        Seq::empty()
    } else {
        let year = (bound - 1) as u32;
        entries_below(h, years, bound - 1) + if years.contains_key(year) {
            day_entries(h, year, years[year])
        } else {
            Seq::empty()
        }
    }
}

/// The entries of all years of a history, in ascending order of the years.
pub open spec fn year_entries(h: Heading, years: Map<u32, Seq<u8>>) -> Seq<EntryView> {
    entries_below(h, years, u32::MAX + 1)
}

/// The entries of one crew of the directory: those of its history in the
/// table, and none where the table has no history for it.
pub open spec fn crew_entries(
    club: Seq<char>,
    crew: CrewView,
    table: Seq<CrewRecordView>,
    competition: Competition,
) -> Seq<EntryView> {
    match found(table, crew.alias) {
        Some(record) => year_entries(Heading { club, crew: crew.alias, competition }, record.years),
        None => Seq::empty(),
    }
}

/// The entries of the first `n` crews of a club.
pub open spec fn club_entries(
    club: ClubView,
    table: Seq<CrewRecordView>,
    competition: Competition,
    n: nat,
) -> Seq<EntryView>
    decreases n,
{
    if n == 0 {
        Seq::empty()
    } else {
        club_entries(club, table, competition, (n - 1) as nat) + crew_entries(
            club.name,
            club.crews[n - 1],
            table,
            competition,
        )
    }
}

/// The entries of the first `n` clubs of a directory.
pub open spec fn directory_entries(
    clubs: Seq<ClubView>,
    table: Seq<CrewRecordView>,
    competition: Competition,
    n: nat,
) -> Seq<EntryView>
    decreases n,
{
    if n == 0 {
        Seq::empty()
    } else {
        directory_entries(clubs, table, competition, (n - 1) as nat) + club_entries(
            clubs[n - 1],
            table,
            competition,
            clubs[n - 1].crews.len(),
        )
    }
}

/// Years without a history add no entries.
pub proof fn lemma_entries_gap(h: Heading, years: Map<u32, Seq<u8>>, from: int, to: int)
    requires
        0 <= from <= to <= u32::MAX + 1,
        forall|y: u32| from <= y < to ==> !years.contains_key(y),
    ensures
        entries_below(h, years, to) == entries_below(h, years, from),
    decreases to - from,
{
    if from < to {
        lemma_entries_gap(h, years, from, to - 1);
        assert(!years.contains_key((to - 1) as u32));
        assert(entries_below(h, years, to - 1) + Seq::<EntryView>::empty() == entries_below(
            h,
            years,
            to - 1,
        ));
    }
}

/// Appends the entries of one history to `out`.
fn push_record(
    out: &mut Vec<ResultEntry>,
    record: &CrewRecord,
    club: &String,
    crew: &String,
    competition: Competition,
)
    ensures
        entry_views(final(out)@) == entry_views(old(out)@) + year_entries(
            Heading { club: club@, crew: crew@, competition },
            record@.years,
        ),
{
    let ghost h = Heading { club: club@, crew: crew@, competition };
    let ghost base = entry_views(out@);
    let ghost years = record@.years;
    let ghost mut bound: int = 0;
    let order = record.years_in_order();
    let mut j: usize = 0;
    proof {
        assert(base + entries_below(h, years, 0) == base);
    }
    while j < order.len()
        invariant
            0 <= j <= order@.len(),
            0 <= bound <= u32::MAX + 1,
            h == (Heading { club: club@, crew: crew@, competition }),
            years == record@.years,
            forall|a: int, b: int| 0 <= a < b < order@.len() ==> order@[a] < order@[b],
            forall|y: u32| order@.contains(y) <==> years.contains_key(y),
            forall|a: int| 0 <= a < j ==> order@[a] < bound,
            forall|a: int| j <= a < order@.len() ==> bound <= order@[a],
            entry_views(out@) == base + entries_below(h, years, bound),
        decreases order@.len() - j,
    {
        let year = order[j];
        proof {
            assert(order@.contains(year));
            assert forall|y: u32| bound <= y < year implies !years.contains_key(y) by {
                if years.contains_key(y) {
                    let at = choose|a: int| 0 <= a < order@.len() && order@[a] == y;
                    assert(at < j || at >= j);
                }
            }
            lemma_entries_gap(h, years, bound, year as int);
        }
        let days = match record.year(year) {
            Some(days) => days,
            None => vstd::pervasive::unreached(),
        };
        let ghost before = entry_views(out@);
        let mut i: usize = 0;
        while i < days.len()
            invariant
                0 <= i <= days@.len(),
                h == (Heading { club: club@, crew: crew@, competition }),
                entry_views(out@) == before + day_entries(h, year, days@).take(i as int),
            decreases days@.len() - i,
        {
            let ghost so_far = entry_views(out@);
            let entry = ResultEntry {
                year,
                day: i,
                club: club.clone(),
                crew: crew.clone(),
                competition,
                position: days[i],
            };
            out.push(entry);
            proof {
                assert(entry_views(out@) == so_far.push(entry@));
                assert(day_entries(h, year, days@).take(i + 1) == day_entries(
                    h,
                    year,
                    days@,
                ).take(i as int).push(entry@));
            }
            i += 1;
        }
        proof {
            assert(day_entries(h, year, days@).take(i as int) == day_entries(h, year, days@));
            assert(entries_below(h, years, year + 1) == entries_below(h, years, year as int)
                + day_entries(h, year, days@));
            bound = year + 1;
        }
        j += 1;
    }
    proof {
        assert forall|y: u32| bound <= y < u32::MAX + 1 implies !years.contains_key(y) by {
            if years.contains_key(y) {
                let at = choose|a: int| 0 <= a < order@.len() && order@[a] == y;
                assert(order@[at] < bound);
            }
        }
        lemma_entries_gap(h, years, bound, u32::MAX + 1);
    }
}

/// The entries of all crews of a directory in one competition: club after
/// club, crew after crew, year after year, day after day.
pub fn entries(clubs: &Clubs, table: &CrewTable, competition: Competition) -> (r: Vec<ResultEntry>)
    ensures
        entry_views(r@) == directory_entries(clubs@, table@, competition, clubs@.len()),
{
    let mut out: Vec<ResultEntry> = Vec::new();
    let list = clubs.clubs();
    let mut c: usize = 0;
    proof {
        assert(entry_views(out@) == Seq::<EntryView>::empty());
    }
    while c < list.len()
        invariant
            0 <= c <= list@.len(),
            list@.map_values(|club: Club| club@) == clubs@,
            entry_views(out@) == directory_entries(clubs@, table@, competition, c as nat),
        decreases list@.len() - c,
    {
        let club = &list[c];
        let crews = club.crews();
        let ghost before = entry_views(out@);
        let ghost view = club@;
        proof {
            assert(clubs@[c as int] == view);
            assert(before + club_entries(view, table@, competition, 0) == before);
        }
        let mut k: usize = 0;
        while k < crews.len()
            invariant
                0 <= k <= crews@.len(),
                view == club@,
                crew_views(crews@) == view.crews,
                entry_views(out@) == before + club_entries(view, table@, competition, k as nat),
            decreases crews@.len() - k,
        {
            let crew = &crews[k];
            let ghost so_far = entry_views(out@);
            proof {
                assert(view.crews[k as int] == crew@);
            }
            if let Some(record) = table.get(crew.alias.as_str()) {
                push_record(&mut out, record, club.name(), &crew.alias, competition);
            }
            proof {
                assert(entry_views(out@) == so_far + crew_entries(
                    view.name,
                    crew@,
                    table@,
                    competition,
                ));
                assert(before + club_entries(view, table@, competition, k as nat) + crew_entries(
                    view.name,
                    crew@,
                    table@,
                    competition,
                ) == before + club_entries(view, table@, competition, (k + 1) as nat));
            }
            k += 1;
        }
        proof {
            assert(directory_entries(clubs@, table@, competition, c as nat) + club_entries(
                view,
                table@,
                competition,
                view.crews.len(),
            ) == directory_entries(clubs@, table@, competition, (c + 1) as nat));
        }
        c += 1;
    }
    out
}

} // verus!
