use bumps::colleges::Clubs;
use bumps::competition::Competition;
use bumps::entries::{entries, ResultEntry};
use bumps::query::{query, QueryError, YearLine};
use bumps::raw::Raw;
use bumps::results::{load_years, CrewTable};
use bumps::rw2::{Details, Row};
use bumps::year::Year;
use std::collections::HashMap;

fn years(list: &[(u32, u8)]) -> HashMap<u32, Year> {
    list.iter().map(|&(y, days)| (y, Year { days, crews_per_division: vec![] })).collect()
}

fn competed(start: u32, end: u32, from: u32, to: u32) -> Row {
    Row::Competed(Details { years_active: (start, end), indices: (from, to) })
}

fn directory() -> Clubs {
    Clubs::from_file("[A]\n1\t2\t3\nA One\ta1\nA Two\ta2\n\n[B]\n4\t5\t6\nB One\tb1\n\n").unwrap()
}

fn table() -> CrewTable {
    let raw = Raw::load(vec![5, 6, 0, 0, 0, 0, 7, 0, 0, 9, 8, 1]);
    let rows = vec![competed(1990, 1992, 0, 8), Row::DidNotCompete, competed(1991, 1991, 9, 11)];
    load_years(&directory(), &rows, &years(&[(1990, 2), (1991, 2), (1992, 2)]), &raw).unwrap()
}

fn entry(year: u32, day: usize, club: &str, crew: &str, position: u8) -> ResultEntry {
    ResultEntry {
        year,
        day,
        club: String::from(club),
        crew: String::from(crew),
        competition: Competition::MenLents,
        position,
    }
}

#[test]
fn one_entry_for_every_stored_byte_in_order() {
    let flat = entries(&directory(), &table(), Competition::MenLents);
    assert_eq!(
        flat,
        vec![
            entry(1990, 0, "A", "a1", 5),
            entry(1990, 1, "A", "a1", 6),
            entry(1990, 2, "A", "a1", 0),
            entry(1992, 0, "A", "a1", 7),
            entry(1992, 1, "A", "a1", 0),
            entry(1992, 2, "A", "a1", 0),
            entry(1991, 0, "B", "b1", 9),
            entry(1991, 1, "B", "b1", 8),
            entry(1991, 2, "B", "b1", 1),
        ]
    );
}

#[test]
fn entries_carry_the_competition() {
    let flat = entries(&directory(), &table(), Competition::WomenMays);
    assert_eq!(flat.len(), 9);
    assert!(flat.iter().all(|e| e.competition == Competition::WomenMays));
}

#[test]
fn scenario_gives_five_entries_for_the_one_year_with_positions() {
    let clubs = Clubs::from_file("[Test]\n1\t2\t3\nTest 1\ttest1\n\n").unwrap();
    let mut bytes = vec![0u8; 21];
    bytes[..5].copy_from_slice(&[1, 2, 3, 4, 0]);
    let rows = vec![competed(1990, 1991, 0, 20)];
    let loaded =
        load_years(&clubs, &rows, &years(&[(1990, 4), (1991, 4)]), &Raw::load(bytes)).unwrap();
    let flat = entries(&clubs, &loaded, Competition::Early);
    let positions: Vec<(u32, usize, u8)> = flat.iter().map(|e| (e.year, e.day, e.position)).collect();
    assert_eq!(positions, vec![(1990, 0, 1), (1990, 1, 2), (1990, 2, 3), (1990, 3, 4), (1990, 4, 0)]);
    assert!(flat.iter().all(|e| e.club == "Test" && e.crew == "test1"));
}

#[test]
fn crew_that_did_not_compete_contributes_no_entries() {
    let clubs = Clubs::from_file("[Test]\n1\t2\t3\nTest 1\ttest1\n\n").unwrap();
    let loaded =
        load_years(&clubs, &vec![Row::DidNotCompete], &years(&[]), &Raw::load(vec![])).unwrap();
    assert_eq!(entries(&clubs, &loaded, Competition::Early), vec![]);
}

#[test]
fn crews_missing_from_the_table_contribute_no_entries() {
    let other = Clubs::from_file("[C]\n1\t2\t3\nC One\tc1\nA One\ta1\n\n").unwrap();
    let flat = entries(&other, &table(), Competition::MenLents);
    assert_eq!(flat.len(), 6);
    assert!(flat.iter().all(|e| e.club == "C" && e.crew == "a1"));
}

#[test]
fn query_gives_one_line_for_each_year() {
    let lines = query(&table(), "a1", 1989, 1993).unwrap();
    assert_eq!(
        lines,
        vec![
            YearLine { year: 1989, positions: None },
            YearLine { year: 1990, positions: Some(vec![5, 6, 0]) },
            YearLine { year: 1991, positions: None },
            YearLine { year: 1992, positions: Some(vec![7, 0, 0]) },
            YearLine { year: 1993, positions: None },
        ]
    );
}

#[test]
fn query_for_one_year() {
    assert_eq!(
        query(&table(), "b1", 1991, 1991),
        Ok(vec![YearLine { year: 1991, positions: Some(vec![9, 8, 1]) }])
    );
}

#[test]
fn query_of_a_crew_that_did_not_compete_has_lines_without_positions() {
    assert_eq!(
        query(&table(), "a2", 1990, 1991),
        Ok(vec![
            YearLine { year: 1990, positions: None },
            YearLine { year: 1991, positions: None },
        ])
    );
}

#[test]
fn query_of_an_unknown_crew_fails() {
    assert_eq!(query(&table(), "nobody", 1990, 1991), Err(QueryError::CrewNotFound));
    assert_eq!(query(&table(), "A1", 1990, 1991), Err(QueryError::CrewNotFound));
}

#[test]
fn query_of_an_empty_range_has_no_lines() {
    assert_eq!(query(&table(), "a1", 1991, 1990), Ok(vec![]));
}

#[test]
fn query_up_to_the_greatest_year() {
    let lines = query(&table(), "a1", u16::MAX - 1, u16::MAX).unwrap();
    assert_eq!(lines.len(), 2);
    assert_eq!(lines[1], YearLine { year: u16::MAX, positions: None });
}
