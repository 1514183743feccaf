use bumps::crew::CrewRecord;
use std::collections::BTreeMap;

fn record() -> CrewRecord {
    let mut years = BTreeMap::new();
    years.insert(1992, vec![3, 0, 0]);
    years.insert(1827, vec![0, 1]);
    years.insert(2001, vec![9]);
    CrewRecord::new(String::from("King's 3"), String::from("kings3"), years)
}

#[test]
fn new_keeps_names_and_years() {
    let record = record();
    assert_eq!(record.name, "King's 3");
    assert_eq!(record.alias, "kings3");
    assert_eq!(record.years.len(), 3);
}

#[test]
fn year_gives_the_stored_bytes() {
    let record = record();
    assert_eq!(record.year(1992), Some(&vec![3, 0, 0]));
    assert_eq!(record.year(1827), Some(&vec![0, 1]));
    assert_eq!(record.year(1993), None);
    assert_eq!(record.year(0), None);
}

#[test]
fn years_come_in_ascending_order() {
    assert_eq!(record().years_in_order(), vec![1827, 1992, 2001]);
    let empty = CrewRecord::new(String::new(), String::new(), BTreeMap::new());
    assert_eq!(empty.years_in_order(), Vec::<u32>::new());
}

#[test]
fn clone_is_equal() {
    let record = record();
    assert_eq!(record.clone(), record);
}
