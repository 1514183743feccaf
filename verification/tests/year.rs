use bumps::year::{Year, YearError};

#[test]
fn days_and_divisions_are_read() {
    let year = Year::from_file("DAYS: 4\nDIVS: 17,17,18\n").unwrap();
    assert_eq!(year.days, 4);
    assert_eq!(year.crews_per_division, vec![17, 17, 18]);
}

#[test]
fn lines_are_trimmed_and_carriage_returns_ignored() {
    let year = Year::from_file("  DAYS: 5\r\nTITLE: May Bumps\r\n\tDIVS: 255  \r\n").unwrap();
    assert_eq!(year, Year { days: 5, crews_per_division: vec![255] });
}

#[test]
fn last_line_of_a_key_wins() {
    let year = Year::from_file("DAYS: 3\nDIVS: 1\nDAYS: 4\nDIVS: 2,3").unwrap();
    assert_eq!(year, Year { days: 4, crews_per_division: vec![2, 3] });
}

#[test]
fn missing_days_is_a_missing_field() {
    assert_eq!(Year::from_file("DIVS: 1,2\n"), Err(YearError::MissingField));
    assert_eq!(Year::from_file(""), Err(YearError::MissingField));
    assert_eq!(Year::from_file("DAYS:\nDIVS: 1\n"), Err(YearError::MissingField));
}

#[test]
fn missing_divisions_is_a_missing_field() {
    assert_eq!(Year::from_file("DAYS: 4\n"), Err(YearError::MissingField));
}

#[test]
fn days_out_of_range_or_not_a_number() {
    assert_eq!(Year::from_file("DAYS: 256\nDIVS: 1\n"), Err(YearError::InvalidInteger));
    assert_eq!(Year::from_file("DAYS: four\nDIVS: 1\n"), Err(YearError::InvalidInteger));
    assert_eq!(Year::from_file("DAYS:  4\nDIVS: 1\n"), Err(YearError::InvalidInteger));
    assert_eq!(Year::from_file("DAYS: -1\nDIVS: 1\n"), Err(YearError::InvalidInteger));
}

#[test]
fn bad_days_are_reported_before_missing_divisions() {
    assert_eq!(Year::from_file("DAYS: x\n"), Err(YearError::InvalidInteger));
}

#[test]
fn bad_division_is_an_invalid_integer() {
    assert_eq!(Year::from_file("DAYS: 4\nDIVS: 1,,2\n"), Err(YearError::InvalidInteger));
    assert_eq!(Year::from_file("DAYS: 4\nDIVS: 1, 2\n"), Err(YearError::InvalidInteger));
    assert_eq!(Year::from_file("DAYS: 4\nDIVS: 1,300\n"), Err(YearError::InvalidInteger));
}

#[test]
fn plus_sign_and_leading_zeros_are_accepted() {
    let year = Year::from_file("DAYS: +4\nDIVS: 007,+0\n").unwrap();
    assert_eq!(year, Year { days: 4, crews_per_division: vec![7, 0] });
}

#[test]
fn keys_are_matched_exactly() {
    assert_eq!(Year::from_file("days: 4\nDIVS: 1\n"), Err(YearError::MissingField));
    assert_eq!(Year::from_file("DAYS 4\nDIVS: 1\n"), Err(YearError::MissingField));
}
