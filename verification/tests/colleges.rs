use bumps::colleges::{Clubs, ClubsError};

fn names(clubs: &Clubs) -> Vec<String> {
    clubs.clubs().iter().map(|c| c.name().clone()).collect()
}

fn aliases(clubs: &Clubs) -> Vec<String> {
    clubs.crews().iter().map(|c| c.alias.clone()).collect()
}

#[test]
fn one_club_with_one_crew() {
    let clubs = Clubs::from_file("[Test]\n1\t2\t3\nTest 1\ttest1\n\n").unwrap();
    assert_eq!(clubs.clubs().len(), 1);
    let club = &clubs.clubs()[0];
    assert_eq!(club.name(), "Test");
    assert_eq!(club.colour(), (1, 2, 3));
    assert_eq!(club.crews().len(), 1);
    assert_eq!(club.crews()[0].name, "Test 1");
    assert_eq!(club.crews()[0].alias, "test1");
}

#[test]
fn final_line_feed_closes_the_last_group() {
    let clubs = Clubs::from_file("[Test]\n1\t2\t3\nTest 1\ttest1\n").unwrap();
    assert_eq!(names(&clubs), vec!["Test"]);
}

#[test]
fn group_without_a_closing_empty_line_is_left_out() {
    let clubs = Clubs::from_file("[A]\n1\t2\t3\nA 1\ta1\n\n[B]\n4\t5\t6\nB 1\tb1").unwrap();
    assert_eq!(names(&clubs), vec!["A"]);
    assert_eq!(aliases(&clubs), vec!["a1"]);
}

#[test]
fn crews_are_flattened_in_file_order() {
    let text = "[A]\n1\t2\t3\nA 1\ta1\nA 2\ta2\n\n[B]\n0\t0\t0\n\n[C]\n9\t9\t9\nC 1\tc1\n\n";
    let clubs = Clubs::from_file(text).unwrap();
    assert_eq!(names(&clubs), vec!["A", "B", "C"]);
    assert_eq!(aliases(&clubs), vec!["a1", "a2", "c1"]);
    assert_eq!(clubs.clubs()[1].crews().len(), 0);
}

#[test]
fn comments_are_ignored_anywhere() {
    let text = "! head\n[A]\n!\tnot a colour\n1\t2\t3\n  ! not\ta crew\nA 1\ta1\n\n";
    let clubs = Clubs::from_file(text).unwrap();
    assert_eq!(clubs.clubs()[0].colour(), (1, 2, 3));
    assert_eq!(aliases(&clubs), vec!["a1"]);
}

#[test]
fn lines_and_fields_are_trimmed() {
    let text = "  [ The Club ]\r\n\t10\t20\t30 \r\n  Long  Name \t  short \r\n\r\n";
    let clubs = Clubs::from_file(text).unwrap();
    let club = &clubs.clubs()[0];
    assert_eq!(club.name(), " The Club ");
    assert_eq!(club.colour(), (10, 20, 30));
    assert_eq!(club.crews()[0].name, "Long  Name");
    assert_eq!(club.crews()[0].alias, "short");
}

#[test]
fn crew_line_is_cut_at_its_last_tab() {
    let clubs = Clubs::from_file("[A]\n1\t2\t3\nA\tB\tc\nno tab here\n\n").unwrap();
    let crews = clubs.crews();
    assert_eq!(crews.len(), 1);
    assert_eq!(crews[0].name, "A\tB");
    assert_eq!(crews[0].alias, "c");
}

#[test]
fn group_without_name_or_without_colour_is_dropped() {
    let clubs = Clubs::from_file("1\t2\t3\nA 1\ta1\n\n[B]\n\n[C]\n7\t8\t9\n\n").unwrap();
    assert_eq!(names(&clubs), vec!["C"]);
    assert_eq!(clubs.crews().len(), 0);
}

#[test]
fn later_heading_renames_the_open_group() {
    let clubs = Clubs::from_file("[A]\n1\t2\t3\nA 1\ta1\n[B]\nB 1\tb1\n\n").unwrap();
    assert_eq!(names(&clubs), vec!["B"]);
    assert_eq!(aliases(&clubs), vec!["a1", "b1"]);
}

#[test]
fn empty_brackets_are_an_empty_name() {
    let clubs = Clubs::from_file("[]\n1\t2\t3\n\n").unwrap();
    assert_eq!(names(&clubs), vec![""]);
}

#[test]
fn extra_colour_fields_are_ignored_if_they_are_numbers() {
    let clubs = Clubs::from_file("[A]\n1\t2\t3\t4\n\n").unwrap();
    assert_eq!(clubs.clubs()[0].colour(), (1, 2, 3));
    assert!(matches!(Clubs::from_file("[A]\n1\t2\t3\tx\n\n"), Err(ClubsError::InvalidColour)));
}

#[test]
fn colour_that_is_no_number_is_refused() {
    assert!(matches!(Clubs::from_file("[A]\nred\t2\t3\n\n"), Err(ClubsError::InvalidColour)));
    assert!(matches!(Clubs::from_file("[A]\n1 2 3\n\n"), Err(ClubsError::InvalidColour)));
    assert!(matches!(Clubs::from_file("[A]\n1\t\t3\n\n"), Err(ClubsError::InvalidColour)));
}

#[test]
fn colour_out_of_range_is_refused() {
    assert!(matches!(Clubs::from_file("[A]\n1\t256\t3\n\n"), Err(ClubsError::InvalidColour)));
    assert!(matches!(Clubs::from_file("[A]\n-1\t2\t3\n\n"), Err(ClubsError::InvalidColour)));
    let clubs = Clubs::from_file("[A]\n0\t255\t+7\n\n").unwrap();
    assert_eq!(clubs.clubs()[0].colour(), (0, 255, 7));
}

#[test]
fn colour_with_fewer_than_three_fields_is_refused() {
    assert!(matches!(Clubs::from_file("[A]\n1\t2\n\n"), Err(ClubsError::InvalidColour)));
}

#[test]
fn empty_file_has_no_clubs() {
    let clubs = Clubs::from_file("").unwrap();
    assert_eq!(clubs.clubs().len(), 0);
    assert_eq!(clubs.crews().len(), 0);
}
