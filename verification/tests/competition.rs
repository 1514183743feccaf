use bumps::competition::Competition;

const ALL: [Competition; 5] = [
    Competition::Early,
    Competition::MenMays,
    Competition::WomenMays,
    Competition::MenLents,
    Competition::WomenLents,
];

#[test]
fn numbers_follow_the_order_of_declaration() {
    let codes: Vec<i32> = ALL.iter().map(|c| c.to_i32()).collect();
    assert_eq!(codes, vec![0, 1, 2, 3, 4]);
}

#[test]
fn competition_is_found_again_under_its_number() {
    for competition in ALL {
        assert_eq!(Competition::from_i32(competition.to_i32()), Some(competition));
    }
}

#[test]
fn unknown_number_is_no_competition() {
    assert_eq!(Competition::from_i32(5), None);
    assert_eq!(Competition::from_i32(-1), None);
    assert_eq!(Competition::from_i32(i32::MAX), None);
    assert_eq!(Competition::from_i32(i32::MIN), None);
}

#[test]
fn names_in_data_files() {
    let names: Vec<&str> = ALL.iter().map(|c| c.raw_name()).collect();
    assert_eq!(names, vec!["early", "mays", "wmays", "lents", "wlents"]);
}

#[test]
fn names_of_chart_directories() {
    let names: Vec<&str> = ALL.iter().map(|c| c.charts_name()).collect();
    assert_eq!(names, vec!["Early", "Mays", "WMays", "Lents", "WLents"]);
}

#[test]
fn descriptions() {
    let shown: Vec<String> = ALL.iter().map(|c| c.to_string()).collect();
    assert_eq!(
        shown,
        vec![
            "early bumps",
            "men's may bumps",
            "women's may bumps",
            "men's may bumps",
            "women's may bumps",
        ]
    );
}
