use bumps::text::{chars_of, find, is_whitespace, parse_all, parse_u8, rfind, split_at, trim};

fn chars(s: &str) -> Vec<char> {
    s.chars().collect()
}

fn text(c: &[char]) -> String {
    c.iter().collect()
}

#[test]
fn chars_of_gives_every_character() {
    assert_eq!(chars_of("a\u{e9}\u{1F600}z"), vec!['a', '\u{e9}', '\u{1F600}', 'z']);
    assert_eq!(chars_of(""), Vec::<char>::new());
}

#[test]
fn whitespace_is_what_std_calls_whitespace() {
    for code in 0u32..=0x3100 {
        if let Some(c) = char::from_u32(code) {
            assert_eq!(is_whitespace(c), c.is_whitespace(), "U+{:04X}", code);
        }
    }
    assert!(!is_whitespace('\u{FEFF}'));
    assert!(!is_whitespace('\u{10FFFF}'));
}

#[test]
fn trim_agrees_with_std() {
    for s in ["", " ", "a", "  a b  ", "\t\r\n x\u{a0}", "\u{3000}y\u{2003}", " \u{b} ", "x \n"] {
        assert_eq!(text(trim(&chars(s))), s.trim(), "{:?}", s);
    }
}

#[test]
fn split_agrees_with_std() {
    for s in ["", ",", "a", "a,b", ",a,,b,", ",,", "a\tb"] {
        let ours: Vec<String> = split_at(&chars(s), ',').iter().map(|p| text(p)).collect();
        let theirs: Vec<String> = s.split(',').map(String::from).collect();
        assert_eq!(ours, theirs, "{:?}", s);
    }
}

#[test]
fn parse_u8_agrees_with_std() {
    let cases = [
        "", "0", "7", "007", "255", "256", "0256", "999", "1000", "+", "+0", "+255", "+256", "-0",
        "-1", "++1", "1+", " 1", "1 ", "1a", "a", "١", "4294967296", "00000000000000000012",
        "99999999999999999999999",
    ];
    for s in cases {
        assert_eq!(parse_u8(&chars(s)), s.parse::<u8>().ok(), "{:?}", s);
    }
}

#[test]
fn parse_all_gives_every_byte_or_none() {
    let fields: Vec<Vec<char>> = ["1", "20", "255"].iter().map(|s| chars(s)).collect();
    let refs: Vec<&[char]> = fields.iter().map(|f| f.as_slice()).collect();
    assert_eq!(parse_all(&refs), Some(vec![1, 20, 255]));
    let bad: Vec<Vec<char>> = ["1", "x", "3"].iter().map(|s| chars(s)).collect();
    let refs: Vec<&[char]> = bad.iter().map(|f| f.as_slice()).collect();
    assert_eq!(parse_all(&refs), None);
    assert_eq!(parse_all(&vec![]), Some(vec![]));
}

#[test]
fn find_gives_first_and_rfind_last_place() {
    let line = chars("a\tb\tc");
    assert_eq!(find(&line, '\t'), Some(1));
    assert_eq!(rfind(&line, '\t'), Some(3));
    assert_eq!(find(&line, 'c'), Some(4));
    assert_eq!(rfind(&line, 'a'), Some(0));
    assert_eq!(find(&line, 'x'), None);
    assert_eq!(rfind(&line, 'x'), None);
    assert_eq!(find(&[], 'x'), None);
}
