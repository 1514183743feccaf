use bumps::decode::{decode, encode, DecodeError, Decoder};

const TWO_LINES: [u8; 7] = [0x01, 0x49, 0x6B, 0x0A, 0x10, 0x51, 0x53];

fn decode_in_chunks(input: &[u8], cuts: &[usize]) -> Vec<u8> {
    let mut decoder = Decoder::new(Some(input[0])).unwrap();
    let mut out = Vec::new();
    let mut from = 1;
    for &cut in cuts {
        out.extend(decoder.read(&input[from..cut]));
        from = cut;
    }
    out.extend(decoder.read(&input[from..]));
    out
}

#[test]
fn empty_source_is_refused() {
    assert!(matches!(Decoder::new(None), Err(DecodeError::EmptyInput)));
    assert_eq!(decode(&[]), Err(DecodeError::EmptyInput));
}

#[test]
fn source_of_one_key_byte_is_empty_text() {
    assert_eq!(decode(&[0x55]), Ok(String::new()));
}

#[test]
fn key_grows_with_every_ciphered_byte_and_restarts_on_each_line() {
    assert_eq!(decode(&TWO_LINES), Ok(String::from("Hi\nAB")));
}

#[test]
fn key_wraps_from_255_to_0() {
    assert_eq!(decode(&[0xFF, 0x9E, 0x62]), Ok(String::from("ab")));
}

#[test]
fn high_bit_is_dropped() {
    assert_eq!(decode(&[0x80, 0xE1]), Ok(String::from("a")));
    assert_eq!(decode(&[0x00, 0xE1, 0xE3]), Ok(String::from("ab")));
}

#[test]
fn control_bytes_pass_and_leave_the_key_alone() {
    assert_eq!(decode(&[0x01, 0x09, 0x49, 0x0D, 0x1E, 0x6B]), Ok(String::from("\tH\r\u{1e}i")));
}

#[test]
fn byte_31_is_ciphered() {
    assert_eq!(decode(&[0x00, 0x1F, 0x62]), Ok(String::from("\u{1f}c")));
}

#[test]
fn carriage_return_before_line_feed() {
    assert_eq!(decode(&[0x01, 0x49, 0x0D, 0x0A, 0x10, 0x51]), Ok(String::from("H\r\nA")));
}

#[test]
fn byte_after_line_feed_is_always_a_key() {
    assert_eq!(decode(&[0x01, 0x0A, 0x0A, 0x0A, 0x0D, 0x49]), Ok(String::from("\n\nD")));
}

#[test]
fn trailing_line_feed_leaves_the_key_open() {
    let mut decoder = Decoder::new(Some(0x01)).unwrap();
    assert_eq!(decoder.read(&[0x49, 0x0A]), vec![b'H', b'\n']);
    assert_eq!(decoder.read(&[]), Vec::<u8>::new());
    assert_eq!(decoder.read(&[0x10]), Vec::<u8>::new());
    assert_eq!(decoder.read(&[0x51, 0x53]), vec![b'A', b'B']);
}

#[test]
fn every_cut_in_two_gives_the_same_bytes() {
    let whole = decode_in_chunks(&TWO_LINES, &[]);
    assert_eq!(whole, b"Hi\nAB".to_vec());
    for cut in 1..=TWO_LINES.len() {
        assert_eq!(decode_in_chunks(&TWO_LINES, &[cut]), whole, "cut at {}", cut);
    }
}

#[test]
fn byte_by_byte_gives_the_same_bytes() {
    let input = encode(b"[Test]\r\n1\t2\t3\r\nTest 1\ttest1\r\n\r\n", 0xC7);
    let cuts: Vec<usize> = (1..input.len()).collect();
    assert_eq!(decode_in_chunks(&input, &cuts), decode_in_chunks(&input, &[]));
    assert_eq!(decode_in_chunks(&input, &[4, 5, 11]), decode_in_chunks(&input, &[]));
}

#[test]
fn encode_puts_the_key_at_the_head_of_every_line() {
    assert_eq!(encode(b"", 0x41), vec![0x41]);
    assert_eq!(encode(b"Hi\nAB", 0x01), vec![0x01, 0x49, 0x6B, 0x0A, 0x01, 0x40, 0x40]);
}

#[test]
fn encode_sets_the_high_bit_where_the_cipher_gives_a_control_byte() {
    assert_eq!(encode(b"H", 0x41), vec![0x41, 0x89]);
    assert_eq!(encode(b"a", 0x61), vec![0x61, 0x80]);
}

#[test]
fn round_trip_gives_the_plain_text_back() {
    let plain = "! comment\n[King's]\n120\t0\t255\nKing's 1\tkings1\n\n\u{7f}~ \t\r\n";
    for key in [0u8, 1, 0x1E, 0x1F, 0x41, 0x7F, 0x80, 0xFE, 0xFF] {
        let cipher = encode(plain.as_bytes(), key);
        assert_eq!(decode(&cipher), Ok(String::from(plain)), "key {}", key);
    }
}

#[test]
fn round_trip_of_every_seven_bit_byte() {
    let plain: Vec<u8> = (0u8..=0x7F).collect();
    let text = String::from_utf8(plain.clone()).unwrap();
    for key in 0u8..=255 {
        assert_eq!(decode(&encode(&plain, key)), Ok(text.clone()));
    }
}
