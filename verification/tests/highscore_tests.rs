use snake_core::{encode_highscore, parse_highscore};

#[test]
fn parse_plain_number() {
    assert_eq!(parse_highscore(b"7"), Some(7));
    assert_eq!(parse_highscore(b"42"), Some(42));
    assert_eq!(parse_highscore(b"007"), Some(7));
    assert_eq!(parse_highscore(b"0"), Some(0));
}

#[test]
fn parse_trims_whitespace() {
    assert_eq!(parse_highscore(b"  42\n"), Some(42));
    assert_eq!(parse_highscore(b"\t13\r\n"), Some(13));
    assert_eq!(parse_highscore(b" 0 "), Some(0));
}

#[test]
fn parse_rejects_garbage() {
    assert_eq!(parse_highscore(b""), None);
    assert_eq!(parse_highscore(b"   "), None);
    assert_eq!(parse_highscore(b"abc"), None);
    assert_eq!(parse_highscore(b"-3"), None);
    assert_eq!(parse_highscore(b"4 2"), None);
    assert_eq!(parse_highscore(b"12a"), None);
}

#[test]
fn parse_respects_integer_limit() {
    assert_eq!(parse_highscore(b"2147483647"), Some(i32::MAX));
    assert_eq!(parse_highscore(b"2147483648"), None);
    assert_eq!(parse_highscore(b"99999999999999999999"), None);
}

#[test]
fn encode_gives_decimal_text() {
    assert_eq!(encode_highscore(0), b"0".to_vec());
    assert_eq!(encode_highscore(7), b"7".to_vec());
    assert_eq!(encode_highscore(5007), b"5007".to_vec());
    assert_eq!(encode_highscore(i32::MAX), b"2147483647".to_vec());
}

#[test]
fn encode_then_parse_round_trips() {
    for n in [0, 1, 9, 10, 99, 100, 4096, 123456789, i32::MAX] {
        assert_eq!(parse_highscore(&encode_highscore(n)), Some(n));
    }
}
