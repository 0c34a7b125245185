use url_counter::codec::encode_item;
use url_counter::codec::parse_sidecar_line;
use url_counter::item::CountItem;

fn record(key: &[u8], cnt: u64) -> Vec<u8> {
    encode_item(&CountItem { key: key.to_vec(), cnt })
}

#[test]
fn encode_is_key_comma_count() {
    assert_eq!(record(b"abc", 42), b"abc,42".to_vec());
    assert_eq!(record(b"x", 0), b"x,0".to_vec());
    assert_eq!(record(b"", 7), b",7".to_vec());
}

#[test]
fn round_trip_plain_key() {
    let r = parse_sidecar_line(&record(b"hello", 12345)).unwrap();
    assert_eq!(r.key, b"hello".to_vec());
    assert_eq!(r.cnt, 12345);
}

#[test]
fn round_trip_key_with_commas() {
    let r = parse_sidecar_line(&record(b"a,b,c", 9)).unwrap();
    assert_eq!(r.key, b"a,b,c".to_vec());
    assert_eq!(r.cnt, 9);
}

#[test]
fn round_trip_largest_count() {
    let r = parse_sidecar_line(&record(b"k", u64::MAX)).unwrap();
    assert_eq!(r.cnt, u64::MAX);
}

#[test]
fn parse_no_separator_is_malformed() {
    assert!(parse_sidecar_line(&b"abc".to_vec()).is_none());
    assert!(parse_sidecar_line(&Vec::new()).is_none());
}

#[test]
fn parse_empty_numeral_is_malformed() {
    assert!(parse_sidecar_line(&b"abc,".to_vec()).is_none());
}

#[test]
fn parse_non_digit_numeral_is_malformed() {
    assert!(parse_sidecar_line(&b"a,12x".to_vec()).is_none());
    assert!(parse_sidecar_line(&b"a,-3".to_vec()).is_none());
}

#[test]
fn parse_overflowing_numeral_is_malformed() {
    assert!(parse_sidecar_line(&b"a,18446744073709551616".to_vec()).is_none());
    assert!(parse_sidecar_line(&b"a,99999999999999999999999".to_vec()).is_none());
}

#[test]
fn parse_takes_last_separator() {
    let r = parse_sidecar_line(&b"a,b,3".to_vec()).unwrap();
    assert_eq!(r.key, b"a,b".to_vec());
    assert_eq!(r.cnt, 3);
}

#[test]
fn parse_accepts_leading_zeros() {
    let r = parse_sidecar_line(&b"k,0042".to_vec()).unwrap();
    assert_eq!(r.cnt, 42);
}
