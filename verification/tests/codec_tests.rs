use review_index::codec::{encode_line, parse_line, split_at, unescape};
use review_index::record::Record;

fn rec(title: &[u8], body: &[u8], product_id: &[u8], rating: u8) -> Record {
    Record { title: title.to_vec(), body: body.to_vec(), product_id: product_id.to_vec(), rating }
}

#[test]
fn plain_record_has_expected_line_bytes() {
    let r = rec(b"Great phone", b"Battery lasts long", b"P001", 5);
    let line = encode_line(&r);
    assert_eq!(line, b"Great phone\tBattery lasts long\tP001\t5".to_vec());
}

#[test]
fn framing_bytes_in_fields_are_escaped() {
    let r = rec(b"a\tb", b"c\nd", b"e\\f", 3);
    let line = encode_line(&r);
    assert_eq!(line, b"a\\tb\tc\\nd\te\\\\f\t3".to_vec());
    assert!(!line.contains(&b'\n'));
}

#[test]
fn round_trip_preserves_every_field() {
    let cases = vec![
        rec(b"Great phone", b"Battery lasts long", b"P001", 5),
        rec(b"", b"", b"", 1),
        rec(b"tabs\tand\nnewlines\\everywhere", b"\t\n\\", b"P\t2", 2),
        rec(b"unicode \xc3\xa9\xc3\xa0", b"\xf0\x9f\x98\x80", b"P003", 4),
    ];
    for r in cases {
        let line = encode_line(&r);
        let back = parse_line(&line).expect("encoded line must parse");
        assert_eq!(back, r);
    }
}

#[test]
fn garbage_lines_are_malformed() {
    assert!(parse_line(&b"complete nonsense".to_vec()).is_err());
    assert!(parse_line(&b"".to_vec()).is_err());
    assert!(parse_line(&b"a\tb\tc".to_vec()).is_err());
    assert!(parse_line(&b"a\tb\tc\td\te".to_vec()).is_err());
}

#[test]
fn bad_rating_digit_is_malformed() {
    assert!(parse_line(&b"t\tb\tp\t0".to_vec()).is_err());
    assert!(parse_line(&b"t\tb\tp\t6".to_vec()).is_err());
    assert!(parse_line(&b"t\tb\tp\t12".to_vec()).is_err());
    assert!(parse_line(&b"t\tb\tp\tx".to_vec()).is_err());
    assert!(parse_line(&b"t\tb\tp\t".to_vec()).is_err());
    assert!(parse_line(&b"t\tb\tp\t3".to_vec()).is_ok());
}

#[test]
fn dangling_or_unknown_escapes_are_malformed() {
    assert!(unescape(&b"ok\\".to_vec()).is_err());
    assert!(unescape(&b"bad\\x".to_vec()).is_err());
    assert_eq!(unescape(&b"a\\tb".to_vec()).unwrap(), b"a\tb".to_vec());
    assert_eq!(unescape(&b"a\\nb".to_vec()).unwrap(), b"a\nb".to_vec());
    assert_eq!(unescape(&b"a\\\\b".to_vec()).unwrap(), b"a\\b".to_vec());
    assert!(parse_line(&b"bad\\x\tb\tp\t3".to_vec()).is_err());
}

#[test]
fn split_keeps_empty_parts() {
    let parts = split_at(&b"a\t\tb".to_vec(), b'\t');
    assert_eq!(parts, vec![b"a".to_vec(), b"".to_vec(), b"b".to_vec()]);
    let parts = split_at(&b"".to_vec(), b'\t');
    assert_eq!(parts, vec![b"".to_vec()]);
}
