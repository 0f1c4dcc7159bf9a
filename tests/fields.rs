use hatanaka::fields::{format_fixed, parse_int, parse_reinit, trimmed};

#[test]
fn integer_tokens() {
    assert_eq!(parse_int(b"123"), Some(123));
    assert_eq!(parse_int(b"-45"), Some(-45));
    assert_eq!(parse_int(b"+7"), Some(7));
    assert_eq!(parse_int(b"0"), Some(0));
    assert_eq!(parse_int(b""), None);
    assert_eq!(parse_int(b"-"), None);
    assert_eq!(parse_int(b"12a"), None);
    assert_eq!(parse_int(b" 12"), None);
    assert_eq!(parse_int(b"9223372036854775807"), Some(i64::MAX));
    assert_eq!(parse_int(b"9223372036854775808"), None);
    assert_eq!(parse_int(b"-9223372036854775808"), Some(i64::MIN));
    assert_eq!(parse_int(b"-9223372036854775809"), None);
    assert_eq!(parse_int(b"123456789012345678901234567890"), None);
}

#[test]
fn reinit_tokens() {
    assert_eq!(parse_reinit(b"3&1520"), Some((3, 1520)));
    assert_eq!(parse_reinit(b"3&-1459"), Some((3, -1459)));
    assert_eq!(parse_reinit(b"0&7"), Some((0, 7)));
    assert_eq!(parse_reinit(b"&5"), None);
    assert_eq!(parse_reinit(b"3&"), None);
    assert_eq!(parse_reinit(b"35"), None);
    assert_eq!(parse_reinit(b"x&5"), None);
}

#[test]
fn fixed_point_text() {
    assert_eq!(format_fixed(20832393682, 3, 14), b"  20832393.682".to_vec());
    assert_eq!(format_fixed(109474991854, 3, 14), b" 109474991.854".to_vec());
    assert_eq!(format_fixed(-5, 3, 14), b"        -0.005".to_vec());
    assert_eq!(format_fixed(-1635689, 3, 14), b"     -1635.689".to_vec());
    assert_eq!(format_fixed(0, 12, 15), b" 0.000000000000".to_vec());
    assert_eq!(format_fixed(1520, 12, 15), b" 0.000000001520".to_vec());
    assert_eq!(format_fixed(-1459, 9, 12), b"-0.000001459".to_vec());
    assert_eq!(format_fixed(i64::MIN, 3, 14), b"-9223372036854775.808".to_vec());
    assert_eq!(format_fixed(49500, 3, 0), b"49.500".to_vec());
}

#[test]
fn blank_trimming() {
    assert_eq!(trimmed(b"  3&0  "), b"3&0".to_vec());
    assert_eq!(trimmed(b"   "), Vec::<u8>::new());
    assert_eq!(trimmed(b"0"), b"0".to_vec());
}
