use compartment_rs::numbers::{parse_fixed, parse_i64, parse_u64, render_fixed, render_u64};

#[test]
fn whole_numbers_parse() {
    assert_eq!(parse_u64(&b"0".to_vec()), Some(0));
    assert_eq!(parse_u64(&b"42".to_vec()), Some(42));
    assert_eq!(parse_u64(&b"+42".to_vec()), Some(42));
    assert_eq!(parse_u64(&b"18446744073709551615".to_vec()), Some(u64::MAX));
    assert_eq!(parse_u64(&b"18446744073709551616".to_vec()), None);
    assert_eq!(parse_u64(&b"".to_vec()), None);
    assert_eq!(parse_u64(&b"+".to_vec()), None);
    assert_eq!(parse_u64(&b"-1".to_vec()), None);
    assert_eq!(parse_u64(&b"4 2".to_vec()), None);
    assert_eq!(parse_u64(&b"0042".to_vec()), Some(42));
}

#[test]
fn signed_numbers_parse() {
    assert_eq!(parse_i64(&b"-1".to_vec()), Some(-1));
    assert_eq!(parse_i64(&b"+7".to_vec()), Some(7));
    assert_eq!(parse_i64(&b"9223372036854775807".to_vec()), Some(i64::MAX));
    assert_eq!(parse_i64(&b"-9223372036854775808".to_vec()), Some(i64::MIN));
    assert_eq!(parse_i64(&b"9223372036854775808".to_vec()), None);
    assert_eq!(parse_i64(&b"-9223372036854775809".to_vec()), None);
    assert_eq!(parse_i64(&b"-".to_vec()), None);
    assert_eq!(parse_i64(&b"1.0".to_vec()), None);
}

#[test]
fn positions_parse_as_hundredths() {
    assert_eq!(parse_fixed(&b"0".to_vec()), Some(0));
    assert_eq!(parse_fixed(&b"3".to_vec()), Some(300));
    assert_eq!(parse_fixed(&b"3.5".to_vec()), Some(350));
    assert_eq!(parse_fixed(&b"-2.25".to_vec()), Some(-225));
    assert_eq!(parse_fixed(&b".5".to_vec()), Some(50));
    assert_eq!(parse_fixed(&b"5.".to_vec()), Some(500));
    // Digits past the second decimal place are cut off.
    assert_eq!(parse_fixed(&b"1.239".to_vec()), Some(123));
    assert_eq!(parse_fixed(&b".".to_vec()), None);
    assert_eq!(parse_fixed(&b"-".to_vec()), None);
    assert_eq!(parse_fixed(&b"1.2.3".to_vec()), None);
    assert_eq!(parse_fixed(&b"abc".to_vec()), None);
    assert_eq!(parse_fixed(&b"1e5".to_vec()), None);
    assert_eq!(parse_fixed(&b"10000000000000".to_vec()), Some(1_000_000_000_000_000));
    assert_eq!(parse_fixed(&b"10000000000000.01".to_vec()), None);
}

#[test]
fn numbers_render() {
    assert_eq!(render_u64(0), b"0".to_vec());
    assert_eq!(render_u64(907), b"907".to_vec());
    assert_eq!(render_u64(u64::MAX), b"18446744073709551615".to_vec());
    assert_eq!(render_fixed(0), b"0.00".to_vec());
    assert_eq!(render_fixed(350), b"3.50".to_vec());
    assert_eq!(render_fixed(-225), b"-2.25".to_vec());
    assert_eq!(render_fixed(-5), b"-0.05".to_vec());
    assert_eq!(render_fixed(120), b"1.20".to_vec());
}

#[test]
fn render_then_parse_is_identity() {
    for v in [0i64, 1, -1, 99, -100, 12345, -987654321, 1_000_000_000_000_000] {
        assert_eq!(parse_fixed(&render_fixed(v)), Some(v));
    }
    for n in [0u64, 7, 10, 999999, u64::MAX] {
        assert_eq!(parse_u64(&render_u64(n)), Some(n));
    }
}
