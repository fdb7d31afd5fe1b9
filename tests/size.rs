use service_shell::size::parse_size_bytes;

#[test]
fn plain_integer_is_bytes() {
    assert_eq!(parse_size_bytes("2048"), Some(2048));
    assert_eq!(parse_size_bytes("+7"), Some(7));
    assert_eq!(parse_size_bytes("  4096\t"), Some(4096));
}

#[test]
fn units_in_either_case() {
    assert_eq!(parse_size_bytes("2MB"), Some(2 * 1024 * 1024));
    assert_eq!(parse_size_bytes("64kb"), Some(64 * 1024));
    assert_eq!(parse_size_bytes("64Kb"), Some(64 * 1024));
    assert_eq!(parse_size_bytes(" 512b "), Some(512));
    assert_eq!(parse_size_bytes("12 mb"), Some(12 * 1024 * 1024));
}

#[test]
fn fractions_round_to_nearest_byte() {
    assert_eq!(parse_size_bytes("1.5 mb"), Some(1572864));
    assert_eq!(parse_size_bytes("1.0005kb"), Some(1025));
    assert_eq!(parse_size_bytes("0.5b"), Some(1));
    assert_eq!(parse_size_bytes("0.4b"), Some(0));
    assert_eq!(parse_size_bytes("1.kb"), Some(1024));
    assert_eq!(parse_size_bytes(".5kb"), Some(512));
}

#[test]
fn negative_sizes_are_zero() {
    assert_eq!(parse_size_bytes("-1kb"), Some(0));
    assert_eq!(parse_size_bytes("-0.5mb"), Some(0));
}

#[test]
fn huge_sizes_saturate() {
    assert_eq!(parse_size_bytes("99999999999999999999mb"), Some(usize::MAX));
    assert_eq!(parse_size_bytes("99999999999999999999"), None);
}

#[test]
fn malformed_sizes_are_refused() {
    assert_eq!(parse_size_bytes(""), None);
    assert_eq!(parse_size_bytes("   "), None);
    assert_eq!(parse_size_bytes("abc"), None);
    assert_eq!(parse_size_bytes("kb"), None);
    assert_eq!(parse_size_bytes(".kb"), None);
    assert_eq!(parse_size_bytes("1.2.3kb"), None);
    assert_eq!(parse_size_bytes("12gb"), None);
    assert_eq!(parse_size_bytes("-5"), None);
}

#[test]
fn infinity_saturates_and_nan_is_zero() {
    assert_eq!(parse_size_bytes("infmb"), Some(usize::MAX));
    assert_eq!(parse_size_bytes("INFINITY kb"), Some(usize::MAX));
    assert_eq!(parse_size_bytes("+Infb"), Some(usize::MAX));
    assert_eq!(parse_size_bytes("-infb"), Some(0));
    assert_eq!(parse_size_bytes("nanb"), Some(0));
    assert_eq!(parse_size_bytes("NaNkb"), Some(0));
    assert_eq!(parse_size_bytes("infin kb"), None);
}

#[test]
fn exponents_shift_the_decimal_point() {
    assert_eq!(parse_size_bytes("1e3kb"), Some(1024000));
    assert_eq!(parse_size_bytes("1E3KB"), Some(1024000));
    assert_eq!(parse_size_bytes("1e+2b"), Some(100));
    assert_eq!(parse_size_bytes("2.5e-1kb"), Some(256));
    assert_eq!(parse_size_bytes("1e-3b"), Some(0));
    assert_eq!(parse_size_bytes("5e-1b"), Some(1));
    assert_eq!(parse_size_bytes("1e-0b"), Some(1));
    assert_eq!(parse_size_bytes(".5e1b"), Some(5));
}

#[test]
fn extreme_exponents() {
    assert_eq!(parse_size_bytes("1e400mb"), Some(usize::MAX));
    assert_eq!(parse_size_bytes("1e-400mb"), Some(0));
    assert_eq!(parse_size_bytes("0e999999999999999999999999kb"), Some(0));
    assert_eq!(parse_size_bytes("1e99999999999999999999999999b"), Some(usize::MAX));
    assert_eq!(parse_size_bytes("1e-99999999999999999999999999b"), Some(0));
}

#[test]
fn malformed_exponents_are_refused() {
    assert_eq!(parse_size_bytes("1eb"), None);
    assert_eq!(parse_size_bytes("e3kb"), None);
    assert_eq!(parse_size_bytes("1e3.5kb"), None);
    assert_eq!(parse_size_bytes("1e+b"), None);
}
