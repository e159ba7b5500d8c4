use pipebuffer::size::parse_memory;

#[test]
fn parses_megabytes() {
    assert_eq!(parse_memory("256m"), Some(268435456));
}

#[test]
fn parses_gigabytes() {
    assert_eq!(parse_memory("2g"), Some(2147483648));
}

#[test]
fn accepts_plain_number() {
    assert_eq!(parse_memory("10"), Some(10));
}

#[test]
fn rejects_letters() {
    assert_eq!(parse_memory("abc"), None);
}

#[test]
fn accepts_every_unit_in_either_case() {
    assert_eq!(parse_memory("3k"), Some(3 * 1024));
    assert_eq!(parse_memory("3KB"), Some(3 * 1024));
    assert_eq!(parse_memory("1Mb"), Some(1 << 20));
    assert_eq!(parse_memory("1gB"), Some(1 << 30));
    assert_eq!(parse_memory("1p"), Some(1 << 40));
    assert_eq!(parse_memory("5PB"), Some(5 << 40));
}

#[test]
fn rejects_malformed_sizes() {
    assert_eq!(parse_memory(""), None);
    assert_eq!(parse_memory("k"), None);
    assert_eq!(parse_memory("kb"), None);
    assert_eq!(parse_memory("10b"), None);
    assert_eq!(parse_memory("10x"), None);
    assert_eq!(parse_memory("10kbb"), None);
    assert_eq!(parse_memory("1k0"), None);
    assert_eq!(parse_memory("-1"), None);
    assert_eq!(parse_memory(" 1k"), None);
}

#[test]
fn rejects_zero() {
    assert_eq!(parse_memory("0"), None);
    assert_eq!(parse_memory("0m"), None);
}

#[test]
fn rejects_sizes_that_do_not_fit() {
    assert_eq!(parse_memory("18446744073709551615"), Some(usize::MAX));
    assert_eq!(parse_memory("18446744073709551616"), None);
    assert_eq!(parse_memory("99999999999999999999999k"), None);
    assert_eq!(parse_memory("16777216p"), None);
    assert_eq!(parse_memory("16777215p"), Some(16777215 << 40));
}
