use shell_escape::windows;

fn w(s: &str) -> Vec<u16> {
    s.encode_utf16().collect()
}

fn check_str(input: &str, expected: &str) {
    let out = windows::escape(&w(input));
    assert_eq!(out, w(expected));
}

fn check_units(input: &[u16], expected: &[u16]) {
    let out = windows::escape(&input.to_vec());
    assert_eq!(out, expected.to_vec());
}

#[test]
fn escape_test_escape() {
    check_str("", r#""""#);
    check_str(r#""""#, r#""\"\"""#);

    check_str("--aaa=bbb-ccc", "--aaa=bbb-ccc");
    check_str(r#"\path\to\my documents\"#, r#""\path\to\my documents\\""#);

    check_str(r#"--features="default""#, r#""--features=\"default\"""#);
    check_str(r#""--features=\"default\"""#, r#""\"--features=\\\"default\\\"\"""#);
    check_str("linker=gcc -L/foo -Wl,bar", r#""linker=gcc -L/foo -Wl,bar""#);

    check_units(
        &[0x1055, 0x006e, 0x0069, 0x0063, 0x006f, 0x0064, 0x0065],
        &[0x1055, 0x006e, 0x0069, 0x0063, 0x006f, 0x0064, 0x0065],
    );
    check_units(&[0xd801, 0x006e, 0x0069, 0x0063, 0x006f, 0x0064, 0x0065], &[
        b'"' as u16,
        0xd801,
        0x006e,
        0x0069,
        0x0063,
        0x006f,
        0x0064,
        0x0065,
        b'"' as u16,
    ]);
}

#[test]
fn test_escape_lone_quote() {
    // a lone quote becomes one escaping backslash plus the quote, wrapped
    check_str(r#"""#, r#""\"""#);
}

#[test]
fn test_escape_backslashes_before_quote() {
    // a run of two backslashes before a quote is doubled, and the quote escaped
    check_str(r#"a\\"b"#, r#""a\\\\\"b""#);
}

#[test]
fn test_identity_implies_not_disallowed() {
    // when escaping returns the input unchanged, no unit is disallowed
    let input = w(r#"\path\to\file"#);
    let out = windows::escape(&input);
    assert_eq!(out, input);
    assert!(!input.is_empty());
    for &u in &input {
        assert!(!windows::disallowed(u));
    }
}

#[test]
fn test_disallowed_units() {
    assert!(windows::disallowed(b' ' as u16));
    assert!(windows::disallowed(b'"' as u16));
    assert!(windows::disallowed(b'\n' as u16));
    assert!(windows::disallowed(b'\t' as u16));
    assert!(windows::disallowed(0xd800));
    assert!(windows::disallowed(0xdfff));
    assert!(!windows::disallowed(b'\\' as u16));
    assert!(!windows::disallowed(b'a' as u16));
    assert!(!windows::disallowed(0x1055));
}

#[test]
fn test_windows_round_trip() {
    // parsing the escaped form yields back exactly the original code units
    let cases: Vec<Vec<u16>> = vec![
        w(""),
        w(r#""""#),
        w("--aaa=bbb-ccc"),
        w(r#"\path\to\my documents\"#),
        w(r#""--features=\"default\"""#),
        w("linker=gcc -L/foo -Wl,bar"),
        vec![0xd801, 0x006e, 0x0069],
    ];
    for input in cases {
        let escaped = windows::escape(&input);
        assert_eq!(windows::unquote(&escaped), Some(input));
    }
}

#[test]
fn test_unpaired_surrogate_forces_quoting() {
    // an unpaired surrogate is quoted and carried through unit-for-unit
    check_units(&[0xdc00], &[b'"' as u16, 0xdc00, b'"' as u16]);
}
