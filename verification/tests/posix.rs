use shell_escape::posix;

fn check(input: &[u8], expected: &[u8]) {
    let v: Vec<u8> = input.to_vec();
    let out = posix::escape(&v);
    assert_eq!(out, expected.to_vec());
}

#[test]
fn test_escape() {
    check(b"", b"''");
    check(b" ", b"' '");
    check(b"*", b"'*'");

    check(b"--aaa=bbb-ccc", b"--aaa=bbb-ccc");
    check(br#"--features="default""#, br#"'--features="default"'"#);
    check(b"linker=gcc -L/foo -Wl,bar", br#"'linker=gcc -L/foo -Wl,bar'"#);

    check(
        b"abcdefghijklmnopqrstuvwxyzABCDEFGHIJKLMNOPQRSTUVWXYZ0123456789-_=/,.+",
        b"abcdefghijklmnopqrstuvwxyzABCDEFGHIJKLMNOPQRSTUVWXYZ0123456789-_=/,.+",
    );
    check(br#"'!\$`\\\n "#, br#"''\'''\!'\$`\\\n '"#);

    check(&[0x66, 0x6f, 0x80, 0x6f], &[b'\'', 0x66, 0x6f, 0x80, 0x6f, b'\'']);
}

#[test]
fn test_escape_apostrophe() {
    check(b"it's", br#"'it'\''s'"#);
}

#[test]
fn test_escape_bang() {
    check(b"hello!", br#"'hello'\!''"#);
}

#[test]
fn test_identity_implies_allowed() {
    // when escaping returns the input unchanged, every byte is allowed
    let input: Vec<u8> = b"--aaa=bbb-ccc".to_vec();
    let out = posix::escape(&input);
    assert_eq!(out, input);
    assert!(!input.is_empty());
    for &b in &input {
        assert!(posix::allowed(b));
    }
}

#[test]
fn test_posix_round_trip() {
    // tokenizing the escaped form yields back exactly the original bytes
    let cases: Vec<&[u8]> = vec![
        b"",
        b" ",
        b"--aaa=bbb-ccc",
        b"it's",
        br#"--features="default""#,
        br#"'!\$`\\\n "#,
        &[0x66, 0x6f, 0x80, 0x6f],
    ];
    for input in cases {
        let v: Vec<u8> = input.to_vec();
        let escaped = posix::escape(&v);
        assert_eq!(posix::unquote(&escaped), Some(v));
    }
}

#[test]
fn test_high_bit_byte_forces_quoting() {
    // a byte with no valid UTF-8 interpretation is quoted and kept verbatim
    assert!(!posix::allowed(0xff));
    check(&[0xff], &[b'\'', 0xff, b'\'']);
}
