use cargo_grime_cremator::text::{
    chars_of, read_digits, read_u32, same_text, split_at_each, string_of, text_not_after,
    trim_range, white, IntError,
};
use cargo_grime_cremator::version::app_version;

#[test]
fn white_space_is_that_of_unicode() {
    for n in 0..=0x10ffff_u32 {
        if let Some(c) = char::from_u32(n) {
            assert_eq!(white(c), c.is_whitespace(), "{:x}", n);
        }
    }
}

#[test]
fn trimming_agrees_with_the_standard_library() {
    for s in ["", " ", "a", " a b ", "\t\u{3000}x y\u{85}\n", "\u{200b} a"] {
        let v = chars_of(s);
        let t = trim_range(&v, 0, v.len());
        assert_eq!(string_of(&t, 0, t.len()), s.trim());
    }
}

#[test]
fn splitting_agrees_with_the_standard_library() {
    for s in ["", "-", "a-b", "2025-02-21", "--a--", "abc"] {
        let parts: Vec<String> = split_at_each(&chars_of(s), '-')
            .iter()
            .map(|p| string_of(p, 0, p.len()))
            .collect();
        let expected: Vec<String> = s.split('-').map(|p| p.to_string()).collect();
        assert_eq!(parts, expected);
    }
}

#[test]
fn numbers_read_as_the_standard_library_reads_them() {
    for s in [
        "", "0", "007", "+5", "-5", "+", "-", "4294967295", "4294967296", "12a", "99999999999x", "1 2",
        "\u{661}",
    ] {
        let ours = read_u32(&chars_of(s));
        match s.parse::<u32>() {
            Ok(n) => assert_eq!(ours, Ok(n), "{:?}", s),
            Err(e) => {
                let kind = match ours {
                    Err(IntError::Empty) => "Empty",
                    Err(IntError::InvalidDigit) => "InvalidDigit",
                    Err(IntError::PosOverflow) => "PosOverflow",
                    Ok(_) => "Ok",
                };
                assert_eq!(format!("{:?}", e.kind()), kind, "{:?}", s);
            }
        }
    }
    let v = chars_of("18446744073709551615");
    assert_eq!(read_digits(&v, 0, v.len(), u64::MAX), Ok(u64::MAX));
    let v = chars_of("18446744073709551616");
    assert_eq!(
        read_digits(&v, 0, v.len(), u64::MAX),
        Err(IntError::PosOverflow)
    );
}

#[test]
fn texts_are_ordered_as_strings_are() {
    let all = ["", "a", "ab", "b", "bin", "lib", "Z", "\u{e9}", "\u{ffff}", "\u{10000}"];
    for a in all {
        for b in all {
            assert_eq!(text_not_after(&chars_of(a), &chars_of(b)), a <= b);
            assert_eq!(same_text(a, b), a == b);
        }
    }
}

#[test]
fn version_comes_from_the_checkout() {
    assert_eq!(
        app_version(Some("v1.0.0-5-g6d8283d\n"), Some("0.1.0")),
        "1.0.0-5-6d8283d"
    );
    assert_eq!(app_version(Some("v1.0.0"), None), "1.0.0");
    assert_eq!(app_version(Some("2.0-gg--g-"), None), "2.0-g---");
    assert_eq!(app_version(None, Some("0.1.0")), "0.1.0");
    assert_eq!(app_version(None, None), "unknown");
}
