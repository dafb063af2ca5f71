use mmaccel::text::{bstr, collect_chars, parse_hex_u32, parse_u32_digits, to_lowercase_ascii, to_wchar};

#[test]
fn wide_strings_are_utf16_with_terminator() {
    assert_eq!(to_wchar("AB"), vec![0x41, 0x42, 0]);
    assert_eq!(to_wchar(""), vec![0]);
    // A character outside the basic plane becomes a surrogate pair.
    assert_eq!(to_wchar("\u{1D11E}"), vec![0xD834, 0xDD1E, 0]);
    // A Japanese label encodes one unit per character.
    assert_eq!(to_wchar("\u{30AD}\u{30FC}"), vec![0x30AD, 0x30FC, 0]);
}

#[test]
fn byte_strings_gain_a_terminator() {
    assert_eq!(bstr(&[1, 2, 3]), vec![1, 2, 3, 0]);
    assert_eq!(bstr(&[]), vec![0]);
}

#[test]
fn hex_parsing_matches_the_standard_parse() {
    let cs = collect_chars("1f4");
    assert_eq!(parse_hex_u32(&cs, 0, cs.len()), Some(0x1F4));
    let cs = collect_chars("+FFffFFff");
    assert_eq!(parse_hex_u32(&cs, 0, cs.len()), Some(0xFFFF_FFFF));
    let cs = collect_chars("100000000");
    assert_eq!(parse_hex_u32(&cs, 0, cs.len()), None);
    let cs = collect_chars("+");
    assert_eq!(parse_hex_u32(&cs, 0, cs.len()), None);
    let cs = collect_chars("1g");
    assert_eq!(parse_hex_u32(&cs, 0, cs.len()), None);
    let cs = collect_chars("");
    assert_eq!(parse_hex_u32(&cs, 0, cs.len()), None);
}

#[test]
fn decimal_parsing_matches_the_standard_parse() {
    let cs = collect_chars("4294967295");
    assert_eq!(parse_u32_digits(&cs, 0, cs.len()), Some(4294967295));
    let cs = collect_chars("4294967296");
    assert_eq!(parse_u32_digits(&cs, 0, cs.len()), None);
    let cs = collect_chars("007");
    assert_eq!(parse_u32_digits(&cs, 0, cs.len()), Some(7));
    let cs = collect_chars("12a");
    assert_eq!(parse_u32_digits(&cs, 0, cs.len()), None);
}

#[test]
fn ascii_lowercasing_leaves_other_text_alone() {
    assert_eq!(to_lowercase_ascii("Ctrl+Z"), "ctrl+z");
    assert_eq!(to_lowercase_ascii("\u{30AD}A\u{30FC}"), "\u{30AD}a\u{30FC}");
    assert_eq!(to_lowercase_ascii(""), "");
}
