use rift::text::{chars_of, is_space, parse_u16, string_from_chars};

#[test]
fn is_space_agrees_with_std_on_every_char() {
    for u in 0u32..=0x10ffff {
        if let Some(c) = char::from_u32(u) {
            assert_eq!(is_space(c), c.is_whitespace(), "U+{u:04X}");
        }
    }
}

#[test]
fn parse_u16_agrees_with_std() {
    let cases = [
        "", "+", "-", "0", "+0", "00200", "65535", "65536", "99999999999", "-1", "1a", " 1", "+-1",
        "\u{665}",
    ];
    for s in cases {
        let got = parse_u16(&chars_of(s));
        let want = s.parse::<u16>().ok();
        assert_eq!(got, want, "{s:?}");
    }
}

#[test]
fn chars_round_trip_through_strings() {
    let s = "h\u{e9}llo \u{1f600}";
    let cs = chars_of(s);
    assert_eq!(cs.len(), 7);
    assert_eq!(string_from_chars(&cs), s);
}
