use lowprint_tcp_proxy::text::{char_is_whitespace, decimal_string, trim, trims_to_empty};

#[test]
fn whitespace_agrees_with_std_for_every_char() {
    for v in 0u32..=0x10ffff {
        if let Some(c) = char::from_u32(v) {
            assert_eq!(char_is_whitespace(c), c.is_whitespace(), "char {:#x}", v);
        }
    }
}

#[test]
fn trim_agrees_with_std() {
    let samples = [
        "",
        " ",
        "abc",
        "  abc  ",
        "\t\r\n abc def \u{3000}",
        "\u{85}x\u{a0}",
        "\u{2000}\u{200a}",
        "é ü",
        " \u{1680}mixed\u{202f} \u{205f}",
    ];
    for s in samples {
        assert_eq!(trim(s), s.trim(), "{:?}", s);
        assert_eq!(trims_to_empty(s), s.trim().is_empty(), "{:?}", s);
    }
}

#[test]
fn decimal_text_of_numbers() {
    for v in [0u64, 7, 10, 99, 443, 8080, 65535, u64::MAX] {
        assert_eq!(decimal_string(v), v.to_string());
    }
}
