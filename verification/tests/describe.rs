use c2rust_analyze::describe::{
    can_describe, describe_local, describe_span, LocalSource, SourceText,
};

fn place(line: usize, snippet: &str) -> SourceText {
    SourceText { line, snippet: snippet.to_string() }
}

#[test]
fn short_text_is_shown_whole() {
    assert_eq!(describe_span(&place(12, "*p = q")), "12: *p = q");
    assert_eq!(describe_span(&place(0, "")), "0: ");
    assert_eq!(describe_span(&place(1, "12345678901234567890")), "1: 12345678901234567890");
}

#[test]
fn long_text_is_cut_in_the_middle() {
    assert_eq!(
        describe_span(&place(7, "abcdefghijklmnopqrstuvwxyz")),
        "7: abcdefghijklmno ... vwxyz"
    );
    assert_eq!(
        describe_span(&place(8, "123456789012345678901")),
        "8: 123456789012345 ... 78901"
    );
}

#[test]
fn white_space_is_squeezed_before_cutting() {
    assert_eq!(describe_span(&place(3, "  a \n\t b\r\n c  ")), "3: a b c");
    // No ASCII white space: a no-break space stays.
    assert_eq!(describe_span(&place(3, "a\u{a0}b")), "3: a\u{a0}b");
    assert_eq!(describe_span(&place(3, "a\u{b}b")), "3: a\u{b}b");
}

#[test]
fn length_counts_bytes() {
    // Seven characters of three bytes each.
    let text = "\u{20ac}\u{20ac}\u{20ac}\u{20ac}\u{20ac}\u{20ac}\u{20ac}";
    assert!(!can_describe(&place(1, text)));
    // Eleven characters of two bytes each: neither cut falls between characters.
    assert!(!can_describe(&place(1, &"\u{e9}".repeat(11))));
    // An odd start makes the first cut fall between characters, and the end has five bytes.
    let text = format!("a{}12345", "\u{e9}".repeat(9));
    assert!(can_describe(&place(1, &text)));
    assert_eq!(
        describe_span(&place(1, &text)),
        format!("1: a{} ... 12345", "\u{e9}".repeat(7))
    );
    assert!(can_describe(&place(1, "\u{20ac}")));
}

#[test]
fn local_is_described_by_its_pattern() {
    let declared = LocalSource { source: place(1, "let x = 3;"), pattern: None };
    assert_eq!(describe_local(&declared), "1: let x = 3;");
    let bound = LocalSource { source: place(1, "let x = 3;"), pattern: Some(place(2, "x")) };
    assert_eq!(describe_local(&bound), "2: x");
}
