use espmonitor::line_endings::push_normalized;
use espmonitor::text::{
    is_white_space, parse_hex, push_address, push_decimal, push_hex, starts_with, trim,
};
use espmonitor::utf8_merger::Utf8Merger;

fn chars(text: &str) -> Vec<char> {
    text.chars().collect()
}

#[test]
fn white_space_is_that_of_unicode() {
    for code in 0..=0x10ffffu32 {
        if let Some(c) = std::char::from_u32(code) {
            assert_eq!(is_white_space(c), c.is_whitespace(), "{code:x}");
        }
    }
}

#[test]
fn hexadecimal_numbers() {
    for text in ["0", "+1f", "FFFFFFFF", "0000000000000abc", "", "+", "-1", "g", "1 ", "100000000"] {
        assert_eq!(
            parse_hex(&chars(text), u32::MAX),
            u32::from_str_radix(text, 16).ok(),
            "{text}"
        );
        assert_eq!(
            parse_hex(&chars(text), 0xff),
            u8::from_str_radix(text, 16).ok().map(u32::from),
            "{text}"
        );
    }
}

#[test]
fn numbers_as_text() {
    for value in [0, 9, 10, 15, 16, 0xabc, 0x1000_0000, u64::from(u32::MAX)] {
        let mut text = String::new();
        push_hex(&mut text, value);
        text.push(' ');
        push_decimal(&mut text, value);
        text.push(' ');
        push_address(&mut text, value as u32);
        assert_eq!(text, format!("{value:x} {value} 0x{value:08x}"));
    }
}

#[test]
fn trimming() {
    for text in ["", "  ", "a", " a b\r\n", "\u{3000}x\u{85}", "\u{feff}x"] {
        let line = chars(text);
        let (start, end) = trim(&line);
        let trimmed = line[start..end].iter().collect::<String>();
        assert_eq!(trimmed, text.trim());
    }
}

#[test]
fn prefixes() {
    assert!(starts_with(&chars("load:0x3fff"), "load:0x"));
    assert!(starts_with(&chars(""), ""));
    assert!(!starts_with(&chars("load:"), "load:0x"));
    assert!(!starts_with(&chars("Load:0x"), "load:0x"));
}

#[test]
fn line_feeds_get_a_carriage_return() {
    let mut out = vec![b'>'];
    push_normalized(&mut out, b"a\nb\r\n\n\r\rc\n");
    assert_eq!(out, b">a\r\nb\r\n\r\n\r\rc\r\n");

    // Normalizing twice changes nothing.
    let mut again = Vec::new();
    push_normalized(&mut again, &out);
    assert_eq!(again, out);
}

#[test]
fn invalid_sequences_are_replaced_like_by_the_standard_library() {
    let samples: [&[u8]; 12] = [
        b"\xc0\x80a",
        b"\xc3(",
        b"\xe2\x82(",
        b"\xe2(\xa1",
        b"\xed\xa0\x80x",
        b"\xf0\x9f\x92\x96",
        b"\xf0\x9f\x92(",
        b"\xf0(\x8c\xbc",
        b"\xf4\x90\x80\x80",
        b"\xf5\x80\x80\x80!",
        b"\xe0\x9f\xbf.",
        b"\xf8\x88\x80\x80\x80-",
    ];
    for sample in samples {
        let text = Utf8Merger::new().process_utf8(sample);
        assert_eq!(text, String::from_utf8_lossy(sample), "{sample:x?}");
    }
}

#[test]
fn output_may_be_cut_anywhere() {
    let output = "Zażółć gęślą jaźń 🙈\r\nend\u{7ff}\n".as_bytes();
    let whole = Utf8Merger::new().process_utf8(output);
    assert_eq!(whole, "Zażółć gęślą jaźń 🙈\r\nend\u{7ff}\r\n");
    for cut in 0..=output.len() {
        if cut > 0 && cut < output.len() && output[cut - 1] == b'\r' {
            continue;
        }
        let mut merger = Utf8Merger::new();
        let mut text = merger.process_utf8(&output[..cut]);
        assert!(merger.incomplete_utf8_buffer.len() <= 3);
        text.push_str(&merger.process_utf8(&output[cut..]));
        assert_eq!(text, whole);
        assert!(merger.incomplete_utf8_buffer.is_empty());
    }
}
