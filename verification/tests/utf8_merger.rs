use espmonitor::utf8_merger::Utf8Merger;

#[test]
fn returns_valid_strings_immediately() {
    let mut ctx = Utf8Merger::new();
    let buff = b"Hello, world!";
    let text = ctx.process_utf8(buff);
    assert_eq!(text, "Hello, world!");
}

#[test]
fn does_not_repeat_valid_strings() {
    let mut ctx = Utf8Merger::new();
    let text = ctx.process_utf8(b"Hello, world!");
    assert_eq!(text, "Hello, world!");
    let text = ctx.process_utf8(b"Something else");
    assert_eq!(text, "Something else");
}

#[test]
fn replaces_invalid_sequence() {
    let mut ctx = Utf8Merger::new();
    let text = ctx.process_utf8(b"Hello, \xFF world!");
    assert_eq!(text, "Hello, \u{FFFD} world!");
}

#[test]
fn can_replace_unfinished_incomplete_sequence() {
    let mut ctx = Utf8Merger::new();
    let mut incomplete = Vec::from("Hello, ".as_bytes());
    let utf8 = "🙈".as_bytes();
    incomplete.extend_from_slice(&utf8[..utf8.len() - 1]);
    let text = ctx.process_utf8(&incomplete);
    assert_eq!(text, "Hello, ");

    let text = ctx.process_utf8(b" world!");
    assert_eq!(text, "\u{FFFD} world!");
}

#[test]
fn can_merge_incomplete_sequence() {
    let mut ctx = Utf8Merger::new();
    let mut incomplete = Vec::from("Hello, ".as_bytes());
    let utf8 = "🙈".as_bytes();
    incomplete.extend_from_slice(&utf8[..utf8.len() - 1]);

    let text = ctx.process_utf8(&incomplete);
    assert_eq!(text, "Hello, ");

    let text = ctx.process_utf8(&utf8[utf8.len() - 1..]);
    assert_eq!(text, "🙈");
}

#[test]
fn issue_457() {
    let mut ctx = Utf8Merger::new();
    let mut result = String::new();

    result.push_str(&ctx.process_utf8(&[0x48]));
    result.push_str(&ctx.process_utf8(&[0x65, 0x6C, 0x6C]));
    result.push_str(&ctx.process_utf8(&[
        0x6F, 0x20, 0x77, 0x6F, 0x72, 0x6C, 0x64, 0x21, 0x20, 0x77, 0x69, 0x74,
    ]));
    result.push_str(&ctx.process_utf8(&[
        0x68, 0x20, 0x55, 0x54, 0x46, 0x3A, 0x20, 0x77, 0x79, 0x73, 0x79,
    ]));
    result.push_str(&ctx.process_utf8(&[0xC5, 0x82, 0x61, 0x6D, 0x0A]));

    assert_eq!(result, "Hello world! with UTF: wysyłam\r\n");
}
