use passcrack::text::{candidate_text, show_bytes, NOT_UTF8};

#[test]
fn candidate_is_shown_as_its_text() {
    assert_eq!(candidate_text(b"pass1"), "pass1");
    assert_eq!(candidate_text(b""), "");
    assert_eq!(candidate_text(&[0xc3, 0xa9]), "\u{e9}");
    assert_eq!(candidate_text(&[0xe2, 0x82, 0xac, b'1']), "\u{20ac}1");
}

#[test]
fn candidate_that_is_not_text_gets_the_placeholder() {
    assert_eq!(NOT_UTF8, "<not utf-8>");
    assert_eq!(candidate_text(&[0xff]), "<not utf-8>");
    assert_eq!(candidate_text(&[b'a', 0xc3]), "<not utf-8>");
    assert_eq!(candidate_text(&[0xc0, 0x80]), "<not utf-8>");
    assert_eq!(candidate_text(&[0xed, 0xa0, 0x80]), "<not utf-8>");
}

#[test]
fn bytes_are_shown_one_by_one() {
    assert_eq!(show_bytes(b"az09"), "az09");
    assert_eq!(show_bytes(&[0x20, 0x21, 0x7e, 0x7f, 0x80]), "\\x20!~\\x7f\\x80");
    assert_eq!(show_bytes(&[0x09, 0x1f, 0xa0, 0xf9]), "\\x09\\x1f\\xa0\\xf9");
}

#[test]
fn text_beyond_the_last_scalar_is_not_text() {
    assert_eq!(candidate_text(&[0xf0, 0x9f, 0x98, 0x80]), "\u{1f600}");
    assert_eq!(candidate_text(&[0xf4, 0x8f, 0xbf, 0xbf]), "\u{10ffff}");
    assert_eq!(candidate_text(&[0xf4, 0x90, 0x80, 0x80]), "<not utf-8>");
    assert_eq!(candidate_text(&[0xf5, 0x80, 0x80, 0x80]), "<not utf-8>");
    assert_eq!(candidate_text(&[0x80]), "<not utf-8>");
}
