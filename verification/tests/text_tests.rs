use zipin::doc::Segment;
use zipin::text::{byte_len, char_string, char_utf8_len, char_width, chars_of};

#[test]
fn widths() {
    assert_eq!(Segment::Committed("abc".to_string()).width(), 3);
    assert_eq!(Segment::Committed("你好".to_string()).width(), 4);
    assert_eq!(Segment::Committed(String::new()).width(), 0);
    assert_eq!(char_width('你'), 2);
    assert_eq!(char_width('a'), 1);
}

#[test]
fn utf8_lengths() {
    assert_eq!(char_utf8_len('a'), 1);
    assert_eq!(char_utf8_len('é'), 2);
    assert_eq!(char_utf8_len('你'), 3);
    assert_eq!(char_utf8_len('\u{20000}'), 4);
    assert_eq!(byte_len("a你"), 4);
}

#[test]
fn string_edits() {
    assert_eq!(char_string('x'), "x");
    assert_eq!(char_string('好'), "好");
    assert_eq!(chars_of("a你b"), vec!['a', '你', 'b']);
}
