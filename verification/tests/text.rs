use structless::text::{cursor_column, text_cursor_column, trim_string};

#[test]
fn a_short_label_is_padded_on_the_left() {
    assert_eq!(trim_string("abc", 5), "  abc");
    assert_eq!(trim_string("", 3), "   ");
}

#[test]
fn a_label_of_the_full_length_is_kept() {
    assert_eq!(trim_string("abcde", 5), "abcde");
    assert_eq!(trim_string("", 0), "");
}

#[test]
fn a_long_label_is_cut_and_marked() {
    assert_eq!(trim_string("abcdefgh", 5), "abcd\u{e2}\u{20ac}\u{a6}");
    assert_eq!(trim_string("ab", 1), "\u{e2}\u{20ac}\u{a6}");
    assert_eq!(
        trim_string("source_file_with_a_long_kind", 15),
        "source_file_wi\u{e2}\u{20ac}\u{a6}"
    );
}

#[test]
fn lengths_are_counted_in_bytes() {
    assert_eq!(trim_string("\u{e9}", 3), " \u{e9}");
    assert_eq!(trim_string("\u{e9}\u{e9}\u{e9}", 5), "\u{e9}\u{e9}\u{e2}\u{20ac}\u{a6}");
}

#[test]
fn the_cursor_stands_behind_the_border_and_the_text() {
    assert_eq!(cursor_column(3, 4), Some(8));
    assert_eq!(cursor_column(0, 0), Some(1));
    assert_eq!(cursor_column(65534, 0), Some(65535));
}

#[test]
fn no_column_beyond_the_last() {
    assert_eq!(cursor_column(65535, 0), None);
    assert_eq!(cursor_column(65000, 535), None);
    assert_eq!(cursor_column(1, 65535), None);
}

#[test]
fn the_width_is_counted_modulo_two_to_the_sixteenth() {
    assert_eq!(cursor_column(0, 65536), Some(1));
    assert_eq!(cursor_column(2, 65536 + 7), Some(10));
}

#[test]
fn the_cursor_column_goes_by_the_displayed_width() {
    assert_eq!(text_cursor_column(1, ""), Some(2));
    assert_eq!(text_cursor_column(1, "ab"), Some(4));
    assert_eq!(text_cursor_column(0, "\u{65e5}\u{672c}"), Some(5));
    assert_eq!(text_cursor_column(65533, "ab"), None);
}
