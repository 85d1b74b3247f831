use template_engine::text::{chars_of, slice_text, starts_with, text_eq, text_less};

#[test]
fn the_characters_of_a_text() {
    assert_eq!(chars_of(""), Vec::<char>::new());
    assert_eq!(chars_of("a\u{e9}\u{1f600}"), vec!['a', '\u{e9}', '\u{1f600}']);
}

#[test]
fn texts_are_equal_when_their_characters_are() {
    assert!(text_eq("", ""));
    assert!(text_eq("x-route", "x-route"));
    assert!(text_eq("caf\u{e9}", "caf\u{e9}"));
    assert!(!text_eq("x-route", "x-rout"));
    assert!(!text_eq("x-route", "x-routf"));
    assert!(!text_eq("a", ""));
    assert!(!text_eq("e\u{301}", "\u{e9}"));
}

#[test]
fn a_prefix_begins_a_text() {
    assert!(starts_with("x-source", "x-"));
    assert!(starts_with("x-", "x-"));
    assert!(starts_with("anything", ""));
    assert!(starts_with("", ""));
    assert!(!starts_with("x", "x-"));
    assert!(!starts_with("ax-", "x-"));
    assert!(!starts_with("", "x"));
    assert!(starts_with("\u{e9}t\u{e9}", "\u{e9}t"));
}

#[test]
fn a_slice_is_taken_by_characters() {
    assert_eq!(slice_text("/weather/today", 1, 8), "weather");
    assert_eq!(slice_text("/weather/today", 8, 14), "/today");
    assert_eq!(slice_text("abc", 1, 1), "");
    assert_eq!(slice_text("abc", 0, 3), "abc");
    assert_eq!(slice_text("a\u{e9}\u{1f600}b", 1, 3), "\u{e9}\u{1f600}");
}

#[test]
fn texts_are_ordered_by_code_point() {
    let ordered = ["", "A", "B", "a", "aa", "ab", "b", "\u{e9}", "\u{ffff}", "\u{10000}"];
    for (i, a) in ordered.iter().enumerate() {
        for (j, b) in ordered.iter().enumerate() {
            assert_eq!(text_less(a, b), i < j, "{:?} {:?}", a, b);
            assert_eq!(text_less(a, b), a < b, "{:?} {:?}", a, b);
        }
    }
}
