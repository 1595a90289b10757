use coderlm::sorting::{order_names, sort_texts};
use coderlm::sources::Sources;
use coderlm::text::{
    contains, decimal, ends_with, join, len_bytes, line_at, lines, not_after, pad_left, same,
    slice_bytes, split, starts_with, trim, trim_char,
};

fn owned(items: &[&str]) -> Vec<String> {
    items.iter().map(|s| s.to_string()).collect()
}

#[test]
fn texts_are_compared_and_searched() {
    assert!(same("a\u{e4}", "a\u{e4}"));
    assert!(!same("ab", "ac"));
    assert!(contains("abc", "bc"));
    assert!(contains("abc", ""));
    assert!(!contains("bc", "abc"));
    assert!(starts_with("abc", "ab") && !starts_with("a", "ab"));
    assert!(ends_with("abc", "bc") && !ends_with("c", "bc"));
    assert!(not_after("a", "b") && not_after("a", "aa") && not_after("", "") && !not_after("b", "a"));
    assert_eq!(len_bytes("a\u{e4}"), 3);
}

#[test]
fn texts_are_taken_apart_and_put_together() {
    assert_eq!(split("a//b", '/'), owned(&["a", "", "b"]));
    assert_eq!(split("", '/'), owned(&[""]));
    assert_eq!(join(&owned(&["a", "b", "c"]), " > "), "a > b > c");
    assert_eq!(join(&Vec::new(), ", "), "");
    assert_eq!(trim("\u{a0}\t x y \n"), "x y");
    assert_eq!(trim_char("\"\"x\"", '"'), "x");
    assert_eq!(decimal(0), "0");
    assert_eq!(decimal(1204), "1204");
    assert_eq!(pad_left("12", 6), "    12");
    assert_eq!(pad_left("1234567", 6), "1234567");
}

#[test]
fn lines_end_with_or_without_a_return() {
    let found: Vec<(usize, String)> =
        lines("a\r\n\u{e4}\n\nb\r").into_iter().map(|l| (l.start, l.text)).collect();
    assert_eq!(
        found,
        vec![
            (0, "a".to_string()),
            (3, "\u{e4}".to_string()),
            (6, "".to_string()),
            (7, "b\r".to_string()),
        ]
    );
    assert!(lines("").is_empty());
    assert_eq!(lines("\n").len(), 1);
    assert_eq!(line_at("x\ny", 1), "y");
    assert_eq!(line_at("x\ny", 2), "");
}

#[test]
fn bytes_are_taken_at_the_edges_of_characters() {
    assert_eq!(slice_bytes("a\u{e4}b", 1, 3).as_deref(), Some("\u{e4}"));
    assert_eq!(slice_bytes("a\u{e4}b", 1, 2), None);
    assert_eq!(slice_bytes("ab", 2, 2).as_deref(), Some(""));
    assert_eq!(slice_bytes("ab", 1, 3), None);
    assert_eq!(slice_bytes("ab", 2, 1), None);
}

#[test]
fn names_are_ordered_and_kept_once() {
    assert_eq!(sort_texts(owned(&["b", "a", "b"])), owned(&["a", "b", "b"]));
    let ordered = order_names(owned(&["b", "a", "b", "B"]));
    assert_eq!(ordered, owned(&["B", "a", "b"]));
    assert_eq!(order_names(ordered.clone()), ordered);
}

#[test]
fn sources_give_back_what_reading_gave() {
    let mut sources = Sources::new();
    assert_eq!(sources.read("a"), Err("not loaded".to_string()));
    sources.add("a".to_string(), Ok("text".to_string()));
    sources.add("b".to_string(), Err("denied".to_string()));
    assert_eq!(sources.read("a"), Ok("text".to_string()));
    assert_eq!(sources.read("b"), Err("denied".to_string()));
    sources.add("a".to_string(), Ok("newer".to_string()));
    assert_eq!(sources.read("a"), Ok("newer".to_string()));
}

#[test]
fn white_space_is_that_of_unicode() {
    let spaces = |n: u32| {
        matches!(
            n,
            9..=13
                | 0x20
                | 0x85
                | 0xA0
                | 0x1680
                | 0x2000..=0x200A
                | 0x2028
                | 0x2029
                | 0x202F
                | 0x205F
                | 0x3000
        )
    };
    for n in 0..=0x10FFFF {
        if let Some(c) = char::from_u32(n) {
            assert_eq!(trim(&c.to_string()).is_empty(), spaces(n), "{n:x}");
        }
    }
}
