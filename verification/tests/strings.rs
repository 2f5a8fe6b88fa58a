use glossa_dsl::strings::{chars_of, ministr_of, str_eq, str_lt};

const SAMPLES: [&str; 16] = [
    "",
    "a",
    "A",
    "ab",
    "abc",
    "abd",
    "b",
    "é",
    "e\u{301}",
    "\u{ff5e}",
    "\u{1f431}",
    "\u{1f431}\u{1f431}",
    "日本",
    "日本語",
    " a",
    "a ",
];

#[test]
fn strings_are_equal_where_their_characters_are() {
    for a in SAMPLES {
        for b in SAMPLES {
            assert_eq!(str_eq(a, b), a == b, "{a:?} {b:?}");
        }
    }
    assert!(str_eq("same text", &String::from("same text")));
    assert!(!str_eq("same text", "same  text"));
}

#[test]
fn strings_are_ordered_by_scalar_value() {
    for a in SAMPLES {
        for b in SAMPLES {
            assert_eq!(str_lt(a, b), a < b, "{a:?} {b:?}");
        }
    }
    assert!(str_lt("", "a"));
    assert!(!str_lt("a", ""));
    assert!(!str_lt("a", "a"));
    assert!(str_lt("a", "ab"));
    assert!(str_lt("ab", "b"));
    assert!(str_lt("\u{ff5e}", "\u{1f431}"));
    assert!(str_lt("Z", "a"));
}

#[test]
fn characters_are_handed_out_in_order() {
    assert_eq!(chars_of("a🐱é"), ['a', '🐱', 'é']);
    assert!(chars_of("").is_empty());
    assert_eq!(ministr_of("喵 ฅ"), "喵 ฅ");
    assert_eq!(ministr_of(""), "");
}
