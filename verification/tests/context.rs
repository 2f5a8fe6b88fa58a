use glossa_dsl::parsers::context::{BTreeRawMap, Context};
use glossa_dsl::{ContextMap, ContextMapBuf};

#[test]
fn empty_context_binds_nothing() {
    assert_eq!(Context::Empty.get_value("a"), None);
    assert_eq!(Context::default().get_value(""), None);
}

#[test]
fn slice_is_searched_by_bisection() {
    let pairs = [("a", "1"), ("ab", "2"), ("b", "3"), ("é", "4"), ("日本", "5"), ("🐱", "6")];
    let context = Context::Slice(&pairs);
    for (name, value) in pairs {
        assert_eq!(context.get_value(name), Some(value));
        assert_eq!(Context::get_slice_value(&pairs, name), Some(value));
    }
    for name in ["", "A", "aa", "abc", "c", "z", "日", "🐱🐱"] {
        assert_eq!(context.get_value(name), None);
    }
    assert_eq!(Context::get_slice_value(&[], "a"), None);
    assert_eq!(Context::get_slice_value(&[("a", "1")], "a"), Some("1"));
}

#[test]
fn first_of_equal_names_is_found() {
    let pairs = [("a", "1"), ("b", "2"), ("b", "3"), ("b", "4"), ("c", "5")];
    assert_eq!(Context::get_slice_value(&pairs, "b"), Some("2"));
    let pairs = [("b", "1"), ("b", "2")];
    assert_eq!(Context::get_slice_value(&pairs, "b"), Some("1"));
}

#[test]
fn names_are_ordered_by_scalar_value() {
    // U+FF5E comes before U+1F431, though its UTF-16 form comes after.
    let pairs = [("\u{ff5e}", "wave"), ("\u{1f431}", "cat")];
    assert_eq!(Context::get_slice_value(&pairs, "\u{1f431}"), Some("cat"));
    assert_eq!(Context::get_slice_value(&pairs, "\u{ff5e}"), Some("wave"));
}

#[test]
fn value_found_out_of_order_still_stands_beside_its_name() {
    let pairs = [("c", "3"), ("a", "1"), ("b", "2")];
    for name in ["a", "b", "c"] {
        if let Some(value) = Context::get_slice_value(&pairs, name) {
            assert!(pairs.contains(&(name, value)));
        }
    }
}

#[test]
fn maps_are_asked_directly() {
    let ordered: BTreeRawMap = [("k", "v"), ("", "empty")].into_iter().map(|(k, v)| (k.into(), v.into())).collect();
    let context = Context::BTree(&ordered);
    assert_eq!(context.get_value("k"), Some("v"));
    assert_eq!(context.get_value(""), Some("empty"));
    assert_eq!(context.get_value("v"), None);

    let hashed: ContextMap = [("k", "v"), ("v", "k")].into_iter().collect();
    let context = Context::BorrowedMap(&hashed);
    assert_eq!(context.get_value("k"), Some("v"));
    assert_eq!(context.get_value("v"), Some("k"));
    assert_eq!(context.get_value("kv"), None);

    let owned: ContextMapBuf = [("k", "v")].into_iter().map(|(k, v)| (k.into(), v.into())).collect();
    let context = Context::OwnedMap(&owned);
    assert_eq!(context.get_value("k"), Some("v"));
    assert_eq!(context.get_value("K"), None);
}
