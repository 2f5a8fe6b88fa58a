use glossa_dsl::error::{ResolverError, ResolverResult};
use glossa_dsl::resolver::from_slice::convert_map_key;
use glossa_dsl::{MiniStr, Resolver, Template};
use kstring::KString;

#[test]
fn later_pair_replaces_earlier_with_the_same_key() -> ResolverResult<()> {
    let r = Resolver::try_from_slice(&[("k", "first"), ("other", "x"), ("k", "second")])?;
    assert_eq!(r.try_get("k")?, "second");
    assert_eq!(r.into_inner().len(), 2);
    Ok(())
}

#[test]
fn entries_come_out_in_order_of_their_keys() -> ResolverResult<()> {
    let r = Resolver::try_from_slice(&[
        ("zeta", "z"),
        ("alpha", "a"),
        ("🐱", "cat"),
        ("mid", "m"),
        ("", "empty"),
        ("Alpha", "A"),
        ("alphabet", "ab"),
    ])?;
    let keys: Vec<String> = r.into_btree_map().iter().map(|(k, _)| k.to_string()).collect();
    assert_eq!(keys, ["", "Alpha", "alpha", "alphabet", "mid", "zeta", "🐱"]);
    Ok(())
}

#[test]
fn resolver_made_from_inner_entries_holds_them() -> ResolverResult<()> {
    let first = Resolver::try_from_slice(&[
        ("g", "Good"),
        ("tp", "$period ->\n  [morning] {g} Morning\n  *[other] {g} {$period}"),
        ("greet", "{tp}! {$name}"),
    ])?;
    let ctx = [("period", "night"), ("name", "Tom")];
    let expected = first.get_with_context("greet", &ctx)?;
    let second = Resolver(first.into_inner());
    assert_eq!(second.get_with_context("greet", &ctx)?, expected);
    assert_eq!(second.0.len(), 3);
    Ok(())
}

#[test]
fn ordered_entries_hold_the_templates() -> ResolverResult<()> {
    let r = Resolver::try_from_slice(&[("b", "$x -> [1] one"), ("a", "text")])?;
    let ordered = r.into_btree_map();
    let mut entries = ordered.iter();
    let (key, template) = entries.next().unwrap();
    assert_eq!(key, "a");
    assert!(matches!(template, Template::Parts(parts) if parts.as_slice().len() == 1));
    let (key, template) = entries.next().unwrap();
    assert_eq!(key, "b");
    assert!(matches!(template, Template::Conditional(selector) if selector.param == "x"));
    assert!(entries.next().is_none());
    Ok(())
}

#[test]
fn inner_entries_hold_the_templates() -> ResolverResult<()> {
    let r = Resolver::try_from_slice(&[("b", "$x -> [1] one"), ("a", "text")])?;
    let inner = r.into_inner();
    assert_eq!(inner.len(), 2);
    assert!(matches!(inner.get("a"), Some(Template::Parts(parts)) if parts.as_slice().len() == 1));
    assert!(matches!(inner.get("b"), Some(Template::Conditional(selector)) if selector.param == "x"));
    assert!(inner.get("c").is_none());
    Ok(())
}

#[test]
fn clone_holds_the_same_entries() -> ResolverResult<()> {
    let first = Resolver::try_from_slice(&[
        ("g", "Good"),
        ("tp", "$period ->\n  [morning] {g} Morning\n  [x] $q -> [y] {{ {z} }}\n  *[other] {g} {$period}"),
        ("greet", "{tp}! {$name}"),
    ])?;
    let second = first.clone();
    assert_eq!(format!("{:?}", first.into_btree_map()), format!("{:?}", second.clone().into_btree_map()));
    assert_eq!(second.get_with_context("greet", &[("period", "night"), ("name", "Tom")])?, "Good night! Tom");
    assert_eq!(second.get_with_context("tp", &[("period", "x"), ("q", "y")])?, "{z}");

    let template = second.try_get_template("tp")?.clone();
    assert_eq!(format!("{template:?}"), format!("{:?}", second.try_get_template("tp")?));
    Ok(())
}

#[test]
fn resolver_gives_access_to_its_entries() -> ResolverResult<()> {
    let r = Resolver::try_from_slice(&[("b", "B"), ("a", "A")])?;
    assert_eq!(r.len(), 2);
    assert!(r.contains_key("a"));
    assert!(!r.contains_key("c"));
    assert!(matches!(r.get("b"), Some(Template::Parts(_))));
    Ok(())
}

#[test]
fn new_resolver_holds_nothing() {
    let r = Resolver::new();
    assert!(matches!(r.try_get("a"), Err(ResolverError::UndefinedVariable(name)) if name == "a"));
    assert!(Resolver::default().into_btree_map().is_empty());
    assert!(Resolver::try_from_slice(&[]).unwrap().into_inner().is_empty());
}

#[test]
fn with_entry_puts_and_replaces() -> ResolverResult<()> {
    let r = Resolver::new()
        .with_entry(KString::from_ref("m"), Template::default())
        .with_entry(KString::from_ref("a"), Template::default())
        .with_entry(KString::from_ref("z"), Template::default());
    assert_eq!(r.try_get("a")?, "");
    assert_eq!(r.try_get("m")?, "");
    assert_eq!(r.try_get("z")?, "");
    assert!(r.try_get("b").is_err());
    let other = Resolver::try_from_slice(&[("m", "now text")])?.into_inner().remove("m").unwrap();
    let r = r.with_entry(KString::from_ref("m"), other);
    assert_eq!(r.try_get("m")?, "now text");
    assert_eq!(r.into_inner().len(), 3);
    Ok(())
}

#[test]
fn entries_of_owned_strings_compile() -> ResolverResult<()> {
    let entries: Vec<(MiniStr, MiniStr)> =
        [("meow", "喵"), ("🐱", "{ meow } ฅ(°ω°ฅ)")].into_iter().map(|(k, v)| (k.into(), v.into())).collect();
    let r = Resolver::try_from_str_entries(&entries)?;
    assert_eq!(r.try_get("🐱")?, "喵 ฅ(°ω°ฅ)");

    let bad: Vec<(MiniStr, MiniStr)> = vec![("a".into(), "fine".into()), ("b".into(), "{".into())];
    assert!(matches!(
        Resolver::try_from_str_entries(&bad),
        Err(ResolverError::ParseError(message)) if message.starts_with("Failed to parse 'b': ")
    ));
    Ok(())
}

#[test]
fn entries_with_kstring_keys_compile() -> ResolverResult<()> {
    let raw = vec![
        (KString::from_static("salutation"), MiniStr::from("\n$gender ->\n[male] Mr.\n*[female] Ms.")),
        (KString::from_ref("g"), MiniStr::from("Good")),
        (KString::from_ref("greeting"), MiniStr::from("{g} day, { salutation } { $name }")),
    ];
    let r = Resolver::try_from_raw(raw)?;
    assert_eq!(r.get_with_context("greeting", &[("name", "Tom"), ("gender", "male")])?, "Good day, Mr. Tom");

    let bad = vec![(KString::from_ref("key with ' in it"), MiniStr::from("{{{ x }}"))];
    assert!(matches!(
        Resolver::try_from_raw(bad),
        Err(ResolverError::ParseError(message))
            if message == "Failed to parse 'key with ' in it': Parse error: missing closing braces of an escaped block"
    ));
    Ok(())
}

#[test]
fn keys_are_kept_as_they_are_given() -> ResolverResult<()> {
    assert_eq!(convert_map_key(" a key\n"), " a key\n");
    assert_eq!(convert_map_key(""), "");
    let r = Resolver::try_from_slice(&[(" a key\n", "x"), ("e\u{301}", "combining"), ("\u{e9}", "composed")])?;
    assert_eq!(r.try_get(" a key\n")?, "x");
    assert!(r.try_get("a key").is_err());
    assert_eq!(r.try_get("e\u{301}")?, "combining");
    assert_eq!(r.try_get("\u{e9}")?, "composed");
    Ok(())
}

#[test]
fn template_under_a_key_can_be_borrowed() -> ResolverResult<()> {
    let r = Resolver::try_from_slice(&[("a", "{b}")])?;
    assert!(matches!(r.try_get_template("a")?, Template::Parts(_)));
    assert!(matches!(r.try_get_template("b"), Err(ResolverError::UndefinedVariable(name)) if name == "b"));
    Ok(())
}
