use std::collections::BTreeMap;

use glossa_dsl::error::ResolverResult;
use glossa_dsl::{MiniStr, Resolver};
use kstring::KString;

fn init_ast() -> ResolverResult<Resolver> {
    Resolver::try_from_slice(&[("g", "Good"), ("greeting", "{g} {$period}! { $name }")])
}

#[test]
fn lib_get_text_slice() -> ResolverResult<()> {
    let text = init_ast()?.get_with_context("greeting", &[("name", "Tom"), ("period", "Morning")])?;

    assert_eq!(text, "Good Morning! Tom");
    Ok(())
}

fn raw_toml_to_map() -> BTreeMap<String, String> {
    let text = r##"
g = "Good"
time-period = """
$period ->
  [morning] {g} Morning
  [evening] {g} evening
  *[other] {g} {$period}
"""

href = """

<a href=""></a>
end

"""

gender = """

$attr ->
  [male] Mr.
  *[female] Ms.
"""
greeting = "{ time-period }! { gender }{ $name }"
    "##;

    toml::from_str(text).expect("Failed to deser toml")
}

#[test]
fn lib_get_text() -> ResolverResult<()> {
    let raw = raw_toml_to_map();
    let resolver = Resolver::try_from_raw(entries_of_lib(raw))?;
    let text = resolver.get_with_context(
        "greeting",
        &[("period", "evening"), ("name", "Alice"), ("attr", "unknown")],
    )?;
    assert_eq!(text, "Good evening! Ms.Alice");

    Ok(())
}

#[test]
fn text_that_is_no_selector_is_kept_untrimmed() -> ResolverResult<()> {
    let resolver = Resolver::try_from_raw(entries_of_lib(raw_toml_to_map()))?;
    assert_eq!(resolver.try_get("href")?, "\n<a href=\"\"></a>\nend\n\n");
    Ok(())
}

fn entries_of_lib(raw: BTreeMap<String, String>) -> Vec<(KString, MiniStr)> {
    raw.iter().map(|(k, v)| (KString::from_ref(k), MiniStr::from(v.as_str()))).collect()
}
