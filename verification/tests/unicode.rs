use std::collections::BTreeMap;

use glossa_dsl::error::ResolverResult;
use glossa_dsl::{MiniStr, Resolver};

#[test]
fn test_emoji_var() -> ResolverResult<()> {
    let raw: BTreeMap<String, String> = toml::from_str(
        r##"
      "🐱" = "喵 ฅ(°ω°ฅ)"

      "问候" = """
        $period ->
          [morning] 早安{🐱}
          [night] 晚安{🐱}
          *[other] {$period}好
      """

      "称谓" = """
      $gender ->
        [male] 先生
        [female] 女士
        *[test] { $🧑‍🏫 }
      """

      greeting = "{ 问候 }！{ $name }{ 称谓 }。"
    "##,
    )
    .expect("Failed to deserialize toml");
    let entries: Vec<(MiniStr, MiniStr)> =
        raw.iter().map(|(k, v)| (MiniStr::from(k.as_str()), MiniStr::from(v.as_str()))).collect();
    let res = Resolver::try_from_str_entries(&entries)?;

    let get_text = |ctx: &[(&str, &str)]| res.get_with_context("greeting", ctx);

    let text = get_text(&[
        ("🧑‍🏫", "🧑🧑‍🏫"),
        ("period", "morning"),
        ("name", "Young"),
        ("gender", "unknown"),
    ])?;

    assert_eq!(text, "早安喵 ฅ(°ω°ฅ)！Young🧑🧑‍🏫。");
    assert_eq!(res.try_get("🐱")?, "喵 ฅ(°ω°ฅ)");

    Ok(())
}

#[test]
fn unicode_identifiers() -> ResolverResult<()> {
    let res = Resolver::try_from_slice(&[("🐱", "喵 ฅ(°ω°ฅ)"), ("hello", "Hello {🐱}")])?;
    assert_eq!(res.get_with_context("hello", &[])?, "Hello 喵 ฅ(°ω°ฅ)");
    Ok(())
}

#[test]
fn selector_parameter_may_be_any_alphanumeric_name() -> ResolverResult<()> {
    let res = Resolver::try_from_slice(&[("m", "$时段-1_a ->\n [早] 早安\n *[x] 你好")])?;
    assert_eq!(res.get_with_context("m", &[("时段-1_a", "早")])?, "早安");
    assert_eq!(res.get_with_context("m", &[("时段-1_a", "晚")])?, "你好");
    Ok(())
}

#[test]
fn name_that_is_not_alphanumeric_makes_no_selector() -> ResolverResult<()> {
    let res = Resolver::try_from_slice(&[("m", "$🐱 ->\n [a] A")])?;
    assert_eq!(res.try_get("m")?, "$🐱 ->\n [a] A");
    Ok(())
}
