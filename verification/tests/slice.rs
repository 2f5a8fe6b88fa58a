use glossa_dsl::error::ResolverResult;
use glossa_dsl::Resolver;

#[test]
fn test_resolver_from_slice() -> ResolverResult<()> {
    let resolver = Resolver::try_from_slice(&[("h", "Hello"), ("greeting", "{h} { $name }!")])?;

    let ctx = [("name", "Alice")];

    let result = resolver.get_with_context("greeting", &ctx)?;
    assert_eq!(result, "Hello Alice!");
    Ok(())
}

#[test]
fn test_try_from_slice() -> ResolverResult<()> {
    let _res = Resolver::try_from_slice(&[
        ("g", "Good"),
        ("greeting", "{g} { time-period }! { $name }"),
        (
            "time-period",
            "$period ->
          [morning] Morning
          *[other] {$period}",
        ),
    ])?;
    Ok(())
}
