use glossa_dsl::error::ResolverResult;
use glossa_dsl::Resolver;

#[test]
fn test_tmpl_escaped() -> ResolverResult<()> {
    let resolver = Resolver::try_from_slice(&[
        ("h", "Hello { $name }"),
        ("how_are_you", "How Are You"),
        ("greeting", "{h}!{{ how_are_you }}? {{    {$name} }}"),
    ])?;

    let ctx = [("name", "Alice")];

    let result = resolver.get_with_context("greeting", &ctx)?;
    assert_eq!(result, "Hello Alice!how_are_you? {$name}");
    Ok(())
}
