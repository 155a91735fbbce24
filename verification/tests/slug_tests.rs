use modelstore::slug::{LaxSlug, Slug, lax_slugify, strict_slugify};

#[test]
fn test_lax_slugify_basic() {
    // Basic ASCII input
    assert_eq!(lax_slugify("hello-world"), "hello-world");
    assert_eq!(lax_slugify("Hello World"), "Hello-World");
    assert_eq!(lax_slugify("rust+rocks"), "rust+rocks");
    // trailing dashes are preserved
    assert_eq!(lax_slugify("hello-world-"), "hello-world-");
}

#[test]
fn test_lax_slugify_unicode() {
    // Unicode characters that should be replaced with dashes
    assert_eq!(lax_slugify("你好世界"), "Ni-Hao-Shi-Jie");
    assert_eq!(lax_slugify("こんにちは"), "konnitiha");
    assert_eq!(lax_slugify("¡Hola!"), "-Hola-");
}

#[test]
fn test_lax_slugify_mixed() {
    // Mixed ASCII and Unicode
    assert_eq!(lax_slugify("rust编程语言"), "rustBian-Cheng-Yu-Yan");
    assert_eq!(lax_slugify("Lörem Ipsum"), "Lorem-Ipsum");
    assert_eq!(lax_slugify("foo@bar.com"), "foo-bar.com");
}

#[test]
fn test_lax_slugify_special_characters() {
    // Input with special characters
    assert_eq!(lax_slugify("foo_bar.baz+qux"), "foo_bar.baz+qux");
    assert_eq!(lax_slugify("foo/bar\\baz"), "foo-bar-baz");
    assert_eq!(lax_slugify("hello*world"), "hello-world");
}

#[test]
fn test_lax_slugify_edge_cases() {
    // Edge cases
    assert_eq!(lax_slugify(""), "");
    assert_eq!(lax_slugify("  "), "--");
    assert_eq!(lax_slugify("..."), "...");
    assert_eq!(lax_slugify("a"), "a");
    assert_eq!(lax_slugify("-_-"), "-_-");
}

#[test]
fn test_strict_slugify_basic() {
    assert_eq!(strict_slugify("Hello World!"), "hello-world");
    assert_eq!(strict_slugify("hello-world"), "hello-world");
    assert_eq!(strict_slugify("Rust   Rocks"), "rust-rocks");
    assert_eq!(strict_slugify("--leading--"), "leading");
    assert_eq!(strict_slugify(""), "");
    assert_eq!(strict_slugify("!!!"), "");
}

#[test]
fn test_strict_slug_type() {
    let slug = Slug::new("Hello World!");
    assert_eq!(slug.as_str(), "hello-world");
    assert!(Slug::validate("hello-world"));
    assert!(!Slug::validate("Hello World!"));
    let raw = Slug::new_unchecked("already-a-slug");
    assert_eq!(raw.as_str(), "already-a-slug");
    assert!(slug == Slug::new("HELLO WORLD"));
}

#[test]
fn test_lax_slug_type() {
    let slug = LaxSlug::new("foo@bar.com");
    assert_eq!(slug.as_str(), "foo-bar.com");
    assert!(LaxSlug::validate("foo-bar.com"));
    assert!(!LaxSlug::validate("foo@bar.com"));
    assert_eq!(LaxSlug::new_unchecked("kept_as-is").as_str(), "kept_as-is");
    assert!(LaxSlug::new("a+b") == LaxSlug::new_unchecked("a+b"));
}
