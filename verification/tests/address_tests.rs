use maxtract::{resolve, same_domain_str, Address};

fn base(s: &str) -> Address {
    Address::parse(s).expect("base address must parse")
}

#[test]
fn parse_normalizes_scheme_and_host() {
    let a = Address::parse("HTTPS://Example.COM").unwrap();
    assert_eq!(a.as_str(), "https://example.com/");
}

#[test]
fn parse_strips_fragment() {
    let a = Address::parse("https://example.com/page#section").unwrap();
    assert_eq!(a.as_str(), "https://example.com/page");
}

#[test]
fn parse_rejects_relative_reference() {
    assert!(Address::parse("missing_scheme").is_none());
}

#[test]
fn resolve_relative_path() {
    let b = base("https://domain.example/dir/page");
    let child = resolve("/relative/path#with_fragment", &b).unwrap();
    assert_eq!(child.as_str(), "https://domain.example/relative/path");
}

#[test]
fn resolve_keeps_query() {
    let b = base("https://domain.example/");
    let child = resolve("page?q=1#frag", &b).unwrap();
    assert_eq!(child.as_str(), "https://domain.example/page?q=1");
}

#[test]
fn resolve_fragment_idempotence() {
    let b = base("https://domain.example/dir/");
    let plain = resolve("path", &b).unwrap();
    let frag1 = resolve("path#frag1", &b).unwrap();
    let frag2 = resolve("path#frag2", &b).unwrap();
    assert!(plain == frag1);
    assert!(plain == frag2);
    assert_eq!(frag1.as_str(), plain.as_str());
    assert_eq!(frag2.as_str(), plain.as_str());
}

#[test]
fn resolve_absolute_link() {
    let b = base("https://domain.example/dir/");
    let child = resolve("https://other.example/x", &b).unwrap();
    assert_eq!(child.as_str(), "https://other.example/x");
}

#[test]
fn same_domain_ignores_path() {
    assert!(same_domain_str(
        "https://site.example/a/b",
        "https://site.example/c?q=2"
    ));
}

#[test]
fn different_domains_are_distinguished() {
    assert!(!same_domain_str("https://site.example/", "https://other.example/"));
    assert!(!same_domain_str("https://site.example/", "https://sub.site.example/"));
}

#[test]
fn file_urls_have_no_domain() {
    // Both sides lack a domain component, so they count as the same scope.
    assert!(same_domain_str("file:///tmp/a.html", "file:///var/b.html"));
}

#[test]
fn address_equality_is_by_normalized_text() {
    let a = Address::parse("https://example.com").unwrap();
    let b = Address::parse("HTTPS://example.com/#frag").unwrap();
    assert!(a == b);
    let c = Address::parse("https://example.com/x").unwrap();
    assert!(a != c);
    assert_eq!(a.dup().as_str(), a.as_str());
    assert_eq!(a.to_text(), "https://example.com/".to_string());
}
