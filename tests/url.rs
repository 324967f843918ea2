use cuely::url::Url;
use cuely::webgraph::Node;

#[test]
fn double_slash_start() {
    let url: Url = "//scripts.dailymail.co.uk".to_string().into();

    assert_eq!(url.domain(), "dailymail.co.uk");
    assert_eq!(url.host(), "scripts.dailymail.co.uk");
}

#[test]
fn co_uk_edgecase() {
    let url: Url = "dailymail.co.uk".to_string().into();

    assert_eq!(url.domain(), "dailymail.co.uk");
    assert_eq!(url.host(), "dailymail.co.uk");
    assert_eq!(url.full().as_str(), "https://dailymail.co.uk");
}

#[test]
fn full() {
    let url: Url = "https://example.com".to_string().into();
    assert_eq!(url.full().as_str(), "https://example.com");

    let url: Url = "http://example.com".to_string().into();
    assert_eq!(url.full().as_str(), "http://example.com");
}

#[test]
fn prefix_with() {
    let mut a: Url = "/test".to_string().into();
    let b: Url = "https://example.com".to_string().into();
    a.prefix_with(&b);
    assert_eq!(a.full().as_str(), "https://example.com/test");

    let mut a: Url = "test".to_string().into();
    let b: Url = "https://example.com".to_string().into();
    a.prefix_with(&b);
    assert_eq!(a.full().as_str(), "https://example.com/test");

    let mut a: Url = "test".to_string().into();
    let b: Url = "https://example.com/".to_string().into();
    a.prefix_with(&b);
    assert_eq!(a.full().as_str(), "https://example.com/test");

    let mut a: Url = "/test".to_string().into();
    let b: Url = "https://example.com/".to_string().into();
    a.prefix_with(&b);
    assert_eq!(a.full().as_str(), "https://example.com/test");
}

#[test]
fn is_full_path() {
    let url: Url = "https://dailymail.co.uk".to_string().into();
    assert!(url.is_full_path());
}

#[test]
fn is_valid() {
    let url: Url = "https://dailymail.co.uk".to_string().into();
    assert!(url.is_valid_uri());

    let url: Url = "da<>ilymail.co.uk".to_string().into();
    assert!(!url.is_valid_uri());
}

#[test]
fn subdomain() {
    let url: Url = "https://test.example.com".to_string().into();
    assert_eq!(url.subdomain(), Some("test"));

    let url: Url = "https://test1.test2.example.com".to_string().into();
    assert_eq!(url.subdomain(), Some("test1.test2"));

    let url: Url = "https://example.com".to_string().into();
    assert_eq!(url.subdomain(), None);
}

#[test]
fn strip_protocol_and_query() {
    let url: Url = "https://example.com/a?b=c".to_string().into();
    assert_eq!(url.strip_protocol(), "example.com/a?b=c");
    assert_eq!(url.strip_query(), "https://example.com/a");
    let url: Url = "example.com/a".to_string().into();
    assert_eq!(url.strip_protocol(), "example.com/a");
    assert_eq!(url.strip_query(), "example.com/a");
}

#[test]
fn protocol_and_site() {
    let url: Url = "https://example.com/a/b".to_string().into();
    assert_eq!(url.protocol(), "https");
    assert_eq!(url.site(), "https://example.com");
    let url: Url = "http://example.com".to_string().into();
    assert_eq!(url.protocol(), "http");
    assert_eq!(url.site(), "http://example.com");
    let url: Url = "example.com".to_string().into();
    assert_eq!(url.protocol(), "");
    assert!(!url.is_full_path());
}

#[test]
fn homepage_detection() {
    let url: Url = "https://example.com".to_string().into();
    assert!(url.is_homepage());
    let url: Url = "https://example.com/".to_string().into();
    assert!(url.is_homepage());
    let url: Url = "https://example.com/about".to_string().into();
    assert!(!url.is_homepage());
}

#[test]
fn domain_of_short_hosts() {
    let url: Url = "https://localhost/x".to_string().into();
    assert_eq!(url.domain(), "localhost");
    assert_eq!(url.subdomain(), None);
    let url: Url = "https://a.b.c.d.com".to_string().into();
    assert_eq!(url.domain(), "d.com");
    assert_eq!(url.subdomain(), Some("a.b.c"));
    let url: Url = "https://news.bbc.co.uk/x".to_string().into();
    assert_eq!(url.domain(), "bbc.co.uk");
    assert_eq!(url.subdomain(), Some("news"));
}

#[test]
fn host_projection_strips_only_www() {
    let url: Url = "https://www.example.com/page".to_string().into();
    assert_eq!(url.host_without_specific_subdomains(), "example.com");
    let url: Url = "https://blog.example.com/page".to_string().into();
    assert_eq!(url.host_without_specific_subdomains(), "blog.example.com");
    let url: Url = "www.A.com".to_string().into();
    assert_eq!(url.host_without_specific_subdomains(), "A.com");
    assert_eq!(Node::from("https://www.example.com/x").into_host(), Node::from("example.com"));
    assert_eq!(Node::from("A.com/1").into_host(), Node::from("A.com"));
}

#[test]
fn raw_is_unchanged() {
    let url: Url = "HTTPS://Example.com/".to_string().into();
    assert_eq!(url.raw(), "HTTPS://Example.com/");
    assert_eq!(url.full().as_str(), "https://HTTPS://Example.com/");
}

#[test]
fn node_from_url_keeps_raw_text() {
    let url: Url = "https://www.example.com/a".to_string().into();
    assert_eq!(Node::from(&url).name, "https://www.example.com/a");
    assert_eq!(Node::from(url).name, "https://www.example.com/a");
}
