use mini_browser::url::{URLError, URL};

fn test_parse(url: &str, scheme: &str, host: &str, path: &str) {
    println!("{}", url);
    let url = URL::parse(url).unwrap();

    assert_eq!(url.scheme(), scheme);
    assert_eq!(url.host(), host);
    assert_eq!(url.path(), path);
    assert_eq!(url.port(), 80);
}

#[test]
fn test_url() {
    test_parse("example.com/", "http", "example.com", "/");
    test_parse("http://example.co.jp", "http", "example.co.jp", "/");
    test_parse("https://example.com/test", "https", "example.com", "/test");
}

#[test]
fn url_without_host_fails() {
    assert!(matches!(URL::parse(""), Err(URLError::NoHost)));
    assert!(matches!(URL::parse("http://"), Err(URLError::NoHost)));
}
