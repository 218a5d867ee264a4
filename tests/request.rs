use mini_browser::request::{Head, HeadError, Method, Request, RequestError, RequestLine};

#[test]
fn test_parse() {
    let url = "example.com";

    let req = Request::get(url).unwrap();

    assert_eq!(req.line.path, "/");
    assert_eq!(req.line.protocol, "http");
    assert_eq!(req.head.get("Host"), Some("example.com".to_string()));
    assert_eq!(req.body, String::new());
}

#[test]
fn test_build() {
    let mut req = Request::get("example.com").unwrap();
    let raw_req = req.build().unwrap();

    println!("{}", raw_req);
    assert_eq!(raw_req, "GET / HTTP/1.0\r\nHost: example.com\r\n\r\n");
}

#[test]
fn head_fields_keep_order_and_replace() {
    let mut head = Head::new("h.org");
    head.add("Accept", "text/html");
    head.add("Connection", "close");
    head.add("Accept", "*/*");
    assert_eq!(head.get("Accept"), Some("*/*".to_string()));
    assert_eq!(
        head.build().unwrap(),
        "Host: h.org\r\nAccept:*/*\r\nConnection:close\r\n"
    );
    assert_eq!(head.get("Connection"), None);
}

#[test]
fn head_without_host_fails() {
    let mut head = Head::new("h.org");
    head.remove("Host");
    assert_eq!(head.build(), Err(HeadError::NoHost));
    let mut req = Request::get("example.com/x").unwrap();
    req.head.remove("Host");
    assert_eq!(req.read_host(), Err(RequestError::NoHost));
}

#[test]
fn request_line_text() {
    let line = RequestLine::new(Method::POST, "/form", "https");
    assert_eq!(line.build(), "POST /form HTTP/1.0\r\n");
}

#[test]
fn read_host_of_request() {
    let req = Request::get("https://example.com/test").unwrap();
    assert_eq!(req.read_host(), Ok("example.com".to_string()));
    assert_eq!(req.line.path, "/test");
    assert_eq!(req.line.method, Method::GET);
}
