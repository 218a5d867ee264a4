use mini_browser::response::{Header, HeaderError, Response, ResponseError, StatusLine, StatusLineError};

#[test]
fn test_resposne() {
    let raw_res = "HTTP/1.1 200 OK\r
Content-Encoding: gzip\r
Accept-Ranges: bytes\r
Age: 579161\r
Cache-Control: max-age=604800\r
Content-Type: text/html; charset=UTF-8\r
Date: Thu, 06 May 2021 06:39:14 GMT\r
Etag: \"3147526947+ident\"\r
Expires: Thu, 13 May 2021 06:39:14 GMT\r
Last-Modified: Thu, 17 Oct 2019 07:18:26 GMT\r
Server: ECS (sec/96DC)\r
Vary: Accept-Encoding\r
X-Cache: HIT\r
Content-Length: 648\r
\r
body";
    let res = Response::parse(raw_res).unwrap();

    assert_eq!(res.status_line.status, "OK");
    assert_eq!(res.status_line.status_code, 200);
    assert_eq!(res.status_line.proto, "HTTP/1.1");
    assert_eq!(res.header.get("Age"), Some("579161".to_string()));
    assert_eq!(res.body, "body");
}

#[test]
fn header_values_are_trimmed() {
    let h = Header::parse("A:  x y \t\r\nB:z\r\nA: w").unwrap();
    assert_eq!(h.get("A"), Some("w".to_string()));
    assert_eq!(h.get("B"), Some("z".to_string()));
    assert_eq!(h.get("C"), None);
}

#[test]
fn header_line_without_colon_fails() {
    match Header::parse("A: 1\r\nbroken") {
        Err(HeaderError::InvalidHeader(l)) => assert_eq!(l, "broken"),
        _ => panic!("expected an invalid header"),
    }
}

#[test]
fn status_line_errors() {
    assert_eq!(StatusLine::parse("").err(), Some(StatusLineError::NoProtocol));
    assert_eq!(StatusLine::parse("HTTP/1.1 OK").err(), Some(StatusLineError::NoStatusCode));
    assert_eq!(StatusLine::parse("HTTP/1.1 404").err(), Some(StatusLineError::NoStatus));
    let sl = StatusLine::parse("HTTP/1.0  404  Not Found").unwrap();
    assert_eq!(sl.status_code, 404);
    assert_eq!(sl.status, "Not");
}

#[test]
fn response_errors() {
    assert!(matches!(Response::parse("HTTP/1.1 200 OK"), Err(ResponseError::NoLine)));
    assert!(matches!(Response::parse("HTTP/1.1 200 OK\r\nA: b\r\n"), Err(ResponseError::NoHeaderEnd)));
    assert!(matches!(
        Response::parse("HTTP/1.1 x\r\nA: b\r\n\r\n"),
        Err(ResponseError::StatusLine(StatusLineError::NoStatusCode))
    ));
    assert!(matches!(
        Response::parse("HTTP/1.1 200 OK\r\nbad\r\n\r\n"),
        Err(ResponseError::Header(HeaderError::InvalidHeader(_)))
    ));
}
