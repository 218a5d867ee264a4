use mini_browser::consumer::Consumer;

#[test]
fn test_next_until() {
    let mut con = Consumer::new("https://ja.wikipedia.org/wiki/Uniform_Resource_Locator");

    let protocol = con.next_until("://").unwrap();
    con.next_n("://".len());
    let host = con.next_until("/").unwrap();
    let path = con.next_until_space().unwrap();

    assert_eq!(&protocol, "https");
    assert_eq!(&host, "ja.wikipedia.org");
    assert_eq!(&path, "/wiki/Uniform_Resource_Locator");
}

#[test]
fn next_until_missing_delimiter_leaves_cursor() {
    let mut con = Consumer::new("abc def");
    assert_eq!(con.next_until("xyz"), None);
    assert_eq!(con.peek(), Some("a".to_string()));
    assert_eq!(con.next_until("-->"), None);
    assert_eq!(con.peek_char(), Some('a'));
}

#[test]
fn next_until_leaves_delimiter() {
    let mut con = Consumer::new("ab-->cd");
    assert_eq!(con.next_until("-->"), Some("ab".to_string()));
    assert_eq!(con.peek_n(3), Some("-->".to_string()));
    assert_eq!(con.next_until(""), Some(String::new()));
}

#[test]
fn to_usize_on_non_digit_consumes_nothing() {
    let mut con = Consumer::new("x12");
    assert_eq!(con.to_usize(), None);
    assert_eq!(con.peek_char(), Some('x'));
    let mut empty = Consumer::new("");
    assert_eq!(empty.to_usize(), None);
}

#[test]
fn to_usize_reads_digits() {
    let mut con = Consumer::new("200 OK");
    assert_eq!(con.to_usize(), Some(200));
    assert_eq!(con.peek_char(), Some(' '));
    con.skip_space();
    assert_eq!(con.next_until_space(), Some("OK".to_string()));
    assert_eq!(con.next_until_space(), None);
}

#[test]
fn to_usize_saturates() {
    let mut con = Consumer::new("99999999999999999999999999");
    assert_eq!(con.to_usize(), Some(usize::MAX));
    assert_eq!(con.peek_char(), None);
}

#[test]
fn next_n_rolls_back_when_short() {
    let mut con = Consumer::new("abc");
    assert_eq!(con.next_n(4), None);
    assert_eq!(con.peek_n(3), Some("abc".to_string()));
    assert_eq!(con.peek_n(4), None);
    assert_eq!(con.next_n(2), Some("ab".to_string()));
    assert_eq!(con.next(), Some("c".to_string()));
    assert_eq!(con.next(), None);
    assert_eq!(con.next_char(), None);
}

#[test]
fn skip_space_skips_blanks_only() {
    let mut con = Consumer::new(" \t x");
    con.skip_space();
    assert_eq!(con.peek_char(), Some('x'));
    con.skip_space();
    assert_eq!(con.peek_char(), Some('x'));
}
