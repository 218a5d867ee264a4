use mini_browser::html_parser::{tokenize, Token, TokenType, TokenizeError, Tokenizer};

fn name_of(t: &Token) -> Option<&str> {
    t.name.as_deref()
}

fn data_of(t: &Token) -> Option<&str> {
    t.data.as_deref()
}

#[test]
fn test_tokenize() {
    let tokens = tokenize("<body><h1>Hello</h1></body>").unwrap();
    let types: Vec<TokenType> = tokens.iter().map(|t| t.token_type).collect();
    assert_eq!(
        types,
        vec![
            TokenType::StartTag,
            TokenType::StartTag,
            TokenType::Content,
            TokenType::EndTag,
            TokenType::EndTag
        ]
    );
    let names: Vec<Option<&str>> = tokens.iter().map(name_of).collect();
    assert_eq!(names, vec![Some("body"), Some("h1"), None, Some("h1"), Some("body")]);
    let datas: Vec<Option<&str>> = tokens.iter().map(data_of).collect();
    assert_eq!(datas, vec![None, None, Some("Hello"), None, None]);
    for t in &tokens {
        assert!(t.attr.is_empty());
        assert!(!t.self_closing);
    }

    let tokens = tokenize("<img src='hello.png' alt='hello image'/>").unwrap();
    assert_eq!(tokens.len(), 1);
    assert_eq!(tokens[0].token_type, TokenType::StartTag);
    assert_eq!(name_of(&tokens[0]), Some("img"));
    assert!(tokens[0].self_closing);
    assert_eq!(tokens[0].attr.len(), 2);
    assert_eq!(tokens[0].attr[0].name, "src");
    assert_eq!(tokens[0].attr[0].value, "hello.png");
    assert_eq!(tokens[0].attr[1].name, "alt");
    assert_eq!(tokens[0].attr[1].value, "hello image");
}

#[test]
fn tokenizer_execute_matches_tokenize() {
    let mut tokenizer = Tokenizer::new("<p>hi</p>");
    let tokens = tokenizer.execute().unwrap();
    assert_eq!(tokens.len(), 3);
    assert_eq!(data_of(&tokens[1]), Some("hi"));
}

#[test]
fn plain_text_is_one_content_token() {
    let tokens = tokenize("just some text & more").unwrap();
    assert_eq!(tokens.len(), 1);
    assert_eq!(tokens[0].token_type, TokenType::Content);
    assert_eq!(data_of(&tokens[0]), Some("just some text & more"));
    assert_eq!(name_of(&tokens[0]), None);
}

#[test]
fn empty_input_gives_no_token() {
    assert_eq!(tokenize("").unwrap().len(), 0);
}

#[test]
fn digit_after_open_angle_fails() {
    assert_eq!(tokenize("<1>").unwrap_err(), TokenizeError::InvalidFirstCharacterOfTagName);
}

#[test]
fn comment_token() {
    let tokens = tokenize("<!--comment-->").unwrap();
    assert_eq!(tokens.len(), 1);
    assert_eq!(tokens[0].token_type, TokenType::Comment);
    assert_eq!(data_of(&tokens[0]), Some("comment"));
}

#[test]
fn doctype_token() {
    let tokens = tokenize("<!DOCTYPE html><p>x</p>").unwrap();
    assert_eq!(tokens.len(), 4);
    assert_eq!(tokens[0].token_type, TokenType::Doctype);
    assert_eq!(name_of(&tokens[0]), Some("html"));
}

#[test]
fn text_before_tag_is_flushed() {
    let tokens = tokenize("ab<br/>cd").unwrap();
    let types: Vec<TokenType> = tokens.iter().map(|t| t.token_type).collect();
    assert_eq!(types, vec![TokenType::Content, TokenType::StartTag, TokenType::Content]);
    assert_eq!(data_of(&tokens[0]), Some("ab"));
    assert!(tokens[1].self_closing);
    assert_eq!(data_of(&tokens[2]), Some("cd"));
}

#[test]
fn quoted_value_closes_on_its_own_quote() {
    let tokens = tokenize("<a title=\"it's\"/>").unwrap();
    assert_eq!(tokens[0].attr[0].value, "it's");
}

#[test]
fn unquoted_value_ends_tag() {
    let tokens = tokenize("<a href=x1>").unwrap();
    assert_eq!(tokens.len(), 1);
    assert_eq!(name_of(&tokens[0]), Some("a"));
    assert_eq!(tokens[0].attr.len(), 1);
    assert_eq!(tokens[0].attr[0].name, "href");
    assert_eq!(tokens[0].attr[0].value, "x1");
}

#[test]
fn unquoted_attribute_is_added_to_its_tag() {
    let tokens = tokenize("<p id=x>").unwrap();
    assert_eq!(tokens.len(), 1);
    assert_eq!(tokens[0].token_type, TokenType::StartTag);
    assert_eq!(name_of(&tokens[0]), Some("p"));
    assert_eq!(tokens[0].attr.len(), 1);
    assert_eq!(tokens[0].attr[0].name, "id");
    assert_eq!(tokens[0].attr[0].value, "x");
}

#[test]
fn attributes_do_not_run_together() {
    let tokens = tokenize("<p a=x b='y'/>").unwrap();
    assert_eq!(tokens.len(), 1);
    assert_eq!(tokens[0].attr.len(), 2);
    assert_eq!(tokens[0].attr[0].name, "a");
    assert_eq!(tokens[0].attr[0].value, "x");
    assert_eq!(tokens[0].attr[1].name, "b");
    assert_eq!(tokens[0].attr[1].value, "y");

    let tokens = tokenize("<p id=x><q a='b'/>").unwrap();
    assert_eq!(tokens.len(), 2);
    assert_eq!(tokens[1].attr.len(), 1);
    assert_eq!(tokens[1].attr[0].name, "a");
    assert_eq!(tokens[1].attr[0].value, "b");
}

#[test]
fn re_tokenizing_rendered_tokens() {
    round_trip("<div><img src='a.png' alt='b c'/>text<!--note--></div>");
    round_trip("<!DOCTYPE html><p t=\"it's\" u='say \"hi\"' v=x w=''/>");
    round_trip("<a href='x.html' id=top>link</a>");
}

fn round_trip(x: &str) {
    let first = tokenize(x).unwrap();
    let mut rendered = String::new();
    for t in &first {
        match t.token_type {
            TokenType::StartTag => {
                rendered.push('<');
                rendered.push_str(name_of(t).unwrap());
                for (k, a) in t.attr.iter().enumerate() {
                    if !t.self_closing && k + 1 == t.attr.len() {
                        rendered.push_str(&format!(" {}={}", a.name, a.value));
                    } else {
                        let q = if a.value.contains('"') { '\'' } else { '"' };
                        rendered.push_str(&format!(" {}={}{}{}", a.name, q, a.value, q));
                    }
                }
                rendered.push_str(if t.self_closing { "/>" } else { ">" });
            }
            TokenType::EndTag => rendered.push_str(&format!("</{}>", name_of(t).unwrap())),
            TokenType::Content => rendered.push_str(data_of(t).unwrap()),
            TokenType::Comment => rendered.push_str(&format!("<!--{}-->", data_of(t).unwrap())),
            TokenType::Doctype => rendered.push_str(&format!("<!DOCTYPE {}>", name_of(t).unwrap())),
        }
    }
    let second = tokenize(&rendered).unwrap();
    assert_eq!(first.len(), second.len());
    for (a, b) in first.iter().zip(second.iter()) {
        assert_eq!(a.token_type, b.token_type);
        assert_eq!(a.name, b.name);
        assert_eq!(a.data, b.data);
        assert_eq!(a.self_closing, b.self_closing);
        assert_eq!(a.attr.len(), b.attr.len());
        for (p, q) in a.attr.iter().zip(b.attr.iter()) {
            assert_eq!(p.name, q.name);
            assert_eq!(p.value, q.value);
        }
    }
}

#[test]
fn each_error_has_an_input() {
    let cases: Vec<(&str, TokenizeError)> = vec![
        ("<", TokenizeError::EofBeforeTagName),
        ("<?", TokenizeError::InvalidFirstCharacterOfTagName),
        ("</>", TokenizeError::MissingEndTagName),
        ("</", TokenizeError::EofBeforeTagName),
        ("</1", TokenizeError::InvalidFirstCharacterOfTagName),
        ("<a", TokenizeError::EofInTag),
        ("<a =", TokenizeError::UnexpectedEqualsBeforeAttributeName),
        ("<a ", TokenizeError::UnexpectedEofWaitingForAttributeName),
        ("<a b", TokenizeError::UnexpectedEofWaitingForAttributeName),
        ("<a b1", TokenizeError::UnexpectedCharacterInAttributeName),
        ("<a b=>", TokenizeError::MissingAttributeValue),
        ("<a b=", TokenizeError::EofInTag),
        ("<a b='x", TokenizeError::EofInTag),
        ("<a b=x-", TokenizeError::UnexpectedCharacterInUnquotedAttributeValue),
        ("<a b='x'c", TokenizeError::MissingWhitespaceBetweenAttributes),
        ("<a/x", TokenizeError::UnexpectedSolidusInTag),
        ("<a/", TokenizeError::EofInTag),
        ("<!x", TokenizeError::IncorrectlyOpenedComment),
        ("<!--abc", TokenizeError::EofInCommentTag),
        ("<!DOCTYPEhtml>", TokenizeError::MissingWhitespaceBeforeDoctypeName),
        ("<!DOCTYPE h-t>", TokenizeError::InvalidCharacterInDoctypeName),
        ("<!DOCTYPE html", TokenizeError::EofInDoctype),
        ("<!DOCTYPE", TokenizeError::EofInDoctype),
    ];
    for (input, expected) in cases {
        assert_eq!(tokenize(input).unwrap_err(), expected, "input {:?}", input);
    }
}

#[test]
fn end_tag_takes_no_attributes() {
    let tokens = tokenize("</a b='c'/>").unwrap();
    assert_eq!(tokens.len(), 1);
    assert_eq!(tokens[0].token_type, TokenType::EndTag);
    assert_eq!(name_of(&tokens[0]), Some("a"));
    assert!(tokens[0].attr.is_empty());
    let tokens = tokenize("</a b=c>").unwrap();
    assert_eq!(tokens[0].token_type, TokenType::EndTag);
    assert!(tokens[0].attr.is_empty());
}

#[test]
fn empty_comment_and_doctype_name_are_present() {
    let tokens = tokenize("<!---->").unwrap();
    assert_eq!(tokens[0].token_type, TokenType::Comment);
    assert_eq!(data_of(&tokens[0]), Some(""));
    assert_eq!(name_of(&tokens[0]), None);
    let tokens = tokenize("<!DOCTYPE >").unwrap();
    assert_eq!(tokens[0].token_type, TokenType::Doctype);
    assert_eq!(name_of(&tokens[0]), Some(""));
    assert_eq!(data_of(&tokens[0]), None);
}
