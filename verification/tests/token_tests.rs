use alteraparser::token::{Token, TokenStream, TokenStreamFromList};

#[test]
fn test_token_stream_from_list() {
    let tokens = vec![Token::new("A", "a", 1, 1), Token::new("B", "b", 1, 2)];
    let mut stream = TokenStreamFromList::new(tokens);
    let t = stream.advance().unwrap();
    assert_eq!(t.token_type, "A");
    assert_eq!(t.value, "a");
    let t = stream.advance().unwrap();
    assert_eq!(t.token_type, "B");
    assert!(stream.advance().is_none());
    assert!(stream.advance().is_none());
}

#[test]
fn test_token_fields() {
    let t = Token::new("NUMBER", "42", 3, 7);
    assert_eq!(t.token_type, "NUMBER");
    assert_eq!(t.value, "42");
    assert_eq!(t.line, 3);
    assert_eq!(t.column, 7);
    assert_eq!(t.duplicate(), t);
}
