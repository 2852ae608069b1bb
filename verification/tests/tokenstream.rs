use smee::tokenizer::token::Token;
use smee::tokenizer::tokenstream::TokenStream;

#[test]
fn test_tokenstream_iterator() {
    let mut ts = TokenStream::new(b"4 5 + ");

    assert_eq!(ts.next(), Some(Token::DecInt((b"4", 4))));
    assert_eq!(ts.next(), Some(Token::DecInt((b"5", 5))));
    assert_eq!(ts.next(), Some(Token::Word(b"+")));
    assert_eq!(ts.next(), None);
    ts.reset();
    assert_eq!(ts.next(), Some(Token::DecInt((b"4", 4))));
    assert_eq!(ts.next(), Some(Token::DecInt((b"5", 5))));
    assert_eq!(ts.next(), Some(Token::Word(b"+")));
    assert_eq!(ts.next(), None);
}

#[test]
fn test_token_spans_reconstruct_prefix() {
    // the raw spans, joined with the whitespace between them, rebuild a
    // prefix of the input buffer
    let input: &[u8] = b"  12 foo 0x2A \n tail";
    let mut ts = TokenStream::new(input);
    let mut rebuilt: Vec<u8> = Vec::new();
    rebuilt.extend_from_slice(b"  ");
    rebuilt.extend_from_slice(ts.next().unwrap().raw());
    rebuilt.extend_from_slice(b" ");
    rebuilt.extend_from_slice(ts.next().unwrap().raw());
    rebuilt.extend_from_slice(b" ");
    rebuilt.extend_from_slice(ts.next().unwrap().raw());
    rebuilt.extend_from_slice(b" \n ");
    rebuilt.extend_from_slice(ts.next().unwrap().raw());
    assert_eq!(ts.next(), None);
    assert_eq!(rebuilt.as_slice(), input);
}

#[test]
fn test_tokenstream_crosses_newlines() {
    let mut ts = TokenStream::new(b"7 \n 8 ");
    assert_eq!(ts.next(), Some(Token::DecInt((b"7", 7))));
    assert_eq!(ts.next(), Some(Token::DecInt((b"8", 8))));
    assert_eq!(ts.next(), None);
    // the exhausted stream stays exhausted until it is rewound
    assert_eq!(ts.next(), None);
    ts.reset();
    assert_eq!(ts.next(), Some(Token::DecInt((b"7", 7))));
}
