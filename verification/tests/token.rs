use smee::tokenizer::token::parse_comment;
use smee::tokenizer::token::parse_decint;
use smee::tokenizer::token::parse_hexint;
use smee::tokenizer::token::parse_next;
use smee::tokenizer::token::parse_word;
use smee::tokenizer::token::hex_to_i32;
use smee::tokenizer::token::Token;

#[test]
fn test_parse_comment() {
    // positive
    if let Some(parsed_token) = parse_comment(b"\\ fooo comment\n ") {
        assert_eq!(parsed_token.1, Token::Comment(b"\\ fooo comment"));
        assert_eq!(parsed_token.0, b"\n ");
    } else {
        assert!(false);
    }

    // negative: the comment rule itself does not skip leading whitespace
    assert!(parse_comment(b" \\ fooo comment\n ").is_none());
}

#[test]
fn test_parse_decint() {
    // positive
    if let Some(parsed_token) = parse_decint(b"42") {
        assert_eq!(parsed_token.1, Token::DecInt((b"42", 42)));
        assert_eq!(parsed_token.0, b"");
    } else {
        assert!(false);
    }
    if let Some(parsed_token) = parse_decint(b"23 ") {
        assert_eq!(parsed_token.1, Token::DecInt((b"23", 23)));
        assert_eq!(parsed_token.0, b" ");
    } else {
        assert!(false);
    }

    // negative: leading whitespace is not part of the rule
    assert!(parse_decint(b" 432 ").is_none());

    // negative: the digit run is followed by `x`, not whitespace
    assert!(parse_decint(b"0x32").is_none());
}

#[test]
fn test_parse_hexint() {
    // positive
    if let Some(parsed_token) = parse_hexint(b"0x42") {
        assert_eq!(parsed_token.1, Token::HexInt((b"0x42", 0x42)));
        assert_eq!(parsed_token.0, b"");
    } else {
        assert!(false);
    }
    if let Some(parsed_token) = parse_hexint(b"0x23 ") {
        assert_eq!(parsed_token.1, Token::HexInt((b"0x23", 0x23)));
        assert_eq!(parsed_token.0, b" ");
    } else {
        assert!(false);
    }

    // negative: leading whitespace is not part of the rule
    assert!(parse_hexint(b" 0x23 ").is_none());

    // negative: no hex digit after the prefix
    assert!(parse_hexint(b"0xk32").is_none());
}

#[test]
fn test_parse_word() {
    if let Some((rest, word)) = parse_word(b"foo") {
        assert_eq!(word, Token::Word(b"foo"));
        assert_eq!(rest, b"");
    } else {
        assert!(false)
    }

    if let Some((rest, word)) = parse_word(b"baar ") {
        assert_eq!(word, Token::Word(b"baar"));
        assert_eq!(rest, b" ");
    } else {
        assert!(false)
    }

    if let Some((rest, word)) = parse_word(b"baar\n") {
        assert_eq!(word, Token::Word(b"baar"));
        assert_eq!(rest, b"\n");
    } else {
        assert!(false)
    }

    if let Some((rest, word)) = parse_word(b"baz kaz ") {
        assert_eq!(word, Token::Word(b"baz"));
        assert_eq!(rest, b" kaz ");
    } else {
        assert!(false)
    }

    // negative
    assert!(parse_word(b" baz ").is_none());
}

#[test]
fn test_parse_next() {
    if let Some((rest, token)) = parse_next(b" 4 5 +") {
        assert_eq!(token, Token::DecInt((b"4", 4)));
        if let Some((rest, token)) = parse_next(rest) {
            assert_eq!(token, Token::DecInt((b"5", 5)));
            if let Some((rest, token)) = parse_next(rest) {
                assert_eq!(token, Token::Word(b"+"));
                assert_eq!(rest, b"")
            } else {
                assert!(false);
            }
        } else {
            assert!(false);
        }
    } else {
        assert!(false);
    }
}

#[test]
fn test_raw_span() {
    assert_eq!(Token::Comment(b"\\ note").raw(), b"\\ note");
    assert_eq!(Token::DecInt((b"17", 17)).raw(), b"17");
    assert_eq!(Token::HexInt((b"0x11", 17)).raw(), b"0x11");
    assert_eq!(Token::Word(b"dup").raw(), b"dup");
}

#[test]
fn test_hex_to_i32_digits() {
    assert_eq!(hex_to_i32(b"2a"), Some(42));
    assert_eq!(hex_to_i32(b"2A"), Some(42));
    assert_eq!(hex_to_i32(b""), Some(0));
    assert_eq!(hex_to_i32(b"7fffffff"), Some(2147483647));
    // non-hex byte anywhere fails the decode
    assert!(hex_to_i32(b"2g").is_none());
}

#[test]
fn test_hex_wraparound() {
    // accumulation wraps around 32 bits instead of failing
    assert_eq!(hex_to_i32(b"ffffffff"), Some(-1));
    assert_eq!(hex_to_i32(b"80000000"), Some(i32::MIN));
    assert_eq!(hex_to_i32(b"100000001"), Some(1));
    if let Some((_, token)) = parse_hexint(b"0xFFFFFFFF") {
        assert_eq!(token, Token::HexInt((b"0xFFFFFFFF", -1)));
    } else {
        assert!(false);
    }
}

#[test]
fn test_decimal_overflow_falls_to_word() {
    // the decimal rule rejects a value that overflows a signed 32-bit
    // integer, and the span falls through to the word rule
    assert!(parse_decint(b"9999999999 ").is_none());
    if let Some((rest, token)) = parse_next(b"9999999999 ") {
        assert_eq!(token, Token::Word(b"9999999999"));
        assert_eq!(rest, b" ");
    } else {
        assert!(false);
    }

    // the largest representable value is still a decimal literal
    if let Some((_, token)) = parse_next(b"2147483647 ") {
        assert_eq!(token, Token::DecInt((b"2147483647", 2147483647)));
    } else {
        assert!(false);
    }
    assert!(parse_decint(b"2147483648 ").is_none());
}

#[test]
fn test_hex_prefix_is_lowercase_only() {
    assert!(parse_hexint(b"0X2A ").is_none());
    if let Some((_, token)) = parse_next(b"0X2A ") {
        assert_eq!(token, Token::Word(b"0X2A"));
    } else {
        assert!(false);
    }
}

#[test]
fn test_comment_needs_a_body() {
    // a backslash alone, or one followed directly by a newline, is no
    // comment; the word rule picks the backslash up instead
    assert!(parse_comment(b"\\").is_none());
    assert!(parse_comment(b"\\\nx").is_none());
    if let Some((rest, token)) = parse_next(b"\\\nx") {
        assert_eq!(token, Token::Word(b"\\"));
        assert_eq!(rest, b"\nx");
    } else {
        assert!(false);
    }
}

#[test]
fn test_float_slot_falls_through_to_word() {
    // the float rule is a reserved slot: a span with a decimal point is
    // currently scanned by the fallback word rule
    if let Some((rest, token)) = parse_next(b"1.5 ") {
        assert_eq!(token, Token::Word(b"1.5"));
        assert_eq!(rest, b" ");
    } else {
        assert!(false);
    }
}

#[test]
fn test_newline_is_numeric_lookahead() {
    // the lookahead after a numeric literal accepts any whitespace byte,
    // the newline included, without consuming it
    if let Some((rest, token)) = parse_decint(b"23\n") {
        assert_eq!(token, Token::DecInt((b"23", 23)));
        assert_eq!(rest, b"\n");
    } else {
        assert!(false);
    }
    if let Some((rest, token)) = parse_hexint(b"0x23\n") {
        assert_eq!(token, Token::HexInt((b"0x23", 0x23)));
        assert_eq!(rest, b"\n");
    } else {
        assert!(false);
    }
}

#[test]
fn test_newline_skipped_between_tokens() {
    // a newline in front of a token is skipped like any other whitespace
    if let Some((rest, token)) = parse_next(b"\n7 ") {
        assert_eq!(token, Token::DecInt((b"7", 7)));
        assert_eq!(rest, b" ");
    } else {
        assert!(false);
    }
}

#[test]
fn test_scan_stops_on_blank_input() {
    // whitespace alone holds no token
    assert!(parse_next(b"").is_none());
    assert!(parse_next(b"   ").is_none());
    assert!(parse_next(b" \n\t").is_none());
}
