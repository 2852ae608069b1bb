use smee::CellValue;
use smee::Context;
use smee::Error;
use smee::Dictionary;
use smee::Stack;
use smee::tokenizer::token::Token;

#[test]
fn test_eval() {
    let mut ctx = Context::new();
    if let Err(error) = ctx.eval(b"4 5 6 5 ") {
        assert!(false, "{}", format!("{:#?}", error))
    }
    assert_eq!(ctx.stack.data[0], CellValue::Integer(4));
}

#[test]
fn test_eval_stack_bottom_to_top() {
    let mut ctx = Context::new();
    assert!(ctx.eval(b"4 5 6 5 ").is_ok());
    assert_eq!(
        ctx.stack.data,
        vec![
            CellValue::Integer(4),
            CellValue::Integer(5),
            CellValue::Integer(6),
            CellValue::Integer(5),
        ]
    );
}

#[test]
fn test_eval_unknown_word() {
    let mut ctx = Context::new();
    match ctx.eval(b"foo") {
        Err(Error::SyntaxError(raw)) => assert_eq!(raw, b"foo"),
        _ => assert!(false),
    }
    assert!(ctx.stack.data.is_empty());
}

#[test]
fn test_eval_partial_effects_persist() {
    let mut ctx = Context::new();
    match ctx.eval(b"4 foo 5") {
        Err(Error::SyntaxError(raw)) => assert_eq!(raw, b"foo"),
        _ => assert!(false),
    }
    // the push before the failing token is kept; nothing after it ran
    assert_eq!(ctx.stack.data, vec![CellValue::Integer(4)]);
}

#[test]
fn test_eval_hex_literal() {
    let mut ctx = Context::new();
    assert!(ctx.eval(b"0x2A ").is_ok());
    assert_eq!(ctx.stack.data, vec![CellValue::Integer(42)]);
}

#[test]
fn test_eval_comment_is_discarded() {
    let mut ctx = Context::new();
    assert!(ctx.eval(b"\\ note").is_ok());
    assert!(ctx.stack.data.is_empty());
}

#[test]
fn test_eval_comment_then_literal() {
    // the comment span stops before the newline; the newline itself is
    // skipped as whitespace, so the literal after the comment line is
    // still evaluated
    let mut ctx = Context::new();
    assert!(ctx.eval(b"\\ ignore this\n7 ").is_ok());
    assert_eq!(ctx.stack.data, vec![CellValue::Integer(7)]);
}

#[test]
fn test_eval_multiline_input() {
    let mut ctx = Context::new();
    assert!(ctx.eval(b"1\n2 ").is_ok());
    assert_eq!(
        ctx.stack.data,
        vec![CellValue::Integer(1), CellValue::Integer(2)]
    );
}

#[test]
fn test_eval_empty_and_blank_input() {
    let mut ctx = Context::new();
    assert!(ctx.eval(b"").is_ok());
    assert!(ctx.eval(b"   ").is_ok());
    assert!(ctx.stack.data.is_empty());
}

#[test]
fn test_eval_session_persists_across_calls() {
    let mut ctx = Context::new();
    assert!(ctx.eval(b"1 ").is_ok());
    assert!(ctx.eval(b"2 ").is_ok());
    assert_eq!(
        ctx.stack.data,
        vec![CellValue::Integer(1), CellValue::Integer(2)]
    );
}

#[test]
fn test_eval_tab_whitespace() {
    let mut ctx = Context::new();
    assert!(ctx.eval(b"\t0x10\t").is_ok());
    assert_eq!(ctx.stack.data, vec![CellValue::Integer(16)]);
}

#[test]
fn test_eval_hex_wraparound() {
    let mut ctx = Context::new();
    assert!(ctx.eval(b"0xFFFFFFFF ").is_ok());
    assert_eq!(ctx.stack.data, vec![CellValue::Integer(-1)]);
}

#[test]
fn test_eval_overflowed_decimal_is_a_word() {
    let mut ctx = Context::new();
    match ctx.eval(b"9999999999 ") {
        Err(Error::SyntaxError(raw)) => assert_eq!(raw, b"9999999999"),
        _ => assert!(false),
    }
    assert!(ctx.stack.data.is_empty());
}

#[test]
fn test_cell_conversion() {
    assert_eq!(
        CellValue::try_from(Token::DecInt((b"7", 7))),
        Ok(CellValue::Integer(7))
    );
    assert_eq!(
        CellValue::try_from(Token::HexInt((b"0x7", 7))),
        Ok(CellValue::Integer(7))
    );
    assert_eq!(
        CellValue::try_from(Token::Float((b"1.5", 0x3fc00000))),
        Ok(CellValue::Float(0x3fc00000))
    );
    assert_eq!(
        CellValue::try_from(Token::Comment(b"\\ c")),
        Err(Error::ConversionError)
    );
    assert_eq!(
        CellValue::try_from(Token::Word(b"dup")),
        Err(Error::ConversionError)
    );
}

#[test]
fn test_stack_lifo() {
    let mut stack = Stack::default();
    assert_eq!(stack.pop(), None);
    stack.push(CellValue::Integer(1));
    stack.push(CellValue::Ptr(2));
    stack.push(CellValue::Function);
    assert_eq!(stack.pop(), Some(CellValue::Function));
    assert_eq!(stack.pop(), Some(CellValue::Ptr(2)));
    assert_eq!(stack.pop(), Some(CellValue::Integer(1)));
    assert_eq!(stack.pop(), None);
}

#[test]
fn test_dictionary_is_empty() {
    let dictionary = Dictionary::default();
    assert!(dictionary.lookup(b"dup").is_none());
    assert!(dictionary.lookup(b"").is_none());
}
