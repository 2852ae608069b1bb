//! Core of a small threaded-interpreter language in the Forth tradition: a
//! scanner splits a line of bytes into typed tokens, and an evaluation loop
//! dispatches each token against a dictionary of words or converts it to a
//! value on the stack.

use vstd::prelude::*;

pub mod tokenizer;

use crate::tokenizer::token::{Token, TokenModel};

verus! {

/// An evaluation failure, carrying the offending token's raw bytes where the
/// token could not be dispatched.
#[derive(Debug, PartialEq, Eq)]
pub enum Error<'a> {
    /// A lexically well-formed token has no runtime value representation.
    ConversionError,
    /// A word resolved neither to a dictionary entry nor to a numeric
    /// literal; carries the exact source bytes for diagnostics.
    SyntaxError(&'a [u8]),
}

/// A single runtime value held on the stack. A cell never borrows from the
/// input buffer: conversion from a token copies the decoded scalar out.
#[derive(Debug, PartialEq, Eq, Clone, Copy)]
pub enum CellValue {
    /// A 32-bit signed integer.
    Integer(i32),
    /// Reserved for 32-bit floating-point values, which the scanner does not
    /// yet produce; carries the raw bit pattern of the eventual value.
    Float(u32),
    /// An address-sized unsigned integer, opaque to the evaluator.
    Ptr(usize),
    /// Marks an executable cell; its payload is not yet specified.
    Function,
}

impl CellValue {
    /// Converts a token to a runtime cell: numeric tokens carry their decoded
    /// value onto the stack, while comments and words have no value form.
    pub fn try_from<'a>(value: Token<'a>) -> (r: Result<CellValue, Error<'a>>)
        ensures
            match cell_of(value@) {
                Some(c) => r matches Ok(cell) && cell == c,
                None => r matches Err(e) && e is ConversionError,
            },
    {
        match value {
            Token::Comment(_) => Err(Error::ConversionError),
            Token::DecInt(value) => Ok(CellValue::Integer(value.1)),
            Token::HexInt(value) => Ok(CellValue::Integer(value.1)),
            Token::Float(value) => Ok(CellValue::Float(value.1)),
            Token::Word(_) => Err(Error::ConversionError),
        }
    }
}

/// The cell a token converts to, if any: comments and words are never
/// convertible, numeric tokens yield the value decoded by the scanner.
pub open spec fn cell_of(t: TokenModel) -> Option<CellValue> {
    match t {
        TokenModel::Comment { .. } => None,
        TokenModel::DecInt { value, .. } => Some(CellValue::Integer(value as i32)),
        TokenModel::HexInt { value, .. } => Some(CellValue::Integer(value as i32)),
        TokenModel::Float { value, .. } => Some(CellValue::Float(value as u32)),
        TokenModel::Word { .. } => None,
    }
}

/// A last-in-first-out container of runtime cells, owned exclusively by one
/// evaluation context.
pub struct Stack {
    pub data: Vec<CellValue>,
}

impl View for Stack {
    type V = Seq<CellValue>;

    open spec fn view(&self) -> Seq<CellValue> {
        self.data@
    }
}

impl Default for Stack {
    fn default() -> (r: Stack)
        ensures
            r@ == Seq::<CellValue>::empty(),
    {
        Stack { data: Vec::new() }
    }
}

impl Stack {
    /// Appends a cell at the top of the stack.
    pub fn push(&mut self, value: CellValue)
        ensures
            final(self)@ == old(self)@.push(value),
    {
        self.data.push(value);
    }

    /// Removes and returns the most recently pushed cell, or reports that
    /// the stack is empty.
    pub fn pop(&mut self) -> (r: Option<CellValue>)
        ensures
            old(self)@.len() == 0 ==> r is None && final(self)@ == old(self)@,
            old(self)@.len() > 0 ==> (r matches Some(v) && v == old(self)@.last()
                && final(self)@ == old(self)@.drop_last()),
    {
        self.data.pop()
    }
}

/// An executable entry bound to a word name: the extension point where word
/// behavior (primitive operations, user-defined sequences) is eventually
/// installed. No entry kind is defined yet: nothing in this crate
/// constructs the placeholder variant, and `lookup` never returns one.
pub enum DictionaryEntry {
    Reserved,
}

/// A mapping from word names (raw byte strings, case-sensitive) to
/// executable entries; the seam where word behavior is eventually hosted.
/// There is no mechanism to register an entry yet.
pub struct Dictionary {}

impl Default for Dictionary {
    fn default() -> (r: Dictionary) {
        Dictionary {}
    }
}

impl Dictionary {
    /// Looks up a word name. No entry can be registered yet, so every
    /// lookup reports that the name is not found.
    pub fn lookup<'a>(&self, _name: &'a [u8]) -> (r: Option<DictionaryEntry>)
        ensures
            r is None,
    {
        None
    }
}

/// The mathematical outcome of evaluating one chunk of input against a
/// stack: evaluation either consumes every token the scanner yields, or
/// stops at the first token that resolves neither to a dictionary entry nor
/// to a cell.
pub enum EvalOutcome {
    /// Every token was consumed; `stack` is the stack afterwards.
    Done { stack: Seq<CellValue> },
    /// A token failed to dispatch; `raw` is its span, and `stack` keeps the
    /// effects of the tokens before it, which are not rolled back.
    Failed { stack: Seq<CellValue>, raw: Seq<u8> },
}

/// Evaluation of `input` against `stack`, token by token in scan order:
/// comments are discarded, numeric literals push their decoded value, and
/// any other token fails the call at that point, since the dictionary
/// cannot resolve any word yet.
pub open spec fn spec_eval(stack: Seq<CellValue>, input: Seq<u8>) -> EvalOutcome
    decreases input.len(),
{
    match crate::tokenizer::token::spec_scan(input) {
        None => EvalOutcome::Done { stack },
        Some(step) => {
            let c = step.ws + step.len;
            if 1 <= c <= input.len() {
                let rest = input.skip(c);
                if step.token is Comment {
                    spec_eval(stack, rest)
                } else {
                    match cell_of(step.token) {
                        Some(cell) => spec_eval(stack.push(cell), rest),
                        None => EvalOutcome::Failed { stack, raw: step.token.raw() },
                    }
                }
            } else {
                EvalOutcome::Done { stack }
            }
        },
    }
}

/// Owns one stack and one dictionary and drives the main loop over a token
/// stream. Created once per session: state accumulates across repeated
/// evaluation calls, as in a read-eval-print session.
pub struct Context {
    pub stack: Stack,
    pub dictionary: Dictionary,
}

impl Default for Context {
    fn default() -> (r: Context)
        ensures
            r.stack@ == Seq::<CellValue>::empty(),
    {
        Context { stack: Stack::default(), dictionary: Dictionary::default() }
    }
}

impl Context {
    /// A fresh context with an empty stack and an empty dictionary.
    pub fn new() -> (r: Context)
        ensures
            r.stack@ == Seq::<CellValue>::empty(),
    {
        Context::default()
    }

    /// Evaluates one chunk of source text against the context's persistent
    /// stack and dictionary. For each token in scan order: a comment is
    /// discarded; a word found in the dictionary would be executed, though
    /// no entry can be registered yet; a numeric literal pushes its decoded
    /// value on the stack; any other token aborts the call at once with a
    /// syntax error carrying its raw bytes. Effects of earlier tokens in
    /// the same call are kept, not rolled back.
    pub fn eval<'a>(&mut self, input: &'a [u8]) -> (r: Result<(), Error<'a>>)
        ensures
            match spec_eval(old(self).stack@, input@) {
                EvalOutcome::Done { stack } => r is Ok && final(self).stack@ == stack,
                EvalOutcome::Failed { stack, raw } => (r matches Err(e) && e matches
                    Error::SyntaxError(b) && b@ == raw && final(self).stack@ == stack),
            },
    {
        let mut tokenstream = crate::tokenizer::tokenstream::TokenStream::new(input);
        loop
            invariant
                tokenstream@.data == input@,
                spec_eval(old(self).stack@, input@) == spec_eval(self.stack@, tokenstream@.rest),
            decreases tokenstream@.rest.len(),
        {
            let ghost prev = tokenstream@.rest;
            match tokenstream.next() {
                None => {
                    return Ok(());
                },
                Some(token) => {
                    proof {
                        crate::tokenizer::token::lemma_scan_step(prev);
                    }
                    let raw = token.raw();
                    match token {
                        Token::Comment(_) => {
                        },
                        _ => {
                            match self.dictionary.lookup(raw) {
                                Some(_entry) => {
                                    // unreachable while the dictionary is empty
                                },
                                None => {
                                    match CellValue::try_from(token) {
                                        Ok(number) => {
                                            self.stack.push(number);
                                        },
                                        Err(_) => {
                                            return Err(Error::SyntaxError(raw));
                                        },
                                    }
                                },
                            }
                        },
                    }
                },
            }
        }
    }
}

} // verus!
