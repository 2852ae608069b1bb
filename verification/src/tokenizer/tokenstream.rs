//! A lazy, finite, restartable sequence of tokens over one immutable input
//! buffer, produced by repeatedly invoking the scanner.

use vstd::prelude::*;

use crate::tokenizer::token::lemma_scan_step;
use crate::tokenizer::token::parse_next;
use crate::tokenizer::token::spec_scan;
use crate::tokenizer::token::Token;
use crate::tokenizer::token::TokenModel;

verus! {

/// The full ordered sequence of tokens the scanner draws from `input`
/// before it stops: one token per step, each step consuming at least one
/// byte, until no rule matches at the current position.
pub open spec fn token_seq(input: Seq<u8>) -> Seq<TokenModel>
    decreases input.len(),
{
    match spec_scan(input) {
        None => Seq::<TokenModel>::empty(),
        Some(step) => {
            let c = step.ws + step.len;
            if 1 <= c <= input.len() {
                seq![step.token] + token_seq(input.skip(c))
            } else {
                Seq::<TokenModel>::empty()
            }
        },
    }
}

/// Drawing one token: when the scanner matches, a stream's token sequence
/// is that token followed by the token sequence of the bytes after it;
/// when it does not, the sequence is empty.
pub proof fn lemma_token_seq_step(input: Seq<u8>)
    ensures
        match spec_scan(input) {
            Some(step) => token_seq(input) == seq![step.token] + token_seq(
                input.skip(step.ws + step.len),
            ),
            None => token_seq(input) == Seq::<TokenModel>::empty(),
        },
{
    lemma_scan_step(input);
}

/// The mathematical state of a token stream: the original buffer and the
/// bytes not yet consumed.
pub struct StreamModel {
    pub data: Seq<u8>,
    pub rest: Seq<u8>,
}

/// A token stream borrows its input buffer for its whole lifetime, keeping
/// the original start and the current remaining slice; `reset` rewinds the
/// remaining slice to the original start.
pub struct TokenStream<'a> {
    data: &'a [u8],
    rest: &'a [u8],
}

impl<'a> View for TokenStream<'a> {
    type V = StreamModel;

    closed spec fn view(&self) -> StreamModel {
        StreamModel { data: self.data@, rest: self.rest@ }
    }
}

impl<'a> TokenStream<'a> {
    /// A fresh stream over `data`, positioned at its start.
    pub fn new(data: &'a [u8]) -> (r: TokenStream<'a>)
        ensures
            r@.data == data@,
            r@.rest == data@,
    {
        TokenStream { data: data, rest: data }
    }

    /// Rewinds the stream to the start of its buffer, so that the same bytes
    /// can be tokenized again without re-acquiring the input.
    pub fn reset(&mut self)
        ensures
            final(self)@.data == old(self)@.data,
            final(self)@.rest == old(self)@.data,
    {
        self.rest = self.data;
    }

    /// Scans the next token from the remaining bytes and advances past it;
    /// reports the end of the stream when the scanner finds no match at the
    /// current position, leaving the stream unchanged.
    pub fn next(&mut self) -> (r: Option<Token<'a>>)
        ensures
            final(self)@.data == old(self)@.data,
            match spec_scan(old(self)@.rest) {
                Some(step) => r matches Some(tok) && tok@ == step.token && final(self)@.rest
                    == old(self)@.rest.skip(step.ws + step.len),
                None => r is None && final(self)@.rest == old(self)@.rest,
            },
    {
        match parse_next(self.rest) {
            Some((rest, token)) => {
                self.rest = rest;
                Some(token)
            },
            None => None,
        }
    }
}

/// The model of a fresh stream over `data`, as `new` builds it.
pub open spec fn fresh_stream(data: Seq<u8>) -> StreamModel {
    StreamModel { data: data, rest: data }
}

/// The model of a stream after `reset`, whatever it had already consumed.
pub open spec fn reset_stream(st: StreamModel) -> StreamModel {
    StreamModel { data: st.data, rest: st.data }
}

/// Restart law: tokenizing a buffer, calling `reset`, and tokenizing again
/// produces the identical ordered sequence of tokens both times. The tokens
/// a stream yields are a function of its remaining bytes alone, and after
/// `reset` the remaining bytes are again the whole buffer, exactly as in a
/// fresh stream over the same data.
pub proof fn lemma_reset_restarts(st: StreamModel)
    ensures
        token_seq(reset_stream(st).rest) == token_seq(fresh_stream(st.data).rest),
{
}

} // verus!
