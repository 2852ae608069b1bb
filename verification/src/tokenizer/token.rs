//! The scanner: classifies a prefix of a byte slice as one typed token.
//!
//! The grammar tries, in strict priority order after skipping leading
//! whitespace (spaces, tabs and newlines): a comment (a backslash up to the
//! next newline), a decimal integer literal, a hexadecimal integer literal,
//! and finally a word (any run of non-whitespace bytes). Numeric literals
//! are accepted only when immediately followed by whitespace or the end of
//! the input, so a span such as `123abc` falls through to the word rule.

use vstd::prelude::*;
use vstd::slice::slice_index_get;
use vstd::slice::slice_subrange;

verus! {

/// One lexical unit. Every variant carries the exact raw byte span it was
/// lexed from, borrowed from the input buffer; numeric variants additionally
/// carry the decoded value.
#[derive(Debug, PartialEq, Eq)]
pub enum Token<'a> {
    /// A backslash and the bytes up to (not including) the next newline.
    Comment(&'a [u8]),
    /// A run of decimal digits and its decoded 32-bit value.
    DecInt((&'a [u8], i32)),
    /// A `0x` prefix, hex digits, and the decoded 32-bit value.
    HexInt((&'a [u8], i32)),
    /// Reserved for float literals, which the grammar does not yet produce;
    /// the second field stands for the bit pattern of the 32-bit value.
    Float((&'a [u8], u32)),
    /// A run of bytes that matched no other rule: a candidate dictionary name.
    Word(&'a [u8]),
}

/// The mathematical form of a token: its raw span as a byte sequence, and
/// for numeric variants the decoded value as an unbounded integer.
pub enum TokenModel {
    Comment { span: Seq<u8> },
    DecInt { span: Seq<u8>, value: int },
    HexInt { span: Seq<u8>, value: int },
    Float { span: Seq<u8>, value: int },
    Word { span: Seq<u8> },
}

impl TokenModel {
    /// The raw byte span the token was lexed from.
    pub open spec fn raw(self) -> Seq<u8> {
        match self {
            TokenModel::Comment { span } => span,
            TokenModel::DecInt { span, .. } => span,
            TokenModel::HexInt { span, .. } => span,
            TokenModel::Float { span, .. } => span,
            TokenModel::Word { span } => span,
        }
    }
}

impl<'a> View for Token<'a> {
    type V = TokenModel;

    open spec fn view(&self) -> TokenModel {
        match *self {
            Token::Comment(span) => TokenModel::Comment { span: span@ },
            Token::DecInt((span, v)) => TokenModel::DecInt { span: span@, value: v as int },
            Token::HexInt((span, v)) => TokenModel::HexInt { span: span@, value: v as int },
            Token::Float((span, v)) => TokenModel::Float { span: span@, value: v as int },
            Token::Word(span) => TokenModel::Word { span: span@ },
        }
    }
}

impl<'a> Token<'a> {
    /// The raw byte span this token was lexed from, borrowed from the input
    /// buffer rather than from the token itself.
    pub fn raw(&self) -> (r: &'a [u8])
        ensures
            r@ == self@.raw(),
    {
        match self {
            Token::Comment(data) => data,
            Token::DecInt((data, _)) => data,
            Token::HexInt((data, _)) => data,
            Token::Float((data, _)) => data,
            Token::Word(data) => data,
        }
    }
}

// ---------------------------------------------------------------------------
// Byte classes of the grammar.
// ---------------------------------------------------------------------------

/// Whitespace skipped before a token and accepted as numeric lookahead:
/// a space, a tab or a newline.
pub open spec fn is_whitespace_byte(b: u8) -> bool {
    b == 32 || b == 9 || b == 10
}

/// The line break that ends a comment. It never stands inside a token's
/// span; between tokens it is skipped like any other whitespace, so a
/// literal after a comment line is still scanned.
pub open spec fn is_newline_byte(b: u8) -> bool {
    b == 10
}

/// An ASCII decimal digit.
pub open spec fn is_dec_digit(b: u8) -> bool {
    48 <= b <= 57
}

/// An ASCII hexadecimal digit, either case.
pub open spec fn is_hex_digit(b: u8) -> bool {
    is_dec_digit(b) || (97 <= b <= 102) || (65 <= b <= 70)
}

/// A byte that may stand in a word: anything but a space, tab or newline.
pub open spec fn is_word_byte(b: u8) -> bool {
    !is_whitespace_byte(b)
}

/// A byte that may stand in a comment body: anything but a newline.
pub open spec fn is_comment_byte(b: u8) -> bool {
    !is_newline_byte(b)
}

// ---------------------------------------------------------------------------
// Maximal runs of each byte class, and their characterization.
// ---------------------------------------------------------------------------

/// Length of the maximal prefix of `s` made of whitespace bytes.
pub open spec fn whitespace_run(s: Seq<u8>) -> int
    decreases s.len(),
{
    if s.len() == 0 || !is_whitespace_byte(s[0]) {
        0
    } else {
        1 + whitespace_run(s.skip(1))
    }
}

/// Length of the maximal prefix of `s` made of decimal digits.
pub open spec fn digit_run(s: Seq<u8>) -> int
    decreases s.len(),
{
    if s.len() == 0 || !is_dec_digit(s[0]) {
        0
    } else {
        1 + digit_run(s.skip(1))
    }
}

/// Length of the maximal prefix of `s` made of hexadecimal digits.
pub open spec fn hex_run(s: Seq<u8>) -> int
    decreases s.len(),
{
    if s.len() == 0 || !is_hex_digit(s[0]) {
        0
    } else {
        1 + hex_run(s.skip(1))
    }
}

/// Length of the maximal prefix of `s` made of word bytes.
pub open spec fn word_run(s: Seq<u8>) -> int
    decreases s.len(),
{
    if s.len() == 0 || !is_word_byte(s[0]) {
        0
    } else {
        1 + word_run(s.skip(1))
    }
}

/// Length of the maximal prefix of `s` made of non-newline bytes.
pub open spec fn comment_body_run(s: Seq<u8>) -> int
    decreases s.len(),
{
    if s.len() == 0 || !is_comment_byte(s[0]) {
        0
    } else {
        1 + comment_body_run(s.skip(1))
    }
}

/// The run of whitespace is bounded by the input, every byte in it is a
/// space, tab or newline, and the byte right after it, if any, is not.
pub proof fn lemma_whitespace_run(s: Seq<u8>)
    ensures
        0 <= whitespace_run(s) <= s.len(),
        forall|i: int| 0 <= i < whitespace_run(s) ==> is_whitespace_byte(s[i]),
        whitespace_run(s) < s.len() ==> !is_whitespace_byte(s[whitespace_run(s)]),
    decreases s.len(),
{
    if s.len() == 0 || !is_whitespace_byte(s[0]) {
    } else {
        lemma_whitespace_run(s.skip(1));
        assert forall|i: int| 0 <= i < whitespace_run(s) implies is_whitespace_byte(s[i]) by {
            if i > 0 {
                assert(s.skip(1)[i - 1] == s[i]);
            }
        }
        if whitespace_run(s) < s.len() {
            assert(s.skip(1)[whitespace_run(s) - 1] == s[whitespace_run(s)]);
        }
    }
}

/// A prefix of whitespace stopped by a non-whitespace byte or the end of
/// the input is exactly the maximal run.
pub proof fn lemma_whitespace_run_exact(s: Seq<u8>, n: int)
    requires
        0 <= n <= s.len(),
        forall|i: int| 0 <= i < n ==> is_whitespace_byte(s[i]),
        n < s.len() ==> !is_whitespace_byte(s[n]),
    ensures
        whitespace_run(s) == n,
{
    lemma_whitespace_run(s);
}

/// The run of decimal digits is bounded by the input, every byte in it is a
/// digit, and the byte right after it, if any, is not.
pub proof fn lemma_digit_run(s: Seq<u8>)
    ensures
        0 <= digit_run(s) <= s.len(),
        forall|i: int| 0 <= i < digit_run(s) ==> is_dec_digit(s[i]),
        digit_run(s) < s.len() ==> !is_dec_digit(s[digit_run(s)]),
    decreases s.len(),
{
    if s.len() == 0 || !is_dec_digit(s[0]) {
    } else {
        lemma_digit_run(s.skip(1));
        assert forall|i: int| 0 <= i < digit_run(s) implies is_dec_digit(s[i]) by {
            if i > 0 {
                assert(s.skip(1)[i - 1] == s[i]);
            }
        }
        if digit_run(s) < s.len() {
            assert(s.skip(1)[digit_run(s) - 1] == s[digit_run(s)]);
        }
    }
}

/// A prefix of digits stopped by a non-digit byte or the end of the input is
/// exactly the maximal run.
pub proof fn lemma_digit_run_exact(s: Seq<u8>, n: int)
    requires
        0 <= n <= s.len(),
        forall|i: int| 0 <= i < n ==> is_dec_digit(s[i]),
        n < s.len() ==> !is_dec_digit(s[n]),
    ensures
        digit_run(s) == n,
{
    lemma_digit_run(s);
}

/// The run of hex digits is bounded by the input, every byte in it is a hex
/// digit, and the byte right after it, if any, is not.
pub proof fn lemma_hex_run(s: Seq<u8>)
    ensures
        0 <= hex_run(s) <= s.len(),
        forall|i: int| 0 <= i < hex_run(s) ==> is_hex_digit(s[i]),
        hex_run(s) < s.len() ==> !is_hex_digit(s[hex_run(s)]),
    decreases s.len(),
{
    if s.len() == 0 || !is_hex_digit(s[0]) {
    } else {
        lemma_hex_run(s.skip(1));
        assert forall|i: int| 0 <= i < hex_run(s) implies is_hex_digit(s[i]) by {
            if i > 0 {
                assert(s.skip(1)[i - 1] == s[i]);
            }
        }
        if hex_run(s) < s.len() {
            assert(s.skip(1)[hex_run(s) - 1] == s[hex_run(s)]);
        }
    }
}

/// A prefix of hex digits stopped by a non-hex byte or the end of the input
/// is exactly the maximal run.
pub proof fn lemma_hex_run_exact(s: Seq<u8>, n: int)
    requires
        0 <= n <= s.len(),
        forall|i: int| 0 <= i < n ==> is_hex_digit(s[i]),
        n < s.len() ==> !is_hex_digit(s[n]),
    ensures
        hex_run(s) == n,
{
    lemma_hex_run(s);
}

/// The run of word bytes is bounded by the input, every byte in it is a word
/// byte, and the byte right after it, if any, is not.
pub proof fn lemma_word_run(s: Seq<u8>)
    ensures
        0 <= word_run(s) <= s.len(),
        forall|i: int| 0 <= i < word_run(s) ==> is_word_byte(s[i]),
        word_run(s) < s.len() ==> !is_word_byte(s[word_run(s)]),
    decreases s.len(),
{
    if s.len() == 0 || !is_word_byte(s[0]) {
    } else {
        lemma_word_run(s.skip(1));
        assert forall|i: int| 0 <= i < word_run(s) implies is_word_byte(s[i]) by {
            if i > 0 {
                assert(s.skip(1)[i - 1] == s[i]);
            }
        }
        if word_run(s) < s.len() {
            assert(s.skip(1)[word_run(s) - 1] == s[word_run(s)]);
        }
    }
}

/// A prefix of word bytes stopped by a space, tab, newline or the end of the
/// input is exactly the maximal run.
pub proof fn lemma_word_run_exact(s: Seq<u8>, n: int)
    requires
        0 <= n <= s.len(),
        forall|i: int| 0 <= i < n ==> is_word_byte(s[i]),
        n < s.len() ==> !is_word_byte(s[n]),
    ensures
        word_run(s) == n,
{
    lemma_word_run(s);
}

/// The run of comment-body bytes is bounded by the input, every byte in it
/// is not a newline, and the byte right after it, if any, is one.
pub proof fn lemma_comment_body_run(s: Seq<u8>)
    ensures
        0 <= comment_body_run(s) <= s.len(),
        forall|i: int| 0 <= i < comment_body_run(s) ==> is_comment_byte(s[i]),
        comment_body_run(s) < s.len() ==> !is_comment_byte(s[comment_body_run(s)]),
    decreases s.len(),
{
    if s.len() == 0 || !is_comment_byte(s[0]) {
    } else {
        lemma_comment_body_run(s.skip(1));
        assert forall|i: int| 0 <= i < comment_body_run(s) implies is_comment_byte(s[i]) by {
            if i > 0 {
                assert(s.skip(1)[i - 1] == s[i]);
            }
        }
        if comment_body_run(s) < s.len() {
            assert(s.skip(1)[comment_body_run(s) - 1] == s[comment_body_run(s)]);
        }
    }
}

/// A prefix of non-newline bytes stopped by a newline or the end of the
/// input is exactly the maximal run.
pub proof fn lemma_comment_body_run_exact(s: Seq<u8>, n: int)
    requires
        0 <= n <= s.len(),
        forall|i: int| 0 <= i < n ==> is_comment_byte(s[i]),
        n < s.len() ==> !is_comment_byte(s[n]),
    ensures
        comment_body_run(s) == n,
{
    lemma_comment_body_run(s);
}

// ---------------------------------------------------------------------------
// Decoded values of numeric literals.
// ---------------------------------------------------------------------------

/// The base-10 value of a digit sequence, read left to right.
pub open spec fn dec_val(s: Seq<u8>) -> int
    decreases s.len(),
{
    if s.len() == 0 {
        0
    } else {
        dec_val(s.drop_last()) * 10 + (s.last() - 48)
    }
}

/// The value of a digit sequence is nonnegative.
pub proof fn lemma_dec_val_nonneg(s: Seq<u8>)
    requires
        forall|i: int| 0 <= i < s.len() ==> is_dec_digit(s[i]),
    ensures
        dec_val(s) >= 0,
    decreases s.len(),
{
    if s.len() > 0 {
        assert forall|i: int| 0 <= i < s.drop_last().len() implies is_dec_digit(
            s.drop_last()[i],
        ) by {
            assert(s.drop_last()[i] == s[i]);
        }
        lemma_dec_val_nonneg(s.drop_last());
    }
}

/// Appending digits never shrinks the value: the value of any prefix is at
/// most the value of the whole digit sequence.
pub proof fn lemma_dec_val_prefix_le(s: Seq<u8>, n: int)
    requires
        forall|i: int| 0 <= i < s.len() ==> is_dec_digit(s[i]),
        0 <= n <= s.len(),
    ensures
        dec_val(s.take(n)) <= dec_val(s),
    decreases s.len(),
{
    if n == s.len() {
        assert(s.take(n) =~= s);
    } else {
        assert forall|i: int| 0 <= i < s.drop_last().len() implies is_dec_digit(
            s.drop_last()[i],
        ) by {
            assert(s.drop_last()[i] == s[i]);
        }
        lemma_dec_val_nonneg(s.drop_last());
        lemma_dec_val_prefix_le(s.drop_last(), n);
        assert(s.drop_last().take(n) =~= s.take(n));
    }
}

/// The value of a hexadecimal digit byte, either case.
pub open spec fn hex_digit_val(b: u8) -> int {
    if is_dec_digit(b) {
        b - 48
    } else if 97 <= b <= 102 {
        b - 87
    } else {
        b - 55
    }
}

/// The accumulator after folding the hex digits of `s` left to right into a
/// 32-bit register, wrapping around on overflow; always in [0, 2^32).
pub open spec fn hex_acc(s: Seq<u8>) -> int
    decreases s.len(),
{
    if s.len() == 0 {
        0
    } else {
        (hex_acc(s.drop_last()) * 16 + hex_digit_val(s.last())) % 0x1_0000_0000
    }
}

/// The two's-complement reading of a 32-bit accumulator value.
pub open spec fn to_signed_32(n: int) -> int {
    if n < 0x8000_0000 {
        n
    } else {
        n - 0x1_0000_0000
    }
}

/// The decoded value of a hex literal's digits: base-16 accumulation with
/// 32-bit wraparound, read as a signed value.
pub open spec fn hex_val(s: Seq<u8>) -> int {
    to_signed_32(hex_acc(s))
}

/// The plain base-16 reading of a hex digit sequence, in no register at
/// all: the mathematical interpretation of the digits.
pub open spec fn hex_plain_val(s: Seq<u8>) -> int
    decreases s.len(),
{
    if s.len() == 0 {
        0
    } else {
        hex_plain_val(s.drop_last()) * 16 + hex_digit_val(s.last())
    }
}

/// The plain base-16 value of a hex digit sequence is nonnegative.
pub proof fn lemma_hex_plain_val_nonneg(s: Seq<u8>)
    requires
        forall|i: int| 0 <= i < s.len() ==> is_hex_digit(s[i]),
    ensures
        hex_plain_val(s) >= 0,
    decreases s.len(),
{
    if s.len() > 0 {
        assert forall|i: int| 0 <= i < s.drop_last().len() implies is_hex_digit(
            s.drop_last()[i],
        ) by {
            assert(s.drop_last()[i] == s[i]);
        }
        lemma_hex_plain_val_nonneg(s.drop_last());
    }
}

/// While the digits' plain base-16 value stays below 2^32, the 32-bit
/// accumulator holds exactly that value, and a value below 2^31 is also the
/// decoded signed result: wraparound changes nothing until the register
/// overflows.
pub proof fn lemma_hex_val_no_wrap(s: Seq<u8>)
    requires
        forall|i: int| 0 <= i < s.len() ==> is_hex_digit(s[i]),
        hex_plain_val(s) < 0x1_0000_0000,
    ensures
        hex_acc(s) == hex_plain_val(s),
        hex_plain_val(s) < 0x8000_0000 ==> hex_val(s) == hex_plain_val(s),
    decreases s.len(),
{
    if s.len() > 0 {
        assert forall|i: int| 0 <= i < s.drop_last().len() implies is_hex_digit(
            s.drop_last()[i],
        ) by {
            assert(s.drop_last()[i] == s[i]);
        }
        lemma_hex_plain_val_nonneg(s.drop_last());
        lemma_hex_val_no_wrap(s.drop_last());
    }
}

// ---------------------------------------------------------------------------
// The grammar: which rule matches at a position, and what it consumes.
// ---------------------------------------------------------------------------

/// The result of one scanner step: `ws` leading space and tab bytes are
/// skipped, and the token's raw span is the following `len` bytes.
pub struct ScanStep {
    pub ws: int,
    pub len: int,
    pub token: TokenModel,
}

/// The comment rule matches: a backslash followed by at least one byte
/// before the next newline.
pub open spec fn comment_matches(t: Seq<u8>) -> bool {
    t.len() >= 1 && t[0] == 92 && comment_body_run(t.skip(1)) >= 1
}

/// Length of a comment span: the backslash and the non-newline run after it.
pub open spec fn comment_len(t: Seq<u8>) -> int {
    1 + comment_body_run(t.skip(1))
}

/// Numeric lookahead: position `n` is the end of the input or holds a space
/// or tab, which is checked but not consumed.
pub open spec fn lookahead_ok(t: Seq<u8>, n: int) -> bool {
    n == t.len() || (n < t.len() && is_whitespace_byte(t[n]))
}

/// The decimal rule matches: at least one digit, numeric lookahead after the
/// digits, and a value that fits a signed 32-bit integer — on overflow the
/// rule fails and the span falls through to the word rule.
pub open spec fn dec_matches(t: Seq<u8>) -> bool {
    &&& digit_run(t) >= 1
    &&& lookahead_ok(t, digit_run(t))
    &&& dec_val(t.take(digit_run(t))) <= 0x7fff_ffff
}

/// The hexadecimal rule matches: the lowercase prefix `0x`, at least one hex
/// digit, and numeric lookahead after the digits.
pub open spec fn hex_matches(t: Seq<u8>) -> bool {
    &&& t.len() >= 2
    &&& t[0] == 48
    &&& t[1] == 120
    &&& hex_run(t.skip(2)) >= 1
    &&& lookahead_ok(t, 2 + hex_run(t.skip(2)))
}

/// The word rule matches: at least one byte that is neither a space, a tab
/// nor a newline. The fallback rule, tried last.
pub open spec fn word_matches(t: Seq<u8>) -> bool {
    word_run(t) >= 1
}

/// One scanner step on `input`: skip leading whitespace, then try the
/// rules in strict priority order — comment, decimal integer, hexadecimal
/// integer, word — and take the first that matches, or report no match when
/// no rule can consume a byte at this position.
pub open spec fn spec_scan(input: Seq<u8>) -> Option<ScanStep> {
    let w = whitespace_run(input);
    let t = input.skip(w);
    if comment_matches(t) {
        Some(
            ScanStep {
                ws: w,
                len: comment_len(t),
                token: TokenModel::Comment { span: t.take(comment_len(t)) },
            },
        )
    } else if dec_matches(t) {
        Some(
            ScanStep {
                ws: w,
                len: digit_run(t),
                token: TokenModel::DecInt {
                    span: t.take(digit_run(t)),
                    value: dec_val(t.take(digit_run(t))),
                },
            },
        )
    } else if hex_matches(t) {
        Some(
            ScanStep {
                ws: w,
                len: 2 + hex_run(t.skip(2)),
                token: TokenModel::HexInt {
                    span: t.take(2 + hex_run(t.skip(2))),
                    value: hex_val(t.subrange(2, 2 + hex_run(t.skip(2)))),
                },
            },
        )
    } else if word_matches(t) {
        Some(
            ScanStep {
                ws: w,
                len: word_run(t),
                token: TokenModel::Word { span: t.take(word_run(t)) },
            },
        )
    } else {
        None
    }
}

/// Every scanner step stays inside the input: it skips only spaces and
/// tabs, consumes at least one byte for the token, and the token's raw span
/// is exactly the consumed bytes after the skipped whitespace.
pub proof fn lemma_scan_step(input: Seq<u8>)
    ensures
        spec_scan(input) matches Some(step) ==> {
            &&& 0 <= step.ws
            &&& 1 <= step.len
            &&& step.ws + step.len <= input.len()
            &&& forall|i: int| 0 <= i < step.ws ==> is_whitespace_byte(input[i])
            &&& step.token.raw() =~= input.subrange(step.ws, step.ws + step.len)
        },
{
    lemma_whitespace_run(input);
    let w = whitespace_run(input);
    let t = input.skip(w);
    if comment_matches(t) {
        lemma_comment_body_run(t.skip(1));
        assert(t.take(comment_len(t)) =~= input.subrange(w, w + comment_len(t)));
    } else if dec_matches(t) {
        lemma_digit_run(t);
        assert(t.take(digit_run(t)) =~= input.subrange(w, w + digit_run(t)));
    } else if hex_matches(t) {
        lemma_hex_run(t.skip(2));
        assert(t.take(2 + hex_run(t.skip(2))) =~= input.subrange(w, w + 2 + hex_run(t.skip(2))));
    } else if word_matches(t) {
        lemma_word_run(t);
        assert(t.take(word_run(t)) =~= input.subrange(w, w + word_run(t)));
    }
}

/// Decimal literal law: a span of decimal digits of length at most ten,
/// decoding to at most the largest signed 32-bit value, followed by a
/// space, a tab or the end of the input, scans to a decimal integer token
/// whose decoded value is the standard base-10 reading of the digits.
pub proof fn lemma_scan_decimal(input: Seq<u8>, n: int)
    requires
        1 <= n <= 10,
        n <= input.len(),
        forall|i: int| 0 <= i < n ==> is_dec_digit(input[i]),
        n == input.len() || is_whitespace_byte(input[n]),
        dec_val(input.take(n)) <= 0x7fff_ffff,
    ensures
        spec_scan(input) == Some(
            ScanStep {
                ws: 0,
                len: n,
                token: TokenModel::DecInt { span: input.take(n), value: dec_val(input.take(n)) },
            },
        ),
{
    lemma_whitespace_run_exact(input, 0);
    assert(input.skip(0) =~= input);
    assert(!comment_matches(input));
    lemma_digit_run_exact(input, n);
    assert(dec_matches(input));
}

/// Hexadecimal literal law: a span of the prefix `0x` and hex digits,
/// followed by whitespace or the end of the input, scans to a
/// hexadecimal integer token whose decoded value is the base-16 reading of
/// the digits, accumulated into 32 bits with wraparound rather than an
/// overflow check.
pub proof fn lemma_scan_hex(input: Seq<u8>, n: int)
    requires
        1 <= n,
        2 + n <= input.len(),
        input[0] == 48,
        input[1] == 120,
        forall|i: int| 2 <= i < 2 + n ==> is_hex_digit(input[i]),
        2 + n == input.len() || is_whitespace_byte(input[2 + n]),
    ensures
        spec_scan(input) == Some(
            ScanStep {
                ws: 0,
                len: 2 + n,
                token: TokenModel::HexInt {
                    span: input.take(2 + n),
                    value: hex_val(input.subrange(2, 2 + n)),
                },
            },
        ),
{
    lemma_whitespace_run_exact(input, 0);
    assert(input.skip(0) =~= input);
    assert(!comment_matches(input));
    // the decimal rule fails here: the digit run is the single byte `0`,
    // and the lookahead position holds `x`
    lemma_digit_run_exact(input, 1);
    assert(!dec_matches(input));
    assert forall|j: int| 0 <= j < n implies is_hex_digit(input.skip(2)[j]) by {
        assert(input.skip(2)[j] == input[j + 2]);
    }
    if 2 + n < input.len() {
        assert(input.skip(2)[n] == input[2 + n]);
    }
    lemma_hex_run_exact(input.skip(2), n);
    assert(hex_matches(input));
}

/// Total bytes the scanner consumes from `input` before it stops.
pub open spec fn consumed_len(input: Seq<u8>) -> int
    decreases input.len(),
{
    match spec_scan(input) {
        None => 0,
        Some(step) => {
            let c = step.ws + step.len;
            if 1 <= c <= input.len() {
                c + consumed_len(input.skip(c))
            } else {
                0
            }
        },
    }
}

/// The emitted tokens' raw spans in scan order, each concatenated after the
/// whitespace the scanner skipped in front of it.
pub open spec fn reassembled(input: Seq<u8>) -> Seq<u8>
    decreases input.len(),
{
    match spec_scan(input) {
        None => Seq::<u8>::empty(),
        Some(step) => {
            let c = step.ws + step.len;
            if 1 <= c <= input.len() {
                input.take(step.ws) + step.token.raw() + reassembled(input.skip(c))
            } else {
                Seq::<u8>::empty()
            }
        },
    }
}

/// Round-trip law: the emitted tokens' raw spans, concatenated with the
/// intervening whitespace, reconstruct a prefix of the original input —
/// exactly the bytes the scanner consumed.
pub proof fn lemma_round_trip(input: Seq<u8>)
    ensures
        0 <= consumed_len(input) <= input.len(),
        reassembled(input) == input.take(consumed_len(input)),
    decreases input.len(),
{
    lemma_scan_step(input);
    match spec_scan(input) {
        None => {
            assert(input.take(0) =~= Seq::<u8>::empty());
        },
        Some(step) => {
            let c = step.ws + step.len;
            lemma_round_trip(input.skip(c));
            assert(input.take(step.ws) + step.token.raw() + input.skip(c).take(
                consumed_len(input.skip(c)),
            ) =~= input.take(c + consumed_len(input.skip(c))));
        },
    }
}

// ---------------------------------------------------------------------------
// The executable scanner.
// ---------------------------------------------------------------------------

/// Decodes a run of decimal digits as a signed 32-bit integer, reporting
/// failure when the value overflows the type.
fn dec_to_i32(digits: &[u8]) -> (r: Option<i32>)
    requires
        forall|i: int| 0 <= i < digits@.len() ==> is_dec_digit(digits@[i]),
    ensures
        dec_val(digits@) <= 0x7fff_ffff ==> (r matches Some(v) && v == dec_val(digits@)),
        dec_val(digits@) > 0x7fff_ffff ==> r is None,
{
    let mut acc: u64 = 0;
    let mut i: usize = 0;
    while i < digits.len()
        invariant
            0 <= i <= digits@.len(),
            forall|j: int| 0 <= j < digits@.len() ==> is_dec_digit(digits@[j]),
            acc == dec_val(digits@.take(i as int)),
            acc <= 0x7fff_ffff,
        decreases digits@.len() - i,
    {
        let b = *slice_index_get(digits, i);
        proof {
            assert(digits@.take(i + 1).drop_last() =~= digits@.take(i as int));
            assert(digits@.take(i + 1).last() == digits@[i as int]);
        }
        acc = acc * 10 + ((b - 48) as u64);
        i = i + 1;
        if acc > 0x7fff_ffff {
            proof {
                lemma_dec_val_prefix_le(digits@, i as int);
            }
            return None;
        }
    }
    proof {
        assert(digits@.take(digits@.len() as int) =~= digits@);
    }
    Some(acc as i32)
}

/// Decodes hex digits by left-to-right accumulation into a 32-bit register;
/// wraparound on overflow is deliberate and unchecked. Reports failure at
/// the first byte that is not a hexadecimal digit.
pub fn hex_to_i32(input: &[u8]) -> (r: Option<i32>)
    ensures
        (forall|i: int| 0 <= i < input@.len() ==> is_hex_digit(input@[i])) ==> (r matches Some(v)
            && v == hex_val(input@)),
        !(forall|i: int| 0 <= i < input@.len() ==> is_hex_digit(input@[i])) ==> r is None,
{
    let mut acc: u32 = 0;
    let mut i: usize = 0;
    while i < input.len()
        invariant
            0 <= i <= input@.len(),
            forall|j: int| 0 <= j < i ==> is_hex_digit(input@[j]),
            acc == hex_acc(input@.take(i as int)),
        decreases input@.len() - i,
    {
        let b = *slice_index_get(input, i);
        let v: u32;
        if b >= 48 && b <= 57 {
            v = (b - 48) as u32;
        } else if b >= 97 && b <= 102 {
            v = (b - 87) as u32;
        } else if b >= 65 && b <= 70 {
            v = (b - 55) as u32;
        } else {
            return None;
        }
        proof {
            assert(input@.take(i + 1).drop_last() =~= input@.take(i as int));
            assert(input@.take(i + 1).last() == input@[i as int]);
        }
        acc = (((acc as u64) * 16 + (v as u64)) % 0x1_0000_0000) as u32;
        i = i + 1;
    }
    proof {
        assert(input@.take(input@.len() as int) =~= input@);
    }
    if acc >= 0x8000_0000 {
        Some((-((0xffff_ffffu32 - acc) as i32)) - 1)
    } else {
        Some(acc as i32)
    }
}

/// Scans a comment: a backslash followed by one or more bytes up to (but
/// not including) the next newline or the end of the input.
pub fn parse_comment<'a>(input: &'a [u8]) -> (r: Option<(&'a [u8], Token<'a>)>)
    ensures
        comment_matches(input@) ==> (r matches Some(p) && p.1@ == (TokenModel::Comment {
            span: input@.take(comment_len(input@)),
        }) && p.0@ == input@.skip(comment_len(input@))),
        !comment_matches(input@) ==> r is None,
{
    if input.len() == 0 || *slice_index_get(input, 0) != 92 {
        return None;
    }
    let mut i: usize = 1;
    while i < input.len()
        invariant
            1 <= i <= input@.len(),
            input@.len() >= 1,
            forall|j: int| 1 <= j < i ==> is_comment_byte(input@[j]),
        ensures
            1 <= i <= input@.len(),
            forall|j: int| 1 <= j < i ==> is_comment_byte(input@[j]),
            i == input@.len() || !is_comment_byte(input@[i as int]),
        decreases input@.len() - i,
    {
        if *slice_index_get(input, i) == 10 {
            break;
        }
        i = i + 1;
    }
    proof {
        assert forall|j: int| 0 <= j < i - 1 implies is_comment_byte(input@.skip(1)[j]) by {
            assert(input@.skip(1)[j] == input@[j + 1]);
        }
        if i < input@.len() {
            assert(input@.skip(1)[i - 1] == input@[i as int]);
        }
        lemma_comment_body_run_exact(input@.skip(1), i - 1);
    }
    if i == 1 {
        return None;
    }
    let span = slice_subrange(input, 0, i);
    let rest = slice_subrange(input, i, input.len());
    Some((rest, Token::Comment(span)))
}

/// Scans a decimal integer literal: one or more digits, accepted only when
/// followed by whitespace or the end of the input. The digits must
/// decode to a signed 32-bit value; on overflow the rule fails and the span
/// falls through to the word rule.
pub fn parse_decint<'a>(input: &'a [u8]) -> (r: Option<(&'a [u8], Token<'a>)>)
    ensures
        dec_matches(input@) ==> (r matches Some(p) && p.1@ == (TokenModel::DecInt {
            span: input@.take(digit_run(input@)),
            value: dec_val(input@.take(digit_run(input@))),
        }) && p.0@ == input@.skip(digit_run(input@))),
        !dec_matches(input@) ==> r is None,
{
    let mut i: usize = 0;
    while i < input.len()
        invariant
            0 <= i <= input@.len(),
            forall|j: int| 0 <= j < i ==> is_dec_digit(input@[j]),
        ensures
            0 <= i <= input@.len(),
            forall|j: int| 0 <= j < i ==> is_dec_digit(input@[j]),
            i == input@.len() || !is_dec_digit(input@[i as int]),
        decreases input@.len() - i,
    {
        let b = *slice_index_get(input, i);
        if !(b >= 48 && b <= 57) {
            break;
        }
        i = i + 1;
    }
    proof {
        lemma_digit_run_exact(input@, i as int);
    }
    if i == 0 {
        return None;
    }
    if i < input.len() {
        let la = *slice_index_get(input, i);
        if !(la == 32 || la == 9 || la == 10) {
            return None;
        }
    }
    let digits = slice_subrange(input, 0, i);
    match dec_to_i32(digits) {
        Some(v) => {
            let rest = slice_subrange(input, i, input.len());
            Some((rest, Token::DecInt((digits, v))))
        },
        None => None,
    }
}

/// Scans a hexadecimal integer literal: the lowercase prefix `0x`, one or
/// more hex digits, and a space, tab or end-of-input lookahead after them.
pub fn parse_hexint<'a>(input: &'a [u8]) -> (r: Option<(&'a [u8], Token<'a>)>)
    ensures
        hex_matches(input@) ==> (r matches Some(p) && p.1@ == (TokenModel::HexInt {
            span: input@.take(2 + hex_run(input@.skip(2))),
            value: hex_val(input@.subrange(2, 2 + hex_run(input@.skip(2)))),
        }) && p.0@ == input@.skip(2 + hex_run(input@.skip(2)))),
        !hex_matches(input@) ==> r is None,
{
    if input.len() < 2 {
        return None;
    }
    if *slice_index_get(input, 0) != 48 || *slice_index_get(input, 1) != 120 {
        return None;
    }
    let mut i: usize = 2;
    while i < input.len()
        invariant
            2 <= i <= input@.len(),
            input@.len() >= 2,
            forall|j: int| 2 <= j < i ==> is_hex_digit(input@[j]),
        ensures
            2 <= i <= input@.len(),
            input@.len() >= 2,
            forall|j: int| 2 <= j < i ==> is_hex_digit(input@[j]),
            i == input@.len() || !is_hex_digit(input@[i as int]),
        decreases input@.len() - i,
    {
        let b = *slice_index_get(input, i);
        if !((b >= 48 && b <= 57) || (b >= 97 && b <= 102) || (b >= 65 && b <= 70)) {
            break;
        }
        i = i + 1;
    }
    proof {
        assert forall|j: int| 0 <= j < i - 2 implies is_hex_digit(input@.skip(2)[j]) by {
            assert(input@.skip(2)[j] == input@[j + 2]);
        }
        if i < input@.len() {
            assert(input@.skip(2)[i - 2] == input@[i as int]);
        }
        lemma_hex_run_exact(input@.skip(2), i - 2);
    }
    if i == 2 {
        return None;
    }
    if i < input.len() {
        let la = *slice_index_get(input, i);
        if !(la == 32 || la == 9 || la == 10) {
            return None;
        }
    }
    let span = slice_subrange(input, 0, i);
    let digits = slice_subrange(input, 2, i);
    proof {
        assert forall|j: int| 0 <= j < digits@.len() implies is_hex_digit(digits@[j]) by {
            assert(digits@[j] == input@[j + 2]);
        }
    }
    match hex_to_i32(digits) {
        Some(v) => {
            let rest = slice_subrange(input, i, input.len());
            Some((rest, Token::HexInt((span, v))))
        },
        None => {
            // every byte handed over was checked hexadecimal, so the
            // decode cannot fail
            proof {
                assert(false);
            }
            None
        },
    }
}

/// Scans a word: the maximal nonempty run of bytes that are neither spaces,
/// tabs nor newlines. The fallback rule: it succeeds whenever any usable
/// byte is present at this position.
pub fn parse_word<'a>(input: &'a [u8]) -> (r: Option<(&'a [u8], Token<'a>)>)
    ensures
        word_matches(input@) ==> (r matches Some(p) && p.1@ == (TokenModel::Word {
            span: input@.take(word_run(input@)),
        }) && p.0@ == input@.skip(word_run(input@))),
        !word_matches(input@) ==> r is None,
{
    let mut i: usize = 0;
    while i < input.len()
        invariant
            0 <= i <= input@.len(),
            forall|j: int| 0 <= j < i ==> is_word_byte(input@[j]),
        ensures
            0 <= i <= input@.len(),
            forall|j: int| 0 <= j < i ==> is_word_byte(input@[j]),
            i == input@.len() || !is_word_byte(input@[i as int]),
        decreases input@.len() - i,
    {
        let b = *slice_index_get(input, i);
        if b == 32 || b == 9 || b == 10 {
            break;
        }
        i = i + 1;
    }
    proof {
        lemma_word_run_exact(input@, i as int);
    }
    if i == 0 {
        return None;
    }
    let span = slice_subrange(input, 0, i);
    let rest = slice_subrange(input, i, input.len());
    Some((rest, Token::Word(span)))
}

/// Skips leading whitespace, then scans the single longest-prefix
/// token the grammar permits, trying the comment, decimal, hexadecimal and
/// word rules in that order. Yields the token and the remaining bytes, or
/// nothing when no rule can consume a byte at this position.
pub fn parse_next<'a>(input: &'a [u8]) -> (r: Option<(&'a [u8], Token<'a>)>)
    ensures
        match spec_scan(input@) {
            Some(step) => r matches Some(p) && p.1@ == step.token && p.0@ == input@.skip(
                step.ws + step.len,
            ),
            None => r is None,
        },
{
    let mut w: usize = 0;
    while w < input.len()
        invariant
            0 <= w <= input@.len(),
            forall|j: int| 0 <= j < w ==> is_whitespace_byte(input@[j]),
        ensures
            0 <= w <= input@.len(),
            forall|j: int| 0 <= j < w ==> is_whitespace_byte(input@[j]),
            w == input@.len() || !is_whitespace_byte(input@[w as int]),
        decreases input@.len() - w,
    {
        let b = *slice_index_get(input, w);
        if !(b == 32 || b == 9 || b == 10) {
            break;
        }
        w = w + 1;
    }
    proof {
        lemma_whitespace_run_exact(input@, w as int);
    }
    let t = slice_subrange(input, w, input.len());
    match parse_comment(t) {
        Some(p) => {
            proof {
                lemma_comment_body_run(t@.skip(1));
                assert(t@.skip(comment_len(t@)) =~= input@.skip(w + comment_len(t@)));
            }
            return Some(p);
        },
        None => {},
    }
    match parse_decint(t) {
        Some(p) => {
            proof {
                lemma_digit_run(t@);
                assert(t@.skip(digit_run(t@)) =~= input@.skip(w + digit_run(t@)));
            }
            return Some(p);
        },
        None => {},
    }
    match parse_hexint(t) {
        Some(p) => {
            proof {
                lemma_hex_run(t@.skip(2));
                assert(t@.skip(2 + hex_run(t@.skip(2))) =~= input@.skip(
                    w + 2 + hex_run(t@.skip(2)),
                ));
            }
            return Some(p);
        },
        None => {},
    }
    match parse_word(t) {
        Some(p) => {
            proof {
                lemma_word_run(t@);
                assert(t@.skip(word_run(t@)) =~= input@.skip(w + word_run(t@)));
            }
            return Some(p);
        },
        None => {},
    }
    None
}

} // verus!
