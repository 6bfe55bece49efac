//! The wire format as mathematics: what a token looks like in bytes, and
//! which token a string of bytes holds.
//!
//! A frame starts with a one-byte sigil and is made of lines, each ended by
//! CR LF:
//!
//! ```text
//! +<text>\r\n                       simple string
//! $<length>\r\n<text>\r\n           bulk string
//! *<count>\r\n<element>...          array of <count> frames
//! ```

use vstd::prelude::*;
use vstd::utf8::*;
use crate::decimal::{decimal_digits, decimal_u64};
use crate::resp::{ParseError, TokenView};
use crate::text::utf8;

verus! {

/// Carriage return, the first byte of a line end.
pub const CR: u8 = 13;

/// Line feed, the second byte of a line end.
pub const LF: u8 = 10;

/// `+`, the sigil of a simple string.
pub const SIMPLE_STRING_SIGIL: u8 = 43;

/// `$`, the sigil of a bulk string.
pub const BULK_STRING_SIGIL: u8 = 36;

/// `*`, the sigil of an array.
pub const ARRAY_SIGIL: u8 = 42;

/// The two bytes that end a line.
pub open spec fn crlf() -> Seq<u8> {
    seq![CR, LF]
}

/// Whether a line end stands in `bytes` at `at`.
pub open spec fn is_line_end(bytes: Seq<u8>, at: int) -> bool {
    0 <= at && at + 2 <= bytes.len() && bytes[at] == CR && bytes[at + 1] == LF
}

/// Where the first line end at or after `from` stands, if there is one.
pub open spec fn line_end(bytes: Seq<u8>, from: int) -> Option<int>
    decreases bytes.len() - from,
{
    if from < 0 || from + 2 > bytes.len() {
        None
    } else if is_line_end(bytes, from) {
        Some(from)
    } else {
        line_end(bytes, from + 1)
    }
}

/// The first line end at or after `from` is a line end, stands at or after
/// `from`, and no line end stands between the two.
pub proof fn lemma_line_end_bounds(bytes: Seq<u8>, from: int)
    requires
        0 <= from,
    ensures
        match line_end(bytes, from) {
            Some(end) => from <= end && is_line_end(bytes, end) && forall|at: int|
                from <= at < end ==> !is_line_end(bytes, at),
            None => forall|at: int| from <= at ==> !is_line_end(bytes, at),
        },
    decreases bytes.len() - from,
{
    if from + 2 <= bytes.len() && !is_line_end(bytes, from) {
        lemma_line_end_bounds(bytes, from + 1);
    }
}

/// The text that the bytes from `from` up to `to` encode.
pub open spec fn text_between(bytes: Seq<u8>, from: int, to: int) -> Seq<char> {
    decode_utf8(bytes.subrange(from, to))
}

/// The character whose encoding starts at `at`.
pub open spec fn char_at(bytes: Seq<u8>, at: int) -> char {
    decode_utf8(bytes.subrange(at, bytes.len() as int))[0]
}

/// A token read from some position, with the position after it.
pub type Parsed = Result<(TokenView, int), ParseError>;

/// Some tokens read one after the other, with the position after the last.
pub type ParsedSeq = Result<(Seq<TokenView>, int), ParseError>;

/// Reads the number that stands from `from` up to the next line end: the
/// length of a bulk string or the count of an array. Gives the number and
/// the position after the line end.
pub open spec fn parse_length(bytes: Seq<u8>, from: int) -> Result<(nat, int), ParseError> {
    match line_end(bytes, from) {
        None => Err(ParseError::IncompleteMessage),
        Some(end) => match decimal_u64(bytes.subrange(from, end)) {
            None => Err(ParseError::InvalidLength),
            Some(n) => Ok((n as nat, end + 2)),
        },
    }
}

/// Reads the payload of a bulk string that starts at `start` and was
/// declared `length` bytes long.
///
/// Where a line end follows the `length` bytes, they are the payload,
/// whatever they hold. Where none does, the declared length does not frame
/// the payload, and the payload is the line that starts at `start`.
pub open spec fn parse_bulk(bytes: Seq<u8>, start: int, length: nat) -> Parsed {
    if is_line_end(bytes, start + length) {
        let data = text_between(bytes, start, start + length);
        Ok((TokenView::BulkString { data }, start + length + 2))
    } else {
        match line_end(bytes, start) {
            None => Err(ParseError::IncompleteMessage),
            Some(end) => {
                let data = text_between(bytes, start, end);
                Ok((TokenView::BulkString { data }, end + 2))
            },
        }
    }
}

/// Reads the token whose frame starts at `pos`.
pub open spec fn parse_token(bytes: Seq<u8>, pos: int) -> Parsed
    decreases bytes.len() - pos, 0nat,
{
    if pos < 0 || pos >= bytes.len() {
        Err(ParseError::IncompleteMessage)
    } else if bytes[pos] == SIMPLE_STRING_SIGIL {
        match line_end(bytes, pos + 1) {
            None => Err(ParseError::IncompleteMessage),
            Some(end) => {
                let data = text_between(bytes, pos + 1, end);
                Ok((TokenView::SimpleString { data }, end + 2))
            },
        }
    } else if bytes[pos] == BULK_STRING_SIGIL {
        match parse_length(bytes, pos + 1) {
            Err(error) => Err(error),
            Ok((length, start)) => parse_bulk(bytes, start, length),
        }
    } else if bytes[pos] == ARRAY_SIGIL {
        match parse_length(bytes, pos + 1) {
            Err(error) => Err(error),
            Ok((count, start)) => {
                proof {
                    lemma_line_end_bounds(bytes, pos + 1);
                }
                match parse_tokens(bytes, start, count) {
                    Err(error) => Err(error),
                    Ok((tokens, end)) => Ok((TokenView::Array { tokens }, end)),
                }
            },
        }
    } else {
        Err(ParseError::UnknownType(char_at(bytes, pos)))
    }
}

/// Reads `count` tokens whose frames follow one another from `pos`.
///
/// A frame ends after where it starts, and inside the buffer
/// ([`lemma_token_advances`]); the test for it is there to let the
/// recursion be seen to end, and never fails.
pub open spec fn parse_tokens(bytes: Seq<u8>, pos: int, count: nat) -> ParsedSeq
    decreases bytes.len() - pos, count + 1,
{
    if count == 0 {
        Ok((Seq::empty(), pos))
    } else {
        match parse_token(bytes, pos) {
            Err(error) => Err(error),
            Ok((first, next)) => if pos < next <= bytes.len() {
                match parse_tokens(bytes, next, (count - 1) as nat) {
                    Err(error) => Err(error),
                    Ok((rest, end)) => Ok((seq![first] + rest, end)),
                }
            } else {
                Err(ParseError::IncompleteMessage)
            },
        }
    }
}

/// A token that was read starts inside the buffer and ends after where it
/// starts, at most where the buffer ends, with a line feed.
pub proof fn lemma_token_advances(bytes: Seq<u8>, pos: int)
    ensures
        parse_token(bytes, pos) matches Ok((_, next)) ==> 0 <= pos < next <= bytes.len()
            && bytes[next - 1] == LF,
    decreases bytes.len() - pos, 0nat,
{
    if 0 <= pos < bytes.len() {
        lemma_line_end_bounds(bytes, pos + 1);
        if bytes[pos] == BULK_STRING_SIGIL {
            if let Ok((length, start)) = parse_length(bytes, pos + 1) {
                lemma_line_end_bounds(bytes, start);
            }
        } else if bytes[pos] == ARRAY_SIGIL {
            if let Ok((count, start)) = parse_length(bytes, pos + 1) {
                lemma_tokens_advance(bytes, start, count);
            }
        }
    }
}

/// Tokens that were read one after the other are as many as were asked for,
/// and end at or after where they start, at most where the buffer ends. If
/// a line feed stands before them, one stands before the end too.
pub proof fn lemma_tokens_advance(bytes: Seq<u8>, pos: int, count: nat)
    requires
        0 <= pos <= bytes.len(),
    ensures
        parse_tokens(bytes, pos, count) matches Ok((tokens, end)) ==> tokens.len() == count && pos
            <= end <= bytes.len() && (pos > 0 && bytes[pos - 1] == LF ==> bytes[end - 1] == LF),
    decreases bytes.len() - pos, count + 1,
{
    if count > 0 {
        lemma_token_advances(bytes, pos);
        if let Ok((first, next)) = parse_token(bytes, pos) {
            lemma_tokens_advance(bytes, next, (count - 1) as nat);
        }
    }
}

/// How many NUL bytes `bytes` starts with.
pub open spec fn leading_nuls(bytes: Seq<u8>) -> nat
    decreases bytes.len(),
{
    if bytes.len() > 0 && bytes[0] == 0 {
        1 + leading_nuls(bytes.drop_first())
    } else {
        0
    }
}

/// How many NUL bytes `bytes` ends with.
pub open spec fn trailing_nuls(bytes: Seq<u8>) -> nat
    decreases bytes.len(),
{
    if bytes.len() > 0 && bytes.last() == 0 {
        1 + trailing_nuls(bytes.drop_last())
    } else {
        0
    }
}

/// The leading NUL bytes are NUL bytes, and what follows them, if anything,
/// is another byte.
pub proof fn lemma_leading_nuls_are_nuls(bytes: Seq<u8>)
    ensures
        leading_nuls(bytes) <= bytes.len(),
        forall|j: int| 0 <= j < leading_nuls(bytes) ==> bytes[j] == 0,
        leading_nuls(bytes) < bytes.len() ==> bytes[leading_nuls(bytes) as int] != 0,
    decreases bytes.len(),
{
    if bytes.len() > 0 && bytes[0] == 0 {
        let rest = bytes.drop_first();
        lemma_leading_nuls_are_nuls(rest);
        assert forall|j: int| 0 <= j < leading_nuls(bytes) implies bytes[j] == 0 by {
            if j > 0 {
                assert(bytes[j] == rest[j - 1]);
            }
        }
    }
}

/// The trailing NUL bytes are NUL bytes, and what stands before them, if
/// anything, is another byte.
pub proof fn lemma_trailing_nuls_are_nuls(bytes: Seq<u8>)
    ensures
        trailing_nuls(bytes) <= bytes.len(),
        forall|j: int| bytes.len() - trailing_nuls(bytes) <= j < bytes.len() ==> bytes[j] == 0,
        trailing_nuls(bytes) < bytes.len() ==> bytes[bytes.len() - trailing_nuls(bytes) - 1] != 0,
    decreases bytes.len(),
{
    if bytes.len() > 0 && bytes.last() == 0 {
        let rest = bytes.drop_last();
        lemma_trailing_nuls_are_nuls(rest);
        assert forall|j: int|
            bytes.len() - trailing_nuls(bytes) <= j < bytes.len() implies bytes[j] == 0 by {
            if j < bytes.len() - 1 {
                assert(bytes[j] == rest[j]);
            }
        }
    }
}

/// A string that starts with `k` NUL bytes and goes on, if at all, with
/// another byte has `k` leading NUL bytes.
pub proof fn lemma_leading_nuls(bytes: Seq<u8>, k: int)
    requires
        0 <= k <= bytes.len(),
        forall|j: int| 0 <= j < k ==> bytes[j] == 0,
        k < bytes.len() ==> bytes[k] != 0,
    ensures
        leading_nuls(bytes) == k,
    decreases k,
{
    if k > 0 {
        lemma_leading_nuls(bytes.drop_first(), k - 1);
    }
}

/// A string that ends with `k` NUL bytes, before which, if anything, stands
/// another byte has `k` trailing NUL bytes.
pub proof fn lemma_trailing_nuls(bytes: Seq<u8>, k: int)
    requires
        0 <= k <= bytes.len(),
        forall|j: int| bytes.len() - k <= j < bytes.len() ==> bytes[j] == 0,
        k < bytes.len() ==> bytes[bytes.len() - k - 1] != 0,
    ensures
        trailing_nuls(bytes) == k,
    decreases k,
{
    if k > 0 {
        lemma_trailing_nuls(bytes.drop_last(), k - 1);
    }
}

/// `bytes` without the NUL bytes at its start and at its end.
pub open spec fn trim_nuls(bytes: Seq<u8>) -> Seq<u8> {
    if leading_nuls(bytes) == bytes.len() {
        Seq::empty()
    } else {
        bytes.subrange(leading_nuls(bytes) as int, bytes.len() - trailing_nuls(bytes))
    }
}

/// The token that a buffer holds.
///
/// NUL padding round the frame does not count. A buffer with nothing else
/// in it holds the empty array. Otherwise the buffer holds the token whose
/// frame starts it; what follows that frame is not looked at.
pub open spec fn decode(bytes: Seq<u8>) -> Result<TokenView, ParseError> {
    let frame = trim_nuls(bytes);
    if frame.len() == 0 {
        Ok(TokenView::Array { tokens: Seq::empty() })
    } else {
        match parse_token(frame, 0) {
            Err(error) => Err(error),
            Ok((token, _)) => Ok(token),
        }
    }
}

impl TokenView {
    /// The frame of a token: its bytes on the wire.
    pub open spec fn wire(self) -> Seq<u8>
        decreases self,
    {
        match self {
            TokenView::SimpleString { data } => seq![SIMPLE_STRING_SIGIL] + utf8(data) + crlf(),
            TokenView::BulkString { data } => seq![BULK_STRING_SIGIL] + decimal_digits(
                utf8(data).len(),
            ) + crlf() + utf8(data) + crlf(),
            TokenView::Array { tokens } => seq![ARRAY_SIGIL] + decimal_digits(tokens.len())
                + crlf() + wire_all(tokens),
        }
    }

    /// Whether a token can go over the wire and come back: no line end
    /// stands inside a simple string, and each length and count fits 64
    /// bits.
    pub open spec fn legal(self) -> bool
        decreases self,
    {
        match self {
            TokenView::SimpleString { data } => forall|at: int| !is_line_end(utf8(data), at),
            TokenView::BulkString { data } => utf8(data).len() <= u64::MAX,
            TokenView::Array { tokens } => tokens.len() <= u64::MAX && forall|i: int|
                0 <= i < tokens.len() ==> (#[trigger] tokens[i]).legal(),
        }
    }
}

/// The frames of `tokens`, one after the other.
pub open spec fn wire_all(tokens: Seq<TokenView>) -> Seq<u8>
    decreases tokens,
{
    if tokens.len() == 0 {
        Seq::empty()
    } else {
        tokens[0].wire() + wire_all(tokens.drop_first())
    }
}

/// Adding a token to some tokens adds its frame to their frames.
pub proof fn lemma_wire_all_push(tokens: Seq<TokenView>, token: TokenView)
    ensures
        wire_all(tokens.push(token)) == wire_all(tokens) + token.wire(),
    decreases tokens.len(),
{
    if tokens.len() == 0 {
        assert(tokens.push(token).drop_first() =~= Seq::<TokenView>::empty());
        assert(wire_all(Seq::<TokenView>::empty()) =~= Seq::<u8>::empty());
    } else {
        lemma_wire_all_push(tokens.drop_first(), token);
        assert(tokens.push(token).drop_first() =~= tokens.drop_first().push(token));
    }
}

} // verus!
