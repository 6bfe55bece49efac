//! The round trip: a token written to the wire and read back is the token.

use vstd::prelude::*;
use vstd::utf8::*;
use crate::decimal::{decimal_digits, is_digit, lemma_digits_are_digits, lemma_value_of_digits};
use crate::grammar::{
    crlf, decode, is_line_end, leading_nuls, lemma_leading_nuls, lemma_leading_nuls_are_nuls,
    lemma_line_end_bounds, lemma_token_advances, lemma_tokens_advance, lemma_trailing_nuls,
    lemma_trailing_nuls_are_nuls, line_end, parse_length, parse_token, parse_tokens, text_between,
    trailing_nuls, trim_nuls, wire_all, ARRAY_SIGIL, BULK_STRING_SIGIL, LF, SIMPLE_STRING_SIGIL,
};
use crate::resp::{ParseError, TokenView};
use crate::text::{lemma_boundary_after_ascii, lemma_text_between_boundaries, utf8};

verus! {

/// Whether `piece` stands in `bytes` at `pos`.
pub open spec fn stands_at(bytes: Seq<u8>, pos: int, piece: Seq<u8>) -> bool {
    &&& 0 <= pos
    &&& pos + piece.len() <= bytes.len()
    &&& forall|i: int| 0 <= i < piece.len() ==> bytes[pos + i] == #[trigger] piece[i]
}

/// Two pieces stand one after the other where their concatenation stands.
proof fn lemma_stands_split(bytes: Seq<u8>, pos: int, first: Seq<u8>, second: Seq<u8>)
    requires
        stands_at(bytes, pos, first + second),
    ensures
        stands_at(bytes, pos, first),
        stands_at(bytes, pos + first.len(), second),
{
    assert forall|i: int| 0 <= i < first.len() implies bytes[pos + i] == #[trigger] first[i] by {
        assert((first + second)[i] == first[i]);
    }
    assert forall|i: int| 0 <= i < second.len() implies bytes[pos + first.len() + i]
        == #[trigger] second[i] by {
        assert((first + second)[first.len() + i] == second[i]);
    }
}

/// The first line end at or after `from` is the one before which none
/// stands.
proof fn lemma_line_end_is_first(bytes: Seq<u8>, from: int, end: int)
    requires
        0 <= from <= end,
        is_line_end(bytes, end),
        forall|i: int| from <= i < end ==> !is_line_end(bytes, i),
    ensures
        line_end(bytes, from) == Some(end),
    decreases end - from,
{
    if from < end {
        lemma_line_end_is_first(bytes, from + 1, end);
    }
}

/// Reading the number that was written as a length or a count gives the
/// number and the position after its line.
proof fn lemma_parse_written_length(bytes: Seq<u8>, from: int, n: nat)
    requires
        n <= u64::MAX,
        stands_at(bytes, from, decimal_digits(n) + crlf()),
    ensures
        parse_length(bytes, from) == Ok::<(nat, int), ParseError>(
            (n, from + decimal_digits(n).len() + 2),
        ),
{
    let digits = decimal_digits(n);
    let end = from + digits.len();
    lemma_stands_split(bytes, from, digits, crlf());
    lemma_digits_are_digits(n);
    lemma_value_of_digits(n);
    assert forall|i: int| from <= i < end implies !is_line_end(bytes, i) by {
        assert(is_digit(digits[i - from]));
    }
    lemma_line_end_is_first(bytes, from, end);
    assert(bytes.subrange(from, end) =~= digits);
}

/// The text between two positions is the text whose encoding stands there.
proof fn lemma_text_between(bytes: Seq<u8>, from: int, text: Seq<char>)
    requires
        stands_at(bytes, from, utf8(text)),
    ensures
        text_between(bytes, from, from + utf8(text).len()) == text,
{
    assert(bytes.subrange(from, from + utf8(text).len()) =~= utf8(text));
    encode_utf8_decode_utf8(text);
}

/// Reading a frame where it stands gives the token it was written from and
/// the position after it.
pub proof fn lemma_parse_frame(token: TokenView, bytes: Seq<u8>, pos: int)
    requires
        token.legal(),
        stands_at(bytes, pos, token.wire()),
    ensures
        parse_token(bytes, pos) == Ok::<(TokenView, int), ParseError>(
            (token, pos + token.wire().len()),
        ),
    decreases token,
{
    match token {
        TokenView::SimpleString { data } => {
            let sigil = seq![SIMPLE_STRING_SIGIL];
            let text = utf8(data);
            let end = pos + 1 + text.len();
            lemma_stands_split(bytes, pos, sigil + text, crlf());
            lemma_stands_split(bytes, pos, sigil, text);
            assert(bytes[pos + 0] == sigil[0]);
            assert forall|i: int| pos + 1 <= i < end implies !is_line_end(bytes, i) by {
                let at = i - (pos + 1);
                if i + 1 < end {
                    assert(!is_line_end(text, at));
                }
            }
            lemma_line_end_is_first(bytes, pos + 1, end);
            lemma_text_between(bytes, pos + 1, data);
        },
        TokenView::BulkString { data } => {
            let sigil = seq![BULK_STRING_SIGIL];
            let text = utf8(data);
            let header = decimal_digits(text.len()) + crlf();
            let start = pos + 1 + header.len();
            assert(token.wire() =~= sigil + header + (text + crlf()));
            lemma_stands_split(bytes, pos, sigil + header, text + crlf());
            lemma_stands_split(bytes, pos, sigil, header);
            lemma_stands_split(bytes, start, text, crlf());
            assert(bytes[pos + 0] == sigil[0]);
            lemma_parse_written_length(bytes, pos + 1, text.len());
            lemma_text_between(bytes, start, data);
        },
        TokenView::Array { tokens } => {
            let sigil = seq![ARRAY_SIGIL];
            let header = decimal_digits(tokens.len()) + crlf();
            let start = pos + 1 + header.len();
            assert(token.wire() =~= sigil + header + wire_all(tokens));
            lemma_stands_split(bytes, pos, sigil + header, wire_all(tokens));
            lemma_stands_split(bytes, pos, sigil, header);
            assert(bytes[pos + 0] == sigil[0]);
            lemma_parse_written_length(bytes, pos + 1, tokens.len());
            lemma_parse_frames(tokens, bytes, start);
        },
    }
}

/// Reading some frames where they stand one after the other gives the
/// tokens they were written from and the position after the last.
pub proof fn lemma_parse_frames(tokens: Seq<TokenView>, bytes: Seq<u8>, pos: int)
    requires
        forall|i: int| 0 <= i < tokens.len() ==> (#[trigger] tokens[i]).legal(),
        stands_at(bytes, pos, wire_all(tokens)),
    ensures
        parse_tokens(bytes, pos, tokens.len()) == Ok::<(Seq<TokenView>, int), ParseError>(
            (tokens, pos + wire_all(tokens).len()),
        ),
    decreases tokens,
{
    if tokens.len() == 0 {
        assert(tokens =~= Seq::empty());
    } else {
        let first = tokens[0];
        let rest = tokens.drop_first();
        lemma_stands_split(bytes, pos, first.wire(), wire_all(rest));
        lemma_parse_frame(first, bytes, pos);
        let next = pos + first.wire().len();
        assert forall|i: int| 0 <= i < rest.len() implies (#[trigger] rest[i]).legal() by {
            assert(rest[i] == tokens[i + 1]);
        }
        lemma_parse_frames(rest, bytes, next);
        assert(seq![first] + rest =~= tokens);
    }
}

/// A frame starts with a sigil and ends with a line feed.
pub proof fn lemma_frame_shape(token: TokenView)
    ensures
        token.wire().len() >= 3,
        token.wire()[0] != 0,
        token.wire().last() == LF,
    decreases token,
{
    match token {
        TokenView::SimpleString { data } => {},
        TokenView::BulkString { data } => {},
        TokenView::Array { tokens } => {
            lemma_frames_shape(tokens);
        },
    }
}

/// Frames that follow one another end, if there are any, with a line feed.
pub proof fn lemma_frames_shape(tokens: Seq<TokenView>)
    ensures
        tokens.len() > 0 ==> wire_all(tokens).len() >= 3 && wire_all(tokens).last() == LF,
    decreases tokens,
{
    if tokens.len() > 0 {
        let rest = tokens.drop_first();
        lemma_frame_shape(tokens[0]);
        lemma_frames_shape(rest);
        if rest.len() == 0 {
            assert(wire_all(rest) =~= Seq::empty());
        }
    }
}

/// Round trip: the frame of a legal token decodes to that token.
pub proof fn lemma_round_trip(token: TokenView)
    requires
        token.legal(),
    ensures
        decode(token.wire()) == Ok::<TokenView, ParseError>(token),
{
    let frame = token.wire();
    lemma_frame_shape(token);
    assert(trim_nuls(frame) =~= frame);
    lemma_parse_frame(token, frame, 0);
}

/// A string token read between two character boundaries can go over the
/// wire and come back if no line end stands between the two.
proof fn lemma_text_is_legal(bytes: Seq<u8>, from: int, to: int)
    requires
        valid_utf8(bytes),
        bytes.len() <= u64::MAX,
        0 <= from <= to <= bytes.len(),
        is_char_boundary(bytes, from),
        is_char_boundary(bytes, to),
    ensures
        (TokenView::BulkString { data: text_between(bytes, from, to) }).legal(),
        (forall|at: int| from <= at < to ==> !is_line_end(bytes, at)) ==> (TokenView::SimpleString {
            data: text_between(bytes, from, to),
        }).legal(),
{
    lemma_text_between_boundaries(bytes, from, to);
    let piece = bytes.subrange(from, to);
    if forall|at: int| from <= at < to ==> !is_line_end(bytes, at) {
        assert forall|at: int| !is_line_end(piece, at) by {
            if is_line_end(piece, at) {
                assert(is_line_end(bytes, from + at));
            }
        }
    }
}

/// A token that was read from text can go over the wire and come back.
pub proof fn lemma_parsed_token_is_legal(bytes: Seq<u8>, pos: int)
    requires
        valid_utf8(bytes),
        bytes.len() <= u64::MAX,
        is_char_boundary(bytes, pos),
    ensures
        parse_token(bytes, pos) matches Ok((token, _)) ==> token.legal(),
    decreases bytes.len() - pos, 0nat,
{
    if let Ok((token, next)) = parse_token(bytes, pos) {
        lemma_line_end_bounds(bytes, pos + 1);
        lemma_boundary_after_ascii(bytes, pos);
        if bytes[pos] == SIMPLE_STRING_SIGIL {
            let end = line_end(bytes, pos + 1)->0;
            is_char_boundary_iff_not_is_continuation_byte(bytes, end);
            lemma_text_is_legal(bytes, pos + 1, end);
        } else if bytes[pos] == BULK_STRING_SIGIL {
            let (length, start) = parse_length(bytes, pos + 1)->Ok_0;
            lemma_boundary_after_ascii(bytes, start - 1);
            lemma_line_end_bounds(bytes, start);
            if is_line_end(bytes, start + length) {
                is_char_boundary_iff_not_is_continuation_byte(bytes, start + length);
                lemma_text_is_legal(bytes, start, start + length);
            } else {
                let end = line_end(bytes, start)->0;
                is_char_boundary_iff_not_is_continuation_byte(bytes, end);
                lemma_text_is_legal(bytes, start, end);
            }
        } else {
            let (count, start) = parse_length(bytes, pos + 1)->Ok_0;
            lemma_tokens_advance(bytes, start, count);
            lemma_parsed_tokens_are_legal(bytes, start, count);
        }
    }
}

/// Tokens that were read from text one after the other can go over the
/// wire and come back.
pub proof fn lemma_parsed_tokens_are_legal(bytes: Seq<u8>, pos: int, count: nat)
    requires
        valid_utf8(bytes),
        bytes.len() <= u64::MAX,
        0 < pos <= bytes.len(),
        bytes[pos - 1] == LF,
    ensures
        parse_tokens(bytes, pos, count) matches Ok((tokens, _)) ==> forall|i: int|
            0 <= i < tokens.len() ==> (#[trigger] tokens[i]).legal(),
    decreases bytes.len() - pos, count + 1,
{
    if count > 0 {
        if let Ok((first, next)) = parse_token(bytes, pos) {
            lemma_boundary_after_ascii(bytes, pos - 1);
            lemma_parsed_token_is_legal(bytes, pos);
            lemma_token_advances(bytes, pos);
            lemma_parsed_tokens_are_legal(bytes, next, (count - 1) as nat);
        }
    }
}

/// What a buffer of text holds can go over the wire and come back: reading
/// never gives a token that writing and reading again would change.
pub proof fn lemma_decoded_is_legal(bytes: Seq<u8>)
    requires
        valid_utf8(bytes),
        bytes.len() <= u64::MAX,
    ensures
        decode(bytes) matches Ok(token) ==> token.legal() && decode(token.wire()) == Ok::<
            TokenView,
            ParseError,
        >(token),
{
    if let Ok(token) = decode(bytes) {
        let frame = trim_nuls(bytes);
        if frame.len() > 0 {
            let start = leading_nuls(bytes) as int;
            let end = bytes.len() - trailing_nuls(bytes);
            lemma_leading_nuls_are_nuls(bytes);
            lemma_trailing_nuls_are_nuls(bytes);
            if start > 0 {
                lemma_boundary_after_ascii(bytes, start - 1);
            }
            if end < bytes.len() {
                is_char_boundary_iff_not_is_continuation_byte(bytes, end);
            } else {
                is_char_boundary_start_end_of_seq(bytes);
            }
            lemma_text_between_boundaries(bytes, start, end);
            lemma_parsed_token_is_legal(frame, 0);
        }
        lemma_round_trip(token);
    }
}

/// `count` NUL bytes.
pub open spec fn padding(count: nat) -> Seq<u8> {
    Seq::new(count, |i: int| 0u8)
}

/// Round trip through a padded buffer: the frame of a legal token decodes
/// to that token whatever NUL padding stands before and after it.
pub proof fn lemma_round_trip_padded(token: TokenView, before: nat, after: nat)
    requires
        token.legal(),
    ensures
        decode(padding(before) + token.wire() + padding(after)) == Ok::<TokenView, ParseError>(
            token,
        ),
{
    let frame = token.wire();
    let buffer = padding(before) + frame + padding(after);
    lemma_frame_shape(token);
    lemma_leading_nuls(buffer, before as int);
    lemma_trailing_nuls(buffer, after as int);
    assert(trim_nuls(buffer) =~= frame);
    lemma_parse_frame(token, frame, 0);
}

/// A buffer of nothing but NUL padding, or of nothing at all, decodes to
/// the empty array.
pub proof fn lemma_padding_is_the_empty_array(count: nat)
    ensures
        decode(padding(count)) == Ok::<TokenView, ParseError>(
            TokenView::Array { tokens: Seq::empty() },
        ),
{
    lemma_leading_nuls(padding(count), count as int);
}

} // verus!
