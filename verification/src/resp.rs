//! The request/response wire format: tokens, their encoding and decoding.
//!
//! What a frame looks like and which token it holds is said in
//! [`crate::grammar`]; this module holds the tokens themselves and the code
//! that reads and writes them.

use vstd::prelude::*;
use vstd::string::*;
use vstd::utf8::*;
use crate::decimal::{parse_decimal, push_decimal};
use crate::grammar::{
    crlf, decode, lemma_leading_nuls, lemma_line_end_bounds, lemma_token_advances,
    lemma_trailing_nuls, lemma_wire_all_push, line_end, parse_bulk, parse_length, parse_token,
    parse_tokens, wire_all, ParsedSeq, ARRAY_SIGIL, BULK_STRING_SIGIL, CR, LF,
    SIMPLE_STRING_SIGIL,
};
use crate::roundtrip::lemma_decoded_is_legal;
use crate::text::{lemma_boundary_after_ascii, lemma_utf8_ascii, push_text, slice, utf8};

verus! {

/// The line terminator.
pub const CRLF: &'static str = "\r\n";

/// The first character of a simple string's frame.
pub const SIMPLE_STRING_START: char = '+';

/// The first character of a bulk string's frame.
pub const BULK_STRING_START: char = '$';

/// The first character of an array's frame.
pub const ARRAY_START: char = '*';

/// Why a buffer holds no token.
#[derive(Debug, PartialEq, Eq)]
pub enum ParseError {
    /// The buffer ends before the frame does.
    IncompleteMessage,
    /// A frame starts with a character that is no sigil.
    UnknownType(char),
    /// The length of a bulk string or the count of an array is no decimal
    /// number that fits 64 bits.
    InvalidLength,
}

impl Clone for ParseError {
    fn clone(&self) -> (copy: ParseError)
        ensures
            copy == *self,
    {
        match self {
            ParseError::IncompleteMessage => ParseError::IncompleteMessage,
            ParseError::UnknownType(sigil) => ParseError::UnknownType(*sigil),
            ParseError::InvalidLength => ParseError::InvalidLength,
        }
    }
}

/// A parsed unit of protocol syntax.
#[derive(Debug, PartialEq, Eq)]
pub enum Token {
    /// A short string on one line: `+<data>\r\n`.
    SimpleString { data: String },
    /// A string that may hold any text, line ends too, sent with its length
    /// in bytes: `$<length>\r\n<data>\r\n`.
    BulkString { data: String },
    /// Some tokens in order, sent with their count:
    /// `*<count>\r\n<element-1>...<element-n>`.
    Array { tokens: Vec<Token> },
}

/// The mathematical value of a [`Token`].
pub enum TokenView {
    SimpleString { data: Seq<char> },
    BulkString { data: Seq<char> },
    Array { tokens: Seq<TokenView> },
}

/// The value of a token: the text of a string, the values of an array's
/// elements.
pub open spec fn token_view(token: Token) -> TokenView
    decreases token,
{
    match token {
        Token::SimpleString { data } => TokenView::SimpleString { data: data@ },
        Token::BulkString { data } => TokenView::BulkString { data: data@ },
        Token::Array { tokens } => TokenView::Array {
            tokens: Seq::new(
                tokens@.len(),
                |i: int|
                    if 0 <= i < tokens@.len() {
                        token_view(tokens@[i])
                    } else {
                        arbitrary()
                    },
            ),
        },
    }
}

impl View for Token {
    type V = TokenView;

    open spec fn view(&self) -> TokenView {
        token_view(*self)
    }
}

/// The values of some tokens.
pub open spec fn views(tokens: Seq<Token>) -> Seq<TokenView> {
    Seq::new(tokens.len(), |i: int| tokens[i]@)
}

/// The value of an array is the array of its elements' values.
pub proof fn lemma_array_view(tokens: Vec<Token>)
    ensures
        (Token::Array { tokens })@ == (TokenView::Array { tokens: views(tokens@) }),
{
    let array = Token::Array { tokens };
    assert(array@->tokens =~= views(tokens@));
}

impl Clone for Token {
    fn clone(&self) -> (copy: Token)
        ensures
            copy@ == self@,
        decreases self,
    {
        match self {
            Token::SimpleString { data } => Token::SimpleString { data: data.clone() },
            Token::BulkString { data } => Token::BulkString { data: data.clone() },
            Token::Array { tokens } => {
                let mut copies: Vec<Token> = Vec::new();
                let mut i: usize = 0;
                while i < tokens.len()
                    invariant
                        *self == (Token::Array { tokens: *tokens }),
                        i <= tokens@.len(),
                        copies@.len() == i,
                        forall|j: int| 0 <= j < i ==> copies@[j]@ == tokens@[j]@,
                    decreases tokens@.len() - i,
                {
                    proof {
                        assert(decreases_to!(self->tokens => self->tokens[i as int]));
                    }
                    copies.push(tokens[i].clone());
                    i = i + 1;
                }
                proof {
                    lemma_array_view(copies);
                    lemma_array_view(*tokens);
                    assert(views(copies@) =~= views(tokens@));
                }
                Token::Array { tokens: copies }
            },
        }
    }
}

/// `tokens` put before the tokens that `rest` read, if it read any.
spec fn preceded_by(rest: ParsedSeq, tokens: Seq<TokenView>) -> ParsedSeq {
    match rest {
        Ok((more, end)) => Ok((tokens + more, end)),
        Err(error) => Err(error),
    }
}

/// Where the first line end at or after `from` stands.
fn find_line_end(bytes: &[u8], from: usize) -> (end: Option<usize>)
    requires
        from <= bytes@.len(),
    ensures
        match end {
            Some(at) => line_end(bytes@, from as int) == Some(at as int),
            None => line_end(bytes@, from as int) is None,
        },
{
    let n = bytes.len();
    let mut i = from;
    while n - i >= 2
        invariant
            n == bytes@.len(),
            from <= i <= n,
            line_end(bytes@, from as int) == line_end(bytes@, i as int),
        decreases n - i,
    {
        if bytes[i] == CR && bytes[i + 1] == LF {
            return Some(i);
        }
        i = i + 1;
    }
    None
}

/// Reads the number that stands from `from` up to the next line end.
fn read_length(bytes: &[u8], from: usize) -> (r: Result<(u64, usize), ParseError>)
    requires
        from <= bytes@.len(),
    ensures
        match r {
            Ok((n, start)) => parse_length(bytes@, from as int) == Ok::<(nat, int), ParseError>(
                (n as nat, start as int),
            ),
            Err(error) => parse_length(bytes@, from as int) == Err::<(nat, int), ParseError>(error),
        },
{
    let size = bytes.len();
    proof {
        lemma_line_end_bounds(bytes@, from as int);
    }
    match find_line_end(bytes, from) {
        None => Err(ParseError::IncompleteMessage),
        Some(end) => match parse_decimal(bytes, from, end) {
            None => Err(ParseError::InvalidLength),
            Some(n) => Ok((n, end + 2)),
        },
    }
}

/// Reads the payload of a bulk string that starts at `start` and was
/// declared `length` bytes long.
fn read_bulk(s: &str, start: usize, length: u64) -> (r: Result<(Token, usize), ParseError>)
    requires
        0 < start <= utf8(s@).len(),
        utf8(s@)[start - 1] == LF,
    ensures
        match r {
            Ok((token, next)) => parse_bulk(utf8(s@), start as int, length as nat) == Ok::<
                (TokenView, int),
                ParseError,
            >((token@, next as int)),
            Err(error) => parse_bulk(utf8(s@), start as int, length as nat) == Err::<
                (TokenView, int),
                ParseError,
            >(error),
        },
{
    let bytes = s.as_bytes();
    let size = bytes.len();
    proof {
        encode_utf8_valid_utf8(s@);
        lemma_boundary_after_ascii(bytes@, start - 1);
        lemma_line_end_bounds(bytes@, start as int);
    }
    if length <= (size - start) as u64 && size - start - length as usize >= 2 {
        let end = start + length as usize;
        if bytes[end] == CR && bytes[end + 1] == LF {
            proof {
                is_char_boundary_iff_not_is_continuation_byte(bytes@, end as int);
            }
            let data = slice(s, start, end).to_owned();
            return Ok((Token::BulkString { data }, end + 2));
        }
    }
    match find_line_end(bytes, start) {
        None => Err(ParseError::IncompleteMessage),
        Some(end) => {
            proof {
                is_char_boundary_iff_not_is_continuation_byte(bytes@, end as int);
            }
            let data = slice(s, start, end).to_owned();
            Ok((Token::BulkString { data }, end + 2))
        },
    }
}

/// Reads the token whose frame starts at `pos`.
fn read_token(s: &str, pos: usize) -> (r: Result<(Token, usize), ParseError>)
    requires
        pos <= utf8(s@).len(),
        is_char_boundary(utf8(s@), pos as int),
    ensures
        match r {
            Ok((token, next)) => parse_token(utf8(s@), pos as int) == Ok::<
                (TokenView, int),
                ParseError,
            >((token@, next as int)),
            Err(error) => parse_token(utf8(s@), pos as int) == Err::<(TokenView, int), ParseError>(
                error,
            ),
        },
    decreases utf8(s@).len() - pos,
{
    let bytes = s.as_bytes();
    let size = bytes.len();
    proof {
        encode_utf8_valid_utf8(s@);
        lemma_line_end_bounds(bytes@, pos + 1);
    }
    if pos >= size {
        return Err(ParseError::IncompleteMessage);
    }
    let sigil = bytes[pos];
    if sigil == SIMPLE_STRING_SIGIL {
        match find_line_end(bytes, pos + 1) {
            None => Err(ParseError::IncompleteMessage),
            Some(end) => {
                proof {
                    lemma_boundary_after_ascii(bytes@, pos as int);
                    is_char_boundary_iff_not_is_continuation_byte(bytes@, end as int);
                }
                let data = slice(s, pos + 1, end).to_owned();
                Ok((Token::SimpleString { data }, end + 2))
            },
        }
    } else if sigil == BULK_STRING_SIGIL {
        match read_length(bytes, pos + 1) {
            Err(error) => Err(error),
            Ok((length, start)) => read_bulk(s, start, length),
        }
    } else if sigil == ARRAY_SIGIL {
        match read_length(bytes, pos + 1) {
            Err(error) => Err(error),
            Ok((count, start)) => {
                let mut tokens: Vec<Token> = Vec::new();
                let mut at = start;
                let mut i: u64 = 0;
                while i < count
                    invariant
                        i <= count,
                        pos < start <= at <= bytes@.len(),
                        bytes@ == utf8(s@),
                        valid_utf8(bytes@),
                        bytes@[pos as int] == ARRAY_SIGIL,
                        bytes@[at - 1] == LF,
                        parse_length(bytes@, pos + 1) == Ok::<(nat, int), ParseError>(
                            (count as nat, start as int),
                        ),
                        parse_tokens(bytes@, start as int, count as nat) == preceded_by(
                            parse_tokens(bytes@, at as int, (count - i) as nat),
                            views(tokens@),
                        ),
                    decreases count - i,
                {
                    proof {
                        lemma_boundary_after_ascii(bytes@, at - 1);
                        lemma_token_advances(bytes@, at as int);
                    }
                    match read_token(s, at) {
                        Err(error) => {
                            return Err(error);
                        },
                        Ok((token, next)) => {
                            proof {
                                let left = (count - i - 1) as nat;
                                let rest = parse_tokens(bytes@, next as int, left);
                                if let Ok((more, end)) = rest {
                                    assert(views(tokens@) + (seq![token@] + more) =~= views(
                                        tokens@.push(token),
                                    ) + more);
                                }
                            }
                            tokens.push(token);
                            at = next;
                        },
                    }
                    i = i + 1;
                }
                proof {
                    lemma_array_view(tokens);
                }
                Ok((Token::Array { tokens }, at))
            },
        }
    } else {
        let (_, rest) = s.split_at(pos);
        proof {
            encode_utf8_decode_utf8(rest@);
        }
        Err(ParseError::UnknownType(rest.get_char(0)))
    }
}

/// Appends one of the three sigils to `out`.
fn push_sigil(out: &mut String, sigil: u8)
    requires
        sigil == SIMPLE_STRING_SIGIL || sigil == BULK_STRING_SIGIL || sigil == ARRAY_SIGIL,
    ensures
        utf8(final(out)@) == utf8(old(out)@) + seq![sigil],
{
    let text = if sigil == SIMPLE_STRING_SIGIL {
        "+"
    } else if sigil == BULK_STRING_SIGIL {
        "$"
    } else {
        "*"
    };
    proof {
        reveal_strlit("+");
        reveal_strlit("$");
        reveal_strlit("*");
        lemma_utf8_ascii(text@);
    }
    push_text(out, text);
}

/// Appends a line end to `out`.
fn push_crlf(out: &mut String)
    ensures
        utf8(final(out)@) == utf8(old(out)@) + crlf(),
{
    proof {
        reveal_strlit("\r\n");
        lemma_utf8_ascii(CRLF@);
    }
    push_text(out, CRLF);
}

impl Token {
    /// The text a string token carries; `None` for an array.
    pub fn extract(&self) -> (text: Option<&str>)
        ensures
            match self@ {
                TokenView::SimpleString { data } => text.is_some() && text.unwrap()@ == data,
                TokenView::BulkString { data } => text.is_some() && text.unwrap()@ == data,
                TokenView::Array { .. } => text.is_none(),
            },
    {
        match self {
            Token::SimpleString { data } => Some(data.as_str()),
            Token::BulkString { data } => Some(data.as_str()),
            Token::Array { .. } => None,
        }
    }

    /// Reads the token that a buffer holds: see [`decode`].
    ///
    /// The buffer may be padded with NUL bytes, as one is that was filled
    /// with zeros before it was read into. A buffer of nothing but padding
    /// holds the empty array. A token that was read is one that can be
    /// written and read again.
    ///
    /// Arrays may hold arrays, as deep as the buffer says; reading goes one
    /// call deeper for each level.
    pub fn try_from(s: &str) -> (r: Result<Token, ParseError>)
        ensures
            match r {
                Ok(token) => decode(utf8(s@)) == Ok::<TokenView, ParseError>(token@)
                    && token@.legal(),
                Err(error) => decode(utf8(s@)) == Err::<TokenView, ParseError>(error),
            },
    {
        let bytes = s.as_bytes();
        let size = bytes.len();
        proof {
            encode_utf8_valid_utf8(s@);
            lemma_decoded_is_legal(bytes@);
        }
        let mut start: usize = 0;
        while start < size && bytes[start] == 0
            invariant
                start <= size == bytes@.len(),
                forall|j: int| 0 <= j < start ==> bytes@[j] == 0,
            decreases size - start,
        {
            start = start + 1;
        }
        proof {
            lemma_leading_nuls(bytes@, start as int);
        }
        if start == size {
            let tokens: Vec<Token> = Vec::new();
            proof {
                lemma_array_view(tokens);
                assert(views(tokens@) =~= Seq::<TokenView>::empty());
            }
            return Ok(Token::Array { tokens });
        }
        let mut end: usize = size;
        while end > start && bytes[end - 1] == 0
            invariant
                start < end <= size == bytes@.len(),
                bytes@[start as int] != 0,
                forall|j: int| end <= j < size ==> bytes@[j] == 0,
            decreases end,
        {
            end = end - 1;
        }
        proof {
            lemma_trailing_nuls(bytes@, size - end);
            if start > 0 {
                lemma_boundary_after_ascii(bytes@, start - 1);
            }
            if end < size {
                is_char_boundary_iff_not_is_continuation_byte(bytes@, end as int);
            } else {
                is_char_boundary_start_end_of_seq(bytes@);
            }
        }
        let frame = slice(s, start, end);
        proof {
            encode_utf8_valid_utf8(frame@);
        }
        match read_token(frame, 0) {
            Err(error) => Err(error),
            Ok((token, _)) => Ok(token),
        }
    }

    /// The frame of the token, as text: see [`TokenView::wire`].
    pub fn to_string(&self) -> (text: String)
        ensures
            utf8(text@) == self@.wire(),
    {
        let mut text = String::new();
        self.write(&mut text);
        text
    }

    /// Appends the frame of the token to `out`.
    fn write(&self, out: &mut String)
        ensures
            utf8(final(out)@) == utf8(old(out)@) + self@.wire(),
        decreases self,
    {
        match self {
            Token::SimpleString { data } => {
                push_sigil(out, SIMPLE_STRING_SIGIL);
                push_text(out, data.as_str());
                push_crlf(out);
            },
            Token::BulkString { data } => {
                push_sigil(out, BULK_STRING_SIGIL);
                push_decimal(out, data.as_str().as_bytes().len());
                push_crlf(out);
                push_text(out, data.as_str());
                push_crlf(out);
            },
            Token::Array { tokens } => {
                push_sigil(out, ARRAY_SIGIL);
                push_decimal(out, tokens.len());
                push_crlf(out);
                let ghost head = utf8(out@);
                let mut i: usize = 0;
                while i < tokens.len()
                    invariant
                        *self == (Token::Array { tokens: *tokens }),
                        i <= tokens@.len(),
                        utf8(out@) == head + wire_all(views(tokens@).take(i as int)),
                    decreases tokens@.len() - i,
                {
                    proof {
                        lemma_wire_all_push(views(tokens@).take(i as int), tokens@[i as int]@);
                        assert(views(tokens@).take(i as int).push(tokens@[i as int]@) =~= views(
                            tokens@,
                        ).take(i + 1));
                        assert(decreases_to!(self->tokens => self->tokens[i as int]));
                    }
                    tokens[i].write(out);
                    i = i + 1;
                }
                proof {
                    lemma_array_view(*tokens);
                    assert(views(tokens@).take(tokens@.len() as int) =~= views(tokens@));
                }
            },
        }
    }
}

} // verus!
