//! Commands: what a client may ask for, and how a token is read as one.

use vstd::prelude::*;
use crate::database::{Value, ValueView};
use crate::decimal::{parse_unsigned, unsigned_u64};
use crate::resp::{lemma_array_view, views, Token, TokenView};
use crate::text::{ascii_lowercase, str_eq, to_ascii_lowercase, utf8};

verus! {

/// The reply to [`Command::Ping`].
pub const PONG_RESPONSE: &'static str = "+PONG\r\n";

/// Where in a `SET` array the time to live stands: after the name, the key,
/// the value and one slot that is not read.
pub const TTL_SLOT: usize = 4;

/// Why a token is no command.
#[derive(Debug, PartialEq, Eq)]
pub enum ParseError {
    /// The name is none of `ping`, `echo`, `get`, `set`.
    UnknownCommand(String),
    /// The array is empty.
    MissingCommand,
    /// The array is too short for what the command needs.
    MissingArgument,
    /// An array stands where the command needs a string.
    WrongArgument,
}

/// The mathematical value of a [`ParseError`].
pub enum ParseErrorView {
    UnknownCommand(Seq<char>),
    MissingCommand,
    MissingArgument,
    WrongArgument,
}

impl View for ParseError {
    type V = ParseErrorView;

    open spec fn view(&self) -> ParseErrorView {
        match self {
            ParseError::UnknownCommand(name) => ParseErrorView::UnknownCommand(name@),
            ParseError::MissingCommand => ParseErrorView::MissingCommand,
            ParseError::MissingArgument => ParseErrorView::MissingArgument,
            ParseError::WrongArgument => ParseErrorView::WrongArgument,
        }
    }
}

impl Clone for ParseError {
    fn clone(&self) -> (copy: ParseError)
        ensures
            copy == *self,
    {
        match self {
            ParseError::UnknownCommand(name) => ParseError::UnknownCommand(name.clone()),
            ParseError::MissingCommand => ParseError::MissingCommand,
            ParseError::MissingArgument => ParseError::MissingArgument,
            ParseError::WrongArgument => ParseError::WrongArgument,
        }
    }
}

/// What a client may ask the server to do.
#[derive(Debug, PartialEq, Eq)]
pub enum Command {
    /// Answer with [`PONG_RESPONSE`].
    Ping,
    /// Send `message` back.
    Echo { message: String },
    /// `SET`: store `value` under `key`, in place of what was there, its
    /// time to live included.
    Store { key: String, value: Value },
    /// Read what is stored under `key`.
    Get { key: String },
}

/// The mathematical value of a [`Command`].
pub enum CommandView {
    Ping,
    Echo { message: Seq<char> },
    Store { key: Seq<char>, value: ValueView },
    Get { key: Seq<char> },
}

impl View for Command {
    type V = CommandView;

    open spec fn view(&self) -> CommandView {
        match self {
            Command::Ping => CommandView::Ping,
            Command::Echo { message } => CommandView::Echo { message: message@ },
            Command::Store { key, value } => CommandView::Store { key: key@, value: value@ },
            Command::Get { key } => CommandView::Get { key: key@ },
        }
    }
}

impl Clone for Command {
    fn clone(&self) -> (copy: Command)
        ensures
            copy == *self,
    {
        match self {
            Command::Ping => Command::Ping,
            Command::Echo { message } => Command::Echo { message: message.clone() },
            Command::Store { key, value } => Command::Store {
                key: key.clone(),
                value: value.clone(),
            },
            Command::Get { key } => Command::Get { key: key.clone() },
        }
    }
}

/// The text of a string token; none for an array.
pub open spec fn text_of(token: TokenView) -> Option<Seq<char>> {
    match token {
        TokenView::SimpleString { data } => Some(data),
        TokenView::BulkString { data } => Some(data),
        TokenView::Array { .. } => None,
    }
}

/// The argument that stands at `index` of a command's array.
pub open spec fn argument(tokens: Seq<TokenView>, index: int) -> Result<Seq<char>, ParseErrorView> {
    if index >= tokens.len() {
        Err(ParseErrorView::MissingArgument)
    } else {
        match text_of(tokens[index]) {
            Some(text) => Ok(text),
            None => Err(ParseErrorView::WrongArgument),
        }
    }
}

/// The time to live that a `SET` array asks for, in milliseconds: the
/// number at [`TTL_SLOT`]. Where nothing stands there, or something that is
/// no unsigned number of 64 bits, the value is to live forever.
pub open spec fn ttl_argument(tokens: Seq<TokenView>) -> Option<u64> {
    if tokens.len() > TTL_SLOT {
        match text_of(tokens[TTL_SLOT as int]) {
            Some(text) => unsigned_u64(utf8(text)),
            None => None,
        }
    } else {
        None
    }
}

/// The command that an array of a name and its arguments stands for.
pub open spec fn interpret_array(tokens: Seq<TokenView>) -> Result<CommandView, ParseErrorView> {
    if tokens.len() == 0 {
        Err(ParseErrorView::MissingCommand)
    } else {
        let name = match text_of(tokens[0]) {
            Some(text) => ascii_lowercase(text),
            None => Seq::empty(),
        };
        if name == "ping"@ {
            Ok(CommandView::Ping)
        } else if name == "echo"@ {
            match argument(tokens, 1) {
                Ok(message) => Ok(CommandView::Echo { message }),
                Err(error) => Err(error),
            }
        } else if name == "get"@ {
            match argument(tokens, 1) {
                Ok(key) => Ok(CommandView::Get { key }),
                Err(error) => Err(error),
            }
        } else if name == "set"@ {
            match argument(tokens, 1) {
                Ok(key) => match argument(tokens, 2) {
                    Ok(data) => Ok(
                        CommandView::Store {
                            key,
                            value: ValueView { data, ttl: ttl_argument(tokens) },
                        },
                    ),
                    Err(error) => Err(error),
                },
                Err(error) => Err(error),
            }
        } else {
            Err(ParseErrorView::UnknownCommand(name))
        }
    }
}

/// The command that a token stands for.
///
/// A string on its own is a command only where it names `ping`. An array
/// holds the name of a command and then its arguments; the name is matched
/// whatever the case of its letters, and arguments beyond those that the
/// command reads are let be.
pub open spec fn interpret(token: TokenView) -> Result<CommandView, ParseErrorView> {
    match token {
        TokenView::SimpleString { data } => interpret_word(data),
        TokenView::BulkString { data } => interpret_word(data),
        TokenView::Array { tokens } => interpret_array(tokens),
    }
}

/// The command that a string on its own stands for.
pub open spec fn interpret_word(word: Seq<char>) -> Result<CommandView, ParseErrorView> {
    if ascii_lowercase(word) == "ping"@ {
        Ok(CommandView::Ping)
    } else {
        Err(ParseErrorView::UnknownCommand(word))
    }
}

/// Reads a string on its own as a command.
fn read_word(word: String) -> (r: Result<Command, ParseError>)
    ensures
        match r {
            Ok(command) => interpret_word(word@) == Ok::<CommandView, ParseErrorView>(command@),
            Err(error) => interpret_word(word@) == Err::<CommandView, ParseErrorView>(error@),
        },
{
    let lower = to_ascii_lowercase(word.as_str());
    if str_eq(lower.as_str(), "ping") {
        Ok(Command::Ping)
    } else {
        Err(ParseError::UnknownCommand(word))
    }
}

/// Reads the argument that stands at `index` of a command's array.
fn read_argument(tokens: &Vec<Token>, index: usize) -> (r: Result<String, ParseError>)
    ensures
        match r {
            Ok(text) => argument(views(tokens@), index as int) == Ok::<Seq<char>, ParseErrorView>(
                text@,
            ),
            Err(error) => argument(views(tokens@), index as int) == Err::<
                Seq<char>,
                ParseErrorView,
            >(error@),
        },
{
    if index >= tokens.len() {
        return Err(ParseError::MissingArgument);
    }
    match tokens[index].extract() {
        Some(text) => Ok(text.to_owned()),
        None => Err(ParseError::WrongArgument),
    }
}

/// Reads the time to live that a `SET` array asks for.
fn read_ttl(tokens: &Vec<Token>) -> (ttl: Option<u64>)
    ensures
        ttl == ttl_argument(views(tokens@)),
{
    if tokens.len() > TTL_SLOT {
        match tokens[TTL_SLOT].extract() {
            Some(text) => parse_unsigned(text),
            None => None,
        }
    } else {
        None
    }
}

impl Command {
    /// Reads a token as a command: see [`interpret`].
    ///
    /// The value of a `SET` is made at the time of the call.
    pub fn try_from(token: Token) -> (r: Result<Command, ParseError>)
        ensures
            match r {
                Ok(command) => interpret(token@) == Ok::<CommandView, ParseErrorView>(command@),
                Err(error) => interpret(token@) == Err::<CommandView, ParseErrorView>(error@),
            },
    {
        match token {
            Token::SimpleString { data } => read_word(data),
            Token::BulkString { data } => read_word(data),
            Token::Array { tokens } => {
                proof {
                    lemma_array_view(tokens);
                }
                if tokens.len() == 0 {
                    return Err(ParseError::MissingCommand);
                }
                let name = match tokens[0].extract() {
                    Some(text) => to_ascii_lowercase(text),
                    None => String::new(),
                };
                if str_eq(name.as_str(), "ping") {
                    Ok(Command::Ping)
                } else if str_eq(name.as_str(), "echo") {
                    match read_argument(&tokens, 1) {
                        Ok(message) => Ok(Command::Echo { message }),
                        Err(error) => Err(error),
                    }
                } else if str_eq(name.as_str(), "get") {
                    match read_argument(&tokens, 1) {
                        Ok(key) => Ok(Command::Get { key }),
                        Err(error) => Err(error),
                    }
                } else if str_eq(name.as_str(), "set") {
                    let ttl = read_ttl(&tokens);
                    match read_argument(&tokens, 1) {
                        Ok(key) => match read_argument(&tokens, 2) {
                            Ok(data) => Ok(Command::Store { key, value: Value::new(data, ttl) }),
                            Err(error) => Err(error),
                        },
                        Err(error) => Err(error),
                    }
                } else {
                    Err(ParseError::UnknownCommand(name))
                }
            },
        }
    }
}

} // verus!
