//! The dispatcher: what the server answers to a request, and what the
//! request does to the store.

use vstd::prelude::*;
use vstd::string::*;
use vstd::utf8::*;
use crate::command::{interpret, Command, CommandView, ParseErrorView, PONG_RESPONSE};
use crate::database::{found, lookup, Database, Error, Value, ValueView};
use crate::grammar::decode;
use crate::resp::{Token, TokenView, CRLF};
use crate::text::{from_utf8, lemma_utf8_ascii, lemma_utf8_concat, push_text, utf8};

verus! {

/// The address and port on which the server listens.
pub const LISTEN_ADDR: &'static str = "127.0.0.1:6379";

/// The reply to a `SET`.
pub const OK_RESPONSE: &'static str = "+OK\r\n";

/// The reply to a `GET` of a key that was never set.
pub const KEY_NOT_FOUND_RESPONSE: &'static str = "-Key not found\r\n";

/// The reply to a `GET` of a value past its time to live: the null bulk
/// string.
pub const EXPIRED_RESPONSE: &'static str = "$-1\r\n";

/// Why a request got no reply.
#[derive(Debug, PartialEq, Eq)]
pub enum RequestError {
    /// The request is not text.
    InvalidUtf8,
    /// The request holds no token.
    Syntax(crate::resp::ParseError),
    /// The token is no command.
    Command(crate::command::ParseError),
}

/// The mathematical value of a [`RequestError`].
pub enum RequestErrorView {
    InvalidUtf8,
    Syntax(crate::resp::ParseError),
    Command(ParseErrorView),
}

impl View for RequestError {
    type V = RequestErrorView;

    open spec fn view(&self) -> RequestErrorView {
        match self {
            RequestError::InvalidUtf8 => RequestErrorView::InvalidUtf8,
            RequestError::Syntax(error) => RequestErrorView::Syntax(*error),
            RequestError::Command(error) => RequestErrorView::Command(error@),
        }
    }
}

/// `text` as a simple string on the wire.
pub open spec fn simple_reply(text: Seq<char>) -> Seq<char> {
    "+"@ + text + CRLF@
}

/// A simple reply is the frame of a simple string: replies are written in
/// the grammar in which requests are read.
pub proof fn lemma_simple_reply_is_a_frame(text: Seq<char>)
    ensures
        utf8(simple_reply(text)) == (TokenView::SimpleString { data: text }).wire(),
{
    reveal_strlit("+");
    reveal_strlit("\r\n");
    lemma_utf8_concat("+"@ + text, CRLF@);
    lemma_utf8_concat("+"@, text);
    lemma_utf8_ascii("+"@);
    lemma_utf8_ascii(CRLF@);
}

/// The reply to a `GET`, by what the read gave.
pub open spec fn read_reply(outcome: Result<ValueView, Error>) -> Seq<char> {
    match outcome {
        Ok(value) => simple_reply(value.data),
        Err(Error::KeyNotFound) => KEY_NOT_FOUND_RESPONSE@,
        Err(Error::Expired) => EXPIRED_RESPONSE@,
    }
}

/// The reply to a command and the store after it, where reading finds that
/// `elapsed` nanoseconds have passed since the value read was made.
///
/// Only `SET` changes the store and only `GET` reads it.
pub open spec fn run(store: Map<Seq<char>, ValueView>, command: CommandView, elapsed: nat) -> (
    Seq<char>,
    Map<Seq<char>, ValueView>,
) {
    match command {
        CommandView::Ping => (PONG_RESPONSE@, store),
        CommandView::Echo { message } => (simple_reply(message), store),
        CommandView::Store { key, value } => (OK_RESPONSE@, store.insert(key, value)),
        CommandView::Get { key } => (read_reply(lookup(store, key, elapsed)), store),
    }
}

/// The command that a request asks for: the bytes are text, the text holds
/// a token, the token stands for a command.
pub open spec fn request_command(request: Seq<u8>) -> Result<CommandView, RequestErrorView> {
    if !valid_utf8(request) {
        Err(RequestErrorView::InvalidUtf8)
    } else {
        match decode(request) {
            Err(error) => Err(RequestErrorView::Syntax(error)),
            Ok(token) => match interpret(token) {
                Err(error) => Err(RequestErrorView::Command(error)),
                Ok(command) => Ok(command),
            },
        }
    }
}

/// What a request comes to: the reply or the reason why there is none, and
/// the store after it.
///
/// A request that is refused leaves the store as it was.
pub open spec fn serve(store: Map<Seq<char>, ValueView>, request: Seq<u8>, elapsed: nat) -> (
    Result<Seq<char>, RequestErrorView>,
    Map<Seq<char>, ValueView>,
) {
    match request_command(request) {
        Err(error) => (Err(error), store),
        Ok(command) => (Ok(run(store, command, elapsed).0), run(store, command, elapsed).1),
    }
}

/// What came of a request, with the reply and the error taken by their
/// views.
pub open spec fn served(outcome: Result<String, RequestError>) -> Result<
    Seq<char>,
    RequestErrorView,
> {
    match outcome {
        Ok(reply) => Ok(reply@),
        Err(error) => Err(error@),
    }
}

/// Writes `text` as a simple string.
fn simple_string(text: &str) -> (reply: String)
    ensures
        reply@ == simple_reply(text@),
{
    let mut reply = String::from_str("+");
    push_text(&mut reply, text);
    push_text(&mut reply, CRLF);
    reply
}

/// The reply to a `GET`, by what the read gave.
pub fn reply_to_read(outcome: Result<&Value, Error>) -> (reply: String)
    ensures
        reply@ == read_reply(found(outcome)),
{
    match outcome {
        Ok(value) => simple_string(value.data.as_str()),
        Err(Error::KeyNotFound) => String::from_str(KEY_NOT_FOUND_RESPONSE),
        Err(Error::Expired) => String::from_str(EXPIRED_RESPONSE),
    }
}

/// Carries out a command on the store and gives the reply.
///
/// For a `GET`, how much time has passed since the value was made is for
/// the clock to say; whatever it says, reply and store are those of [`run`]
/// for that much time.
pub fn execute(db: &mut Database, command: Command) -> (reply: String)
    ensures
        exists|elapsed: nat| (reply@, final(db)@) == run(old(db)@, command@, elapsed),
{
    match command {
        Command::Ping => {
            let reply = String::from_str(PONG_RESPONSE);
            assert((reply@, db@) == run(old(db)@, command@, 0));
            reply
        },
        Command::Echo { message } => {
            let reply = simple_string(message.as_str());
            assert((reply@, db@) == run(old(db)@, command@, 0));
            reply
        },
        Command::Store { key, value } => {
            db.set(key, value);
            let reply = String::from_str(OK_RESPONSE);
            assert((reply@, db@) == run(old(db)@, command@, 0));
            reply
        },
        Command::Get { key } => {
            let outcome = db.get(key.as_str());
            let ghost elapsed = choose|elapsed: nat| found(outcome) == lookup(db@, key@, elapsed);
            let reply = reply_to_read(outcome);
            assert((reply@, db@) == run(old(db)@, command@, elapsed));
            reply
        },
    }
}

/// Carries out a command on the store and gives the reply, where reading
/// finds that `elapsed` nanoseconds have passed since the value read was
/// made.
pub fn execute_after(db: &mut Database, command: Command, elapsed: u128) -> (reply: String)
    ensures
        (reply@, final(db)@) == run(old(db)@, command@, elapsed as nat),
{
    match command {
        Command::Ping => String::from_str(PONG_RESPONSE),
        Command::Echo { message } => simple_string(message.as_str()),
        Command::Store { key, value } => {
            db.set(key, value);
            String::from_str(OK_RESPONSE)
        },
        Command::Get { key } => reply_to_read(db.get_after(key.as_str(), elapsed)),
    }
}

/// Reads a request as a command: see [`request_command`].
///
/// The value of a `SET` is made at the time of the call.
pub fn read_request(request: &[u8]) -> (outcome: Result<Command, RequestError>)
    ensures
        match outcome {
            Ok(command) => request_command(request@) == Ok::<CommandView, RequestErrorView>(
                command@,
            ),
            Err(error) => request_command(request@) == Err::<CommandView, RequestErrorView>(
                error@,
            ),
        },
{
    let text = match from_utf8(request) {
        Some(text) => text,
        None => {
            return Err(RequestError::InvalidUtf8);
        },
    };
    proof {
        encode_utf8_valid_utf8(text@);
    }
    let token = match Token::try_from(text) {
        Ok(token) => token,
        Err(error) => {
            return Err(RequestError::Syntax(error));
        },
    };
    match Command::try_from(token) {
        Ok(command) => Ok(command),
        Err(error) => Err(RequestError::Command(error)),
    }
}

/// Serves one request: reads it as a command, carries the command out and
/// gives the reply.
///
/// As with [`execute`], the clock says how much time has passed since a
/// value that is read was made; whatever it says, the outcome and the store
/// are those of [`serve`] for that much time.
pub fn handle_request(db: &mut Database, request: &[u8]) -> (outcome: Result<String, RequestError>)
    ensures
        exists|elapsed: nat| (served(outcome), final(db)@) == serve(old(db)@, request@, elapsed),
{
    match read_request(request) {
        Err(error) => {
            assert((served(Err(error)), db@) == serve(old(db)@, request@, 0));
            Err(error)
        },
        Ok(command) => {
            let ghost asked = command@;
            let reply = execute(db, command);
            proof {
                let elapsed = choose|elapsed: nat| (reply@, db@) == run(old(db)@, asked, elapsed);
                assert((served(Ok(reply)), db@) == serve(old(db)@, request@, elapsed));
            }
            Ok(reply)
        },
    }
}

} // verus!
