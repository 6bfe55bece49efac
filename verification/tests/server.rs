use redis_lite::command::{Command, ParseError};
use redis_lite::database::{Database, Value};
use redis_lite::resp;
use redis_lite::server::{
    execute, execute_after, handle_request, reply_to_read, RequestError, EXPIRED_RESPONSE,
    KEY_NOT_FOUND_RESPONSE, LISTEN_ADDR, OK_RESPONSE,
};

#[test]
fn listens_on_the_default_port() {
    assert_eq!(LISTEN_ADDR, "127.0.0.1:6379");
}

#[test]
fn ping_is_answered_with_pong() {
    let mut db = Database::new();
    assert_eq!(execute(&mut db, Command::Ping), "+PONG\r\n");
    assert_eq!(handle_request(&mut db, b"+ping\r\n"), Ok("+PONG\r\n".to_string()));
    assert_eq!(
        handle_request(&mut db, b"*1\r\n$4\r\nPING\r\n"),
        Ok("+PONG\r\n".to_string())
    );
}

#[test]
fn echo_sends_the_message_back() {
    let mut db = Database::new();
    assert_eq!(
        handle_request(&mut db, b"*2\r\n$4\r\nECHO\r\n$3\r\nhey\r\n"),
        Ok("+hey\r\n".to_string())
    );
    assert_eq!(
        execute(
            &mut db,
            Command::Echo {
                message: String::new()
            }
        ),
        "+\r\n"
    );
}

#[test]
fn set_then_get() {
    let mut db = Database::new();
    assert_eq!(
        handle_request(&mut db, b"*3\r\n$3\r\nSET\r\n$3\r\nfoo\r\n$3\r\nbar\r\n"),
        Ok("+OK\r\n".to_string())
    );
    assert_eq!(db.get("foo").unwrap().data, "bar");
    assert_eq!(
        handle_request(&mut db, b"*2\r\n$3\r\nGET\r\n$3\r\nfoo\r\n"),
        Ok("+bar\r\n".to_string())
    );
}

#[test]
fn get_of_a_key_never_set() {
    let mut db = Database::new();
    assert_eq!(
        handle_request(&mut db, b"*2\r\n$3\r\nGET\r\n$3\r\nfoo\r\n"),
        Ok("-Key not found\r\n".to_string())
    );
    assert_eq!(KEY_NOT_FOUND_RESPONSE, "-Key not found\r\n");
}

#[test]
fn get_of_an_expired_value() {
    let mut db = Database::new();
    assert_eq!(
        handle_request(
            &mut db,
            b"*5\r\n$3\r\nSET\r\n$3\r\nfoo\r\n$3\r\nbar\r\n$2\r\npx\r\n$2\r\n10\r\n"
        ),
        Ok(OK_RESPONSE.to_string())
    );
    let get = || Command::Get {
        key: "foo".to_string(),
    };
    assert_eq!(execute_after(&mut db, get(), 10_000_000), "+bar\r\n");
    assert_eq!(execute_after(&mut db, get(), 10_000_001), "$-1\r\n");
    assert_eq!(execute_after(&mut db, get(), 0), "+bar\r\n");
    assert_eq!(EXPIRED_RESPONSE, "$-1\r\n");
}

#[test]
fn replies_to_a_read() {
    let value = Value::without_ttl("bar".to_string());
    assert_eq!(reply_to_read(Ok(&value)), "+bar\r\n");
    assert_eq!(
        reply_to_read(Err(redis_lite::database::Error::KeyNotFound)),
        "-Key not found\r\n"
    );
    assert_eq!(
        reply_to_read(Err(redis_lite::database::Error::Expired)),
        "$-1\r\n"
    );
}

#[test]
fn execute_after_carries_out_every_command() {
    let mut db = Database::new();
    assert_eq!(execute_after(&mut db, Command::Ping, 5), "+PONG\r\n");
    assert_eq!(
        execute_after(
            &mut db,
            Command::Echo {
                message: "hi".to_string()
            },
            5
        ),
        "+hi\r\n"
    );
    assert_eq!(
        execute_after(
            &mut db,
            Command::Store {
                key: "k".to_string(),
                value: Value::without_ttl("v".to_string())
            },
            5
        ),
        "+OK\r\n"
    );
    assert_eq!(
        execute_after(
            &mut db,
            Command::Get {
                key: "k".to_string()
            },
            5
        ),
        "+v\r\n"
    );
}

#[test]
fn overwrite_replaces_the_time_to_live() {
    let mut db = Database::new();
    let set = |value: Value| Command::Store {
        key: "foo".to_string(),
        value,
    };
    let get = || Command::Get {
        key: "foo".to_string(),
    };
    execute(&mut db, set(Value::with_ttl("bar".to_string(), 1)));
    execute(&mut db, set(Value::without_ttl("baz".to_string())));
    assert_eq!(execute_after(&mut db, get(), u128::MAX), "+baz\r\n");
}

#[test]
fn zero_filled_buffer_is_served_up_to_its_padding() {
    let mut db = Database::new();
    let mut buffer = [0u8; 512];
    let request = b"*2\r\n$4\r\nECHO\r\n$3\r\nhey\r\n";
    buffer[..request.len()].copy_from_slice(request);
    assert_eq!(handle_request(&mut db, &buffer), Ok("+hey\r\n".to_string()));
}

#[test]
fn empty_read_is_no_command() {
    let mut db = Database::new();
    assert_eq!(
        handle_request(&mut db, &[0u8; 512]),
        Err(RequestError::Command(ParseError::MissingCommand))
    );
    assert_eq!(
        handle_request(&mut db, b""),
        Err(RequestError::Command(ParseError::MissingCommand))
    );
}

#[test]
fn refused_requests() {
    let mut db = Database::new();
    assert_eq!(
        handle_request(&mut db, b"+ping\xff\r\n"),
        Err(RequestError::InvalidUtf8)
    );
    assert_eq!(
        handle_request(&mut db, b"\xc3"),
        Err(RequestError::InvalidUtf8)
    );
    assert_eq!(
        handle_request(&mut db, b"ping\r\n"),
        Err(RequestError::Syntax(resp::ParseError::UnknownType('p')))
    );
    assert_eq!(
        handle_request(&mut db, b"*2\r\n$3\r\nGET\r\n"),
        Err(RequestError::Syntax(resp::ParseError::IncompleteMessage))
    );
    assert_eq!(
        handle_request(&mut db, b"$x\r\n"),
        Err(RequestError::Syntax(resp::ParseError::InvalidLength))
    );
    assert_eq!(
        handle_request(&mut db, b"*2\r\n$3\r\nDEL\r\n$3\r\nfoo\r\n"),
        Err(RequestError::Command(ParseError::UnknownCommand(
            "del".to_string()
        )))
    );
    assert_eq!(
        handle_request(&mut db, b"*1\r\n$3\r\nGET\r\n"),
        Err(RequestError::Command(ParseError::MissingArgument))
    );
    assert_eq!(
        handle_request(&mut db, b"*2\r\n$3\r\nGET\r\n*0\r\n"),
        Err(RequestError::Command(ParseError::WrongArgument))
    );
}

#[test]
fn refused_request_leaves_the_store_alone() {
    let mut db = Database::new();
    db.set("foo".into(), Value::without_ttl("bar".into()));
    assert!(handle_request(&mut db, b"*2\r\n$3\r\nSET\r\n$3\r\nfoo\r\n").is_err());
    assert_eq!(db.get("foo").unwrap().data, "bar");
}
