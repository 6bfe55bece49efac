//! The core of a small Redis-like server: the wire codec, the command
//! interpreter, and an in-memory keyspace whose values may expire.
//!
//! A request travels through the modules in this order:
//!
//! - [`resp`] reads the bytes as a [`resp::Token`], after the grammar that
//!   [`grammar`] lays down, and writes tokens back as bytes;
//! - [`command`] reads the token as a [`command::Command`];
//! - [`server`] carries the command out on a [`database::Database`] and
//!   words the reply.
//!
//! Every function is verified against a contract over the mathematical
//! value of what it takes and gives. The laws that tie the functions
//! together are proved beside them: writing a token and reading it back
//! gives the token ([`roundtrip`]), and a value that was set is read until
//! its time to live has passed ([`database`]).
//!
//! Sockets, configuration and logging are no part of the library: it takes
//! bytes and gives text.

mod clock;
pub mod command;
pub mod database;
pub mod decimal;
pub mod grammar;
pub mod resp;
pub mod roundtrip;
pub mod server;
pub mod text;
