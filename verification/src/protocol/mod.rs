//! The commands that clients send and the values that travel on the wire.
pub mod error;
pub mod reader;
pub mod roundtrip;
pub mod text;

use vstd::prelude::*;

pub use error::{ProtocolError, ProtocolErrorSpec};

verus! {

/// A value of the RESP wire protocol.
#[derive(Debug)]
pub enum RespValue {
    Simple(String),
    Error(String),
    Integer(i64),
    Bulk(String),
    Array(Vec<RespValue>),
    Nil,
}

/// The name under which the server's replies are known.
pub type Reply = RespValue;

/// The mathematical form of a [`RespValue`]: strings taken by their characters.
pub enum RespSpec {
    Simple(Seq<char>),
    Error(Seq<char>),
    Integer(i64),
    Bulk(Seq<char>),
    Array(Seq<RespSpec>),
    Nil,
}

pub open spec fn resp_spec(v: RespValue) -> RespSpec
    decreases v,
{
    match v {
        RespValue::Simple(s) => RespSpec::Simple(s@),
        RespValue::Error(s) => RespSpec::Error(s@),
        RespValue::Integer(n) => RespSpec::Integer(n),
        RespValue::Bulk(s) => RespSpec::Bulk(s@),
        RespValue::Array(items) => RespSpec::Array(resp_items(items@)),
        RespValue::Nil => RespSpec::Nil,
    }
}

/// The views of the items of an array.
pub open spec fn resp_items(items: Seq<RespValue>) -> Seq<RespSpec>
    decreases items,
{
    Seq::new(
        items.len(),
        |i: int|
            if 0 <= i < items.len() {
                resp_spec(items[i])
            } else {
                RespSpec::Nil
            },
    )
}

impl View for RespValue {
    type V = RespSpec;

    open spec fn view(&self) -> RespSpec {
        resp_spec(*self)
    }
}

/// The views of a sequence of replies.
pub open spec fn resp_seq(v: Seq<RespValue>) -> Seq<RespSpec> {
    v.map_values(|r: RespValue| r@)
}

/// The views of a sequence of strings.
pub open spec fn strings_view(v: Seq<String>) -> Seq<Seq<char>> {
    v.map_values(|s: String| s@)
}

/// A command that a client sends.
#[derive(Debug)]
pub enum Command {
    Normal(NormalCommand),
    Session(SessionCommand),
    Auth { password: String },
}

/// A command that works on the shared data.
#[derive(Debug)]
pub enum NormalCommand {
    Ping(Option<String>),
    Echo(String),
    Get { key: String },
    SetValue { key: String, value: String },
    Del { key: String },
    Exists { key: String },
    Incr { key: String },
    Decr { key: String },
    Expire { key: String, seconds: u64 },
    Ttl { key: String },
    Publish { channel: String, message: String },
}

/// A command that changes the state of the client's session.
#[derive(Debug)]
pub enum SessionCommand {
    Subscribe { channels: Vec<String> },
    Unsubscribe { channels: Vec<String> },
    Quit,
    Reset,
}

pub enum NormalSpec {
    Ping(Option<Seq<char>>),
    Echo(Seq<char>),
    Get(Seq<char>),
    SetValue(Seq<char>, Seq<char>),
    Del(Seq<char>),
    Exists(Seq<char>),
    Incr(Seq<char>),
    Decr(Seq<char>),
    Expire(Seq<char>, u64),
    Ttl(Seq<char>),
    Publish(Seq<char>, Seq<char>),
}

pub enum SessionSpec {
    Subscribe(Seq<Seq<char>>),
    Unsubscribe(Seq<Seq<char>>),
    Quit,
    Reset,
}

pub enum CommandSpec {
    Normal(NormalSpec),
    Session(SessionSpec),
    Auth(Seq<char>),
}

impl View for NormalCommand {
    type V = NormalSpec;

    open spec fn view(&self) -> NormalSpec {
        match self {
            NormalCommand::Ping(m) => NormalSpec::Ping(
                match m {
                    Some(s) => Some(s@),
                    None => None,
                },
            ),
            NormalCommand::Echo(s) => NormalSpec::Echo(s@),
            NormalCommand::Get { key } => NormalSpec::Get(key@),
            NormalCommand::SetValue { key, value } => NormalSpec::SetValue(key@, value@),
            NormalCommand::Del { key } => NormalSpec::Del(key@),
            NormalCommand::Exists { key } => NormalSpec::Exists(key@),
            NormalCommand::Incr { key } => NormalSpec::Incr(key@),
            NormalCommand::Decr { key } => NormalSpec::Decr(key@),
            NormalCommand::Expire { key, seconds } => NormalSpec::Expire(key@, *seconds),
            NormalCommand::Ttl { key } => NormalSpec::Ttl(key@),
            NormalCommand::Publish { channel, message } => NormalSpec::Publish(
                channel@,
                message@,
            ),
        }
    }
}

impl View for SessionCommand {
    type V = SessionSpec;

    open spec fn view(&self) -> SessionSpec {
        match self {
            SessionCommand::Subscribe { channels } => SessionSpec::Subscribe(
                strings_view(channels@),
            ),
            SessionCommand::Unsubscribe { channels } => SessionSpec::Unsubscribe(
                strings_view(channels@),
            ),
            SessionCommand::Quit => SessionSpec::Quit,
            SessionCommand::Reset => SessionSpec::Reset,
        }
    }
}

impl View for Command {
    type V = CommandSpec;

    open spec fn view(&self) -> CommandSpec {
        match self {
            Command::Normal(c) => CommandSpec::Normal(c@),
            Command::Session(c) => CommandSpec::Session(c@),
            Command::Auth { password } => CommandSpec::Auth(password@),
        }
    }
}

/// The view of a parse result.
pub open spec fn command_result_view(r: Result<Command, ProtocolError>) -> Result<
    CommandSpec,
    ProtocolErrorSpec,
> {
    match r {
        Ok(c) => Ok(c@),
        Err(e) => Err(e@),
    }
}

} // verus!
