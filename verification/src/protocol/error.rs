use vstd::prelude::*;

use crate::strutil::push_str;

verus! {

/// Why a command line or a frame could not be turned into a command.
#[derive(Debug)]
pub enum ProtocolError {
    EmptyCommand,
    UnterminatedString,
    /// Holds the command's name.
    UnknownCommand(String),
    /// Holds the reason the argument was refused.
    InvalidArgument(String),
    /// Holds the reason the frame was refused.
    InvalidFrame(String),
}

pub enum ProtocolErrorSpec {
    EmptyCommand,
    UnterminatedString,
    UnknownCommand(Seq<char>),
    InvalidArgument(Seq<char>),
    InvalidFrame(Seq<char>),
}

impl View for ProtocolError {
    type V = ProtocolErrorSpec;

    open spec fn view(&self) -> ProtocolErrorSpec {
        match self {
            ProtocolError::EmptyCommand => ProtocolErrorSpec::EmptyCommand,
            ProtocolError::UnterminatedString => ProtocolErrorSpec::UnterminatedString,
            ProtocolError::UnknownCommand(s) => ProtocolErrorSpec::UnknownCommand(s@),
            ProtocolError::InvalidArgument(s) => ProtocolErrorSpec::InvalidArgument(s@),
            ProtocolError::InvalidFrame(s) => ProtocolErrorSpec::InvalidFrame(s@),
        }
    }
}

impl ProtocolErrorSpec {
    /// The text by which the error is shown to a client.
    pub open spec fn message(self) -> Seq<char> {
        match self {
            ProtocolErrorSpec::EmptyCommand => "empty command"@,
            ProtocolErrorSpec::UnterminatedString => "unterminated quoted string"@,
            ProtocolErrorSpec::UnknownCommand(c) => "unknown or wrong-arity command '"@ + c
                + "'"@,
            ProtocolErrorSpec::InvalidArgument(r) => "invalid argument: "@ + r,
            ProtocolErrorSpec::InvalidFrame(r) => "invalid frame: "@ + r,
        }
    }
}

impl ProtocolError {
    /// The text by which the error is shown to a client.
    pub fn to_string(&self) -> (s: String)
        ensures
            s@ == self@.message(),
    {
        let mut s = String::new();
        match self {
            ProtocolError::EmptyCommand => push_str(&mut s, "empty command"),
            ProtocolError::UnterminatedString => push_str(&mut s, "unterminated quoted string"),
            ProtocolError::UnknownCommand(c) => {
                push_str(&mut s, "unknown or wrong-arity command '");
                push_str(&mut s, c.as_str());
                push_str(&mut s, "'");
            },
            ProtocolError::InvalidArgument(r) => {
                push_str(&mut s, "invalid argument: ");
                push_str(&mut s, r.as_str());
            },
            ProtocolError::InvalidFrame(r) => {
                push_str(&mut s, "invalid frame: ");
                push_str(&mut s, r.as_str());
            },
        }
        proof {
            assert(s@ =~= self@.message());
        }
        s
    }
}

} // verus!
