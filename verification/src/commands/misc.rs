//! PING and ECHO.
use vstd::prelude::*;

use crate::protocol::{RespSpec, RespValue};

verus! {

/// PING's reply: `PONG`, or the message when one is given.
pub open spec fn ping_spec(msg: Option<Seq<char>>) -> RespSpec {
    match msg {
        None => RespSpec::Simple("PONG"@),
        Some(m) => RespSpec::Bulk(m),
    }
}

pub open spec fn opt_chars(o: Option<String>) -> Option<Seq<char>> {
    match o {
        Some(s) => Some(s@),
        None => None,
    }
}

pub fn ping(msg: Option<String>) -> (r: RespValue)
    ensures
        r@ == ping_spec(opt_chars(msg)),
{
    match msg {
        None => RespValue::Simple("PONG".to_string()),
        Some(m) => RespValue::Bulk(m),
    }
}

pub fn echo(msg: String) -> (r: RespValue)
    ensures
        r@ == RespSpec::Bulk(msg@),
{
    RespValue::Bulk(msg)
}

} // verus!
