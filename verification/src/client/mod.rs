//! The interactive client: reading an input line into arguments, finding where a
//! reply frame ends, parsing it, and rendering it for a person.
pub mod format;
pub mod frame;
pub mod roundtrip;

use vstd::prelude::*;

use crate::protocol::strings_view;
use crate::protocol::text::{split_chars, tokens};
use crate::strutil::{chars_of, is_whitespace, is_ws};

verus! {

/// `str::trim_end` over characters.
pub open spec fn trim_end_chars(s: Seq<char>) -> Seq<char>
    decreases s.len(),
{
    if s.len() > 0 && is_ws(s.last()) {
        trim_end_chars(s.drop_last())
    } else {
        s
    }
}

/// Splits an input line into arguments, respecting double-quoted strings.
pub fn split_args(input: &str) -> (r: Result<Vec<String>, String>)
    ensures
        match (r, tokens(input@)) {
            (Ok(v), Some(ts)) => strings_view(v@) == ts,
            (Err(e), None) => e@ == "unterminated quoted string"@,
            _ => false,
        },
{
    let cs = chars_of(input);
    proof {
        assert(cs@.subrange(0, cs@.len() as int) =~= cs@);
    }
    match split_chars(&cs, 0, cs.len()) {
        Some(v) => Ok(v),
        None => Err("unterminated quoted string".to_string()),
    }
}

/// The arguments of a line that a person typed: the line without its trailing
/// whitespace, split as [`split_args`] does.
pub fn input_args(line: &str) -> (r: Result<Vec<String>, String>)
    ensures
        match (r, tokens(trim_end_chars(line@))) {
            (Ok(v), Some(ts)) => strings_view(v@) == ts,
            (Err(e), None) => e@ == "unterminated quoted string"@,
            _ => false,
        },
{
    let cs = chars_of(line);
    let mut hi: usize = cs.len();
    proof {
        assert(cs@.subrange(0, hi as int) =~= cs@);
    }
    while hi > 0 && is_whitespace(cs[hi - 1])
        invariant
            hi <= cs@.len(),
            trim_end_chars(line@) == trim_end_chars(cs@.subrange(0, hi as int)),
            cs@ == line@,
        decreases hi,
    {
        proof {
            assert(cs@.subrange(0, hi as int).drop_last() =~= cs@.subrange(0, hi - 1));
        }
        hi -= 1;
    }
    match split_chars(&cs, 0, hi) {
        Some(v) => Ok(v),
        None => Err("unterminated quoted string".to_string()),
    }
}

} // verus!
