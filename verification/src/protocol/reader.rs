//! Reading a client's request frame out of the bytes received so far.
//!
//! The server takes one RESP value per request: a simple string, an error, an
//! integer, a bulk string, or an array of those (no nested arrays, no null array).
//! The bytes are read as they arrive: a frame that is not whole yet is
//! `Incomplete`, and once the peer has closed the connection a line that lacks its
//! terminator is refused.
use vstd::prelude::*;
use vstd::slice::slice_subrange;
use vstd::utf8::*;

use crate::protocol::error::ProtocolError;
use crate::protocol::{resp_items, RespSpec, RespValue};
use crate::strutil::{chars_of, parse_i64_chars, parse_i64_spec, utf8_string};

verus! {

/// The outcome of reading a frame out of the bytes received so far.
#[derive(Debug)]
pub enum FrameRead {
    /// A whole frame, and the number of bytes it took.
    Frame(RespValue, usize),
    /// The bytes end before the frame does.
    Incomplete,
    /// The bytes cannot start a valid frame.
    Invalid(ProtocolError),
}

/// The mathematical form of a read: a value and the position after it, more bytes
/// needed, or the reason the frame is refused.
pub enum StepSpec {
    Done(RespSpec, int),
    Incomplete,
    Invalid(Seq<char>),
}

pub enum ItemsSpec {
    Done(Seq<RespSpec>, int),
    Incomplete,
    Invalid(Seq<char>),
}

pub enum LineSpec {
    /// The line's content without `\r\n`, and the position after the line.
    Line(Seq<u8>, int),
    Incomplete,
    Bad,
}

/// The position of the first `\n` at or after `pos`.
pub open spec fn find_lf(buf: Seq<u8>, pos: int) -> Option<int>
    decreases buf.len() - pos,
{
    if pos < 0 || pos >= buf.len() {
        None
    } else if buf[pos] == 10 {
        Some(pos)
    } else {
        find_lf(buf, pos + 1)
    }
}

/// A line that starts at `pos` and ends with `\r\n`. When the peer has closed the
/// connection, a line without its `\n` is bad; otherwise more bytes are needed.
pub open spec fn line_at(buf: Seq<u8>, pos: int, closed: bool) -> LineSpec {
    match find_lf(buf, pos) {
        None => if closed && pos < buf.len() {
            LineSpec::Bad
        } else {
            LineSpec::Incomplete
        },
        Some(j) => if j > pos && buf[j - 1] == 13 {
            LineSpec::Line(buf.subrange(pos, j - 1), j + 1)
        } else {
            LineSpec::Bad
        },
    }
}

/// A length or integer line: UTF-8 text that `str::parse::<i64>` accepts.
pub open spec fn line_i64(c: Seq<u8>) -> Result<i64, Seq<char>> {
    if !valid_utf8(c) {
        Err("non-utf8 length"@)
    } else {
        match parse_i64_spec(decode_utf8(c)) {
            Some(n) => Ok(n),
            None => Err("invalid length"@),
        }
    }
}

/// Text that must be UTF-8.
pub open spec fn line_str(c: Seq<u8>) -> Result<Seq<char>, Seq<char>> {
    if valid_utf8(c) {
        Ok(decode_utf8(c))
    } else {
        Err("non-utf8 string"@)
    }
}

/// A value other than an array, whose type byte is at `pos`.
pub open spec fn scalar_at(buf: Seq<u8>, pos: int, closed: bool) -> StepSpec {
    if pos < 0 || pos >= buf.len() {
        StepSpec::Incomplete
    } else {
        let p = buf[pos];
        if p == 43 || p == 45 || p == 58 || p == 36 {
            match line_at(buf, pos + 1, closed) {
                LineSpec::Incomplete => StepSpec::Incomplete,
                LineSpec::Bad => StepSpec::Invalid("invalid line ending"@),
                LineSpec::Line(c, next) => if p == 43 {
                    match line_str(c) {
                        Ok(s) => StepSpec::Done(RespSpec::Simple(s), next),
                        Err(m) => StepSpec::Invalid(m),
                    }
                } else if p == 45 {
                    match line_str(c) {
                        Ok(s) => StepSpec::Done(RespSpec::Error(s), next),
                        Err(m) => StepSpec::Invalid(m),
                    }
                } else if p == 58 {
                    match line_i64(c) {
                        Ok(n) => StepSpec::Done(RespSpec::Integer(n), next),
                        Err(m) => StepSpec::Invalid(m),
                    }
                } else {
                    bulk_after(buf, c, next)
                },
            }
        } else {
            StepSpec::Invalid("unsupported RESP prefix"@)
        }
    }
}

/// A bulk string whose length line `c` ends at `next`: `-1` is nil; otherwise that
/// many bytes of UTF-8 text follow, then `\r\n`.
pub open spec fn bulk_after(buf: Seq<u8>, c: Seq<u8>, next: int) -> StepSpec {
    match line_i64(c) {
        Err(m) => StepSpec::Invalid(m),
        Ok(n) => if n == -1 {
            StepSpec::Done(RespSpec::Nil, next)
        } else if n < -1 {
            StepSpec::Invalid("invalid bulk length"@)
        } else if n > usize::MAX {
            StepSpec::Invalid("bulk length overflow"@)
        } else if next + n + 2 > buf.len() {
            StepSpec::Incomplete
        } else if buf[next + n] != 13 || buf[next + n + 1] != 10 {
            StepSpec::Invalid("invalid bulk string terminator"@)
        } else {
            match line_str(buf.subrange(next, next + n)) {
                Ok(s) => StepSpec::Done(RespSpec::Bulk(s), next + n + 2),
                Err(m) => StepSpec::Invalid(m),
            }
        },
    }
}

/// `k` array items, the first of which starts at `pos`.
pub open spec fn items_at(buf: Seq<u8>, pos: int, k: nat, closed: bool) -> ItemsSpec
    decreases k,
{
    if k == 0 {
        ItemsSpec::Done(seq![], pos)
    } else if pos < 0 || pos >= buf.len() {
        ItemsSpec::Incomplete
    } else if buf[pos] == 42 {
        ItemsSpec::Invalid("nested arrays are not supported"@)
    } else {
        match scalar_at(buf, pos, closed) {
            StepSpec::Incomplete => ItemsSpec::Incomplete,
            StepSpec::Invalid(m) => ItemsSpec::Invalid(m),
            StepSpec::Done(v, next) => prepend_item(v, items_at(buf, next, (k - 1) as nat, closed)),
        }
    }
}

pub open spec fn prepend_item(v: RespSpec, r: ItemsSpec) -> ItemsSpec {
    match r {
        ItemsSpec::Done(vs, e) => ItemsSpec::Done(seq![v] + vs, e),
        other => other,
    }
}

pub open spec fn prepend_items(vs: Seq<RespSpec>, r: ItemsSpec) -> ItemsSpec {
    match r {
        ItemsSpec::Done(ws, e) => ItemsSpec::Done(vs + ws, e),
        other => other,
    }
}

/// The request frame at the start of `buf`: an array whose length line is followed
/// by its items, or a single value.
pub open spec fn request_spec(buf: Seq<u8>, closed: bool) -> StepSpec {
    if buf.len() == 0 {
        StepSpec::Incomplete
    } else if buf[0] == 42 {
        match line_at(buf, 1, closed) {
            LineSpec::Incomplete => StepSpec::Incomplete,
            LineSpec::Bad => StepSpec::Invalid("invalid line ending"@),
            LineSpec::Line(c, next) => match line_i64(c) {
                Err(m) => StepSpec::Invalid(m),
                Ok(n) => if n == -1 {
                    StepSpec::Invalid("null arrays are not supported"@)
                } else if n < -1 {
                    StepSpec::Invalid("invalid array length"@)
                } else if n > usize::MAX {
                    StepSpec::Invalid("array length overflow"@)
                } else {
                    match items_at(buf, next, n as nat, closed) {
                        ItemsSpec::Done(vs, e) => StepSpec::Done(RespSpec::Array(vs), e),
                        ItemsSpec::Incomplete => StepSpec::Incomplete,
                        ItemsSpec::Invalid(m) => StepSpec::Invalid(m),
                    }
                },
            },
        }
    } else {
        scalar_at(buf, 0, closed)
    }
}

/// The view of a read.
pub open spec fn frame_read_view(r: FrameRead) -> StepSpec {
    match r {
        FrameRead::Frame(v, n) => StepSpec::Done(v@, n as int),
        FrameRead::Incomplete => StepSpec::Incomplete,
        FrameRead::Invalid(e) => match e {
            ProtocolError::InvalidFrame(m) => StepSpec::Invalid(m@),
            _ => StepSpec::Invalid(seq![]),
        },
    }
}

enum LineRead {
    /// Content `buf[start..end]`, next position.
    Line(usize, usize),
    Incomplete,
    Bad,
}

fn read_line(buf: &[u8], pos: usize, closed: bool) -> (r: LineRead)
    requires
        pos <= buf@.len(),
    ensures
        match (r, line_at(buf@, pos as int, closed)) {
            (LineRead::Line(end, next), LineSpec::Line(c, n)) => pos <= end < next <= buf@.len()
                && c == buf@.subrange(pos as int, end as int) && next == n,
            (LineRead::Incomplete, LineSpec::Incomplete) => true,
            (LineRead::Bad, LineSpec::Bad) => true,
            _ => false,
        },
{
    let mut j: usize = pos;
    while j < buf.len() && buf[j] != 10
        invariant
            pos <= j <= buf@.len(),
            find_lf(buf@, pos as int) == find_lf(buf@, j as int),
        decreases buf.len() - j,
    {
        j += 1;
    }
    if j >= buf.len() {
        if closed && pos < buf.len() {
            LineRead::Bad
        } else {
            LineRead::Incomplete
        }
    } else if j > pos && buf[j - 1] == 13 {
        LineRead::Line(j - 1, j + 1)
    } else {
        LineRead::Bad
    }
}

fn invalid(msg: &str) -> (e: ProtocolError)
    ensures
        e@ == crate::protocol::ProtocolErrorSpec::InvalidFrame(msg@),
{
    ProtocolError::InvalidFrame(msg.to_string())
}

/// Reads a length or an integer from a line.
pub fn parse_i64(bytes: &[u8]) -> (r: Result<i64, ProtocolError>)
    ensures
        match (r, line_i64(bytes@)) {
            (Ok(n), Ok(m)) => n == m,
            (Err(e), Err(m)) => e@ == crate::protocol::ProtocolErrorSpec::InvalidFrame(m),
            _ => false,
        },
{
    match utf8_string(bytes) {
        None => Err(invalid("non-utf8 length")),
        Some(s) => {
            let cs = chars_of(s.as_str());
            match parse_i64_chars(&cs) {
                Some(n) => Ok(n),
                None => Err(invalid("invalid length")),
            }
        },
    }
}

/// Reads UTF-8 text.
pub fn bytes_to_string(bytes: &[u8]) -> (r: Result<String, ProtocolError>)
    ensures
        match (r, line_str(bytes@)) {
            (Ok(s), Ok(t)) => s@ == t,
            (Err(e), Err(m)) => e@ == crate::protocol::ProtocolErrorSpec::InvalidFrame(m),
            _ => false,
        },
{
    match utf8_string(bytes) {
        Some(s) => Ok(s),
        None => Err(invalid("non-utf8 string")),
    }
}

enum Step {
    Done(RespValue, usize),
    Incomplete,
    Invalid(ProtocolError),
}

spec fn step_view(r: Step) -> StepSpec {
    match r {
        Step::Done(v, n) => StepSpec::Done(v@, n as int),
        Step::Incomplete => StepSpec::Incomplete,
        Step::Invalid(e) => match e {
            ProtocolError::InvalidFrame(m) => StepSpec::Invalid(m@),
            _ => StepSpec::Invalid(seq![]),
        },
    }
}

fn read_scalar(buf: &[u8], pos: usize, closed: bool) -> (r: Step)
    requires
        pos <= buf@.len(),
    ensures
        step_view(r) == scalar_at(buf@, pos as int, closed),
        r matches Step::Done(_, next) ==> pos < next <= buf@.len(),
        r matches Step::Invalid(e) ==> e is InvalidFrame,
{
    if pos >= buf.len() {
        return Step::Incomplete;
    }
    let p = buf[pos];
    if !(p == 43 || p == 45 || p == 58 || p == 36) {
        return Step::Invalid(invalid("unsupported RESP prefix"));
    }
    let (end, next) = match read_line(buf, pos + 1, closed) {
        LineRead::Incomplete => {
            return Step::Incomplete;
        },
        LineRead::Bad => {
            return Step::Invalid(invalid("invalid line ending"));
        },
        LineRead::Line(end, next) => (end, next),
    };
    let content = slice_subrange(buf, pos + 1, end);
    if p == 43 || p == 45 {
        match bytes_to_string(content) {
            Err(e) => Step::Invalid(e),
            Ok(s) => if p == 43 {
                Step::Done(RespValue::Simple(s), next)
            } else {
                Step::Done(RespValue::Error(s), next)
            },
        }
    } else if p == 58 {
        match parse_i64(content) {
            Err(e) => Step::Invalid(e),
            Ok(n) => Step::Done(RespValue::Integer(n), next),
        }
    } else {
        let len = match parse_i64(content) {
            Err(e) => {
                return Step::Invalid(e);
            },
            Ok(n) => n,
        };
        if len == -1 {
            return Step::Done(RespValue::Nil, next);
        }
        if len < -1 {
            return Step::Invalid(invalid("invalid bulk length"));
        }
        if len as u64 > usize::MAX as u64 {
            return Step::Invalid(invalid("bulk length overflow"));
        }
        let len = len as usize;
        if len > buf.len() - next || buf.len() - next - len < 2 {
            return Step::Incomplete;
        }
        if buf[next + len] != 13 || buf[next + len + 1] != 10 {
            return Step::Invalid(invalid("invalid bulk string terminator"));
        }
        let body = slice_subrange(buf, next, next + len);
        match bytes_to_string(body) {
            Err(e) => Step::Invalid(e),
            Ok(s) => Step::Done(RespValue::Bulk(s), next + len + 2),
        }
    }
}

proof fn lemma_resp_items_push(vs: Seq<RespValue>, v: RespValue)
    ensures
        resp_items(vs.push(v)) == resp_items(vs).push(v@),
{
    assert(resp_items(vs.push(v)) =~= resp_items(vs).push(v@));
}

/// Reads the request frame at the start of the bytes received so far. `closed`
/// tells whether the peer has closed the connection, so that no more bytes follow.
pub fn read_request(buf: &[u8], closed: bool) -> (r: FrameRead)
    ensures
        frame_read_view(r) == request_spec(buf@, closed),
        r matches FrameRead::Frame(_, n) ==> 0 < n <= buf@.len(),
        r matches FrameRead::Invalid(e) ==> e is InvalidFrame,
{
    if buf.len() == 0 {
        return FrameRead::Incomplete;
    }
    if buf[0] != 42 {
        return match read_scalar(buf, 0, closed) {
            Step::Done(v, n) => FrameRead::Frame(v, n),
            Step::Incomplete => FrameRead::Incomplete,
            Step::Invalid(e) => FrameRead::Invalid(e),
        };
    }
    let (end, next) = match read_line(buf, 1, closed) {
        LineRead::Incomplete => {
            return FrameRead::Incomplete;
        },
        LineRead::Bad => {
            return FrameRead::Invalid(invalid("invalid line ending"));
        },
        LineRead::Line(end, next) => (end, next),
    };
    let count = match parse_i64(slice_subrange(buf, 1, end)) {
        Err(e) => {
            return FrameRead::Invalid(e);
        },
        Ok(n) => n,
    };
    if count == -1 {
        return FrameRead::Invalid(invalid("null arrays are not supported"));
    }
    if count < -1 {
        return FrameRead::Invalid(invalid("invalid array length"));
    }
    if count as u64 > usize::MAX as u64 {
        return FrameRead::Invalid(invalid("array length overflow"));
    }
    let count = count as usize;
    let ghost line_end = next as int;
    let mut values: Vec<RespValue> = Vec::new();
    let mut pos: usize = next;
    let mut i: usize = 0;
    while i < count
        invariant
            i <= count,
            line_end <= pos <= buf@.len(),
            values@.len() == i,
            request_spec(buf@, closed) == (match items_at(buf@, line_end, count as nat, closed) {
                ItemsSpec::Done(vs, e) => StepSpec::Done(RespSpec::Array(vs), e),
                ItemsSpec::Incomplete => StepSpec::Incomplete,
                ItemsSpec::Invalid(m) => StepSpec::Invalid(m),
            }),
            items_at(buf@, line_end, count as nat, closed) == prepend_items(
                resp_items(values@),
                items_at(buf@, pos as int, (count - i) as nat, closed),
            ),
        decreases count - i,
    {
        if pos >= buf.len() {
            return FrameRead::Incomplete;
        }
        if buf[pos] == 42 {
            return FrameRead::Invalid(invalid("nested arrays are not supported"));
        }
        match read_scalar(buf, pos, closed) {
            Step::Incomplete => {
                return FrameRead::Incomplete;
            },
            Step::Invalid(e) => {
                return FrameRead::Invalid(e);
            },
            Step::Done(v, n) => {
                proof {
                    lemma_resp_items_push(values@, v);
                    let rest = items_at(buf@, n as int, (count - i - 1) as nat, closed);
                    match rest {
                        ItemsSpec::Done(ws, e) => {
                            assert(resp_items(values@) + (seq![v@] + ws) =~= resp_items(
                                values@,
                            ).push(v@) + ws);
                        },
                        _ => {},
                    }
                }
                values.push(v);
                pos = n;
            },
        }
        i += 1;
    }
    proof {
        assert(resp_items(values@) + seq![] =~= resp_items(values@));
    }
    FrameRead::Frame(RespValue::Array(values), pos)
}

} // verus!
