//! Reply frames as the client reads them: where a frame ends in the byte stream, and
//! the value it holds. Unlike requests, replies may nest arrays and may be nil
//! arrays.
use vstd::prelude::*;
use vstd::slice::slice_subrange;
use vstd::utf8::*;

use crate::protocol::reader::find_lf;
use crate::protocol::{resp_items, RespSpec, RespValue};
use crate::strutil::{chars_of, parse_i64_chars, parse_i64_spec, utf8_string};

verus! {

/// The largest array a reply may hold.
pub const MAX_ARRAY_LEN: usize = 1_000_000;

/// The two ways a reply can be wrong: it ends too early, or its bytes are not valid.
#[derive(Debug, PartialEq, Eq, Structural, Clone, Copy)]
pub enum CliErrorKind {
    UnexpectedEof,
    InvalidData,
}

/// Why a reply could not be read.
#[derive(Debug)]
pub struct CliError {
    pub kind: CliErrorKind,
    pub message: String,
}

impl View for CliError {
    type V = (CliErrorKind, Seq<char>);

    open spec fn view(&self) -> (CliErrorKind, Seq<char>) {
        (self.kind, self.message@)
    }
}

fn fail(kind: CliErrorKind, msg: &str) -> (e: CliError)
    ensures
        e@ == (kind, msg@),
{
    CliError { kind, message: msg.to_string() }
}

/// `str::trim_end_matches(['\r', '\n'])` over characters.
pub open spec fn trim_crlf_end(s: Seq<char>) -> Seq<char>
    decreases s.len(),
{
    if s.len() > 0 && (s.last() == '\r' || s.last() == '\n') {
        trim_crlf_end(s.drop_last())
    } else {
        s
    }
}

/// A length or integer: UTF-8 text, without trailing `\r` and `\n`, that
/// `str::parse::<i64>` accepts.
pub open spec fn cli_int(c: Seq<u8>) -> Result<i64, (CliErrorKind, Seq<char>)> {
    if !valid_utf8(c) {
        Err((CliErrorKind::InvalidData, "non-utf8 length"@))
    } else {
        match parse_i64_spec(trim_crlf_end(decode_utf8(c))) {
            Some(n) => Ok(n),
            None => Err((CliErrorKind::InvalidData, "invalid length"@)),
        }
    }
}

pub open spec fn err_view<T>(r: Result<T, CliError>) -> Result<T, (CliErrorKind, Seq<char>)> {
    match r {
        Ok(v) => Ok(v),
        Err(e) => Err(e@),
    }
}

/// Reads a length or an integer.
pub fn parse_i64(bytes: &[u8]) -> (r: Result<i64, CliError>)
    ensures
        err_view(r) == cli_int(bytes@),
{
    match utf8_string(bytes) {
        None => Err(fail(CliErrorKind::InvalidData, "non-utf8 length")),
        Some(s) => {
            let cs = chars_of(s.as_str());
            let mut end: usize = cs.len();
            proof {
                assert(cs@.subrange(0, end as int) =~= cs@);
            }
            while end > 0 && (cs[end - 1] == '\r' || cs[end - 1] == '\n')
                invariant
                    end <= cs@.len(),
                    trim_crlf_end(cs@) == trim_crlf_end(cs@.subrange(0, end as int)),
                decreases end,
            {
                proof {
                    assert(cs@.subrange(0, end as int).drop_last() =~= cs@.subrange(0, end - 1));
                }
                end -= 1;
            }
            let digits = slice_subrange(cs.as_slice(), 0, end);
            match parse_i64_chars(digits) {
                Some(n) => Ok(n),
                None => Err(fail(CliErrorKind::InvalidData, "invalid length")),
            }
        },
    }
}

/// Reads UTF-8 text.
pub fn bytes_to_string(bytes: &[u8]) -> (r: Result<String, CliError>)
    ensures
        match r {
            Ok(s) => valid_utf8(bytes@) && s@ == decode_utf8(bytes@),
            Err(e) => !valid_utf8(bytes@) && e@ == (CliErrorKind::InvalidData, "non-utf8 string"@),
        },
{
    match utf8_string(bytes) {
        Some(s) => Ok(s),
        None => Err(fail(CliErrorKind::InvalidData, "non-utf8 string")),
    }
}

/// The length of an array: `-1` is a nil array (`None`); other negative lengths, and
/// lengths above [`MAX_ARRAY_LEN`], are refused.
pub open spec fn array_len_spec(count: i64) -> Result<Option<usize>, (CliErrorKind, Seq<char>)> {
    if count == -1 {
        Ok(None)
    } else if count < -1 {
        Err((CliErrorKind::InvalidData, "invalid array length"@))
    } else if count > usize::MAX {
        Err((CliErrorKind::InvalidData, "array length overflow"@))
    } else if count > MAX_ARRAY_LEN {
        Err((CliErrorKind::InvalidData, "array too large"@))
    } else {
        Ok(Some(count as usize))
    }
}

/// Checks the length of an array.
pub fn checked_array_len(count: i64) -> (r: Result<Option<usize>, CliError>)
    ensures
        err_view(r) == array_len_spec(count),
{
    if count == -1 {
        return Ok(None);
    }
    if count < -1 {
        return Err(fail(CliErrorKind::InvalidData, "invalid array length"));
    }
    if count as u64 > usize::MAX as u64 {
        return Err(fail(CliErrorKind::InvalidData, "array length overflow"));
    }
    let count = count as usize;
    if count > MAX_ARRAY_LEN {
        return Err(fail(CliErrorKind::InvalidData, "array too large"));
    }
    Ok(Some(count))
}

// ---------------------------------------------------------------------------
// Where a frame ends
// ---------------------------------------------------------------------------

/// The stack without the finished arrays on top.
pub open spec fn pop_zeros(s: Seq<i64>) -> Seq<i64>
    decreases s.len(),
{
    if s.len() > 0 && s.last() == 0 {
        pop_zeros(s.drop_last())
    } else {
        s
    }
}

/// One item of the innermost open array has been read: its count goes down by one,
/// and the arrays that are then complete are closed.
pub open spec fn consume_spec(s: Seq<i64>) -> Seq<i64> {
    if s.len() > 0 {
        pop_zeros(s.update(s.len() - 1, (s.last() - 1) as i64))
    } else {
        s
    }
}

/// Counts down the innermost open array and closes the arrays that are complete.
pub fn consume_item(remaining: &mut Vec<i64>)
    requires
        old(remaining)@.len() > 0 ==> old(remaining)@.last() > i64::MIN,
    ensures
        final(remaining)@ == consume_spec(old(remaining)@),
{
    let n = remaining.len();
    if n > 0 {
        let top = remaining[n - 1];
        remaining.set(n - 1, top - 1);
    }
    while remaining.len() > 0 && remaining[remaining.len() - 1] == 0
        invariant
            pop_zeros(remaining@) == consume_spec(old(remaining)@),
        decreases remaining.len(),
    {
        let ghost before = remaining@;
        remaining.pop();
        proof {
            assert(remaining@ =~= before.drop_last());
        }
    }
}

/// What a line of a reply asks for: the number of bytes of a bulk string's body that
/// follow it (with the terminator), and whether the frame is complete.
#[derive(Debug)]
pub struct LineStep {
    pub body_len: Option<u64>,
    pub frame_done: bool,
}

/// The counts of the arrays still open are each between 1 and [`MAX_ARRAY_LEN`].
pub open spec fn stack_wf(s: Seq<i64>) -> bool {
    forall|i: int| 0 <= i < s.len() ==> 0 < #[trigger] s[i] <= MAX_ARRAY_LEN
}

pub open spec fn scan_spec(s: Seq<i64>, line: Seq<u8>) -> Result<(Option<u64>, Seq<i64>), (CliErrorKind, Seq<char>)> {
    if line.len() == 0 {
        Err((CliErrorKind::InvalidData, "empty frame"@))
    } else {
        let p = line[0];
        if p == 43 || p == 45 || p == 58 {
            Ok((None, consume_spec(s)))
        } else if p == 36 {
            match cli_int(line.subrange(1, line.len() as int)) {
                Err(e) => Err(e),
                Ok(len) => Ok(
                    (
                        if len >= 0 {
                            Some((len + 2) as u64)
                        } else {
                            None
                        },
                        consume_spec(s),
                    ),
                ),
            }
        } else if p == 42 {
            match cli_int(line.subrange(1, line.len() as int)) {
                Err(e) => Err(e),
                Ok(count) => match array_len_spec(count) {
                    Err(e) => Err(e),
                    Ok(c) => {
                        let s1 = if s.len() > 0 {
                            consume_spec(s)
                        } else {
                            s
                        };
                        Ok(
                            (
                                None,
                                match c {
                                    Some(k) => if k > 0 {
                                        s1.push(k as i64)
                                    } else {
                                        s1
                                    },
                                    None => s1,
                                },
                            ),
                        )
                    },
                },
            }
        } else {
            Err((CliErrorKind::InvalidData, "unknown RESP prefix"@))
        }
    }
}

proof fn lemma_pop_zeros_wf(s: Seq<i64>)
    requires
        forall|i: int| 0 <= i < s.len() ==> 0 <= #[trigger] s[i] <= MAX_ARRAY_LEN,
        forall|i: int| 0 <= i < s.len() - 1 ==> 0 < #[trigger] s[i],
    ensures
        stack_wf(pop_zeros(s)),
    decreases s.len(),
{
    if s.len() > 0 && s.last() == 0 {
        lemma_pop_zeros_wf(s.drop_last());
    }
}

pub(crate) proof fn lemma_consume_wf(s: Seq<i64>)
    requires
        stack_wf(s),
    ensures
        stack_wf(consume_spec(s)),
{
    if s.len() > 0 {
        let t = s.update(s.len() - 1, (s.last() - 1) as i64);
        assert forall|i: int| 0 <= i < t.len() implies 0 <= #[trigger] t[i] <= MAX_ARRAY_LEN by {
            assert(0 < s[i]);
        }
        assert forall|i: int| 0 <= i < t.len() - 1 implies 0 < #[trigger] t[i] by {
            assert(0 < s[i]);
        }
        lemma_pop_zeros_wf(t);
    }
}

/// Follows the nesting of arrays in a reply, one line at a time, to tell where the
/// reply ends.
pub struct FrameScanner {
    remaining: Vec<i64>,
}

impl View for FrameScanner {
    type V = Seq<i64>;

    closed spec fn view(&self) -> Seq<i64> {
        self.remaining@
    }
}

impl FrameScanner {
    pub open spec fn wf(&self) -> bool {
        stack_wf(self@)
    }

    /// A scanner at the start of a frame.
    pub fn new() -> (s: FrameScanner)
        ensures
            s.wf(),
            s@ == Seq::<i64>::empty(),
    {
        FrameScanner { remaining: Vec::new() }
    }

    /// Takes in a line of the reply (with its line ending). Returns the length of the
    /// body that follows when the line starts a bulk string, and whether the frame is
    /// complete after this line and that body.
    pub fn scan_line(&mut self, line: &[u8]) -> (r: Result<LineStep, CliError>)
        requires
            old(self).wf(),
        ensures
            final(self).wf(),
            match (r, scan_spec(old(self)@, line@)) {
                (Ok(step), Ok((body, s))) => step.body_len == body && final(self)@ == s
                    && step.frame_done == (s.len() == 0),
                (Err(e), Err(m)) => e@ == m && final(self)@ == old(self)@,
                _ => false,
            },
    {
        proof {
            lemma_consume_wf(self@);
        }
        if line.len() == 0 {
            return Err(fail(CliErrorKind::InvalidData, "empty frame"));
        }
        let p = line[0];
        if p == 43 || p == 45 || p == 58 {
            consume_item(&mut self.remaining);
            return Ok(LineStep { body_len: None, frame_done: self.remaining.len() == 0 });
        }
        if p == 36 {
            let len = match parse_i64(slice_subrange(line, 1, line.len())) {
                Err(e) => {
                    return Err(e);
                },
                Ok(n) => n,
            };
            let body_len = if len >= 0 {
                Some(len as u64 + 2)
            } else {
                None
            };
            consume_item(&mut self.remaining);
            return Ok(LineStep { body_len, frame_done: self.remaining.len() == 0 });
        }
        if p == 42 {
            let count = match parse_i64(slice_subrange(line, 1, line.len())) {
                Err(e) => {
                    return Err(e);
                },
                Ok(n) => n,
            };
            let count = match checked_array_len(count) {
                Err(e) => {
                    return Err(e);
                },
                Ok(c) => c,
            };
            if self.remaining.len() > 0 {
                consume_item(&mut self.remaining);
            }
            match count {
                Some(k) => {
                    if k > 0 {
                        let ghost before = self.remaining@;
                        self.remaining.push(k as i64);
                        proof {
                            assert forall|i: int| 0 <= i < self.remaining@.len() implies 0 < #[trigger] self.remaining@[i] <= MAX_ARRAY_LEN by {
                                if i < before.len() {
                                    assert(self.remaining@[i] == before[i]);
                                }
                            }
                        }
                    }
                },
                None => {},
            }
            return Ok(LineStep { body_len: None, frame_done: self.remaining.len() == 0 });
        }
        Err(fail(CliErrorKind::InvalidData, "unknown RESP prefix"))
    }
}


// ---------------------------------------------------------------------------
// The value a frame holds
// ---------------------------------------------------------------------------

pub proof fn lemma_find_lf_bounds(b: Seq<u8>, i: int)
    ensures
        find_lf(b, i) matches Some(j) ==> 0 <= i <= j < b.len() && b[j] == 10,
    decreases b.len() - i,
{
    if 0 <= i < b.len() && b[i] != 10 {
        lemma_find_lf_bounds(b, i + 1);
    }
}

/// A line at `i`, ended by `\r\n`: its content and the position after it.
pub open spec fn cli_line(b: Seq<u8>, i: int) -> Result<(Seq<u8>, int), (CliErrorKind, Seq<char>)> {
    if i < 0 || i >= b.len() {
        Err((CliErrorKind::UnexpectedEof, "unexpected end of frame"@))
    } else {
        match find_lf(b, i) {
            None => Err((CliErrorKind::InvalidData, "missing line ending"@)),
            Some(end) => if end == i || b[end - 1] != 13 {
                Err((CliErrorKind::InvalidData, "invalid line ending"@))
            } else {
                Ok((b.subrange(i, end - 1), end + 1))
            },
        }
    }
}

pub proof fn lemma_cli_line(b: Seq<u8>, i: int)
    ensures
        cli_line(b, i) matches Ok((c, n)) ==> i + 2 <= n <= b.len() && c == b.subrange(i, n - 2),
{
    lemma_find_lf_bounds(b, i);
}

/// A text line that must be UTF-8.
pub open spec fn cli_text(r: Result<(Seq<u8>, int), (CliErrorKind, Seq<char>)>) -> Result<(Seq<char>, int), (CliErrorKind, Seq<char>)> {
    match r {
        Err(e) => Err(e),
        Ok((c, n)) => if valid_utf8(c) {
            Ok((decode_utf8(c), n))
        } else {
            Err((CliErrorKind::InvalidData, "non-utf8 string"@))
        },
    }
}

/// The value whose type byte is at `i`, and the position after it.
pub open spec fn cli_value(b: Seq<u8>, i: int) -> Result<(RespSpec, int), (CliErrorKind, Seq<char>)>
    decreases b.len() - i, 0int, 0int,
{
    if i < 0 || i >= b.len() {
        Err((CliErrorKind::UnexpectedEof, "unexpected end of frame"@))
    } else {
        let p = b[i];
        if p == 43 {
            match cli_text(cli_line(b, i + 1)) {
                Err(e) => Err(e),
                Ok((s, n)) => Ok((RespSpec::Simple(s), n)),
            }
        } else if p == 45 {
            match cli_text(cli_line(b, i + 1)) {
                Err(e) => Err(e),
                Ok((s, n)) => Ok((RespSpec::Error(s), n)),
            }
        } else if p == 58 {
            match cli_line(b, i + 1) {
                Err(e) => Err(e),
                Ok((c, n)) => match cli_int(c) {
                    Err(e) => Err(e),
                    Ok(v) => Ok((RespSpec::Integer(v), n)),
                },
            }
        } else if p == 36 {
            match cli_line(b, i + 1) {
                Err(e) => Err(e),
                Ok((c, n)) => match cli_int(c) {
                    Err(e) => Err(e),
                    Ok(len) => if len < -1 {
                        Err((CliErrorKind::InvalidData, "invalid bulk length"@))
                    } else if len == -1 {
                        Ok((RespSpec::Nil, n))
                    } else if n + len + 2 > b.len() {
                        Err((CliErrorKind::UnexpectedEof, "bulk string truncated"@))
                    } else if b[n + len] != 13 || b[n + len + 1] != 10 {
                        Err((CliErrorKind::InvalidData, "invalid bulk terminator"@))
                    } else if valid_utf8(b.subrange(n, n + len)) {
                        Ok((RespSpec::Bulk(decode_utf8(b.subrange(n, n + len))), n + len + 2))
                    } else {
                        Err((CliErrorKind::InvalidData, "non-utf8 string"@))
                    },
                },
            }
        } else if p == 42 {
            match cli_line(b, i + 1) {
                Err(e) => Err(e),
                Ok((c, n)) => match cli_int(c) {
                    Err(e) => Err(e),
                    Ok(count) => match array_len_spec(count) {
                        Err(e) => Err(e),
                        Ok(None) => Ok((RespSpec::Nil, n)),
                        Ok(Some(k)) => {
                            proof {
                                lemma_cli_line(b, i + 1);
                            }
                            match cli_items(b, n, k as nat) {
                                Err(e) => Err(e),
                                Ok((vs, e)) => Ok((RespSpec::Array(vs), e)),
                            }
                        },
                    },
                },
            }
        } else {
            Err((CliErrorKind::InvalidData, "unknown RESP prefix"@))
        }
    }
}

/// `k` values, the first at `i`, and the position after the last.
pub open spec fn cli_items(b: Seq<u8>, i: int, k: nat) -> Result<(Seq<RespSpec>, int), (CliErrorKind, Seq<char>)>
    decreases b.len() - i, 1int, k,
{
    if k == 0 {
        Ok((seq![], i))
    } else {
        match cli_value(b, i) {
            Err(e) => Err(e),
            Ok((v, e1)) => if e1 <= i || e1 > b.len() {
                Err((CliErrorKind::InvalidData, seq![]))
            } else {
                match cli_items(b, e1, (k - 1) as nat) {
                    Err(e) => Err(e),
                    Ok((vs, e2)) => Ok((seq![v] + vs, e2)),
                }
            },
        }
    }
}

/// Where reading a value at `i` that is not valid leaves the read position: past the
/// type byte when its line is bad, past the line when what the line says is refused,
/// past the body of a bulk string whose terminator or text is bad, and where the
/// first bad item of an array left it. An unknown type byte, or no byte at all,
/// leaves it at `i`.
pub open spec fn cli_err_pos(b: Seq<u8>, i: int) -> int
    decreases b.len() - i, 0int, 0int,
{
    if i < 0 || i >= b.len() {
        i
    } else {
        let p = b[i];
        if !(p == 43 || p == 45 || p == 58 || p == 36 || p == 42) {
            i
        } else {
            match cli_line(b, i + 1) {
                Err(_) => i + 1,
                Ok((c, n)) => if p == 36 {
                    match cli_int(c) {
                        Err(_) => n,
                        Ok(len) => if len < -1 || n + len + 2 > b.len() {
                            n
                        } else if b[n + len] != 13 || b[n + len + 1] != 10 {
                            n + len
                        } else {
                            n + len + 2
                        },
                    }
                } else if p == 42 {
                    match cli_int(c) {
                        Err(_) => n,
                        Ok(count) => match array_len_spec(count) {
                            Ok(Some(k)) => {
                                proof {
                                    lemma_cli_line(b, i + 1);
                                }
                                cli_items_err_pos(b, n, k as nat)
                            },
                            _ => n,
                        },
                    }
                } else {
                    n
                },
            }
        }
    }
}

/// Where reading `k` items from `i` leaves the read position when one is not valid.
pub open spec fn cli_items_err_pos(b: Seq<u8>, i: int, k: nat) -> int
    decreases b.len() - i, 1int, k,
{
    if k == 0 {
        i
    } else {
        match cli_value(b, i) {
            Err(_) => cli_err_pos(b, i),
            Ok((_, e1)) => if e1 <= i || e1 > b.len() {
                i
            } else {
                cli_items_err_pos(b, e1, (k - 1) as nat)
            },
        }
    }
}

/// The value of a whole frame: one value that takes all of its bytes.
pub open spec fn cli_frame(b: Seq<u8>) -> Result<RespSpec, (CliErrorKind, Seq<char>)> {
    match cli_value(b, 0) {
        Err(e) => Err(e),
        Ok((v, e)) => if e != b.len() {
            Err((CliErrorKind::InvalidData, "trailing bytes in frame"@))
        } else {
            Ok(v)
        },
    }
}

/// Reads the line at `*idx`, without its `\r\n`, and moves `*idx` past it.
pub fn read_line<'a>(bytes: &'a [u8], idx: &mut usize) -> (r: Result<&'a [u8], CliError>)
    ensures
        match (r, cli_line(bytes@, *old(idx) as int)) {
            (Ok(c), Ok((cs, n))) => c@ == cs && *final(idx) == n,
            (Err(e), Err(m)) => e@ == m && *final(idx) == *old(idx),
            _ => false,
        },
{
    let start = *idx;
    if start >= bytes.len() {
        return Err(fail(CliErrorKind::UnexpectedEof, "unexpected end of frame"));
    }
    let mut j: usize = start;
    while j < bytes.len() && bytes[j] != 10
        invariant
            start <= j <= bytes@.len(),
            find_lf(bytes@, start as int) == find_lf(bytes@, j as int),
        decreases bytes.len() - j,
    {
        j += 1;
    }
    if j >= bytes.len() {
        return Err(fail(CliErrorKind::InvalidData, "missing line ending"));
    }
    if j == start || bytes[j - 1] != 13 {
        return Err(fail(CliErrorKind::InvalidData, "invalid line ending"));
    }
    *idx = j + 1;
    Ok(slice_subrange(bytes, start, j - 1))
}

fn parse_value_at(bytes: &[u8], pos: usize) -> (r: Result<(RespValue, usize), (CliError, usize)>)
    ensures
        match (r, cli_value(bytes@, pos as int)) {
            (Ok((v, e)), Ok((vs, es))) => v@ == vs && e == es && pos < e <= bytes@.len(),
            (Err((x, q)), Err(y)) => x@ == y && q == cli_err_pos(bytes@, pos as int),
            _ => false,
        },
    decreases bytes.len() - pos,
{
    if pos >= bytes.len() {
        return Err((fail(CliErrorKind::UnexpectedEof, "unexpected end of frame"), pos));
    }
    let p = bytes[pos];
    if !(p == 43 || p == 45 || p == 58 || p == 36 || p == 42) {
        return Err((fail(CliErrorKind::InvalidData, "unknown RESP prefix"), pos));
    }
    let mut idx: usize = pos + 1;
    let line = match read_line(bytes, &mut idx) {
        Err(e) => {
            return Err((e, pos + 1));
        },
        Ok(l) => l,
    };
    let next = idx;
    proof {
        lemma_cli_line(bytes@, pos + 1);
    }
    if p == 43 || p == 45 {
        let s = match bytes_to_string(line) {
            Err(e) => {
                return Err((e, next));
            },
            Ok(s) => s,
        };
        if p == 43 {
            return Ok((RespValue::Simple(s), next));
        } else {
            return Ok((RespValue::Error(s), next));
        }
    }
    if p == 58 {
        return match parse_i64(line) {
            Err(e) => Err((e, next)),
            Ok(n) => Ok((RespValue::Integer(n), next)),
        };
    }
    if p == 36 {
        let len = match parse_i64(line) {
            Err(e) => {
                return Err((e, next));
            },
            Ok(n) => n,
        };
        if len < -1 {
            return Err((fail(CliErrorKind::InvalidData, "invalid bulk length"), next));
        }
        if len == -1 {
            return Ok((RespValue::Nil, next));
        }
        if len as u64 + 2 > (bytes.len() - next) as u64 {
            return Err((fail(CliErrorKind::UnexpectedEof, "bulk string truncated"), next));
        }
        let len = len as usize;
        if bytes[next + len] != 13 || bytes[next + len + 1] != 10 {
            return Err((fail(CliErrorKind::InvalidData, "invalid bulk terminator"), next + len));
        }
        let data = slice_subrange(bytes, next, next + len);
        return match bytes_to_string(data) {
            Err(e) => Err((e, next + len + 2)),
            Ok(s) => Ok((RespValue::Bulk(s), next + len + 2)),
        };
    }
    let count = match parse_i64(line) {
        Err(e) => {
            return Err((e, next));
        },
        Ok(n) => n,
    };
    let count = match checked_array_len(count) {
        Err(e) => {
            return Err((e, next));
        },
        Ok(None) => {
            return Ok((RespValue::Nil, next));
        },
        Ok(Some(c)) => c,
    };
    let ghost b = bytes@;
    let mut items: Vec<RespValue> = Vec::new();
    let mut cur: usize = next;
    let mut i: usize = 0;
    while i < count
        invariant
            b == bytes@,
            pos < next <= cur <= b.len(),
            i <= count,
            cli_value(b, pos as int) == (match cli_items(b, next as int, count as nat) {
                Err(e) => Err(e),
                Ok((vs, e)) => Ok((RespSpec::Array(vs), e)),
            }),
            cli_err_pos(b, pos as int) == cli_items_err_pos(b, next as int, count as nat),
            cli_items(b, next as int, count as nat) == (match cli_items(b, cur as int, (count - i) as nat) {
                Err(e) => Err(e),
                Ok((vs, e)) => Ok((resp_items(items@) + vs, e)),
            }),
            cli_items_err_pos(b, next as int, count as nat) == cli_items_err_pos(b, cur as int, (count - i) as nat),
        decreases count - i,
    {
        match parse_value_at(bytes, cur) {
            Err((e, q)) => {
                return Err((e, q));
            },
            Ok((v, e)) => {
                proof {
                    assert(resp_items(items@.push(v)) =~= resp_items(items@).push(v@));
                    match cli_items(b, e as int, (count - i - 1) as nat) {
                        Ok((vs, e2)) => {
                            assert(resp_items(items@) + (seq![v@] + vs) =~= resp_items(items@).push(v@) + vs);
                        },
                        Err(_) => {},
                    }
                }
                items.push(v);
                cur = e;
            },
        }
        i += 1;
    }
    proof {
        assert(resp_items(items@) + seq![] =~= resp_items(items@));
    }
    Ok((RespValue::Array(items), cur))
}

/// Parses the value at `*idx` and moves `*idx` past it. When the value is not valid,
/// `*idx` is left past what was read before the fault was found.
pub fn parse_resp_value(bytes: &[u8], idx: &mut usize) -> (r: Result<RespValue, CliError>)
    ensures
        match (r, cli_value(bytes@, *old(idx) as int)) {
            (Ok(v), Ok((vs, e))) => v@ == vs && *final(idx) == e,
            (Err(x), Err(y)) => x@ == y && *final(idx) == cli_err_pos(bytes@, *old(idx) as int),
            _ => false,
        },
{
    match parse_value_at(bytes, *idx) {
        Err((e, q)) => {
            *idx = q;
            Err(e)
        },
        Ok((v, e)) => {
            *idx = e;
            Ok(v)
        },
    }
}

/// Parses a whole frame: exactly one value, with no bytes after it.
pub fn parse_resp_frame(bytes: &[u8]) -> (r: Result<RespValue, CliError>)
    ensures
        match (r, cli_frame(bytes@)) {
            (Ok(v), Ok(vs)) => v@ == vs,
            (Err(x), Err(y)) => x@ == y,
            _ => false,
        },
{
    let mut idx: usize = 0;
    let value = match parse_resp_value(bytes, &mut idx) {
        Err(e) => {
            return Err(e);
        },
        Ok(v) => v,
    };
    if idx != bytes.len() {
        return Err(fail(CliErrorKind::InvalidData, "trailing bytes in frame"));
    }
    Ok(value)
}

} // verus!
