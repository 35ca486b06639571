//! Command lines, command arguments and the encoding of replies and commands.
use vstd::prelude::*;
use vstd::utf8::*;

use crate::protocol::error::{ProtocolError, ProtocolErrorSpec};
use crate::protocol::{
    command_result_view, resp_items, strings_view, Command, CommandSpec, NormalCommand, NormalSpec, RespSpec,
    RespValue, SessionCommand, SessionSpec,
};
use crate::strutil::{
    ascii_upper_seq, chars_of, dec_bytes, dec_int, dec_nat, is_whitespace, is_ws, parse_u64_chars,
    parse_u64_spec, push_char, push_dec_bytes, push_dec_i64, push_dec_u64, push_str, string_from,
};

verus! {

// ---------------------------------------------------------------------------
// Splitting a command line into arguments
// ---------------------------------------------------------------------------

/// The number of characters before the first whitespace.
pub open spec fn bare_len(s: Seq<char>) -> nat
    decreases s.len(),
{
    if s.len() == 0 || is_ws(s[0]) {
        0
    } else {
        1 + bare_len(s.drop_first())
    }
}

/// The text after an opening quote: the characters up to the closing quote, where a
/// backslash takes the next character as it is, and the rest after the closing quote;
/// `None` when the text ends before the closing quote.
pub open spec fn quoted(s: Seq<char>) -> Option<(Seq<char>, Seq<char>)>
    decreases s.len(),
{
    if s.len() == 0 {
        None
    } else if s[0] == '"' {
        Some((seq![], s.drop_first()))
    } else if s[0] == '\\' {
        if s.len() >= 2 {
            match quoted(s.subrange(2, s.len() as int)) {
                Some((t, r)) => Some((seq![s[1]] + t, r)),
                None => None,
            }
        } else {
            None
        }
    } else {
        match quoted(s.drop_first()) {
            Some((t, r)) => Some((seq![s[0]] + t, r)),
            None => None,
        }
    }
}

pub proof fn lemma_quoted_shorter(s: Seq<char>)
    ensures
        quoted(s) matches Some((t, r)) ==> r.len() < s.len(),
    decreases s.len(),
{
    if s.len() > 0 && s[0] != '"' {
        if s[0] == '\\' {
            if s.len() >= 2 {
                lemma_quoted_shorter(s.subrange(2, s.len() as int));
            }
        } else {
            lemma_quoted_shorter(s.drop_first());
        }
    }
}

pub proof fn lemma_bare_len(s: Seq<char>)
    ensures
        bare_len(s) <= s.len(),
        s.len() > 0 && !is_ws(s[0]) ==> bare_len(s) >= 1,
    decreases s.len(),
{
    if s.len() > 0 && !is_ws(s[0]) {
        lemma_bare_len(s.drop_first());
    }
}

/// The arguments of a command line: runs of non-whitespace, or quoted text;
/// `None` when a quote is not closed.
pub open spec fn tokens(s: Seq<char>) -> Option<Seq<Seq<char>>>
    decreases s.len(),
{
    if s.len() == 0 {
        Some(seq![])
    } else if is_ws(s[0]) {
        tokens(s.drop_first())
    } else if s[0] == '"' {
        match quoted(s.drop_first()) {
            None => None,
            Some((t, r)) => {
                proof {
                    lemma_quoted_shorter(s.drop_first());
                }
                match tokens(r) {
                    Some(rest) => Some(seq![t] + rest),
                    None => None,
                }
            },
        }
    } else {
        let k = bare_len(s);
        proof {
            lemma_bare_len(s);
        }
        match tokens(s.subrange(k as int, s.len() as int)) {
            Some(rest) => Some(seq![s.subrange(0, k as int)] + rest),
            None => None,
        }
    }
}

/// A closing quote ends a quoted text that holds no quote or backslash: the text is
/// taken as it is, and what follows the quote is left.
proof fn lemma_quoted_plain(w: Seq<char>, rest: Seq<char>)
    requires
        forall|i: int| 0 <= i < w.len() ==> #[trigger] w[i] != '"' && w[i] != '\\',
    ensures
        quoted(w + seq!['"'] + rest) == Some((w, rest)),
    decreases w.len(),
{
    let s = w + seq!['"'] + rest;
    if w.len() == 0 {
        assert(s[0] == '"');
        assert(s.drop_first() =~= rest);
    } else {
        let w1 = w.drop_first();
        assert(s[0] == w[0]);
        assert(s.drop_first() =~= w1 + seq!['"'] + rest);
        lemma_quoted_plain(w1, rest);
        assert(seq![w[0]] + w1 =~= w);
    }
}

/// A quoted argument is one argument, whatever it holds, even nothing: a text in
/// quotes (without quotes or backslashes in it) followed by the rest of a line splits
/// into that text, then the arguments of the rest.
pub proof fn law_quoted_argument_is_one(w: Seq<char>, rest: Seq<char>)
    requires
        forall|i: int| 0 <= i < w.len() ==> #[trigger] w[i] != '"' && w[i] != '\\',
    ensures
        tokens(seq!['"'] + w + seq!['"'] + rest) == match tokens(rest) {
            Some(ts) => Some(seq![w] + ts),
            None => None,
        },
{
    let s = seq!['"'] + w + seq!['"'] + rest;
    assert(s[0] == '"');
    assert(!is_ws('"'));
    assert(s.drop_first() =~= w + seq!['"'] + rest);
    lemma_quoted_plain(w, rest);
}

/// `str::trim_start` over characters.
pub open spec fn trim_start(s: Seq<char>) -> Seq<char>
    decreases s.len(),
{
    if s.len() > 0 && is_ws(s[0]) {
        trim_start(s.drop_first())
    } else {
        s
    }
}

/// `str::trim_end` over characters.
pub open spec fn trim_end(s: Seq<char>) -> Seq<char>
    decreases s.len(),
{
    if s.len() > 0 && is_ws(s.last()) {
        trim_end(s.drop_last())
    } else {
        s
    }
}

/// `str::trim`: leading and trailing whitespace removed.
pub open spec fn trim(s: Seq<char>) -> Seq<char> {
    trim_end(trim_start(s))
}

/// The bounds of `cs` without its leading and trailing whitespace.
fn trim_bounds(cs: &[char]) -> (r: (usize, usize))
    ensures
        r.0 <= r.1 <= cs@.len(),
        cs@.subrange(r.0 as int, r.1 as int) == trim(cs@),
{
    let n = cs.len();
    let mut lo: usize = 0;
    proof {
        assert(cs@.subrange(0, n as int) =~= cs@);
    }
    while lo < n && is_whitespace(cs[lo])
        invariant
            n == cs@.len(),
            lo <= n,
            trim_start(cs@) == trim_start(cs@.subrange(lo as int, n as int)),
        decreases n - lo,
    {
        proof {
            assert(cs@.subrange(lo as int, n as int).drop_first() =~= cs@.subrange(
                lo + 1,
                n as int,
            ));
        }
        lo += 1;
    }
    proof {
        assert(trim_start(cs@.subrange(lo as int, n as int)) == cs@.subrange(lo as int, n as int));
    }
    let mut hi: usize = n;
    while hi > lo && is_whitespace(cs[hi - 1])
        invariant
            n == cs@.len(),
            lo <= hi <= n,
            trim(cs@) == trim_end(cs@.subrange(lo as int, hi as int)),
        decreases hi - lo,
    {
        proof {
            assert(cs@.subrange(lo as int, hi as int).drop_last() =~= cs@.subrange(
                lo as int,
                hi - 1,
            ));
        }
        hi -= 1;
    }
    (lo, hi)
}

/// The scan of a quoted argument: `cs[i..hi]` is the text after the opening quote.
fn scan_quoted(cs: &[char], i: usize, hi: usize) -> (r: Option<(String, usize)>)
    requires
        i <= hi <= cs@.len(),
    ensures
        match (r, quoted(cs@.subrange(i as int, hi as int))) {
            (Some((t, j)), Some((ts, rs))) => t@ == ts && i < j <= hi && rs == cs@.subrange(
                j as int,
                hi as int,
            ),
            (None, None) => true,
            _ => false,
        },
{
    let mut buf = String::new();
    let mut j: usize = i;
    let ghost whole = cs@.subrange(i as int, hi as int);
    while j < hi
        invariant
            i <= j <= hi <= cs@.len(),
            whole == cs@.subrange(i as int, hi as int),
            quoted(whole) == (match quoted(cs@.subrange(j as int, hi as int)) {
                Some((t, r)) => Some((buf@ + t, r)),
                None => None,
            }),
        decreases hi - j,
    {
        let ghost cur = cs@.subrange(j as int, hi as int);
        let c = cs[j];
        proof {
            assert(cur[0] == c);
        }
        if c == '"' {
            proof {
                assert(cur.drop_first() =~= cs@.subrange(j + 1, hi as int));
                assert(buf@ + seq![] =~= buf@);
            }
            return Some((buf, j + 1));
        } else if c == '\\' {
            if j + 1 < hi {
                let e = cs[j + 1];
                proof {
                    assert(cur[1] == e);
                    assert(cur.subrange(2, cur.len() as int) =~= cs@.subrange(j + 2, hi as int));
                    let old_buf = buf@;
                    match quoted(cs@.subrange(j + 2, hi as int)) {
                        Some((t, r)) => {
                            assert(old_buf + (seq![e] + t) =~= old_buf.push(e) + t);
                        },
                        None => {},
                    }
                }
                push_char(&mut buf, e);
                j += 2;
            } else {
                return None;
            }
        } else {
            proof {
                assert(cur.drop_first() =~= cs@.subrange(j + 1, hi as int));
                let old_buf = buf@;
                match quoted(cs@.subrange(j + 1, hi as int)) {
                    Some((t, r)) => {
                        assert(old_buf + (seq![c] + t) =~= old_buf.push(c) + t);
                    },
                    None => {},
                }
            }
            push_char(&mut buf, c);
            j += 1;
        }
    }
    None
}

/// The arguments of `cs[lo..hi]`, or `None` when a quote is not closed.
pub fn split_chars(cs: &[char], lo: usize, hi: usize) -> (r: Option<Vec<String>>)
    requires
        lo <= hi <= cs@.len(),
    ensures
        match (r, tokens(cs@.subrange(lo as int, hi as int))) {
            (Some(v), Some(ts)) => strings_view(v@) == ts,
            (None, None) => true,
            _ => false,
        },
{
    let mut args: Vec<String> = Vec::new();
    let mut i: usize = lo;
    let ghost whole = cs@.subrange(lo as int, hi as int);
    while i < hi
        invariant
            lo <= i <= hi <= cs@.len(),
            whole == cs@.subrange(lo as int, hi as int),
            tokens(whole) == (match tokens(cs@.subrange(i as int, hi as int)) {
                Some(t) => Some(strings_view(args@) + t),
                None => None,
            }),
        decreases hi - i,
    {
        let ghost cur = cs@.subrange(i as int, hi as int);
        let c = cs[i];
        proof {
            assert(cur[0] == c);
        }
        if is_whitespace(c) {
            proof {
                assert(cur.drop_first() =~= cs@.subrange(i + 1, hi as int));
            }
            i += 1;
        } else if c == '"' {
            proof {
                assert(cur.drop_first() =~= cs@.subrange(i + 1, hi as int));
            }
            match scan_quoted(cs, i + 1, hi) {
                None => {
                    return None;
                },
                Some((t, j)) => {
                    let ghost old_args = strings_view(args@);
                    args.push(t);
                    proof {
                        assert(strings_view(args@) =~= old_args.push(t@));
                        match tokens(cs@.subrange(j as int, hi as int)) {
                            Some(rest) => {
                                assert(old_args + (seq![t@] + rest) =~= old_args.push(t@)
                                    + rest);
                            },
                            None => {},
                        }
                    }
                    i = j;
                },
            }
        } else {
            let mut buf = String::new();
            let mut j: usize = i;
            while j < hi && !is_whitespace(cs[j])
                invariant
                    i <= j <= hi <= cs@.len(),
                    cur == cs@.subrange(i as int, hi as int),
                    buf@ == cs@.subrange(i as int, j as int),
                    bare_len(cur) == (j - i) + bare_len(cs@.subrange(j as int, hi as int)),
                decreases hi - j,
            {
                proof {
                    assert(cs@.subrange(j as int, hi as int).drop_first() =~= cs@.subrange(
                        j + 1,
                        hi as int,
                    ));
                    assert(cs@.subrange(i as int, j + 1) =~= buf@.push(cs@[j as int]));
                }
                push_char(&mut buf, cs[j]);
                j += 1;
            }
            proof {
                let k = bare_len(cur);
                assert(bare_len(cs@.subrange(j as int, hi as int)) == 0);
                assert(k == j - i);
                assert(cur.subrange(k as int, cur.len() as int) =~= cs@.subrange(j as int, hi as int));
                assert(cur.subrange(0, k as int) =~= buf@);
            }
            let ghost old_args = strings_view(args@);
            args.push(buf);
            proof {
                assert(strings_view(args@) =~= old_args.push(cs@.subrange(i as int, j as int)));
                match tokens(cs@.subrange(j as int, hi as int)) {
                    Some(rest) => {
                        assert(old_args + (seq![cs@.subrange(i as int, j as int)] + rest)
                            =~= old_args.push(cs@.subrange(i as int, j as int)) + rest);
                    },
                    None => {},
                }
            }
            i = j;
        }
    }
    proof {
        assert(strings_view(args@) + seq![] =~= strings_view(args@));
    }
    Some(args)
}

/// Splits a command line into arguments, respecting double-quoted strings:
/// `ECHO "hello world"` gives `["ECHO", "hello world"]`.
pub fn split_args(input: &str) -> (r: Result<Vec<String>, ProtocolError>)
    ensures
        match (r, tokens(input@)) {
            (Ok(v), Some(ts)) => strings_view(v@) == ts,
            (Err(e), None) => e@ == ProtocolErrorSpec::UnterminatedString,
            _ => false,
        },
{
    let cs = chars_of(input);
    proof {
        assert(cs@.subrange(0, cs@.len() as int) =~= cs@);
    }
    match split_chars(&cs, 0, cs.len()) {
        Some(v) => Ok(v),
        None => Err(ProtocolError::UnterminatedString),
    }
}

// ---------------------------------------------------------------------------
// From arguments to a command
// ---------------------------------------------------------------------------

/// The command that the arguments name: the first argument is the command's name,
/// in any case; the others are taken as they are.
pub open spec fn parse_args_spec(args: Seq<Seq<char>>) -> Result<CommandSpec, ProtocolErrorSpec> {
    if args.len() == 0 {
        Err(ProtocolErrorSpec::EmptyCommand)
    } else {
        let cmd = ascii_upper_seq(args[0]);
        let n = args.len();
        if cmd == "PING"@ && n == 1 {
            Ok(CommandSpec::Normal(NormalSpec::Ping(None)))
        } else if cmd == "PING"@ && n == 2 {
            Ok(CommandSpec::Normal(NormalSpec::Ping(Some(args[1]))))
        } else if cmd == "ECHO"@ && n == 2 {
            Ok(CommandSpec::Normal(NormalSpec::Echo(args[1])))
        } else if cmd == "GET"@ && n == 2 {
            Ok(CommandSpec::Normal(NormalSpec::Get(args[1])))
        } else if cmd == "SET"@ && n == 3 {
            Ok(CommandSpec::Normal(NormalSpec::SetValue(args[1], args[2])))
        } else if cmd == "DEL"@ && n == 2 {
            Ok(CommandSpec::Normal(NormalSpec::Del(args[1])))
        } else if cmd == "EXISTS"@ && n == 2 {
            Ok(CommandSpec::Normal(NormalSpec::Exists(args[1])))
        } else if cmd == "INCR"@ && n == 2 {
            Ok(CommandSpec::Normal(NormalSpec::Incr(args[1])))
        } else if cmd == "DECR"@ && n == 2 {
            Ok(CommandSpec::Normal(NormalSpec::Decr(args[1])))
        } else if cmd == "EXPIRE"@ && n == 3 {
            match parse_u64_spec(args[2]) {
                Ok(seconds) => Ok(CommandSpec::Normal(NormalSpec::Expire(args[1], seconds))),
                Err(e) => Err(ProtocolErrorSpec::InvalidArgument(e.message_spec())),
            }
        } else if cmd == "TTL"@ && n == 2 {
            Ok(CommandSpec::Normal(NormalSpec::Ttl(args[1])))
        } else if cmd == "SUBSCRIBE"@ && n >= 2 {
            Ok(CommandSpec::Session(SessionSpec::Subscribe(args.drop_first())))
        } else if cmd == "UNSUBSCRIBE"@ {
            Ok(CommandSpec::Session(SessionSpec::Unsubscribe(args.drop_first())))
        } else if cmd == "PUBLISH"@ && n == 3 {
            Ok(CommandSpec::Normal(NormalSpec::Publish(args[1], args[2])))
        } else if cmd == "AUTH"@ && n == 2 {
            Ok(CommandSpec::Auth(args[1]))
        } else if cmd == "QUIT"@ && n == 1 {
            Ok(CommandSpec::Session(SessionSpec::Quit))
        } else if cmd == "RESET"@ && n == 1 {
            Ok(CommandSpec::Session(SessionSpec::Reset))
        } else {
            Err(ProtocolErrorSpec::UnknownCommand(cmd))
        }
    }
}

/// The command of a command line: its arguments after trimming, as
/// [`parse_args_spec`] reads them.
pub open spec fn parse_command_spec(line: Seq<char>) -> Result<CommandSpec, ProtocolErrorSpec> {
    match tokens(trim(line)) {
        None => Err(ProtocolErrorSpec::UnterminatedString),
        Some(args) => parse_args_spec(args),
    }
}

fn upper_string(s: &String) -> (r: (String, Vec<char>))
    ensures
        r.0@ == ascii_upper_seq(s@),
        r.1@ == ascii_upper_seq(s@),
{
    let cs = chars_of(s.as_str());
    let mut up: Vec<char> = Vec::new();
    let mut i: usize = 0;
    while i < cs.len()
        invariant
            i <= cs@.len(),
            cs@ == s@,
            up@ == ascii_upper_seq(cs@.take(i as int)),
        decreases cs.len() - i,
    {
        let c = cs[i];
        let u = c as u32;
        let d = if 97 <= u && u <= 122 {
            ((u - 32) as u8) as char
        } else {
            c
        };
        up.push(d);
        i += 1;
        proof {
            assert(up@ =~= ascii_upper_seq(cs@.take(i as int)));
        }
    }
    proof {
        assert(cs@.take(i as int) =~= cs@);
    }
    let st = string_from(&up);
    (st, up)
}

/// Whether the characters are those of the literal.
fn chars_eq(a: &[char], lit: &str) -> (r: bool)
    ensures
        r == (a@ == lit@),
{
    let b = chars_of(lit);
    if a.len() != b.len() {
        return false;
    }
    let mut i: usize = 0;
    while i < a.len()
        invariant
            i <= a@.len(),
            a@.len() == b@.len(),
            b@ == lit@,
            forall|k: int| 0 <= k < i ==> a@[k] == b@[k],
        decreases a.len() - i,
    {
        if a[i] != b[i] {
            return false;
        }
        i += 1;
    }
    proof {
        assert(a@ =~= b@);
    }
    true
}

fn copy_string(s: &String) -> (r: String)
    ensures
        r@ == s@,
{
    s.clone()
}

/// Turns the arguments of a command into a command. The name is matched in any
/// case; a wrong number of arguments counts as an unknown command.
pub fn parse_command_args(args: Vec<String>) -> (r: Result<Command, ProtocolError>)
    ensures
        command_result_view(r) == parse_args_spec(strings_view(args@)),
{
    let ghost a = strings_view(args@);
    let n = args.len();
    if n == 0 {
        return Err(ProtocolError::EmptyCommand);
    }
    let (upper, up) = upper_string(&args[0]);
    proof {
        assert(a[0] == args@[0]@);
        assert(n == a.len());
        if n >= 2 {
            assert(a[1] == args@[1]@);
        }
        if n >= 3 {
            assert(a[2] == args@[2]@);
        }
    }
    if chars_eq(&up, "PING") && n == 1 {
        Ok(Command::Normal(NormalCommand::Ping(None)))
    } else if chars_eq(&up, "PING") && n == 2 {
        Ok(Command::Normal(NormalCommand::Ping(Some(copy_string(&args[1])))))
    } else if chars_eq(&up, "ECHO") && n == 2 {
        Ok(Command::Normal(NormalCommand::Echo(copy_string(&args[1]))))
    } else if chars_eq(&up, "GET") && n == 2 {
        Ok(Command::Normal(NormalCommand::Get { key: copy_string(&args[1]) }))
    } else if chars_eq(&up, "SET") && n == 3 {
        Ok(
            Command::Normal(
                NormalCommand::SetValue { key: copy_string(&args[1]), value: copy_string(&args[2]) },
            ),
        )
    } else if chars_eq(&up, "DEL") && n == 2 {
        Ok(Command::Normal(NormalCommand::Del { key: copy_string(&args[1]) }))
    } else if chars_eq(&up, "EXISTS") && n == 2 {
        Ok(Command::Normal(NormalCommand::Exists { key: copy_string(&args[1]) }))
    } else if chars_eq(&up, "INCR") && n == 2 {
        Ok(Command::Normal(NormalCommand::Incr { key: copy_string(&args[1]) }))
    } else if chars_eq(&up, "DECR") && n == 2 {
        Ok(Command::Normal(NormalCommand::Decr { key: copy_string(&args[1]) }))
    } else if chars_eq(&up, "EXPIRE") && n == 3 {
        let digits = chars_of(args[2].as_str());
        match parse_u64_chars(&digits) {
            Ok(seconds) => Ok(
                Command::Normal(NormalCommand::Expire { key: copy_string(&args[1]), seconds }),
            ),
            Err(e) => Err(ProtocolError::InvalidArgument(e.message())),
        }
    } else if chars_eq(&up, "TTL") && n == 2 {
        Ok(Command::Normal(NormalCommand::Ttl { key: copy_string(&args[1]) }))
    } else if chars_eq(&up, "SUBSCRIBE") && n >= 2 {
        Ok(Command::Session(SessionCommand::Subscribe { channels: tail_of(&args) }))
    } else if chars_eq(&up, "UNSUBSCRIBE") {
        Ok(Command::Session(SessionCommand::Unsubscribe { channels: tail_of(&args) }))
    } else if chars_eq(&up, "PUBLISH") && n == 3 {
        Ok(
            Command::Normal(
                NormalCommand::Publish {
                    channel: copy_string(&args[1]),
                    message: copy_string(&args[2]),
                },
            ),
        )
    } else if chars_eq(&up, "AUTH") && n == 2 {
        Ok(Command::Auth { password: copy_string(&args[1]) })
    } else if chars_eq(&up, "QUIT") && n == 1 {
        Ok(Command::Session(SessionCommand::Quit))
    } else if chars_eq(&up, "RESET") && n == 1 {
        Ok(Command::Session(SessionCommand::Reset))
    } else {
        Err(ProtocolError::UnknownCommand(upper))
    }
}

/// Copies of all the arguments but the first.
fn tail_of(args: &Vec<String>) -> (r: Vec<String>)
    requires
        args@.len() >= 1,
    ensures
        strings_view(r@) == strings_view(args@).drop_first(),
{
    let mut r: Vec<String> = Vec::new();
    let mut i: usize = 1;
    while i < args.len()
        invariant
            1 <= i <= args@.len(),
            strings_view(r@) == strings_view(args@).subrange(1, i as int),
        decreases args.len() - i,
    {
        let c = copy_string(&args[i]);
        let ghost before = strings_view(r@);
        r.push(c);
        proof {
            assert(strings_view(r@) =~= before.push(c@));
            assert(strings_view(args@)[i as int] == args@[i as int]@);
            assert(strings_view(args@).subrange(1, i + 1) =~= strings_view(args@).subrange(
                1,
                i as int,
            ).push(args@[i as int]@));
        }
        i += 1;
    }
    proof {
        assert(strings_view(args@).subrange(1, i as int) =~= strings_view(args@).drop_first());
    }
    r
}

/// Parses a command line such as `SET key "hello world"`.
pub fn parse_command(line: &str) -> (r: Result<Command, ProtocolError>)
    ensures
        command_result_view(r) == parse_command_spec(line@),
{
    let cs = chars_of(line);
    let (lo, hi) = trim_bounds(&cs);
    match split_chars(&cs, lo, hi) {
        None => Err(ProtocolError::UnterminatedString),
        Some(args) => parse_command_args(args),
    }
}

// ---------------------------------------------------------------------------
// Encoding replies and commands
// ---------------------------------------------------------------------------

pub open spec fn crlf() -> Seq<char> {
    seq!['\r', '\n']
}

pub open spec fn crlf_bytes() -> Seq<u8> {
    seq![13u8, 10u8]
}

/// The number of bytes of a string in UTF-8.
pub open spec fn byte_len(s: Seq<char>) -> nat {
    encode_utf8(s).len()
}

/// The text of a reply on the wire. An error carries the prefix `ERR `.
pub open spec fn encode_spec(v: RespSpec) -> Seq<char>
    decreases v,
{
    match v {
        RespSpec::Simple(s) => seq!['+'] + s + crlf(),
        RespSpec::Error(s) => seq!['-', 'E', 'R', 'R', ' '] + s + crlf(),
        RespSpec::Integer(n) => seq![':'] + dec_int(n as int) + crlf(),
        RespSpec::Bulk(s) => seq!['$'] + dec_nat(byte_len(s)) + crlf() + s + crlf(),
        RespSpec::Array(items) => seq!['*'] + dec_nat(items.len()) + crlf() + encode_items(items),
        RespSpec::Nil => seq!['$', '-', '1'] + crlf(),
    }
}

/// The texts of the replies, one after the other.
pub open spec fn encode_items(items: Seq<RespSpec>) -> Seq<char>
    decreases items,
{
    if items.len() == 0 {
        seq![]
    } else {
        encode_items(items.drop_last()) + encode_spec(items.last())
    }
}

fn encode_into(out: &mut String, v: &RespValue)
    ensures
        final(out)@ == old(out)@ + encode_spec(v@),
    decreases v,
{
    match v {
        RespValue::Simple(s) => {
            push_char(out, '+');
            push_str(out, s.as_str());
            push_char(out, '\r');
            push_char(out, '\n');
        },
        RespValue::Error(s) => {
            push_char(out, '-');
            push_char(out, 'E');
            push_char(out, 'R');
            push_char(out, 'R');
            push_char(out, ' ');
            push_str(out, s.as_str());
            push_char(out, '\r');
            push_char(out, '\n');
        },
        RespValue::Integer(n) => {
            push_char(out, ':');
            push_dec_i64(out, *n);
            push_char(out, '\r');
            push_char(out, '\n');
        },
        RespValue::Bulk(s) => {
            let len = s.as_str().as_bytes().len();
            push_char(out, '$');
            push_dec_u64(out, len as u64);
            push_char(out, '\r');
            push_char(out, '\n');
            push_str(out, s.as_str());
            push_char(out, '\r');
            push_char(out, '\n');
        },
        RespValue::Array(items) => {
            push_char(out, '*');
            push_dec_u64(out, items.len() as u64);
            push_char(out, '\r');
            push_char(out, '\n');
            let ghost start = out@;
            let ghost specs = resp_items(items@);
            let mut i: usize = 0;
            while i < items.len()
                invariant
                    i <= items@.len(),
                    *v == RespValue::Array(*items),
                    specs == resp_items(items@),
                    out@ == start + encode_items(specs.take(i as int)),
                decreases items.len() - i,
            {
                proof {
                    assert(decreases_to!(*v => v->Array_0));
                    assert(decreases_to!(v->Array_0 => v->Array_0@));
                    assert(decreases_to!(items@ => items@[i as int]));
                    assert(decreases_to!(*v => items@[i as int]));
                }
                encode_into(out, &items[i]);
                proof {
                    assert(specs.take(i + 1).drop_last() =~= specs.take(i as int));
                    assert(specs[i as int] == items@[i as int]@);
                }
                i += 1;
            }
            proof {
                assert(specs.take(i as int) =~= specs);
            }
        },
        RespValue::Nil => {
            push_char(out, '$');
            push_char(out, '-');
            push_char(out, '1');
            push_char(out, '\r');
            push_char(out, '\n');
        },
    }
    proof {
        assert(final(out)@ =~= old(out)@ + encode_spec(v@));
    }
}

/// Appends the text of a reply on the wire.
pub fn encode_into_string(out: &mut String, v: &RespValue)
    ensures
        final(out)@ == old(out)@ + encode_spec(v@),
{
    encode_into(out, v)
}

/// The text of a reply on the wire.
pub fn encode_resp_value(reply: &RespValue) -> (s: String)
    ensures
        s@ == encode_spec(reply@),
{
    let mut s = String::new();
    encode_into(&mut s, reply);
    proof {
        assert(s@ =~= encode_spec(reply@));
    }
    s
}

/// The bytes of one argument in a command: its length, then its UTF-8 bytes.
pub open spec fn bulk_bytes(s: Seq<char>) -> Seq<u8> {
    seq![36u8] + dec_bytes(byte_len(s)) + crlf_bytes() + encode_utf8(s) + crlf_bytes()
}

pub open spec fn encode_args(args: Seq<Seq<char>>) -> Seq<u8>
    decreases args.len(),
{
    if args.len() == 0 {
        seq![]
    } else {
        encode_args(args.drop_last()) + bulk_bytes(args.last())
    }
}

/// The bytes of a command as a client sends it: an array of bulk strings.
pub open spec fn encode_command_spec(args: Seq<Seq<char>>) -> Seq<u8> {
    seq![42u8] + dec_bytes(args.len()) + crlf_bytes() + encode_args(args)
}

fn append_bytes(out: &mut Vec<u8>, b: &[u8])
    ensures
        final(out)@ == old(out)@ + b@,
{
    let mut i: usize = 0;
    while i < b.len()
        invariant
            i <= b@.len(),
            out@ == old(out)@ + b@.take(i as int),
        decreases b.len() - i,
    {
        out.push(b[i]);
        i += 1;
        proof {
            assert(b@.take(i as int) =~= b@.take(i - 1).push(b@[i - 1]));
        }
    }
    proof {
        assert(b@.take(i as int) =~= b@);
    }
}

/// Encodes the arguments of a command as an array of bulk strings.
pub fn encode_command(args: &[String]) -> (r: Vec<u8>)
    ensures
        r@ == encode_command_spec(strings_view(args@)),
{
    let ghost a = strings_view(args@);
    let mut encoded: Vec<u8> = Vec::new();
    encoded.push(42u8);
    push_dec_bytes(&mut encoded, args.len() as u64);
    encoded.push(13u8);
    encoded.push(10u8);
    let ghost start = encoded@;
    let mut i: usize = 0;
    while i < args.len()
        invariant
            i <= args@.len(),
            a == strings_view(args@),
            encoded@ == start + encode_args(a.take(i as int)),
        decreases args.len() - i,
    {
        let bytes = args[i].as_str().as_bytes();
        encoded.push(36u8);
        push_dec_bytes(&mut encoded, bytes.len() as u64);
        encoded.push(13u8);
        encoded.push(10u8);
        append_bytes(&mut encoded, bytes);
        encoded.push(13u8);
        encoded.push(10u8);
        proof {
            assert(a.take(i + 1).drop_last() =~= a.take(i as int));
            assert(a[i as int] == args@[i as int]@);
        }
        i += 1;
        proof {
            assert(encoded@ =~= start + encode_args(a.take(i as int)));
        }
    }
    proof {
        assert(a.take(i as int) =~= a);
        assert(encoded@ =~= encode_command_spec(a));
    }
    encoded
}

// ---------------------------------------------------------------------------
// From a frame to a command
// ---------------------------------------------------------------------------

/// The command that a frame carries: an array of bulk strings, read as arguments.
pub open spec fn command_from_spec(v: RespSpec) -> Result<CommandSpec, ProtocolErrorSpec> {
    match v {
        RespSpec::Array(items) => if items.len() == 0 {
            Err(ProtocolErrorSpec::EmptyCommand)
        } else if forall|i: int| 0 <= i < items.len() ==> #[trigger] items[i] is Bulk {
            parse_args_spec(items.map_values(|x: RespSpec| x->Bulk_0))
        } else {
            Err(ProtocolErrorSpec::InvalidFrame("command arguments must be bulk strings"@))
        },
        _ => Err(ProtocolErrorSpec::InvalidFrame("command must be a RESP array"@)),
    }
}

/// Reads a command out of a frame: the frame must be an array of bulk strings.
pub fn command_from_resp_value(value: RespValue) -> (r: Result<Command, ProtocolError>)
    ensures
        command_result_view(r) == command_from_spec(value@),
{
    let ghost vs = value@;
    match value {
        RespValue::Array(items) => {
            let ghost specs = resp_items(items@);
            proof {
                assert(vs == RespSpec::Array(specs));
            }
            if items.len() == 0 {
                return Err(ProtocolError::EmptyCommand);
            }
            let mut args: Vec<String> = Vec::new();
            let mut i: usize = 0;
            while i < items.len()
                invariant
                    i <= items@.len(),
                    items@.len() > 0,
                    vs == RespSpec::Array(specs),
                    vs == value@,
                    specs == resp_items(items@),
                    forall|k: int| 0 <= k < i ==> #[trigger] specs[k] is Bulk,
                    args@.len() == i,
                    strings_view(args@) == specs.take(i as int).map_values(
                        |x: RespSpec| x->Bulk_0,
                    ),
                decreases items.len() - i,
            {
                match &items[i] {
                    RespValue::Bulk(arg) => {
                        proof {
                            assert(specs[i as int] == RespSpec::Bulk(arg@));
                        }
                        let c = copy_string(arg);
                        let ghost before = strings_view(args@);
                        args.push(c);
                        proof {
                            assert(strings_view(args@) =~= before.push(c@));
                            assert(specs.take(i + 1).map_values(|x: RespSpec| x->Bulk_0)
                                =~= specs.take(i as int).map_values(|x: RespSpec| x->Bulk_0).push(
                                arg@,
                            ));
                        }
                    },
                    _ => {
                        let e = "command arguments must be bulk strings".to_string();
                        proof {
                            assert(!(specs[i as int] is Bulk));
                        }
                        return Err(ProtocolError::InvalidFrame(e));
                    },
                }
                i += 1;
            }
            proof {
                assert(specs.take(i as int) =~= specs);
            }
            parse_command_args(args)
        },
        _ => Err(ProtocolError::InvalidFrame("command must be a RESP array".to_string())),
    }
}

} // verus!
