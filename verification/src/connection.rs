//! What a connection does with the bytes a client sends: which requests to run,
//! which errors to answer, and when to stop.
use vstd::prelude::*;
use vstd::slice::slice_subrange;
use vstd::utf8::*;

use crate::client::roundtrip::{lemma_encode_utf8_concat, lemma_no_lf};
use crate::protocol::error::ProtocolError;
use crate::protocol::reader::{find_lf, read_request, request_spec, FrameRead, StepSpec};
use crate::protocol::roundtrip::{
    args_fit, bulk_items, law_command_frame_roundtrip, law_command_from_bulk_args, lemma_find_lf,
};
use crate::protocol::text::{
    bare_len, command_from_resp_value, command_from_spec, encode_command_spec, encode_items,
    encode_into_string, parse_args_spec, parse_command, parse_command_spec, tokens, trim, trim_end,
    trim_start,
};
use crate::protocol::{resp_seq, Command, CommandSpec, ProtocolErrorSpec, RespSpec, RespValue};
use crate::strutil::{is_ws, str_from_utf8};

verus! {

/// What to do next with the bytes received on a connection.
#[derive(Debug)]
pub enum ReadOutcome {
    /// Run the command; the request took that many bytes.
    Command(Command, usize),
    /// Answer with an error; the request took that many bytes. The connection
    /// closes after the answer when `close_connection` is set.
    Reply { reply: RespValue, close_connection: bool, consumed: usize },
    /// Wait for more bytes.
    Wait,
    /// The client has closed the connection: stop reading.
    Stop,
}

pub enum ReadSpec {
    Command(CommandSpec, nat),
    Reply(RespSpec, bool, nat),
    Wait,
    Stop,
}

pub open spec fn read_outcome_view(r: ReadOutcome) -> ReadSpec {
    match r {
        ReadOutcome::Command(c, n) => ReadSpec::Command(c@, n as nat),
        ReadOutcome::Reply { reply, close_connection, consumed } => ReadSpec::Reply(reply@, close_connection, consumed as nat),
        ReadOutcome::Wait => ReadSpec::Wait,
        ReadOutcome::Stop => ReadSpec::Stop,
    }
}

/// Whether a byte starts a RESP value (`*`, `+`, `-`, `:` or `$`).
pub open spec fn is_resp_prefix(b: u8) -> bool {
    b == 42 || b == 43 || b == 45 || b == 58 || b == 36
}

/// An inline command: the text up to the first `\n`, parsed as [`parse_command`]
/// parses a line. A command that cannot be parsed is answered with the error and the
/// connection stays open; a line that is not UTF-8 is answered with the error and
/// the connection closes; without a `\n` yet, more bytes are needed.
pub open spec fn inline_spec(buf: Seq<u8>, closed: bool) -> ReadSpec {
    match find_lf(buf, 0) {
        None => if closed {
            ReadSpec::Stop
        } else {
            ReadSpec::Wait
        },
        Some(j) => {
            let line = buf.subrange(0, j);
            if !valid_utf8(line) {
                ReadSpec::Reply(
                    RespSpec::Error(ProtocolErrorSpec::InvalidFrame("non-utf8 string"@).message()),
                    true,
                    0,
                )
            } else {
                match parse_command_spec(decode_utf8(line)) {
                    Ok(c) => ReadSpec::Command(c, (j + 1) as nat),
                    Err(e) => ReadSpec::Reply(RespSpec::Error(e.message()), false, (j + 1) as nat),
                }
            }
        },
    }
}

/// The next step for the bytes received, when they start with a RESP frame: a frame
/// that holds a command runs it; a
/// frame that holds no valid command is answered with the error and the connection
/// stays open; bytes that are not a valid frame are answered with the error and the
/// connection closes; an incomplete frame waits for more bytes, unless the client has
/// closed the connection.
pub open spec fn frame_request_spec(buf: Seq<u8>, closed: bool) -> ReadSpec {
    match request_spec(buf, closed) {
        StepSpec::Done(v, n) => match command_from_spec(v) {
            Ok(c) => ReadSpec::Command(c, n as nat),
            Err(e) => ReadSpec::Reply(RespSpec::Error(e.message()), false, n as nat),
        },
        StepSpec::Invalid(m) => ReadSpec::Reply(
            RespSpec::Error(ProtocolErrorSpec::InvalidFrame(m).message()),
            true,
            0,
        ),
        StepSpec::Incomplete => if closed {
            ReadSpec::Stop
        } else {
            ReadSpec::Wait
        },
    }
}

/// The next step for the bytes received: a RESP frame when they start with a RESP
/// type byte, else an inline command.
pub open spec fn next_request_spec(buf: Seq<u8>, closed: bool) -> ReadSpec {
    if buf.len() > 0 && !is_resp_prefix(buf[0]) {
        inline_spec(buf, closed)
    } else {
        frame_request_spec(buf, closed)
    }
}

fn next_inline(buf: &[u8], closed: bool) -> (r: ReadOutcome)
    ensures
        read_outcome_view(r) == inline_spec(buf@, closed),
        r matches ReadOutcome::Command(_, n) ==> 0 < n <= buf@.len(),
        r matches ReadOutcome::Reply { consumed, .. } ==> consumed <= buf@.len(),
{
    let mut j: usize = 0;
    while j < buf.len() && buf[j] != 10
        invariant
            j <= buf@.len(),
            find_lf(buf@, 0) == find_lf(buf@, j as int),
        decreases buf.len() - j,
    {
        j += 1;
    }
    if j >= buf.len() {
        return if closed {
            ReadOutcome::Stop
        } else {
            ReadOutcome::Wait
        };
    }
    let line = slice_subrange(buf, 0, j);
    match str_from_utf8(line) {
        None => {
            let e = ProtocolError::InvalidFrame("non-utf8 string".to_string());
            ReadOutcome::Reply { reply: RespValue::Error(e.to_string()), close_connection: true, consumed: 0 }
        },
        Some(text) => match parse_command(text) {
            Ok(cmd) => ReadOutcome::Command(cmd, j + 1),
            Err(e) => ReadOutcome::Reply {
                reply: RespValue::Error(e.to_string()),
                close_connection: false,
                consumed: j + 1,
            },
        },
    }
}

/// Decides what to do with the bytes received on a connection so far; `closed` tells
/// whether the client has closed its side.
pub fn next_request(buf: &[u8], closed: bool) -> (r: ReadOutcome)
    ensures
        read_outcome_view(r) == next_request_spec(buf@, closed),
        r matches ReadOutcome::Command(_, n) ==> 0 < n <= buf@.len(),
        r matches ReadOutcome::Reply { consumed, .. } ==> consumed <= buf@.len(),
{
    if buf.len() > 0 && !(buf[0] == 42 || buf[0] == 43 || buf[0] == 45 || buf[0] == 58 || buf[0] == 36) {
        return next_inline(buf, closed);
    }
    match read_request(buf, closed) {
        FrameRead::Frame(value, n) => match command_from_resp_value(value) {
            Ok(cmd) => ReadOutcome::Command(cmd, n),
            Err(e) => ReadOutcome::Reply {
                reply: RespValue::Error(e.to_string()),
                close_connection: false,
                consumed: n,
            },
        },
        FrameRead::Invalid(e) => ReadOutcome::Reply {
            reply: RespValue::Error(e.to_string()),
            close_connection: true,
            consumed: 0,
        },
        FrameRead::Incomplete => if closed {
            ReadOutcome::Stop
        } else {
            ReadOutcome::Wait
        },
    }
}

/// The text of the replies, one after the other.
pub fn encode_resp_values(replies: &[RespValue]) -> (s: String)
    ensures
        s@ == encode_items(resp_seq(replies@)),
{
    let ghost rs = resp_seq(replies@);
    let mut out = String::new();
    let mut i: usize = 0;
    proof {
        assert(rs.take(0) =~= Seq::<RespSpec>::empty());
        assert(out@ =~= encode_items(rs.take(0)));
    }
    while i < replies.len()
        invariant
            i <= replies@.len(),
            rs == resp_seq(replies@),
            out@ == encode_items(rs.take(i as int)),
        decreases replies.len() - i,
    {
        encode_into_string(&mut out, &replies[i]);
        proof {
            assert(rs.take(i + 1).drop_last() =~= rs.take(i as int));
            assert(rs.take(i + 1).last() == replies@[i as int]@);
        }
        i += 1;
    }
    proof {
        assert(rs.take(i as int) =~= rs);
    }
    out
}

// ---------------------------------------------------------------------------
// A command typed as a line, and the same command sent as a frame
// ---------------------------------------------------------------------------

/// The words of a command line joined by single spaces.
pub open spec fn join_words(args: Seq<Seq<char>>) -> Seq<char>
    decreases args.len(),
{
    if args.len() == 0 {
        seq![]
    } else if args.len() == 1 {
        args[0]
    } else {
        args[0] + seq![' '] + join_words(args.drop_first())
    }
}

/// A word that a command line holds as it is: not empty, without whitespace, and not
/// opening with a quote.
pub open spec fn plain_word(w: Seq<char>) -> bool {
    &&& w.len() > 0
    &&& w[0] != '"'
    &&& forall|i: int| 0 <= i < w.len() ==> !is_ws(#[trigger] w[i])
}

proof fn lemma_bare_len_word(w: Seq<char>, t: Seq<char>)
    requires
        forall|i: int| 0 <= i < w.len() ==> !is_ws(#[trigger] w[i]),
        t.len() == 0 || is_ws(t[0]),
    ensures
        bare_len(w + t) == w.len(),
    decreases w.len(),
{
    if w.len() == 0 {
        assert(w + t =~= t);
    } else {
        assert((w + t)[0] == w[0]);
        assert((w + t).drop_first() =~= w.drop_first() + t);
        assert forall|i: int| 0 <= i < w.drop_first().len() implies !is_ws(#[trigger] w.drop_first()[i]) by {
            assert(w.drop_first()[i] == w[i + 1]);
        }
        lemma_bare_len_word(w.drop_first(), t);
    }
}

proof fn lemma_join_words(args: Seq<Seq<char>>)
    requires
        args.len() > 0,
        forall|i: int| 0 <= i < args.len() ==> plain_word(#[trigger] args[i]),
    ensures
        tokens(join_words(args)) == Some(args),
        join_words(args).len() > 0,
        join_words(args)[0] == args[0][0],
        !is_ws(join_words(args).last()),
        forall|i: int| 0 <= i < join_words(args).len() ==> #[trigger] join_words(args)[i] == ' ' || !is_ws(join_words(args)[i]),
    decreases args.len(),
{
    let w = args[0];
    assert(plain_word(w));
    let s = join_words(args);
    if args.len() == 1 {
        lemma_bare_len_word(w, seq![]);
        assert(w + Seq::<char>::empty() =~= w);
        assert(bare_len(w) == w.len());
        assert(w.subrange(w.len() as int, w.len() as int) =~= Seq::<char>::empty());
        assert(tokens(w.subrange(w.len() as int, w.len() as int)) == Some(Seq::<Seq<char>>::empty()));
        assert(w.subrange(0, w.len() as int) =~= w);
        assert(seq![w] + Seq::<Seq<char>>::empty() =~= args);
        assert(tokens(w) == Some(seq![w] + Seq::<Seq<char>>::empty()));
        assert(w.last() == w[w.len() - 1]);
    } else {
        let rest = args.drop_first();
        assert forall|i: int| 0 <= i < rest.len() implies plain_word(#[trigger] rest[i]) by {
            assert(rest[i] == args[i + 1]);
        }
        lemma_join_words(rest);
        let j = join_words(rest);
        let t = seq![' '] + j;
        assert(s =~= w + t);
        assert(is_ws(t[0]));
        lemma_bare_len_word(w, t);
        assert(s[0] == w[0]);
        assert(s.subrange(w.len() as int, s.len() as int) =~= t);
        assert(t.drop_first() =~= j);
        assert(tokens(t) == tokens(j));
        assert(s.subrange(0, w.len() as int) =~= w);
        assert(seq![w] + rest =~= args);
        assert(tokens(s) == Some(seq![w] + rest));
        assert(s.last() == j.last());
        assert forall|i: int| 0 <= i < s.len() implies #[trigger] s[i] == ' ' || !is_ws(s[i]) by {
            if i < w.len() {
                assert(s[i] == w[i]);
            } else if i > w.len() {
                assert(s[i] == j[i - w.len() - 1]);
            }
        }
    }
}

proof fn lemma_trim_line(s: Seq<char>)
    requires
        s.len() > 0,
        !is_ws(s[0]),
        !is_ws(s.last()),
    ensures
        trim(s + seq!['\r']) == s,
{
    let l = s + seq!['\r'];
    assert(l[0] == s[0]);
    assert(trim_start(l) == l);
    assert(l.drop_last() =~= s);
    assert(is_ws(l.last()));
    assert(trim_end(l) == trim_end(s));
    assert(trim_end(s) == s);
}

/// The first byte of the UTF-8 bytes of a string that starts with none of `*`, `+`,
/// `-`, `:` and `$` is no RESP type byte.
proof fn lemma_first_byte(s: Seq<char>)
    requires
        s.len() > 0,
        !(s[0] == '*' || s[0] == '+' || s[0] == '-' || s[0] == ':' || s[0] == '$'),
    ensures
        encode_utf8(s).len() > 0,
        !is_resp_prefix(encode_utf8(s)[0]),
{
    let c = s[0];
    let u = c as u32;
    assert(encode_utf8(s) == encode_scalar(u) + encode_utf8(s.drop_first()));
    assert(encode_utf8(s)[0] == encode_scalar(u)[0]);
    let b = encode_scalar(u)[0];
    if has_width_1_encoding(u) {
        assert(((u & 0x7F) as u8) == u) by (bit_vector)
            requires
                u <= 0x7F,
        ;
        assert(b == u);
        char_u32_cast(c, u);
        assert(u != 42 && u != 43 && u != 45 && u != 58 && u != 36) by {
            char_u32_cast('*', 42u32);
            char_u32_cast('+', 43u32);
            char_u32_cast('-', 45u32);
            char_u32_cast(':', 58u32);
            char_u32_cast('$', 36u32);
        }
    } else if has_width_2_encoding(u) {
        let x = ((u >> 6) & 0x1F) as u8;
        assert((0xC0u8 | x) >= 0xC0u8) by (bit_vector);
        assert(b == (0xC0u8 | x));
    } else if has_width_3_encoding(u) {
        let x = ((u >> 12) & 0x0F) as u8;
        assert((0xE0u8 | x) >= 0xC0u8) by (bit_vector);
        assert(b == (0xE0u8 | x));
    } else {
        let x = ((u >> 18) & 0x7) as u8;
        assert((0xF0u8 | x) >= 0xC0u8) by (bit_vector);
        assert(b == (0xF0u8 | x));
    }
}

proof fn lemma_tokens_blank(b: Seq<char>)
    requires
        forall|i: int| 0 <= i < b.len() ==> is_ws(#[trigger] b[i]),
    ensures
        tokens(b) == Some(Seq::<Seq<char>>::empty()),
    decreases b.len(),
{
    if b.len() > 0 {
        assert(is_ws(b[0]));
        assert forall|i: int| 0 <= i < b.drop_first().len() implies is_ws(#[trigger] b.drop_first()[i]) by {
            assert(b.drop_first()[i] == b[i + 1]);
        }
        lemma_tokens_blank(b.drop_first());
    }
}

/// Splitting plain words joined by single spaces (as `split_args` and `parse_command`
/// split a line) gives the words back; a line of nothing but whitespace gives no
/// words.
pub proof fn law_split_joined_words(args: Seq<Seq<char>>, blank: Seq<char>)
    requires
        forall|i: int| 0 <= i < args.len() ==> plain_word(#[trigger] args[i]),
        forall|i: int| 0 <= i < blank.len() ==> is_ws(#[trigger] blank[i]),
    ensures
        tokens(join_words(args)) == Some(args),
        tokens(blank) == Some(Seq::<Seq<char>>::empty()),
{
    if args.len() == 0 {
        assert(args =~= Seq::<Seq<char>>::empty());
    } else {
        lemma_join_words(args);
    }
    lemma_tokens_blank(blank);
}

proof fn lemma_trim_start_blank(b: Seq<char>)
    requires
        forall|i: int| 0 <= i < b.len() ==> is_ws(#[trigger] b[i]),
    ensures
        trim_start(b) == Seq::<char>::empty(),
    decreases b.len(),
{
    if b.len() > 0 {
        assert(is_ws(b[0]));
        assert forall|i: int| 0 <= i < b.drop_first().len() implies is_ws(#[trigger] b.drop_first()[i]) by {
            assert(b.drop_first()[i] == b[i + 1]);
        }
        lemma_trim_start_blank(b.drop_first());
    }
}

/// A command line that is empty or holds nothing but whitespace is refused as an
/// empty command.
pub proof fn law_blank_line_is_empty_command(blank: Seq<char>)
    requires
        forall|i: int| 0 <= i < blank.len() ==> is_ws(#[trigger] blank[i]),
    ensures
        parse_command_spec(blank) == Err::<CommandSpec, ProtocolErrorSpec>(ProtocolErrorSpec::EmptyCommand),
{
    lemma_trim_start_blank(blank);
    assert(trim(blank) == Seq::<char>::empty());
    assert(tokens(Seq::<char>::empty()) == Some(Seq::<Seq<char>>::empty()));
}

/// A command typed as a line of plain words, ended by `\r\n`, is taken as the same
/// request as the array of bulk strings that the client sends for those words: the
/// same command runs, or the same error is answered, whatever bytes follow.
pub proof fn law_inline_matches_frame(args: Seq<Seq<char>>, rest: Seq<u8>, closed: bool)
    requires
        args.len() > 0,
        args.len() <= i64::MAX,
        args.len() <= usize::MAX,
        args_fit(args),
        forall|i: int| 0 <= i < args.len() ==> plain_word(#[trigger] args[i]),
        !(args[0][0] == '*' || args[0][0] == '+' || args[0][0] == '-' || args[0][0] == ':'
            || args[0][0] == '$'),
    ensures
        ({
            let line = encode_utf8(join_words(args) + seq!['\r', '\n']);
            let frame = encode_command_spec(args);
            match parse_args_spec(args) {
                Ok(c) => {
                    &&& next_request_spec(line + rest, closed) == ReadSpec::Command(c, line.len())
                    &&& next_request_spec(frame + rest, closed) == ReadSpec::Command(c, frame.len())
                },
                Err(e) => {
                    &&& next_request_spec(line + rest, closed) == ReadSpec::Reply(
                        RespSpec::Error(e.message()),
                        false,
                        line.len(),
                    )
                    &&& next_request_spec(frame + rest, closed) == ReadSpec::Reply(
                        RespSpec::Error(e.message()),
                        false,
                        frame.len(),
                    )
                },
            }
        }),
{
    let j = join_words(args);
    lemma_join_words(args);
    let jr = j + seq!['\r'];
    let chars = j + seq!['\r', '\n'];
    assert(chars =~= jr + seq!['\n']);
    lemma_encode_utf8_concat(jr, seq!['\n']);
    is_ascii_chars_encode_utf8(seq!['\n']);
    assert(encode_utf8(seq!['\n']) =~= seq![10u8]);
    let lb = encode_utf8(jr);
    let line = encode_utf8(chars);
    assert(line == lb + seq![10u8]);
    // no line feed before the last byte
    assert(!jr.contains('\n')) by {
        if jr.contains('\n') {
            let k = choose|k: int| 0 <= k < jr.len() && jr[k] == '\n';
            if k < j.len() {
                assert(jr[k] == j[k]);
                assert(j[k] == ' ' || !is_ws(j[k]));
            }
        }
    }
    lemma_no_lf(jr);
    let buf = line + rest;
    let e = lb.len() as int;
    assert forall|k: int| 0 <= k < e implies #[trigger] buf[k] != 10 by {
        assert(buf[k] == lb[k]);
    }
    assert(buf[e] == 10u8);
    lemma_find_lf(buf, 0, e);
    assert(buf.subrange(0, e) =~= lb);
    encode_utf8_valid_utf8(jr);
    encode_utf8_decode_utf8(jr);
    lemma_trim_line(j);
    // the first byte is no RESP type byte
    assert(jr[0] == j[0]);
    lemma_first_byte(jr);
    assert(buf[0] == lb[0]);
    assert(parse_command_spec(jr) == parse_args_spec(args));
    // the frame side
    let frame = encode_command_spec(args);
    law_command_frame_roundtrip(args, rest, closed);
    law_command_from_bulk_args(args);
    assert((frame + rest)[0] == 42u8);
}

} // verus!
