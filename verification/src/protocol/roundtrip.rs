//! What the server reads back of what a client writes: a command encoded by
//! `encode_command` is read as the same arguments, whatever follows it.
use vstd::prelude::*;
use vstd::utf8::*;

use crate::protocol::reader::{
    bulk_after, find_lf, items_at, line_at, line_i64, line_str, request_spec, scalar_at,
    ItemsSpec, LineSpec, StepSpec,
};
use crate::client::roundtrip::lemma_encode_utf8_concat;
use crate::protocol::text::{
    bulk_bytes, byte_len, command_from_spec, crlf, crlf_bytes, encode_args, encode_command_spec,
    encode_items, encode_spec, parse_args_spec,
};
use crate::protocol::{CommandSpec, ProtocolErrorSpec, RespSpec};
use crate::strutil::{
    all_digits, dec_bytes, dec_nat, digit_char, digit_value, digits_value, is_digit_char,
    parse_i64_spec,
};

verus! {

proof fn lemma_digit_char(d: int)
    requires
        0 <= d < 10,
    ensures
        is_digit_char(digit_char(d)),
        digit_value(digit_char(d)) == d,
        digit_char(d) as u32 == 48 + d,
        '\0' <= digit_char(d) <= '\u{7f}',
{
    let u = (48 + d) as u32;
    assert(u as char as u32 == u);
}

pub(crate) proof fn lemma_dec_nat(n: nat)
    ensures
        dec_nat(n).len() >= 1,
        all_digits(dec_nat(n)),
        digits_value(dec_nat(n)) == n,
        is_ascii_chars(dec_nat(n)),
    decreases n,
{
    let s = dec_nat(n);
    if n < 10 {
        lemma_digit_char(n as int);
        assert(s.drop_last() =~= Seq::<char>::empty());
        assert(digits_value(s.drop_last()) == 0);
        assert(s.last() == digit_char(n as int));
        assert(digits_value(s) == digits_value(s.drop_last()) * 10 + digit_value(s.last()));
    } else {
        lemma_dec_nat(n / 10);
        lemma_digit_char((n % 10) as int);
        let h = dec_nat(n / 10);
        assert(s == h.push(digit_char((n % 10) as int)));
        assert(s.drop_last() =~= h);
        assert(s.last() == digit_char((n % 10) as int));
        assert(digits_value(s) == digits_value(h) * 10 + (n % 10));
        assert((n / 10) * 10 + n % 10 == n) by (nonlinear_arith);
        assert forall|i: int| 0 <= i < s.len() implies #[trigger] is_digit_char(s[i]) by {
            if i < h.len() {
                assert(s[i] == h[i]);
            }
        }
        assert forall|i: int| 0 <= i < s.len() implies '\0' <= #[trigger] s[i] <= '\u{7f}' by {
            if i < h.len() {
                assert(s[i] == h[i]);
            }
        }
    }
}

/// The decimal bytes of a number are the UTF-8 bytes of its digits, none of them `\r`
/// or `\n`, and they read back as the number.
proof fn lemma_dec_bytes(n: nat)
    requires
        n <= i64::MAX,
    ensures
        dec_bytes(n) == encode_utf8(dec_nat(n)),
        forall|i: int| 0 <= i < dec_bytes(n).len() ==> 48 <= #[trigger] dec_bytes(n)[i] <= 57,
        line_i64(dec_bytes(n)) == Ok::<i64, Seq<char>>(n as i64),
{
    let s = dec_nat(n);
    lemma_dec_nat(n);
    vstd::utf8::is_ascii_chars_encode_utf8(s);
    assert(dec_bytes(n) =~= encode_utf8(s));
    assert forall|i: int| 0 <= i < dec_bytes(n).len() implies 48 <= #[trigger] dec_bytes(n)[i]
        <= 57 by {
        assert(is_digit_char(s[i]));
        assert(dec_bytes(n)[i] == s[i] as u8);
    }
    vstd::utf8::encode_utf8_valid_utf8(s);
    vstd::utf8::encode_utf8_decode_utf8(s);
    assert(is_digit_char(s[0]));
    assert(parse_i64_spec(s) == Some(n as i64));
}

pub(crate) proof fn lemma_find_lf(buf: Seq<u8>, i: int, j: int)
    requires
        0 <= i <= j < buf.len(),
        buf[j] == 10,
        forall|k: int| i <= k < j ==> buf[k] != 10,
    ensures
        find_lf(buf, i) == Some(j),
    decreases j - i,
{
    if i < j {
        lemma_find_lf(buf, i + 1, j);
    }
}

/// A line with the given content, then `\r\n`, starting at `pos`.
proof fn lemma_line(buf: Seq<u8>, pos: int, c: Seq<u8>, closed: bool)
    requires
        0 <= pos,
        pos + c.len() + 2 <= buf.len(),
        buf.subrange(pos, pos + c.len() + 2) == c + crlf_bytes(),
        forall|k: int| 0 <= k < c.len() ==> 48 <= #[trigger] c[k] <= 57,
    ensures
        line_at(buf, pos, closed) == LineSpec::Line(c, pos + c.len() + 2),
{
    let e = pos + c.len();
    assert forall|k: int| pos <= k < e + 1 implies buf[k] != 10 by {
        assert(buf.subrange(pos, pos + c.len() + 2)[k - pos] == buf[k]);
        if k < e {
            assert(c[k - pos] == buf[k]);
        }
    }
    assert(buf.subrange(pos, pos + c.len() + 2)[c.len() + 1int] == buf[e + 1]);
    assert(buf.subrange(pos, pos + c.len() + 2)[c.len() as int] == buf[e]);
    lemma_find_lf(buf, pos, e + 1);
    assert(buf.subrange(pos, e) =~= c) by {
        assert forall|k: int| 0 <= k < c.len() implies buf.subrange(pos, e)[k] == c[k] by {
            assert(buf.subrange(pos, pos + c.len() + 2)[k] == buf[pos + k]);
        }
    }
}

/// A bulk string starting at `pos` is read back as the same string.
proof fn lemma_bulk(buf: Seq<u8>, pos: int, s: Seq<char>, closed: bool)
    requires
        0 <= pos,
        pos + bulk_bytes(s).len() <= buf.len(),
        buf.subrange(pos, pos + bulk_bytes(s).len()) == bulk_bytes(s),
        byte_len(s) <= i64::MAX,
        byte_len(s) <= usize::MAX,
    ensures
        buf[pos] == 36,
        scalar_at(buf, pos, closed) == StepSpec::Done(
            RespSpec::Bulk(s),
            pos + bulk_bytes(s).len(),
        ),
{
    let n = byte_len(s);
    let d = dec_bytes(n);
    let body = encode_utf8(s);
    let bb = bulk_bytes(s);
    lemma_dec_bytes(n);
    assert(bb =~= seq![36u8] + (d + crlf_bytes()) + body + crlf_bytes());
    let total = bb.len() as int;
    assert(bb[0] == 36u8);
    assert(buf.subrange(pos, pos + total)[0] == buf[pos]);
    // the length line
    let lp = pos + 1;
    assert(buf.subrange(lp, lp + d.len() + 2) =~= d + crlf_bytes()) by {
        assert forall|k: int| 0 <= k < d.len() + 2 implies buf.subrange(lp, lp + d.len() + 2)[k]
            == (d + crlf_bytes())[k] by {
            assert(buf.subrange(pos, pos + total)[1 + k] == buf[lp + k]);
            assert(bb[1 + k] == (d + crlf_bytes())[k]);
        }
    }
    lemma_line(buf, lp, d, closed);
    let next = lp + d.len() + 2;
    assert(next + n + 2 == pos + total);
    // the body and its terminator
    assert(buf.subrange(next, next + n) =~= body) by {
        assert forall|k: int| 0 <= k < n implies buf.subrange(next, next + n)[k] == body[k] by {
            assert(buf.subrange(pos, pos + total)[next - pos + k] == buf[next + k]);
            assert(bb[next - pos + k] == body[k]);
        }
    }
    assert(buf.subrange(pos, pos + total)[total - 2] == buf[next + n]);
    assert(buf.subrange(pos, pos + total)[total - 1] == buf[next + n + 1]);
    assert(bb[total - 2] == 13u8);
    assert(bb[total - 1] == 10u8);
    vstd::utf8::encode_utf8_valid_utf8(s);
    vstd::utf8::encode_utf8_decode_utf8(s);
    assert(line_str(body) == Ok::<Seq<char>, Seq<char>>(s));
    assert(bulk_after(buf, d, next) == StepSpec::Done(RespSpec::Bulk(s), next + n + 2));
}

pub open spec fn bulk_items(args: Seq<Seq<char>>) -> Seq<RespSpec> {
    args.map_values(|a: Seq<char>| RespSpec::Bulk(a))
}

pub open spec fn args_fit(args: Seq<Seq<char>>) -> bool {
    forall|i: int|
        0 <= i < args.len() ==> #[trigger] byte_len(args[i]) <= i64::MAX && byte_len(args[i])
            <= usize::MAX
}

proof fn lemma_encode_args_first(args: Seq<Seq<char>>)
    requires
        args.len() > 0,
    ensures
        encode_args(args) == bulk_bytes(args[0]) + encode_args(args.drop_first()),
    decreases args.len(),
{
    if args.len() == 1 {
        assert(args.drop_last() =~= Seq::<Seq<char>>::empty());
        assert(args.drop_first() =~= Seq::<Seq<char>>::empty());
        assert(encode_args(args) =~= bulk_bytes(args[0]) + encode_args(args.drop_first()));
    } else {
        lemma_encode_args_first(args.drop_last());
        assert(args.drop_last().drop_first() =~= args.drop_first().drop_last());
        assert(args.drop_first().last() == args.last());
        assert(encode_args(args) =~= bulk_bytes(args[0]) + encode_args(args.drop_first()));
    }
}

proof fn lemma_items(buf: Seq<u8>, pos: int, args: Seq<Seq<char>>, closed: bool)
    requires
        0 <= pos,
        pos + encode_args(args).len() <= buf.len(),
        buf.subrange(pos, pos + encode_args(args).len()) == encode_args(args),
        args_fit(args),
    ensures
        items_at(buf, pos, args.len(), closed) == ItemsSpec::Done(
            bulk_items(args),
            pos + encode_args(args).len(),
        ),
    decreases args.len(),
{
    if args.len() == 0 {
        assert(bulk_items(args) =~= Seq::<RespSpec>::empty());
    } else {
        let a = args[0];
        let tail = args.drop_first();
        lemma_encode_args_first(args);
        let ea = encode_args(args);
        let b = bulk_bytes(a);
        let et = encode_args(tail);
        assert(ea == b + et);
        assert(byte_len(args[0]) <= i64::MAX);
        assert(buf.subrange(pos, pos + b.len()) =~= b) by {
            assert forall|k: int| 0 <= k < b.len() implies buf.subrange(pos, pos + b.len())[k]
                == b[k] by {
                assert(buf.subrange(pos, pos + ea.len())[k] == buf[pos + k]);
                assert(ea[k] == b[k]);
            }
        }
        lemma_bulk(buf, pos, a, closed);
        let next = pos + b.len();
        assert(buf.subrange(next, next + et.len()) =~= et) by {
            assert forall|k: int| 0 <= k < et.len() implies buf.subrange(next, next + et.len())[k]
                == et[k] by {
                assert(buf.subrange(pos, pos + ea.len())[b.len() + k] == buf[next + k]);
                assert(ea[b.len() + k] == et[k]);
            }
        }
        assert forall|i: int| 0 <= i < tail.len() implies #[trigger] byte_len(tail[i])
            <= i64::MAX && byte_len(tail[i]) <= usize::MAX by {
            assert(tail[i] == args[i + 1]);
        }
        lemma_items(buf, next, tail, closed);
        assert(bulk_items(args) =~= seq![RespSpec::Bulk(a)] + bulk_items(tail));
    }
}

/// Whatever bytes follow it, a command encoded by `encode_command` is read by
/// `read_request` as one frame that spans exactly its bytes: an array of bulk strings
/// holding the same arguments.
pub proof fn law_command_frame_roundtrip(args: Seq<Seq<char>>, rest: Seq<u8>, closed: bool)
    requires
        args.len() <= i64::MAX,
        args.len() <= usize::MAX,
        args_fit(args),
    ensures
        request_spec(encode_command_spec(args) + rest, closed) == StepSpec::Done(
            RespSpec::Array(bulk_items(args)),
            encode_command_spec(args).len() as int,
        ),
{
    let e = encode_command_spec(args);
    let buf = e + rest;
    let d = dec_bytes(args.len());
    let ea = encode_args(args);
    lemma_dec_bytes(args.len());
    assert(e =~= seq![42u8] + (d + crlf_bytes()) + ea);
    assert(buf[0] == 42u8);
    assert(buf.subrange(1, 1int + d.len() + 2) =~= d + crlf_bytes()) by {
        assert forall|k: int| 0 <= k < d.len() + 2 implies buf.subrange(1, 1int + d.len() + 2)[k]
            == (d + crlf_bytes())[k] by {
            assert(buf[1 + k] == e[1 + k]);
        }
    }
    lemma_line(buf, 1, d, closed);
    let next: int = 1int + d.len() + 2;
    assert(buf.subrange(next, next + ea.len()) =~= ea) by {
        assert forall|k: int| 0 <= k < ea.len() implies buf.subrange(next, next + ea.len())[k]
            == ea[k] by {
            assert(buf[next + k] == e[next + k]);
        }
    }
    lemma_items(buf, next, args, closed);
}

/// A frame that holds the arguments of a command as bulk strings gives the command
/// that the arguments name.
pub proof fn law_command_from_bulk_args(args: Seq<Seq<char>>)
    requires
        args.len() > 0,
    ensures
        command_from_spec(RespSpec::Array(bulk_items(args))) == parse_args_spec(args),
{
    let items = bulk_items(args);
    assert(forall|i: int| 0 <= i < items.len() ==> #[trigger] items[i] is Bulk);
    assert(items.map_values(|x: RespSpec| x->Bulk_0) =~= args);
}

proof fn lemma_dec_nat_bytes(n: nat)
    ensures
        dec_bytes(n) == encode_utf8(dec_nat(n)),
{
    lemma_dec_nat(n);
    vstd::utf8::is_ascii_chars_encode_utf8(dec_nat(n));
    assert(dec_bytes(n) =~= encode_utf8(dec_nat(n)));
}

/// The bytes of a type character, a text and `\r\n`.
proof fn lemma_head_bytes(p: char, t: Seq<char>)
    requires
        '\0' <= p <= '\u{7f}',
    ensures
        encode_utf8(seq![p] + t + crlf()) == seq![p as u8] + encode_utf8(t) + crlf_bytes(),
{
    lemma_encode_utf8_concat(seq![p] + t, crlf());
    lemma_encode_utf8_concat(seq![p], t);
    vstd::utf8::is_ascii_chars_encode_utf8(seq![p]);
    assert(encode_utf8(seq![p]) =~= seq![p as u8]);
    vstd::utf8::is_ascii_chars_encode_utf8(crlf());
    assert(encode_utf8(crlf()) =~= crlf_bytes());
}

proof fn lemma_bulk_is_reply(a: Seq<char>)
    ensures
        bulk_bytes(a) == encode_utf8(encode_spec(RespSpec::Bulk(a))),
{
    let d = dec_nat(byte_len(a));
    let head = seq!['$'] + d + crlf();
    assert(encode_spec(RespSpec::Bulk(a)) =~= head + (a + crlf()));
    lemma_encode_utf8_concat(head, a + crlf());
    lemma_encode_utf8_concat(a, crlf());
    lemma_head_bytes('$', d);
    lemma_dec_nat_bytes(byte_len(a));
    vstd::utf8::is_ascii_chars_encode_utf8(crlf());
    assert(encode_utf8(crlf()) =~= crlf_bytes());
    assert(bulk_bytes(a) =~= encode_utf8(encode_spec(RespSpec::Bulk(a))));
}

proof fn lemma_args_are_items(args: Seq<Seq<char>>)
    ensures
        encode_args(args) == encode_utf8(encode_items(bulk_items(args))),
    decreases args.len(),
{
    let items = bulk_items(args);
    if args.len() == 0 {
        assert(items =~= Seq::<RespSpec>::empty());
        assert(encode_items(items) =~= Seq::<char>::empty());
        assert(encode_args(args) =~= encode_utf8(encode_items(items)));
    } else {
        lemma_args_are_items(args.drop_last());
        assert(items.drop_last() =~= bulk_items(args.drop_last()));
        assert(items.last() == RespSpec::Bulk(args.last()));
        lemma_encode_utf8_concat(encode_items(items.drop_last()), encode_spec(items.last()));
        lemma_bulk_is_reply(args.last());
    }
}

/// The bytes of a command are those of the reply encoding of the array of its
/// arguments as bulk strings: `*`, the count, `\r\n`, then for each argument `$`, its
/// length in bytes, `\r\n`, the argument and `\r\n`.
pub proof fn law_encode_command_is_array_of_bulks(args: Seq<Seq<char>>)
    ensures
        encode_command_spec(args) == encode_utf8(encode_spec(RespSpec::Array(bulk_items(args)))),
{
    let items = bulk_items(args);
    let d = dec_nat(items.len());
    let head = seq!['*'] + d + crlf();
    assert(encode_spec(RespSpec::Array(items)) == head + encode_items(items));
    lemma_encode_utf8_concat(head, encode_items(items));
    lemma_head_bytes('*', d);
    lemma_dec_nat_bytes(args.len());
    lemma_args_are_items(args);
    assert(encode_command_spec(args) =~= encode_utf8(encode_spec(RespSpec::Array(items))));
}

} // verus!
