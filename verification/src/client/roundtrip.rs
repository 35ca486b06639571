//! What the client reads back of what the server writes: the bytes of a reply,
//! encoded by `encode_resp_value`, parse as the same reply.
use vstd::prelude::*;
use vstd::utf8::*;

use crate::client::frame::{
    array_len_spec, cli_frame, cli_int, cli_items, cli_line, cli_value, consume_spec,
    lemma_consume_wf, pop_zeros, scan_spec, stack_wf, trim_crlf_end, CliErrorKind, MAX_ARRAY_LEN,
};
use crate::client::frame::lemma_find_lf_bounds;
use crate::protocol::reader::find_lf;
use crate::protocol::roundtrip::{lemma_dec_nat, lemma_find_lf};
use crate::protocol::text::{byte_len, crlf, crlf_bytes, encode_items, encode_spec};
use crate::protocol::RespSpec;
use crate::strutil::{all_digits, dec_int, dec_nat, digits_value, is_digit_char, parse_i64_spec};

verus! {

/// A reply as the client reads it: the text of an error carries the `ERR ` prefix
/// with which the server writes it.
pub open spec fn as_read(v: RespSpec) -> RespSpec
    decreases v,
{
    match v {
        RespSpec::Error(s) => RespSpec::Error(seq!['E', 'R', 'R', ' '] + s),
        RespSpec::Array(items) => RespSpec::Array(as_read_items(items)),
        _ => v,
    }
}

pub open spec fn as_read_items(items: Seq<RespSpec>) -> Seq<RespSpec>
    decreases items,
{
    if items.len() == 0 {
        seq![]
    } else {
        seq![as_read(items[0])] + as_read_items(items.drop_first())
    }
}

/// A reply that the client can read back: simple and error texts hold no `\n`, a bulk
/// string's length fits in `i64`, and an array holds at most [`MAX_ARRAY_LEN`] items,
/// each readable.
pub open spec fn readable(v: RespSpec) -> bool
    decreases v,
{
    match v {
        RespSpec::Simple(s) => !s.contains('\n'),
        RespSpec::Error(s) => !s.contains('\n'),
        RespSpec::Integer(_) => true,
        RespSpec::Bulk(s) => byte_len(s) <= i64::MAX,
        RespSpec::Array(items) => items.len() <= MAX_ARRAY_LEN && readable_items(items),
        RespSpec::Nil => true,
    }
}

pub open spec fn readable_items(items: Seq<RespSpec>) -> bool
    decreases items,
{
    if items.len() == 0 {
        true
    } else {
        readable(items[0]) && readable_items(items.drop_first())
    }
}

/// The bytes of a reply on the wire.
pub open spec fn wire(v: RespSpec) -> Seq<u8> {
    encode_utf8(encode_spec(v))
}

/// The UTF-8 bytes of two strings one after the other are those of each string.
pub(crate) proof fn lemma_encode_utf8_concat(a: Seq<char>, b: Seq<char>)
    ensures
        encode_utf8(a + b) == encode_utf8(a) + encode_utf8(b),
    decreases a.len(),
{
    if a.len() == 0 {
        assert(a + b =~= b);
        assert(encode_utf8(a) + encode_utf8(b) =~= encode_utf8(b));
    } else {
        lemma_encode_utf8_concat(a.drop_first(), b);
        assert((a + b).drop_first() =~= a.drop_first() + b);
        assert((a + b)[0] == a[0]);
        assert(encode_utf8(a + b) =~= encode_utf8(a) + encode_utf8(b));
    }
}

proof fn lemma_scalar_no_lf(c: char)
    requires
        c != '\n',
    ensures
        forall|k: int| 0 <= k < encode_scalar(c as u32).len() ==> #[trigger] encode_scalar(c as u32)[k] != 10u8,
{
    let u = c as u32;
    assert(u != 10u32);
    assert(forall|x: u8| #[trigger] (0xC0u8 | x) != 10u8) by (bit_vector);
    assert(forall|x: u8| #[trigger] (0xE0u8 | x) != 10u8) by (bit_vector);
    assert(forall|x: u8| #[trigger] (0xF0u8 | x) != 10u8) by (bit_vector);
    assert(forall|x: u8| #[trigger] (0x80u8 | x) != 10u8) by (bit_vector);
    if has_width_1_encoding(u) {
        assert(((u & 0x7F) as u8) != 10u8) by (bit_vector)
            requires
                u <= 0x7F,
                u != 10u32,
        ;
    }
}

/// A string without `\n` has no byte 10 in its UTF-8 bytes.
pub(crate) proof fn lemma_no_lf(s: Seq<char>)
    requires
        !s.contains('\n'),
    ensures
        forall|k: int| 0 <= k < encode_utf8(s).len() ==> #[trigger] encode_utf8(s)[k] != 10u8,
    decreases s.len(),
{
    if s.len() > 0 {
        let t = s.drop_first();
        assert(!t.contains('\n')) by {
            if t.contains('\n') {
                let k = choose|k: int| 0 <= k < t.len() && t[k] == '\n';
                assert(s[k + 1] == '\n');
            }
        }
        lemma_no_lf(t);
        assert(s[0] != '\n');
        lemma_scalar_no_lf(s[0]);
        let e0 = encode_scalar(s[0] as u32);
        assert forall|k: int| 0 <= k < encode_utf8(s).len() implies #[trigger] encode_utf8(s)[k] != 10u8 by {
            if k < e0.len() {
                assert(encode_utf8(s)[k] == e0[k]);
            } else {
                assert(encode_utf8(s)[k] == encode_utf8(t)[k - e0.len()]);
            }
        }
    }
}


proof fn lemma_sub(b: Seq<u8>, pos: int, x: Seq<u8>, a: int, m: int)
    requires
        0 <= pos,
        pos + x.len() <= b.len(),
        b.subrange(pos, pos + x.len()) == x,
        0 <= a,
        0 <= m,
        a + m <= x.len(),
    ensures
        b.subrange(pos + a, pos + a + m) == x.subrange(a, a + m),
{
    assert forall|k: int| 0 <= k < m implies #[trigger] b.subrange(pos + a, pos + a + m)[k] == x.subrange(a, a + m)[k] by {
        assert(b.subrange(pos, pos + x.len())[a + k] == b[pos + a + k]);
    }
    assert(b.subrange(pos + a, pos + a + m) =~= x.subrange(a, a + m));
}

/// A line with content `c` (no byte 10 in it) and then `\r\n`, at `pos`.
proof fn lemma_read_line(b: Seq<u8>, pos: int, c: Seq<u8>)
    requires
        0 <= pos,
        pos + c.len() + 2 <= b.len(),
        b.subrange(pos, pos + c.len() + 2) == c + crlf_bytes(),
        forall|k: int| 0 <= k < c.len() ==> #[trigger] c[k] != 10u8,
    ensures
        cli_line(b, pos) == Ok::<(Seq<u8>, int), (CliErrorKind, Seq<char>)>((c, pos + c.len() + 2)),
{
    let x = c + crlf_bytes();
    let e = pos + c.len();
    assert forall|k: int| pos <= k < e + 1 implies #[trigger] b[k] != 10 by {
        assert(b.subrange(pos, pos + x.len())[k - pos] == b[k]);
        if k < e {
            assert(x[k - pos] == c[k - pos]);
        }
    }
    assert(b.subrange(pos, pos + x.len())[c.len() + 1int] == b[e + 1]);
    assert(b.subrange(pos, pos + x.len())[c.len() as int] == b[e]);
    lemma_find_lf(b, pos, e + 1);
    assert(b.subrange(pos, e) =~= c) by {
        assert forall|k: int| 0 <= k < c.len() implies #[trigger] b.subrange(pos, e)[k] == c[k] by {
            assert(b.subrange(pos, pos + x.len())[k] == b[pos + k]);
        }
    }
}

proof fn lemma_ascii_char(c: char)
    requires
        '\0' <= c <= '\u{7f}',
    ensures
        encode_utf8(seq![c]) == seq![c as u8],
{
    is_ascii_chars_encode_utf8(seq![c]);
    assert(encode_utf8(seq![c]) =~= seq![c as u8]);
}

proof fn lemma_crlf()
    ensures
        encode_utf8(crlf()) == crlf_bytes(),
{
    is_ascii_chars_encode_utf8(crlf());
    assert(encode_utf8(crlf()) =~= crlf_bytes());
}

/// The bytes of a type character, a text and `\r\n`.
proof fn lemma_wire_line(p: char, t: Seq<char>)
    requires
        '\0' <= p <= '\u{7f}',
    ensures
        encode_utf8(seq![p] + t + crlf()) == seq![p as u8] + (encode_utf8(t) + crlf_bytes()),
{
    lemma_encode_utf8_concat(seq![p] + t, crlf());
    lemma_encode_utf8_concat(seq![p], t);
    lemma_ascii_char(p);
    lemma_crlf();
    assert(encode_utf8(seq![p] + t + crlf()) =~= seq![p as u8] + (encode_utf8(t) + crlf_bytes()));
}

proof fn lemma_dec_int(n: i64)
    ensures
        dec_int(n as int).len() >= 1,
        !dec_int(n as int).contains('\n'),
        is_digit_char(dec_int(n as int).last()),
        parse_i64_spec(dec_int(n as int)) == Some(n),
{
    let s = dec_int(n as int);
    if n < 0 {
        let m = (-n) as nat;
        lemma_dec_nat(m);
        let d = dec_nat(m);
        assert(s.drop_first() =~= d);
        assert(s.last() == d.last());
        assert(is_digit_char(d[d.len() - 1]));
        assert(!s.contains('\n')) by {
            if s.contains('\n') {
                let k = choose|k: int| 0 <= k < s.len() && s[k] == '\n';
                if k > 0 {
                    assert(s[k] == d[k - 1]);
                    assert(is_digit_char(d[k - 1]));
                }
            }
        }
    } else {
        lemma_dec_nat(n as nat);
        assert(is_digit_char(s[s.len() - 1]));
        assert(is_digit_char(s[0]));
        assert(!s.contains('\n')) by {
            if s.contains('\n') {
                let k = choose|k: int| 0 <= k < s.len() && s[k] == '\n';
                assert(is_digit_char(s[k]));
            }
        }
    }
}

/// The bytes of a decimal number, which the client reads back as the number.
proof fn lemma_int_line(n: i64)
    ensures
        cli_int(encode_utf8(dec_int(n as int))) == Ok::<i64, (CliErrorKind, Seq<char>)>(n),
        forall|k: int| 0 <= k < encode_utf8(dec_int(n as int)).len() ==> #[trigger] encode_utf8(dec_int(n as int))[k] != 10u8,
{
    let s = dec_int(n as int);
    lemma_dec_int(n);
    encode_utf8_valid_utf8(s);
    encode_utf8_decode_utf8(s);
    lemma_no_lf(s);
    assert(trim_crlf_end(s) == s);
}

proof fn lemma_encode_items_first(items: Seq<RespSpec>)
    requires
        items.len() > 0,
    ensures
        encode_items(items) == encode_spec(items[0]) + encode_items(items.drop_first()),
    decreases items.len(),
{
    if items.len() == 1 {
        assert(items.drop_last() =~= Seq::<RespSpec>::empty());
        assert(items.drop_first() =~= Seq::<RespSpec>::empty());
        assert(encode_items(items) =~= encode_spec(items[0]) + encode_items(items.drop_first()));
    } else {
        lemma_encode_items_first(items.drop_last());
        assert(items.drop_last().drop_first() =~= items.drop_first().drop_last());
        assert(items.drop_first().last() == items.last());
        assert(encode_items(items) =~= encode_spec(items[0]) + encode_items(items.drop_first()));
    }
}

/// A simple or error reply: type byte, text without `\n`, `\r\n`.
proof fn lemma_read_text(b: Seq<u8>, pos: int, p: char, t: Seq<char>)
    requires
        '\0' <= p <= '\u{7f}',
        !t.contains('\n'),
        0 <= pos,
        pos + encode_utf8(seq![p] + t + crlf()).len() <= b.len(),
        b.subrange(pos, pos + encode_utf8(seq![p] + t + crlf()).len()) == encode_utf8(seq![p] + t + crlf()),
    ensures
        b[pos] == p as u8,
        encode_utf8(seq![p] + t + crlf()).len() == 1 + encode_utf8(t).len() + 2,
        cli_line(b, pos + 1) == Ok::<(Seq<u8>, int), (CliErrorKind, Seq<char>)>(
            (encode_utf8(t), pos + 1 + encode_utf8(t).len() + 2),
        ),
        valid_utf8(encode_utf8(t)),
        decode_utf8(encode_utf8(t)) == t,
{
    let w = encode_utf8(seq![p] + t + crlf());
    let c = encode_utf8(t);
    lemma_wire_line(p, t);
    assert(b.subrange(pos, pos + w.len())[0] == b[pos]);
    lemma_no_lf(t);
    lemma_sub(b, pos, w, 1, c.len() + 2int);
    assert(w.subrange(1, 1int + c.len() + 2) =~= c + crlf_bytes());
    lemma_read_line(b, pos + 1, c);
    encode_utf8_valid_utf8(t);
    encode_utf8_decode_utf8(t);
}

/// A length or integer line: type byte, the decimal digits of `n`, `\r\n`.
proof fn lemma_read_int(b: Seq<u8>, pos: int, p: char, n: i64, tail: Seq<u8>)
    requires
        '\0' <= p <= '\u{7f}',
        0 <= pos,
        pos + encode_utf8(seq![p] + dec_int(n as int) + crlf()).len() + tail.len() <= b.len(),
        b.subrange(pos, pos + encode_utf8(seq![p] + dec_int(n as int) + crlf()).len() + tail.len())
            == encode_utf8(seq![p] + dec_int(n as int) + crlf()) + tail,
    ensures
        b[pos] == p as u8,
        encode_utf8(seq![p] + dec_int(n as int) + crlf()).len() == 1 + encode_utf8(dec_int(n as int)).len() + 2,
        cli_line(b, pos + 1) == Ok::<(Seq<u8>, int), (CliErrorKind, Seq<char>)>(
            (
                encode_utf8(dec_int(n as int)),
                pos + encode_utf8(seq![p] + dec_int(n as int) + crlf()).len(),
            ),
        ),
        cli_int(encode_utf8(dec_int(n as int))) == Ok::<i64, (CliErrorKind, Seq<char>)>(n),
        b.subrange(
            pos + encode_utf8(seq![p] + dec_int(n as int) + crlf()).len(),
            pos + encode_utf8(seq![p] + dec_int(n as int) + crlf()).len() + tail.len(),
        ) == tail,
{
    let h = encode_utf8(seq![p] + dec_int(n as int) + crlf());
    let x = h + tail;
    let c = encode_utf8(dec_int(n as int));
    lemma_wire_line(p, dec_int(n as int));
    lemma_int_line(n);
    assert(b.subrange(pos, pos + x.len())[0] == b[pos]);
    lemma_sub(b, pos, x, 1, c.len() + 2int);
    assert(x.subrange(1, 1int + c.len() + 2) =~= c + crlf_bytes());
    lemma_read_line(b, pos + 1, c);
    lemma_sub(b, pos, x, h.len() as int, tail.len() as int);
    assert(x.subrange(h.len() as int, h.len() + tail.len() as int) =~= tail);
}

/// The bytes of a readable reply, wherever they stand, are read as the reply, and the
/// read ends right after them.
proof fn lemma_read_value(b: Seq<u8>, pos: int, v: RespSpec)
    requires
        readable(v),
        0 <= pos,
        pos + wire(v).len() <= b.len(),
        b.subrange(pos, pos + wire(v).len()) == wire(v),
    ensures
        wire(v).len() > 0,
        cli_value(b, pos) == Ok::<(RespSpec, int), (CliErrorKind, Seq<char>)>((as_read(v), pos + wire(v).len())),
    decreases v,
{
    match v {
        RespSpec::Simple(s) => {
            assert(encode_spec(v) == seq!['+'] + s + crlf());
            lemma_read_text(b, pos, '+', s);
        },
        RespSpec::Error(s) => {
            let t = seq!['E', 'R', 'R', ' '] + s;
            assert(encode_spec(v) =~= seq!['-'] + t + crlf());
            assert(!t.contains('\n')) by {
                if t.contains('\n') {
                    let k = choose|k: int| 0 <= k < t.len() && t[k] == '\n';
                    assert(k >= 4);
                    assert(s[k - 4] == '\n');
                }
            }
            lemma_read_text(b, pos, '-', t);
        },
        RespSpec::Integer(n) => {
            assert(encode_spec(v) == seq![':'] + dec_int(n as int) + crlf());
            assert(wire(v) + Seq::<u8>::empty() =~= wire(v));
            lemma_read_int(b, pos, ':', n, Seq::<u8>::empty());
        },
        RespSpec::Bulk(s) => {
            let len = byte_len(s);
            let d = dec_nat(len);
            assert(dec_int(len as int) == d);
            let head = seq!['$'] + d + crlf();
            assert(encode_spec(v) =~= head + (s + crlf()));
            lemma_encode_utf8_concat(head, s + crlf());
            lemma_encode_utf8_concat(s, crlf());
            lemma_crlf();
            let body = encode_utf8(s);
            let tail = body + crlf_bytes();
            assert(wire(v) == encode_utf8(head) + tail);
            lemma_read_int(b, pos, '$', len as i64, tail);
            let n = pos + encode_utf8(head).len();
            lemma_sub(b, n, tail, 0, len as int);
            assert(tail.subrange(0, len as int) =~= body);
            assert(b.subrange(n, n + tail.len())[len as int] == b[n + len]);
            assert(b.subrange(n, n + tail.len())[len + 1int] == b[n + len + 1]);
            encode_utf8_valid_utf8(s);
            encode_utf8_decode_utf8(s);
        },
        RespSpec::Array(items) => {
            let k = items.len();
            let d = dec_nat(k);
            assert(dec_int(k as int) == d);
            let head = seq!['*'] + d + crlf();
            let ie = encode_utf8(encode_items(items));
            assert(encode_spec(v) == head + encode_items(items));
            lemma_encode_utf8_concat(head, encode_items(items));
            lemma_read_int(b, pos, '*', k as i64, ie);
            let n = pos + encode_utf8(head).len();
            assert(array_len_spec(k as i64) == Ok::<Option<usize>, (CliErrorKind, Seq<char>)>(Some(k as usize)));
            lemma_read_items(b, n, items);
        },
        RespSpec::Nil => {
            let t = seq!['-', '1'];
            assert(dec_int(-1) =~= t);
            assert(encode_spec(v) =~= seq!['$'] + dec_int(-1i64 as int) + crlf());
            assert(wire(v) + Seq::<u8>::empty() =~= wire(v));
            lemma_read_int(b, pos, '$', -1i64, Seq::<u8>::empty());
        },
    }
}

proof fn lemma_read_items(b: Seq<u8>, pos: int, items: Seq<RespSpec>)
    requires
        readable_items(items),
        0 <= pos,
        pos + encode_utf8(encode_items(items)).len() <= b.len(),
        b.subrange(pos, pos + encode_utf8(encode_items(items)).len()) == encode_utf8(encode_items(items)),
    ensures
        cli_items(b, pos, items.len()) == Ok::<(Seq<RespSpec>, int), (CliErrorKind, Seq<char>)>(
            (as_read_items(items), pos + encode_utf8(encode_items(items)).len()),
        ),
    decreases items,
{
    if items.len() == 0 {
        assert(encode_items(items) =~= Seq::<char>::empty());
        assert(encode_utf8(encode_items(items)) =~= Seq::<u8>::empty());
    } else {
        let v = items[0];
        let rest = items.drop_first();
        lemma_encode_items_first(items);
        lemma_encode_utf8_concat(encode_spec(v), encode_items(rest));
        let ie = encode_utf8(encode_items(items));
        let wv = wire(v);
        let wr = encode_utf8(encode_items(rest));
        assert(ie == wv + wr);
        lemma_sub(b, pos, ie, 0, wv.len() as int);
        assert(ie.subrange(0, wv.len() as int) =~= wv);
        lemma_read_value(b, pos, v);
        lemma_sub(b, pos, ie, wv.len() as int, wr.len() as int);
        assert(ie.subrange(wv.len() as int, wv.len() + wr.len() as int) =~= wr);
        lemma_read_items(b, pos + wv.len(), rest);
        assert(as_read_items(items) == seq![as_read(v)] + as_read_items(rest));
        assert((items.len() - 1) as nat == rest.len());
    }
}

/// What the server writes of a reply, the client reads back as the same reply (an
/// error's text with the `ERR ` prefix the server puts before it), whatever bytes
/// follow it; and the bytes of a reply alone make a whole frame.
pub proof fn law_reply_roundtrip(v: RespSpec, rest: Seq<u8>)
    requires
        readable(v),
    ensures
        cli_value(wire(v) + rest, 0) == Ok::<(RespSpec, int), (CliErrorKind, Seq<char>)>(
            (as_read(v), wire(v).len() as int),
        ),
        cli_frame(wire(v)) == Ok::<RespSpec, (CliErrorKind, Seq<char>)>(as_read(v)),
{
    let w = wire(v);
    let b = w + rest;
    assert(b.subrange(0, w.len() as int) =~= w);
    lemma_read_value(b, 0, v);
    assert(w.subrange(0, w.len() as int) =~= w);
    lemma_read_value(w, 0, v);
}


// ---------------------------------------------------------------------------
// Where the client finds the end of a reply
// ---------------------------------------------------------------------------

/// Where the reply that starts at `pos` ends as the client finds it with a
/// [`FrameScanner`](crate::client::frame::FrameScanner) whose open arrays are `s`: line
/// by line (each up to and with its `\n`), the body of a bulk string taken by its
/// length, until no array is open. `None` when the bytes run out first or a line is
/// refused.
pub open spec fn scan_from(s: Seq<i64>, b: Seq<u8>, pos: int) -> Option<int>
    decreases b.len() - pos,
{
    if pos < 0 || pos >= b.len() {
        None
    } else {
        match find_lf(b, pos) {
            None => None,
            Some(j) => match scan_spec(s, b.subrange(pos, j + 1)) {
                Err(_) => None,
                Ok((body, s2)) => {
                    let next = j + 1 + match body {
                        Some(n) => n as int,
                        None => 0,
                    };
                    proof {
                        lemma_find_lf_bounds(b, pos);
                    }
                    if next > b.len() {
                        None
                    } else if s2.len() == 0 {
                        Some(next)
                    } else {
                        scan_from(s2, b, next)
                    }
                },
            },
        }
    }
}

/// A line at `pos`: type byte `p`, content `c` without byte 10, `\r\n`.
proof fn lemma_scan_line(b: Seq<u8>, pos: int, p: u8, c: Seq<u8>)
    requires
        p != 10,
        0 <= pos,
        pos + c.len() + 3 <= b.len(),
        b.subrange(pos, pos + c.len() + 3) == seq![p] + (c + crlf_bytes()),
        forall|k: int| 0 <= k < c.len() ==> #[trigger] c[k] != 10u8,
    ensures
        find_lf(b, pos) == Some(pos + c.len() + 2),
        b.subrange(pos, pos + c.len() + 3)[0] == p,
        b.subrange(pos, pos + c.len() + 3).subrange(1, c.len() + 3int) == c + crlf_bytes(),
{
    let x = seq![p] + (c + crlf_bytes());
    let e = pos + c.len() + 2;
    assert forall|k: int| pos <= k < e implies #[trigger] b[k] != 10 by {
        assert(b.subrange(pos, pos + x.len())[k - pos] == b[k]);
        if k > pos && k - pos - 1 < c.len() {
            assert(x[k - pos] == c[k - pos - 1]);
        } else if k > pos {
            assert(x[k - pos] == 13u8);
        }
    }
    assert(b.subrange(pos, pos + x.len())[e - pos] == b[e]);
    lemma_find_lf(b, pos, e);
    assert(x.subrange(1, c.len() + 3int) =~= c + crlf_bytes());
}

/// The length or integer `n` as a scanned line gives it: the digits and `\r\n`.
proof fn lemma_scan_int(n: i64)
    ensures
        cli_int(encode_utf8(dec_int(n as int)) + crlf_bytes()) == Ok::<i64, (CliErrorKind, Seq<char>)>(n),
{
    let d = dec_int(n as int);
    lemma_dec_int(n);
    lemma_encode_utf8_concat(d, crlf());
    lemma_crlf();
    let t = d + crlf();
    encode_utf8_valid_utf8(t);
    encode_utf8_decode_utf8(t);
    assert(t.drop_last() =~= d + seq!['\r']);
    assert((d + seq!['\r']).drop_last() =~= d);
    assert(t.last() == '\n');
    assert((d + seq!['\r']).last() == '\r');
    assert(d.last() == d[d.len() - 1]);
    assert(trim_crlf_end(d) == d);
    assert(trim_crlf_end(d + seq!['\r']) == trim_crlf_end(d));
    assert(trim_crlf_end(t) == trim_crlf_end(d + seq!['\r']));
}

proof fn lemma_pop_zeros_top(t: Seq<i64>)
    requires
        stack_wf(t),
    ensures
        pop_zeros(t) == t,
{
    if t.len() > 0 {
        assert(0 < t[t.len() - 1]);
    }
}

/// A line whose type byte marks a simple string, an error or an integer: it counts
/// as one item.
proof fn lemma_scan_item_line(b: Seq<u8>, pos: int, p: u8, c: Seq<u8>, s: Seq<i64>)
    requires
        p == 43 || p == 45 || p == 58,
        0 <= pos,
        pos + c.len() + 3 <= b.len(),
        b.subrange(pos, pos + c.len() + 3) == seq![p] + (c + crlf_bytes()),
        forall|k: int| 0 <= k < c.len() ==> #[trigger] c[k] != 10u8,
    ensures
        scan_from(s, b, pos) == (if consume_spec(s).len() == 0 {
            Some(pos + c.len() + 3)
        } else {
            scan_from(consume_spec(s), b, pos + c.len() + 3)
        }),
{
    lemma_scan_line(b, pos, p, c);
    let line = b.subrange(pos, pos + c.len() + 3);
    assert(scan_spec(s, line) == Ok::<(Option<u64>, Seq<i64>), (CliErrorKind, Seq<char>)>((None, consume_spec(s))));
}

/// The length line of a bulk string, or of nil (`n` is `-1`), followed by `n` bytes
/// and `\r\n` when `n` is not `-1`: it counts as one item.
proof fn lemma_scan_bulk_line(b: Seq<u8>, pos: int, n: i64, s: Seq<i64>)
    requires
        n >= -1,
        0 <= pos,
        pos + encode_utf8(dec_int(n as int)).len() + 3 + (if n >= 0 { n + 2 } else { 0 }) <= b.len(),
        b.subrange(pos, pos + encode_utf8(dec_int(n as int)).len() + 3) == seq![36u8] + (encode_utf8(
            dec_int(n as int),
        ) + crlf_bytes()),
    ensures
        ({
            let total = encode_utf8(dec_int(n as int)).len() + 3 + (if n >= 0 { n + 2 } else { 0 });
            scan_from(s, b, pos) == (if consume_spec(s).len() == 0 {
                Some(pos + total)
            } else {
                scan_from(consume_spec(s), b, pos + total)
            })
        }),
{
    let c = encode_utf8(dec_int(n as int));
    lemma_int_line(n);
    lemma_scan_int(n);
    lemma_scan_line(b, pos, 36u8, c);
}

/// The length line of an array of `k` items: it counts as one item of the array
/// around it, and opens an array when `k` is not zero.
proof fn lemma_scan_array_line(b: Seq<u8>, pos: int, k: nat, s: Seq<i64>)
    requires
        k <= MAX_ARRAY_LEN,
        0 <= pos,
        pos + encode_utf8(dec_nat(k)).len() + 3 <= b.len(),
        b.subrange(pos, pos + encode_utf8(dec_nat(k)).len() + 3) == seq![42u8] + (encode_utf8(dec_nat(k))
            + crlf_bytes()),
    ensures
        ({
            let next = pos + encode_utf8(dec_nat(k)).len() + 3;
            let s1 = consume_spec(s);
            scan_from(s, b, pos) == (if k > 0 {
                scan_from(s1.push(k as i64), b, next)
            } else if s1.len() == 0 {
                Some(next)
            } else {
                scan_from(s1, b, next)
            })
        }),
{
    let c = encode_utf8(dec_nat(k));
    assert(dec_int(k as int) == dec_nat(k));
    lemma_int_line(k as i64);
    lemma_scan_int(k as i64);
    lemma_scan_line(b, pos, 42u8, c);
    assert(array_len_spec(k as i64) == Ok::<Option<usize>, (CliErrorKind, Seq<char>)>(Some(k as usize)));
}

/// Scanning the bytes of a readable reply takes the scanner from the open arrays `s`
/// to those left once the reply is read, and the scan goes on after the reply's bytes,
/// or stops there when no array is left open.
proof fn lemma_scan_value(b: Seq<u8>, pos: int, v: RespSpec, s: Seq<i64>)
    requires
        readable(v),
        stack_wf(s),
        0 <= pos,
        pos + wire(v).len() <= b.len(),
        b.subrange(pos, pos + wire(v).len()) == wire(v),
    ensures
        scan_from(s, b, pos) == (if consume_spec(s).len() == 0 {
            Some(pos + wire(v).len())
        } else {
            scan_from(consume_spec(s), b, pos + wire(v).len())
        }),
    decreases v,
{
    let w = wire(v);
    match v {
        RespSpec::Simple(t) => {
            lemma_wire_line('+', t);
            lemma_no_lf(t);
            lemma_scan_item_line(b, pos, 43u8, encode_utf8(t), s);
        },
        RespSpec::Error(t0) => {
            let t = seq!['E', 'R', 'R', ' '] + t0;
            assert(encode_spec(v) =~= seq!['-'] + t + crlf());
            assert(!t.contains('\n')) by {
                if t.contains('\n') {
                    let k = choose|k: int| 0 <= k < t.len() && t[k] == '\n';
                    assert(k >= 4);
                    assert(t0[k - 4] == '\n');
                }
            }
            lemma_wire_line('-', t);
            lemma_no_lf(t);
            lemma_scan_item_line(b, pos, 45u8, encode_utf8(t), s);
        },
        RespSpec::Integer(n) => {
            assert(encode_spec(v) == seq![':'] + dec_int(n as int) + crlf());
            lemma_wire_line(':', dec_int(n as int));
            lemma_int_line(n);
            lemma_scan_item_line(b, pos, 58u8, encode_utf8(dec_int(n as int)), s);
        },
        RespSpec::Bulk(t) => {
            let len = byte_len(t);
            let d = dec_nat(len);
            assert(dec_int(len as int) == d);
            let head = seq!['$'] + d + crlf();
            assert(encode_spec(v) =~= head + (t + crlf()));
            lemma_encode_utf8_concat(head, t + crlf());
            lemma_encode_utf8_concat(t, crlf());
            lemma_crlf();
            lemma_wire_line('$', d);
            let hb = encode_utf8(head);
            assert(w == hb + (encode_utf8(t) + crlf_bytes()));
            lemma_sub(b, pos, w, 0, hb.len() as int);
            assert(w.subrange(0, hb.len() as int) =~= hb);
            lemma_scan_bulk_line(b, pos, len as i64, s);
        },
        RespSpec::Array(items) => {
            let k = items.len();
            let d = dec_nat(k);
            let head = seq!['*'] + d + crlf();
            let ie = encode_utf8(encode_items(items));
            assert(encode_spec(v) == head + encode_items(items));
            lemma_encode_utf8_concat(head, encode_items(items));
            lemma_wire_line('*', d);
            let hb = encode_utf8(head);
            assert(w == hb + ie);
            lemma_sub(b, pos, w, 0, hb.len() as int);
            assert(w.subrange(0, hb.len() as int) =~= hb);
            lemma_scan_array_line(b, pos, k, s);
            lemma_consume_wf(s);
            let s1 = consume_spec(s);
            let p1 = pos + hb.len();
            if k > 0 {
                lemma_sub(b, pos, w, hb.len() as int, ie.len() as int);
                assert(w.subrange(hb.len() as int, hb.len() + ie.len() as int) =~= ie);
                lemma_scan_items(b, p1, items, s1);
            } else {
                assert(encode_items(items) =~= Seq::<char>::empty());
                assert(ie =~= Seq::<u8>::empty());
            }
        },
        RespSpec::Nil => {
            let t = seq!['-', '1'];
            assert(dec_int(-1) =~= t);
            assert(encode_spec(v) =~= seq!['$'] + dec_int(-1i64 as int) + crlf());
            lemma_wire_line('$', dec_int(-1i64 as int));
            lemma_scan_bulk_line(b, pos, -1i64, s);
        },
    }
}

/// Scanning the items of an array whose count has just been pushed on the open
/// arrays `t`.
proof fn lemma_scan_items(b: Seq<u8>, pos: int, items: Seq<RespSpec>, t: Seq<i64>)
    requires
        readable_items(items),
        0 < items.len() <= MAX_ARRAY_LEN,
        stack_wf(t),
        0 <= pos,
        pos + encode_utf8(encode_items(items)).len() <= b.len(),
        b.subrange(pos, pos + encode_utf8(encode_items(items)).len()) == encode_utf8(encode_items(items)),
    ensures
        scan_from(t.push(items.len() as i64), b, pos) == (if t.len() == 0 {
            Some(pos + encode_utf8(encode_items(items)).len())
        } else {
            scan_from(t, b, pos + encode_utf8(encode_items(items)).len())
        }),
    decreases items,
{
    let k = items.len();
    let v = items[0];
    let rest = items.drop_first();
    lemma_encode_items_first(items);
    lemma_encode_utf8_concat(encode_spec(v), encode_items(rest));
    let ie = encode_utf8(encode_items(items));
    let wv = wire(v);
    let wr = encode_utf8(encode_items(rest));
    assert(ie == wv + wr);
    lemma_sub(b, pos, ie, 0, wv.len() as int);
    assert(ie.subrange(0, wv.len() as int) =~= wv);
    let st = t.push(k as i64);
    assert(stack_wf(st)) by {
        assert forall|i: int| 0 <= i < st.len() implies 0 < #[trigger] st[i] <= MAX_ARRAY_LEN by {
            if i < t.len() {
                assert(st[i] == t[i]);
            }
        }
    }
    lemma_scan_value(b, pos, v, st);
    assert(st.update(st.len() - 1, (st.last() - 1) as i64) =~= t.push((k - 1) as i64));
    if k == 1 {
        assert(rest =~= Seq::<RespSpec>::empty());
        assert(encode_items(rest) =~= Seq::<char>::empty());
        assert(wr =~= Seq::<u8>::empty());
        assert(t.push(0i64).drop_last() =~= t);
        lemma_pop_zeros_top(t);
        assert(consume_spec(st) == t);
    } else {
        assert(consume_spec(st) == t.push((k - 1) as i64));
        lemma_sub(b, pos, ie, wv.len() as int, wr.len() as int);
        assert(ie.subrange(wv.len() as int, wv.len() + wr.len() as int) =~= wr);
        lemma_scan_items(b, pos + wv.len(), rest, t);
    }
}

/// Reading a reply line by line, as the client does, ends right after the bytes that
/// the server wrote for it, whatever bytes follow them.
pub proof fn law_scan_finds_reply_end(v: RespSpec, rest: Seq<u8>)
    requires
        readable(v),
    ensures
        scan_from(Seq::<i64>::empty(), wire(v) + rest, 0) == Some(wire(v).len() as int),
{
    let w = wire(v);
    let b = w + rest;
    assert(b.subrange(0, w.len() as int) =~= w);
    lemma_scan_value(b, 0, v, Seq::<i64>::empty());
}

} // verus!
