//! Rendering a reply for a person: one line per value, arrays numbered, strings in
//! arrays quoted.
use vstd::prelude::*;

use crate::protocol::{resp_items, RespSpec, RespValue};
use crate::strutil::{dec_int, dec_nat, push_char, push_dec_i64, push_dec_u64, push_str};

verus! {

pub open spec fn escape_char(c: char) -> Seq<char> {
    if c == '\\' {
        seq!['\\', '\\']
    } else if c == '"' {
        seq!['\\', '"']
    } else {
        seq![c]
    }
}

/// Backslashes and double quotes with a backslash before them.
pub open spec fn escape(s: Seq<char>) -> Seq<char>
    decreases s.len(),
{
    if s.len() == 0 {
        seq![]
    } else {
        escape(s.drop_last()) + escape_char(s.last())
    }
}

/// A string as it is shown: as it is at the top, quoted and escaped inside an array.
pub open spec fn format_string_spec(s: Seq<char>, in_array: bool) -> Seq<char> {
    if !in_array {
        s
    } else {
        seq!['"'] + escape(s) + seq!['"']
    }
}

pub open spec fn spaces(n: nat) -> Seq<char> {
    Seq::new(n, |i: int| ' ')
}

/// The lines of the item at `idx` of an array: its number, then the item's lines,
/// those after the first lined up under the first.
pub open spec fn item_block(idx: int, lines: Seq<Seq<char>>) -> Seq<Seq<char>> {
    let prefix = dec_nat((idx + 1) as nat) + seq![')', ' '];
    if lines.len() == 0 {
        seq![dec_nat((idx + 1) as nat) + seq![')']]
    } else {
        seq![prefix + lines[0]] + lines.skip(1).map_values(|l: Seq<char>| spaces(prefix.len()) + l)
    }
}

/// The lines of a reply.
pub open spec fn reply_lines(v: RespSpec, in_array: bool) -> Seq<Seq<char>>
    decreases v, 0int,
{
    match v {
        RespSpec::Simple(s) => seq![format_string_spec(s, in_array)],
        RespSpec::Error(s) => seq!["(error) "@ + s],
        RespSpec::Integer(n) => seq!["(integer) "@ + dec_int(n as int)],
        RespSpec::Bulk(s) => seq![format_string_spec(s, in_array)],
        RespSpec::Array(items) => array_lines(items),
        RespSpec::Nil => seq!["(nil)"@],
    }
}

/// The lines of an array: `(empty array)`, or its items numbered from 1.
pub open spec fn array_lines(items: Seq<RespSpec>) -> Seq<Seq<char>>
    decreases items, items.len() + 1,
{
    if items.len() == 0 {
        seq!["(empty array)"@]
    } else {
        numbered(items, items.len() as int)
    }
}

/// The lines of the first `k` items of an array.
pub open spec fn numbered(items: Seq<RespSpec>, k: int) -> Seq<Seq<char>>
    decreases items, k,
{
    if k <= 0 || k > items.len() {
        seq![]
    } else {
        numbered(items, k - 1) + item_block(k - 1, reply_lines(items[k - 1], true))
    }
}

/// Lines joined by `\n`.
pub open spec fn join_lines(ls: Seq<Seq<char>>) -> Seq<char>
    decreases ls.len(),
{
    if ls.len() == 0 {
        seq![]
    } else if ls.len() == 1 {
        ls[0]
    } else {
        join_lines(ls.drop_last()) + seq!['\n'] + ls.last()
    }
}

/// The text shown for a reply: its lines, each ended by `\n`.
pub open spec fn format_reply_spec(v: RespSpec) -> Seq<char> {
    join_lines(reply_lines(v, false)) + seq!['\n']
}

pub open spec fn lines_view(v: Seq<String>) -> Seq<Seq<char>> {
    v.map_values(|s: String| s@)
}

/// Quotes and escapes a string shown inside an array.
pub fn format_string(s: &str, in_array: bool) -> (r: String)
    ensures
        r@ == format_string_spec(s@, in_array),
{
    if !in_array {
        return s.to_string();
    }
    let cs = crate::strutil::chars_of(s);
    let mut out = String::new();
    push_char(&mut out, '"');
    let mut i: usize = 0;
    while i < cs.len()
        invariant
            i <= cs@.len(),
            cs@ == s@,
            out@ == seq!['"'] + escape(cs@.take(i as int)),
        decreases cs.len() - i,
    {
        let c = cs[i];
        if c == '\\' {
            push_char(&mut out, '\\');
            push_char(&mut out, '\\');
        } else if c == '"' {
            push_char(&mut out, '\\');
            push_char(&mut out, '"');
        } else {
            push_char(&mut out, c);
        }
        proof {
            assert(cs@.take(i + 1).drop_last() =~= cs@.take(i as int));
            assert(cs@.take(i + 1).last() == c);
            assert(out@ =~= seq!['"'] + escape(cs@.take(i + 1)));
        }
        i += 1;
    }
    push_char(&mut out, '"');
    proof {
        assert(cs@.take(i as int) =~= cs@);
        assert(out@ =~= format_string_spec(s@, in_array));
    }
    out
}

fn one_line(s: String) -> (v: Vec<String>)
    ensures
        lines_view(v@) == seq![s@],
{
    let mut v = Vec::new();
    v.push(s);
    proof {
        assert(lines_view(v@) =~= seq![s@]);
    }
    v
}

fn lit_line(lit: &str, tail: &str) -> (s: String)
    ensures
        s@ == lit@ + tail@,
{
    let mut s = String::new();
    push_str(&mut s, lit);
    push_str(&mut s, tail);
    proof {
        assert(s@ =~= lit@ + tail@);
    }
    s
}

/// The lines of a reply.
pub fn format_reply_lines(reply: &RespValue, in_array: bool) -> (r: Vec<String>)
    ensures
        lines_view(r@) == reply_lines(reply@, in_array),
    decreases reply,
{
    match reply {
        RespValue::Simple(s) => one_line(format_string(s.as_str(), in_array)),
        RespValue::Error(s) => one_line(lit_line("(error) ", s.as_str())),
        RespValue::Integer(n) => {
            let mut t = String::new();
            push_str(&mut t, "(integer) ");
            push_dec_i64(&mut t, *n);
            proof {
                assert(t@ =~= "(integer) "@ + dec_int(*n as int));
            }
            one_line(t)
        },
        RespValue::Bulk(s) => one_line(format_string(s.as_str(), in_array)),
        RespValue::Array(items) => {
            proof {
                assert(decreases_to!(*reply => reply->Array_0));
                assert(decreases_to!(reply->Array_0 => reply->Array_0@));
            }
            format_array_lines(items.as_slice())
        },
        RespValue::Nil => one_line("(nil)".to_string()),
    }
}

/// The lines of an array's items, numbered from 1.
pub fn format_array_lines(items: &[RespValue]) -> (r: Vec<String>)
    ensures
        lines_view(r@) == array_lines(resp_items(items@)),
    decreases items@,
{
    let ghost specs = resp_items(items@);
    if items.len() == 0 {
        return one_line("(empty array)".to_string());
    }
    let mut lines: Vec<String> = Vec::new();
    let mut i: usize = 0;
    proof {
        assert(lines_view(lines@) =~= Seq::<Seq<char>>::empty());
    }
    while i < items.len()
        invariant
            i <= items@.len(),
            items@.len() > 0,
            specs == resp_items(items@),
            lines_view(lines@) == numbered(specs, i as int),
        decreases items.len() - i,
    {
        proof {
            assert(decreases_to!(items@ => items@[i as int]));
        }
        let item_lines = format_reply_lines(&items[i], true);
        let mut prefix = String::new();
        push_dec_u64(&mut prefix, i as u64 + 1);
        push_char(&mut prefix, ')');
        let ghost num = dec_nat((i + 1) as nat);
        let ghost old_lines = lines_view(lines@);
        let ghost il = lines_view(item_lines@);
        proof {
            assert(specs[i as int] == items@[i as int]@);
            assert(il == reply_lines(specs[i as int], true));
        }
        if item_lines.len() == 0 {
            lines.push(prefix);
            proof {
                assert(lines_view(lines@) =~= old_lines + item_block(i as int, il));
            }
        } else {
            push_char(&mut prefix, ' ');
            let plen = prefix.as_str().unicode_len();
            let mut first = prefix.clone();
            push_str(&mut first, item_lines[0].as_str());
            lines.push(first);
            let mut pad = String::new();
            let mut k: usize = 0;
            while k < plen
                invariant
                    k <= plen,
                    pad@ == spaces(k as nat),
                decreases plen - k,
            {
                push_char(&mut pad, ' ');
                k += 1;
                proof {
                    assert(pad@ =~= spaces(k as nat));
                }
            }
            let mut j: usize = 1;
            proof {
                assert(prefix@ == num + seq![')', ' ']);
                assert(lines_view(lines@) =~= old_lines + seq![prefix@ + il[0]]);
                assert(il.skip(1).take(0).map_values(|l: Seq<char>| spaces(prefix@.len()) + l) =~= Seq::<Seq<char>>::empty());
            }
            while j < item_lines.len()
                invariant
                    1 <= j <= item_lines@.len(),
                    il == lines_view(item_lines@),
                    pad@ == spaces(prefix@.len()),
                    lines_view(lines@) == old_lines + seq![prefix@ + il[0]] + il.skip(1).take(j - 1).map_values(|l: Seq<char>| spaces(prefix@.len()) + l),
                decreases item_lines.len() - j,
            {
                let mut t = pad.clone();
                push_str(&mut t, item_lines[j].as_str());
                let ghost before = lines_view(lines@);
                lines.push(t);
                proof {
                    assert(lines_view(lines@) =~= before.push(t@));
                    assert(il.skip(1).take(j as int) =~= il.skip(1).take(j - 1).push(il[j as int]));
                    assert(il.skip(1).take(j as int).map_values(|l: Seq<char>| spaces(prefix@.len()) + l)
                        =~= il.skip(1).take(j - 1).map_values(|l: Seq<char>| spaces(prefix@.len()) + l).push(spaces(prefix@.len()) + il[j as int]));
                }
                j += 1;
            }
            proof {
                assert(il.skip(1).take(j - 1) =~= il.skip(1));
                assert(lines_view(lines@) =~= old_lines + item_block(i as int, il));
            }
        }
        i += 1;
    }
    lines
}

/// The text shown for a reply: its lines, each ended by `\n`.
pub fn format_reply(reply: &RespValue) -> (r: String)
    ensures
        r@ == format_reply_spec(reply@),
{
    let lines = format_reply_lines(reply, false);
    let ghost lv = lines_view(lines@);
    let mut out = String::new();
    let mut i: usize = 0;
    while i < lines.len()
        invariant
            i <= lines@.len(),
            lv == lines_view(lines@),
            out@ == join_lines(lv.take(i as int)),
        decreases lines.len() - i,
    {
        if i > 0 {
            push_char(&mut out, '\n');
        }
        push_str(&mut out, lines[i].as_str());
        proof {
            assert(lv.take(i + 1).drop_last() =~= lv.take(i as int));
            assert(lv.take(i + 1).last() == lines@[i as int]@);
            if i == 0 {
                assert(out@ =~= join_lines(lv.take(1)));
            }
        }
        i += 1;
    }
    push_char(&mut out, '\n');
    proof {
        assert(lv.take(i as int) =~= lv);
    }
    out
}

} // verus!
