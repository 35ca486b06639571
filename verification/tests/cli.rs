use redis_app::client::format::{format_reply, format_string};
use redis_app::client::frame::{
    checked_array_len, consume_item, parse_i64, parse_resp_frame, parse_resp_value, read_line,
    CliErrorKind, FrameScanner, MAX_ARRAY_LEN,
};
use redis_app::client::{input_args, split_args};
use redis_app::protocol::text::encode_resp_value;
use redis_app::protocol::RespValue;

/// Takes one reply frame off the front of `input`, line by line as the client reads
/// from its socket, and moves `pos` past it.
fn read_frame_at(input: &[u8], pos: &mut usize) -> Vec<u8> {
    let mut scanner = FrameScanner::new();
    let mut out = Vec::new();
    loop {
        let start = *pos;
        let end = input[start..].iter().position(|b| *b == b'\n').unwrap() + start + 1;
        let line = &input[start..end];
        out.extend_from_slice(line);
        *pos = end;
        let step = scanner.scan_line(line).unwrap();
        if let Some(n) = step.body_len {
            let n = n as usize;
            out.extend_from_slice(&input[*pos..*pos + n]);
            *pos += n;
        }
        if step.frame_done {
            return out;
        }
    }
}

fn read_frame_from_bytes(bytes: &[u8]) -> Vec<u8> {
    let mut pos = 0;
    read_frame_at(bytes, &mut pos)
}

#[test]
fn split_plain_command() {
    assert_eq!(split_args("SET foo bar").unwrap(), ["SET", "foo", "bar"]);
}

#[test]
fn split_quoted_argument() {
    assert_eq!(
        split_args(r#"SET msg "hello world""#).unwrap(),
        ["SET", "msg", "hello world"]
    );
}

#[test]
fn split_escaped_quote() {
    assert_eq!(
        split_args(r#"ECHO "say \"hi\"""#).unwrap(),
        ["ECHO", r#"say "hi""#]
    );
}

#[test]
fn split_empty_line() {
    assert!(split_args("   ").unwrap().is_empty());
}

#[test]
fn split_unterminated_quote() {
    assert!(split_args(r#"ECHO "oops"#).is_err());
}

#[test]
fn read_simple_string_frame() {
    let input = b"+PONG\r\n";
    let out = read_frame_from_bytes(input);
    assert_eq!(out, input);
}

#[test]
fn read_bulk_string_frame() {
    let input = b"$5\r\nhello\r\n";
    let out = read_frame_from_bytes(input);
    assert_eq!(out, input);
}

#[test]
fn read_array_then_next_frame() {
    let input = b"*2\r\n$4\r\npong\r\n$2\r\nhi\r\n:1\r\n";
    let mut pos = 0;

    let first_expected = b"*2\r\n$4\r\npong\r\n$2\r\nhi\r\n";
    let second_expected = b":1\r\n";

    let first = read_frame_at(input, &mut pos);
    let second = read_frame_at(input, &mut pos);

    assert_eq!(first, first_expected);
    assert_eq!(second, second_expected);
}

#[test]
fn parse_integer_reply() {
    let input = b":42\r\n";
    let reply = parse_resp_frame(input).unwrap();
    assert!(matches!(reply, RespValue::Integer(42)));
}

#[test]
fn parse_nil_bulk_reply() {
    let input = b"$-1\r\n";
    let reply = parse_resp_frame(input).unwrap();
    assert!(matches!(reply, RespValue::Nil));
}

#[test]
fn parse_array_with_mixed_types() {
    let input = b"*3\r\n$3\r\nfoo\r\n$-1\r\n:7\r\n";
    let reply = parse_resp_frame(input).unwrap();

    match reply {
        RespValue::Array(items) => {
            assert_eq!(items.len(), 3);
            assert!(matches!(items[0], RespValue::Bulk(ref s) if s == "foo"));
            assert!(matches!(items[1], RespValue::Nil));
            assert!(matches!(items[2], RespValue::Integer(7)));
        }
        _ => panic!("expected array reply"),
    }
}

#[test]
fn format_array_output() {
    let reply = RespValue::Array(vec![
        RespValue::Bulk("a".to_string()),
        RespValue::Integer(2),
    ]);
    let out = format_reply(&reply);
    assert_eq!(out, "1) \"a\"\n2) (integer) 2\n");
}

// ---------------------------------------------------------------------------

#[test]
fn input_args_ignores_trailing_newline() {
    assert_eq!(input_args("GET foo\r\n").unwrap(), ["GET", "foo"]);
    assert!(input_args("   \n").unwrap().is_empty());
    assert_eq!(input_args("ECHO \"a").unwrap_err(), "unterminated quoted string");
}

#[test]
fn split_unterminated_quote_message() {
    assert_eq!(split_args("ECHO \"oops").unwrap_err(), "unterminated quoted string");
}

#[test]
fn format_simple_error_and_nil() {
    assert_eq!(format_reply(&RespValue::Simple("OK".into())), "OK\n");
    assert_eq!(format_reply(&RespValue::Error("ERR bad".into())), "(error) ERR bad\n");
    assert_eq!(format_reply(&RespValue::Nil), "(nil)\n");
    assert_eq!(format_reply(&RespValue::Integer(-3)), "(integer) -3\n");
    assert_eq!(format_reply(&RespValue::Bulk("hi".into())), "hi\n");
}

#[test]
fn format_empty_array() {
    assert_eq!(format_reply(&RespValue::Array(vec![])), "(empty array)\n");
}

#[test]
fn format_nested_array_is_indented() {
    let reply = RespValue::Array(vec![
        RespValue::Array(vec![RespValue::Bulk("x".into()), RespValue::Nil]),
        RespValue::Simple("ok".into()),
    ]);
    assert_eq!(format_reply(&reply), "1) 1) \"x\"\n   2) (nil)\n2) \"ok\"\n");
}

#[test]
fn format_string_escapes_quotes_and_backslashes() {
    assert_eq!(format_string("a\"b\\c", true), "\"a\\\"b\\\\c\"");
    assert_eq!(format_string("a\"b", false), "a\"b");
}

#[test]
fn parse_i64_accepts_and_rejects() {
    assert_eq!(parse_i64(b"-17").unwrap(), -17);
    assert_eq!(parse_i64(b"5\r\n").unwrap(), 5);
    let e = parse_i64(b"abc").unwrap_err();
    assert_eq!(e.kind, CliErrorKind::InvalidData);
    assert_eq!(e.message, "invalid length");
    let e = parse_i64(&[0xff]).unwrap_err();
    assert_eq!(e.message, "non-utf8 length");
}

#[test]
fn checked_array_len_limits() {
    assert_eq!(checked_array_len(-1).unwrap(), None);
    assert_eq!(checked_array_len(3).unwrap(), Some(3));
    assert_eq!(checked_array_len(MAX_ARRAY_LEN as i64).unwrap(), Some(MAX_ARRAY_LEN));
    assert_eq!(checked_array_len(-2).unwrap_err().message, "invalid array length");
    assert_eq!(
        checked_array_len(MAX_ARRAY_LEN as i64 + 1).unwrap_err().message,
        "array too large"
    );
}

#[test]
fn consume_item_pops_finished_arrays() {
    let mut remaining = vec![2, 1];
    consume_item(&mut remaining);
    assert_eq!(remaining, vec![2]);
    consume_item(&mut remaining);
    assert_eq!(remaining, vec![1]);
    consume_item(&mut remaining);
    assert!(remaining.is_empty());
    consume_item(&mut remaining);
    assert!(remaining.is_empty());
}

#[test]
fn read_line_moves_past_terminator() {
    let bytes = b"+OK\r\n:1\r\n";
    let mut idx = 1;
    assert_eq!(read_line(bytes, &mut idx).unwrap(), b"OK");
    assert_eq!(idx, 5);
    let mut idx = 0;
    let bad = b"+OK\n";
    assert_eq!(read_line(bad, &mut idx).unwrap_err().message, "invalid line ending");
    assert_eq!(idx, 0);
    let mut idx = 4;
    assert_eq!(read_line(bad, &mut idx).unwrap_err().kind, CliErrorKind::UnexpectedEof);
}

#[test]
fn parse_resp_value_reads_in_sequence() {
    let bytes = b"+a\r\n*-1\r\n-ERR x\r\n";
    let mut idx = 0;
    assert!(matches!(parse_resp_value(bytes, &mut idx).unwrap(), RespValue::Simple(s) if s == "a"));
    assert!(matches!(parse_resp_value(bytes, &mut idx).unwrap(), RespValue::Nil));
    assert!(matches!(parse_resp_value(bytes, &mut idx).unwrap(), RespValue::Error(s) if s == "ERR x"));
    assert_eq!(idx, bytes.len());
}

#[test]
fn parse_resp_frame_errors() {
    assert_eq!(parse_resp_frame(b":1\r\n:2\r\n").unwrap_err().message, "trailing bytes in frame");
    assert_eq!(parse_resp_frame(b"$5\r\nab\r\n").unwrap_err().kind, CliErrorKind::UnexpectedEof);
    assert_eq!(parse_resp_frame(b"$2\r\nabXY").unwrap_err().message, "invalid bulk terminator");
    assert_eq!(parse_resp_frame(b"?x\r\n").unwrap_err().message, "unknown RESP prefix");
    assert_eq!(parse_resp_frame(b"").unwrap_err().kind, CliErrorKind::UnexpectedEof);
    assert_eq!(parse_resp_frame(b"$-5\r\n").unwrap_err().message, "invalid bulk length");
}

#[test]
fn scanner_nested_arrays_and_errors() {
    let mut s = FrameScanner::new();
    assert!(!s.scan_line(b"*2\r\n").unwrap().frame_done);
    assert!(!s.scan_line(b"*1\r\n").unwrap().frame_done);
    assert!(!s.scan_line(b":1\r\n").unwrap().frame_done);
    let step = s.scan_line(b"$3\r\n").unwrap();
    assert_eq!(step.body_len, Some(5));
    assert!(step.frame_done);
    let mut s = FrameScanner::new();
    assert!(s.scan_line(b"*0\r\n").unwrap().frame_done);
    assert!(s.scan_line(b"*-1\r\n").unwrap().frame_done);
    assert_eq!(s.scan_line(b"").unwrap_err().message, "empty frame");
    assert_eq!(s.scan_line(b"!x\r\n").unwrap_err().message, "unknown RESP prefix");
}

#[test]
fn client_reads_back_what_the_server_writes() {
    let reply = RespValue::Array(vec![
        RespValue::Simple("OK".into()),
        RespValue::Error("bad thing".into()),
        RespValue::Integer(i64::MIN),
        RespValue::Bulk("multi\r\nline é".into()),
        RespValue::Nil,
        RespValue::Array(vec![RespValue::Bulk(String::new())]),
    ]);
    let text = encode_resp_value(&reply);
    let back = parse_resp_frame(text.as_bytes()).unwrap();
    match back {
        RespValue::Array(items) => {
            assert_eq!(items.len(), 6);
            assert!(matches!(&items[0], RespValue::Simple(s) if s == "OK"));
            assert!(matches!(&items[1], RespValue::Error(s) if s == "ERR bad thing"));
            assert!(matches!(items[2], RespValue::Integer(n) if n == i64::MIN));
            assert!(matches!(&items[3], RespValue::Bulk(s) if s == "multi\r\nline é"));
            assert!(matches!(items[4], RespValue::Nil));
            assert!(matches!(&items[5], RespValue::Array(v) if matches!(&v[0], RespValue::Bulk(s) if s.is_empty())));
        }
        other => panic!("expected array, got {other:?}"),
    }
}

#[test]
fn scanner_stops_at_the_end_of_each_reply() {
    let first = RespValue::Array(vec![
        RespValue::Array(vec![RespValue::Integer(1), RespValue::Bulk("a\nb".into())]),
        RespValue::Array(vec![]),
        RespValue::Nil,
        RespValue::Error("x".into()),
    ]);
    let second = RespValue::Simple("OK".into());
    let mut bytes = encode_resp_value(&first).into_bytes();
    let first_len = bytes.len();
    bytes.extend_from_slice(encode_resp_value(&second).as_bytes());
    let mut pos = 0;
    let a = read_frame_at(&bytes, &mut pos);
    assert_eq!(pos, first_len);
    assert_eq!(a, &bytes[..first_len]);
    let b = read_frame_at(&bytes, &mut pos);
    assert_eq!(b, b"+OK\r\n");
    assert_eq!(pos, bytes.len());
}

#[test]
fn parse_resp_value_moves_past_what_it_read_before_a_fault() {
    let mut idx = 0;
    assert!(parse_resp_value(b"$2\r\nabXY", &mut idx).is_err());
    assert_eq!(idx, 6);
    let mut idx = 0;
    assert!(parse_resp_value(b"$3\r\nabXY", &mut idx).is_err());
    assert_eq!(idx, 4);
    let mut idx = 0;
    assert!(parse_resp_value(b"+ok\n", &mut idx).is_err());
    assert_eq!(idx, 1);
    let mut idx = 0;
    assert!(parse_resp_value(b"*2\r\n:1\r\n?x", &mut idx).is_err());
    assert_eq!(idx, 8);
    let mut idx = 0;
    assert!(parse_resp_value(b"?x", &mut idx).is_err());
    assert_eq!(idx, 0);
    let mut idx = 0;
    assert!(parse_resp_value(b":x\r\n", &mut idx).is_err());
    assert_eq!(idx, 4);
}
