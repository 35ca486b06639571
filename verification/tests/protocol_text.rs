use redis_app::protocol::reader::{read_request, FrameRead};
use redis_app::protocol::text::{
    command_from_resp_value, encode_command, encode_resp_value, parse_command,
    parse_command_args, split_args,
};
use redis_app::protocol::{Command, NormalCommand, ProtocolError, RespValue, SessionCommand};

const LINE_ENDING: &str = "\r\n";

fn strings(args: &[&str]) -> Vec<String> {
    args.iter().map(|arg| (*arg).to_string()).collect()
}

/// Reads one frame out of bytes that are all there is (the peer has closed).
fn read_frame(bytes: &[u8]) -> Result<RespValue, ProtocolError> {
    match read_request(bytes, true) {
        FrameRead::Frame(v, _) => Ok(v),
        FrameRead::Invalid(e) => Err(e),
        FrameRead::Incomplete => Err(ProtocolError::InvalidFrame("incomplete".to_string())),
    }
}

#[test]
fn split_plain() {
    assert_eq!(split_args("SET foo bar").unwrap(), ["SET", "foo", "bar"]);
}

#[test]
fn split_quoted() {
    assert_eq!(
        split_args(r#"ECHO "hello world""#).unwrap(),
        ["ECHO", "hello world"]
    );
}

#[test]
fn text_split_escaped_quote() {
    assert_eq!(
        split_args(r#"ECHO "say \"hi\"""#).unwrap(),
        ["ECHO", r#"say "hi""#]
    );
}

#[test]
fn unterminated_string() {
    assert!(split_args(r#"ECHO "oops"#).is_err());
}

#[test]
fn parse_ping_bare() {
    assert!(matches!(
        parse_command("PING"),
        Ok(Command::Normal(NormalCommand::Ping(None)))
    ));
}

#[test]
fn parse_ping_msg() {
    assert!(matches!(
        parse_command("PING hello"),
        Ok(Command::Normal(NormalCommand::Ping(Some(_))))
    ));
}

#[test]
fn parse_echo() {
    assert!(matches!(
        parse_command("ECHO hi"),
        Ok(Command::Normal(NormalCommand::Echo(_)))
    ));
}

#[test]
fn parse_args_ping_bare() {
    assert!(matches!(
        parse_command_args(strings(&["PING"])),
        Ok(Command::Normal(NormalCommand::Ping(None)))
    ));
}

#[test]
fn parse_args_lowercase_command() {
    assert!(matches!(
        parse_command_args(strings(&["get", "foo"])),
        Ok(Command::Normal(NormalCommand::Get { key })) if key == "foo"
    ));
}

#[test]
fn parse_args_set_preserves_value_case() {
    assert!(matches!(
        parse_command_args(strings(&["set", "foo", "Bar"])),
        Ok(Command::Normal(NormalCommand::SetValue { key, value })) if key == "foo" && value == "Bar"
    ));
}

#[test]
fn parse_args_subscribe_multiple_channels() {
    match parse_command_args(strings(&["SUBSCRIBE", "news", "alerts"])).unwrap() {
        Command::Session(SessionCommand::Subscribe { channels }) => {
            assert_eq!(channels, ["news", "alerts"]);
        }
        other => panic!("expected subscribe command, got {other:?}"),
    }
}

#[test]
fn parse_args_auth() {
    assert!(matches!(
        parse_command_args(strings(&["AUTH", "secret"])),
        Ok(Command::Auth { password }) if password == "secret"
    ));
}

#[test]
fn parse_args_wrong_arity_is_unknown_command() {
    assert!(matches!(
        parse_command_args(strings(&["SET", "foo"])),
        Err(ProtocolError::UnknownCommand(cmd)) if cmd == "SET"
    ));
}

#[test]
fn parse_args_invalid_expire_seconds() {
    assert!(matches!(
        parse_command_args(strings(&["EXPIRE", "foo", "soon"])),
        Err(ProtocolError::InvalidArgument(_))
    ));
}

#[test]
fn encode_simple() {
    assert_eq!(
        encode_resp_value(&RespValue::Simple("OK".into())),
        format!("+OK{}", LINE_ENDING)
    );
}

#[test]
fn encode_error() {
    assert_eq!(
        encode_resp_value(&RespValue::Error("bad".into())),
        format!("-ERR bad{}", LINE_ENDING)
    );
}

#[test]
fn encode_bulk() {
    assert_eq!(
        encode_resp_value(&RespValue::Bulk("hello".into())),
        format!("$5{0}hello{0}", LINE_ENDING)
    );
}

#[test]
fn encode_array_of_bulk_strings() {
    assert_eq!(
        encode_resp_value(&RespValue::Array(vec![
            RespValue::Bulk("message".into()),
            RespValue::Bulk("news".into()),
            RespValue::Bulk("hello".into()),
        ])),
        format!("*3{0}$7{0}message{0}$4{0}news{0}$5{0}hello{0}", LINE_ENDING)
    );
}

#[test]
fn encode_command_single_argument() {
    assert_eq!(encode_command(&strings(&["PING"])), b"*1\r\n$4\r\nPING\r\n");
}

#[test]
fn encode_command_multiple_arguments() {
    assert_eq!(
        encode_command(&strings(&["SET", "foo", "bar"])),
        b"*3\r\n$3\r\nSET\r\n$3\r\nfoo\r\n$3\r\nbar\r\n"
    );
}

#[test]
fn encode_command_preserves_spaces_inside_argument() {
    assert_eq!(
        encode_command(&strings(&["SET", "message", "hello world"])),
        b"*3\r\n$3\r\nSET\r\n$7\r\nmessage\r\n$11\r\nhello world\r\n"
    );
}

#[test]
fn text_read_simple_string_frame() {
    let value = read_frame(b"+OK\r\n").unwrap();
    assert!(matches!(value, RespValue::Simple(s) if s == "OK"));
}

#[test]
fn read_integer_frame() {
    let value = read_frame(b":42\r\n").unwrap();
    assert!(matches!(value, RespValue::Integer(42)));
}

#[test]
fn text_read_bulk_string_frame() {
    let value = read_frame(b"$5\r\nhello\r\n").unwrap();
    assert!(matches!(value, RespValue::Bulk(s) if s == "hello"));
}

#[test]
fn read_nil_bulk_string_frame() {
    let value = read_frame(b"$-1\r\n").unwrap();
    assert!(matches!(value, RespValue::Nil));
}

#[test]
fn read_array_of_bulk_strings_frame() {
    let value = read_frame(b"*2\r\n$3\r\nGET\r\n$3\r\nfoo\r\n").unwrap();

    match value {
        RespValue::Array(items) => {
            assert_eq!(items.len(), 2);
            assert!(matches!(items[0], RespValue::Bulk(ref s) if s == "GET"));
            assert!(matches!(items[1], RespValue::Bulk(ref s) if s == "foo"));
        }
        other => panic!("expected array, got {other:?}"),
    }
}

#[test]
fn read_rejects_nested_array_frame() {
    assert!(matches!(
        read_frame(b"*2\r\n$4\r\nECHO\r\n*1\r\n$2\r\nhi\r\n"),
        Err(ProtocolError::InvalidFrame(_))
    ));
}

#[test]
fn read_rejects_invalid_length() {
    assert!(matches!(
        read_frame(b"$x\r\n"),
        Err(ProtocolError::InvalidFrame(_))
    ));
}

#[test]
fn read_rejects_invalid_line_ending() {
    assert!(matches!(
        read_frame(b"+OK\n"),
        Err(ProtocolError::InvalidFrame(_))
    ));
}

#[test]
fn read_rejects_invalid_bulk_terminator() {
    assert!(matches!(
        read_frame(b"$3\r\nfooXX"),
        Err(ProtocolError::InvalidFrame(_))
    ));
}

#[test]
fn read_rejects_unsupported_prefix() {
    assert!(matches!(
        read_frame(b"_\r\n"),
        Err(ProtocolError::InvalidFrame(_))
    ));
}

#[test]
fn read_rejects_null_array() {
    assert!(matches!(
        read_frame(b"*-1\r\n"),
        Err(ProtocolError::InvalidFrame(_))
    ));
}

#[test]
fn command_from_resp_ping() {
    assert!(matches!(
        command_from_resp_value(RespValue::Array(vec![RespValue::Bulk("PING".into())])),
        Ok(Command::Normal(NormalCommand::Ping(None)))
    ));
}

#[test]
fn command_from_resp_set() {
    assert!(matches!(
        command_from_resp_value(RespValue::Array(vec![
            RespValue::Bulk("SET".into()),
            RespValue::Bulk("foo".into()),
            RespValue::Bulk("bar".into()),
        ])),
        Ok(Command::Normal(NormalCommand::SetValue { key, value })) if key == "foo" && value == "bar"
    ));
}

#[test]
fn command_from_resp_rejects_empty_array() {
    assert!(matches!(
        command_from_resp_value(RespValue::Array(vec![])),
        Err(ProtocolError::EmptyCommand)
    ));
}

#[test]
fn command_from_resp_rejects_top_level_bulk() {
    assert!(matches!(
        command_from_resp_value(RespValue::Bulk("PING".into())),
        Err(ProtocolError::InvalidFrame(_))
    ));
}

#[test]
fn command_from_resp_rejects_nested_array_argument() {
    assert!(matches!(
        command_from_resp_value(RespValue::Array(vec![
            RespValue::Bulk("ECHO".into()),
            RespValue::Array(vec![RespValue::Bulk("hi".into())]),
        ])),
        Err(ProtocolError::InvalidFrame(_))
    ));
}

#[test]
fn command_from_resp_rejects_nil_argument() {
    assert!(matches!(
        command_from_resp_value(RespValue::Array(vec![
            RespValue::Bulk("ECHO".into()),
            RespValue::Nil,
        ])),
        Err(ProtocolError::InvalidFrame(_))
    ));
}

#[test]
fn command_encodes_single_bulk_argument() {
    assert_eq!(encode_command(&strings(&["PING"])), b"*1\r\n$4\r\nPING\r\n");
}

#[test]
fn command_encodes_multiple_bulk_arguments() {
    assert_eq!(
        encode_command(&strings(&["SET", "foo", "bar"])),
        b"*3\r\n$3\r\nSET\r\n$3\r\nfoo\r\n$3\r\nbar\r\n"
    );
}

#[test]
fn command_preserves_spaces_inside_argument() {
    assert_eq!(
        encode_command(&strings(&["SET", "message", "hello world"])),
        b"*3\r\n$3\r\nSET\r\n$7\r\nmessage\r\n$11\r\nhello world\r\n"
    );
}

#[test]
fn expire_seconds_errors_name_the_reason() {
    let msg = |s: &str| match parse_command_args(strings(&["EXPIRE", "k", s])) {
        Err(ProtocolError::InvalidArgument(m)) => m,
        other => panic!("unexpected {other:?}"),
    };
    assert_eq!(msg("soon"), "invalid digit found in string");
    assert_eq!(msg(""), "cannot parse integer from empty string");
    assert_eq!(msg("18446744073709551616"), "number too large to fit in target type");
    assert!(matches!(
        parse_command_args(strings(&["expire", "k", "+7"])),
        Ok(Command::Normal(NormalCommand::Expire { seconds: 7, .. }))
    ));
}

#[test]
fn error_messages() {
    assert_eq!(ProtocolError::EmptyCommand.to_string(), "empty command");
    assert_eq!(ProtocolError::UnterminatedString.to_string(), "unterminated quoted string");
    assert_eq!(
        ProtocolError::UnknownCommand("BLAH".into()).to_string(),
        "unknown or wrong-arity command 'BLAH'"
    );
    assert_eq!(ProtocolError::InvalidArgument("x".into()).to_string(), "invalid argument: x");
    assert_eq!(ProtocolError::InvalidFrame("y".into()).to_string(), "invalid frame: y");
    assert!(matches!(parse_command("   "), Err(ProtocolError::EmptyCommand)));
    assert!(matches!(parse_command_args(vec![]), Err(ProtocolError::EmptyCommand)));
}

#[test]
fn session_commands_parse() {
    assert!(matches!(
        parse_command("unsubscribe"),
        Ok(Command::Session(SessionCommand::Unsubscribe { channels })) if channels.is_empty()
    ));
    assert!(matches!(parse_command("QUIT"), Ok(Command::Session(SessionCommand::Quit))));
    assert!(matches!(parse_command("reset"), Ok(Command::Session(SessionCommand::Reset))));
    assert!(matches!(
        parse_command("SUBSCRIBE"),
        Err(ProtocolError::UnknownCommand(c)) if c == "SUBSCRIBE"
    ));
    assert!(matches!(
        parse_command("publish news \"hello world\""),
        Ok(Command::Normal(NormalCommand::Publish { channel, message })) if channel == "news" && message == "hello world"
    ));
    assert!(matches!(
        parse_command("del k"),
        Ok(Command::Normal(NormalCommand::Del { key })) if key == "k"
    ));
}

#[test]
fn read_request_waits_for_more_bytes() {
    assert!(matches!(read_request(b"*2\r\n$3\r\nGET\r\n", false), FrameRead::Incomplete));
    assert!(matches!(read_request(b"$5\r\nhel", false), FrameRead::Incomplete));
    assert!(matches!(read_request(b"", false), FrameRead::Incomplete));
    assert!(matches!(read_request(b"*1\r\n$4\r\nPING\r\n*1", false), FrameRead::Frame(_, 14)));
    assert!(matches!(read_request(b"*-2\r\n", true), FrameRead::Invalid(ProtocolError::InvalidFrame(m)) if m == "invalid array length"));
    assert!(matches!(read_request(b"$-3\r\n", true), FrameRead::Invalid(ProtocolError::InvalidFrame(m)) if m == "invalid bulk length"));
}

#[test]
fn encode_command_is_the_array_of_its_bulks() {
    let args = strings(&["SET", "clé", "hello world"]);
    let reply = RespValue::Array(args.iter().cloned().map(RespValue::Bulk).collect());
    assert_eq!(encode_command(&args), encode_resp_value(&reply).into_bytes());
}

#[test]
fn joined_words_split_back() {
    let args = strings(&["SET", "k", "v\\x", "a\"b"]);
    assert_eq!(split_args(&args.join(" ")).unwrap(), args);
    assert!(split_args(" \t\r\n").unwrap().is_empty());
    assert!(matches!(parse_command(" \t "), Err(ProtocolError::EmptyCommand)));
}
