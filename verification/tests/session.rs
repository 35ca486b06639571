use redis_app::config::Config;
use redis_app::connection::{encode_resp_values, next_request, ReadOutcome};
use redis_app::protocol::text::{encode_command, encode_resp_value, parse_command};
use redis_app::protocol::{Command, NormalCommand, RespValue};
use redis_app::pubsub::PubSubMessage;
use redis_app::server::Shared;
use redis_app::session::ClientSession;
use redis_app::store::Store;
use tokio::sync::mpsc::{Receiver, UnboundedReceiver};

const LINE_ENDING: &str = "\r\n";

fn simple(s: &str) -> String {
    format!("+{}{}", s, LINE_ENDING)
}

fn integer(n: i64) -> String {
    format!(":{}{}", n, LINE_ENDING)
}

fn bulk(s: &str) -> String {
    format!("${}{}{}{}", s.len(), LINE_ENDING, s, LINE_ENDING)
}

fn nil() -> String {
    format!("$-1{}", LINE_ENDING)
}

fn command(args: &[&str]) -> Vec<u8> {
    let args = args.iter().map(|a| a.to_string()).collect::<Vec<_>>();
    encode_command(&args)
}

fn shared_with(password: Option<&str>) -> Shared {
    let config = Config {
        port: 0,
        host: "127.0.0.1".into(),
        snapshot_path: None,
        flush_interval: 300,
        password: password.map(|p| p.to_string()),
    };
    Shared::new(config, Store::new())
}

/// One client's connection, driven as the server drives it: the bytes received are
/// buffered, each complete request is run, and the replies are written out.
struct Conn {
    session: ClientSession,
    messages: Receiver<PubSubMessage>,
    slow: UnboundedReceiver<()>,
    buf: Vec<u8>,
    out: String,
    closed: bool,
}

impl Conn {
    fn open(shared: &mut Shared) -> Conn {
        let (session, messages, slow) = ClientSession::new(shared);
        Conn { session, messages, slow, buf: Vec::new(), out: String::new(), closed: false }
    }

    fn send(&mut self, shared: &mut Shared, bytes: &[u8]) {
        self.buf.extend_from_slice(bytes);
        while !self.closed {
            match next_request(&self.buf, false) {
                ReadOutcome::Command(cmd, n) => {
                    self.buf.drain(..n);
                    let outcome = self.session.execute(cmd, shared);
                    self.out.push_str(&encode_resp_values(&outcome.replies));
                    if outcome.close_connection {
                        self.closed = true;
                    }
                }
                ReadOutcome::Reply { reply, close_connection, consumed } => {
                    self.buf.drain(..consumed);
                    self.out.push_str(&encode_resp_value(&reply));
                    if close_connection {
                        self.closed = true;
                    }
                }
                ReadOutcome::Wait | ReadOutcome::Stop => break,
            }
        }
    }

    fn cmd(&mut self, shared: &mut Shared, args: &[&str]) -> String {
        self.send(shared, &command(args));
        self.take()
    }

    fn deliver(&mut self) {
        while let Ok(m) = self.messages.try_recv() {
            let reply = ClientSession::pubsub_message_reply(m);
            self.out.push_str(&encode_resp_value(&reply));
        }
    }

    fn take(&mut self) -> String {
        std::mem::take(&mut self.out)
    }
}

// ── authentication ───────────────────────────────────────────────────────────

#[test]
fn ping_allowed_before_auth() {
    let mut shared = shared_with(Some("secret"));
    let mut c = Conn::open(&mut shared);
    assert_eq!(c.cmd(&mut shared, &["PING"]), simple("PONG"));
}

#[test]
fn ping_with_message_allowed_before_auth() {
    let mut shared = shared_with(Some("secret"));
    let mut c = Conn::open(&mut shared);
    assert_eq!(c.cmd(&mut shared, &["PING", "hello"]), bulk("hello"));
}

#[test]
fn command_blocked_before_auth() {
    let mut shared = shared_with(Some("secret"));
    let mut c = Conn::open(&mut shared);
    let reply = c.cmd(&mut shared, &["SET", "foo", "bar"]);
    assert!(reply.contains("NOAUTH"), "expected NOAUTH, got: {reply}");
}

#[test]
fn get_blocked_before_auth() {
    let mut shared = shared_with(Some("secret"));
    let mut c = Conn::open(&mut shared);
    let reply = c.cmd(&mut shared, &["GET", "foo"]);
    assert!(reply.contains("NOAUTH"), "expected NOAUTH, got: {reply}");
}

#[test]
fn wrong_password_rejected() {
    let mut shared = shared_with(Some("secret"));
    let mut c = Conn::open(&mut shared);
    let reply = c.cmd(&mut shared, &["AUTH", "wrongpass"]);
    assert!(reply.starts_with("-ERR"), "expected error, got: {reply}");
    assert!(reply.contains("WRONGPASS"), "expected WRONGPASS, got: {reply}");
}

#[test]
fn wrong_password_does_not_unlock() {
    let mut shared = shared_with(Some("secret"));
    let mut c = Conn::open(&mut shared);
    let _auth_reply = c.cmd(&mut shared, &["AUTH", "wrongpass"]);
    let cmd_reply = c.cmd(&mut shared, &["SET", "foo", "bar"]);
    assert!(cmd_reply.contains("NOAUTH"), "expected NOAUTH after bad AUTH, got: {cmd_reply}");
}

#[test]
fn correct_password_accepted() {
    let mut shared = shared_with(Some("secret"));
    let mut c = Conn::open(&mut shared);
    assert_eq!(c.cmd(&mut shared, &["AUTH", "secret"]), simple("OK"));
}

#[test]
fn commands_work_after_auth() {
    let mut shared = shared_with(Some("secret"));
    let mut c = Conn::open(&mut shared);
    let mut bytes = command(&["AUTH", "secret"]);
    bytes.extend(command(&["SET", "foo", "bar"]));
    bytes.extend(command(&["GET", "foo"]));
    c.send(&mut shared, &bytes);
    assert_eq!(c.take(), format!("{}{}{}", simple("OK"), simple("OK"), bulk("bar")));
}

#[test]
fn auth_on_open_server_returns_error() {
    let mut shared = shared_with(None);
    let mut c = Conn::open(&mut shared);
    let reply = c.cmd(&mut shared, &["AUTH", "anything"]);
    assert!(reply.starts_with("-ERR"), "expected error, got: {reply}");
}

// ── key-value commands ───────────────────────────────────────────────────────

#[test]
fn set_and_get() {
    let mut shared = shared_with(None);
    let mut c = Conn::open(&mut shared);
    assert_eq!(c.cmd(&mut shared, &["SET", "foo", "bar"]), simple("OK"));
    assert_eq!(c.cmd(&mut shared, &["GET", "foo"]), bulk("bar"));
}

#[test]
fn get_missing_key_returns_nil() {
    let mut shared = shared_with(None);
    let mut c = Conn::open(&mut shared);
    assert_eq!(c.cmd(&mut shared, &["GET", "nosuchkey"]), nil());
}

#[test]
fn set_overwrites_existing_value() {
    let mut shared = shared_with(None);
    let mut c = Conn::open(&mut shared);
    c.cmd(&mut shared, &["SET", "k", "first"]);
    c.cmd(&mut shared, &["SET", "k", "second"]);
    assert_eq!(c.cmd(&mut shared, &["GET", "k"]), bulk("second"));
}

#[test]
fn set_value_with_spaces() {
    let mut shared = shared_with(None);
    let mut c = Conn::open(&mut shared);
    c.cmd(&mut shared, &["SET", "msg", "hello world"]);
    assert_eq!(c.cmd(&mut shared, &["GET", "msg"]), bulk("hello world"));
}

#[test]
fn del_existing_key() {
    let mut shared = shared_with(None);
    let mut c = Conn::open(&mut shared);
    c.cmd(&mut shared, &["SET", "k", "v"]);
    assert_eq!(c.cmd(&mut shared, &["DEL", "k"]), integer(1));
    assert_eq!(c.cmd(&mut shared, &["GET", "k"]), nil());
}

#[test]
fn del_missing_key_returns_zero() {
    let mut shared = shared_with(None);
    let mut c = Conn::open(&mut shared);
    assert_eq!(c.cmd(&mut shared, &["DEL", "ghost"]), integer(0));
}

#[test]
fn exists_present_and_missing_key() {
    let mut shared = shared_with(None);
    let mut c = Conn::open(&mut shared);
    c.cmd(&mut shared, &["SET", "k", "v"]);
    assert_eq!(c.cmd(&mut shared, &["EXISTS", "k"]), integer(1));
    assert_eq!(c.cmd(&mut shared, &["EXISTS", "ghost"]), integer(0));
    c.cmd(&mut shared, &["DEL", "k"]);
    assert_eq!(c.cmd(&mut shared, &["EXISTS", "k"]), integer(0));
}

#[test]
fn incr_and_decr() {
    let mut shared = shared_with(None);
    let mut c = Conn::open(&mut shared);
    assert_eq!(c.cmd(&mut shared, &["INCR", "counter"]), integer(1));
    assert_eq!(c.cmd(&mut shared, &["INCR", "counter"]), integer(2));
    assert_eq!(c.cmd(&mut shared, &["INCR", "counter"]), integer(3));
    c.cmd(&mut shared, &["SET", "d", "10"]);
    assert_eq!(c.cmd(&mut shared, &["DECR", "d"]), integer(9));
    assert_eq!(c.cmd(&mut shared, &["DECR", "d"]), integer(8));
    c.cmd(&mut shared, &["SET", "n", "10"]);
    assert_eq!(c.cmd(&mut shared, &["INCR", "n"]), integer(11));
}

#[test]
fn incr_on_non_integer_returns_error() {
    let mut shared = shared_with(None);
    let mut c = Conn::open(&mut shared);
    c.cmd(&mut shared, &["SET", "k", "notanumber"]);
    assert!(c.cmd(&mut shared, &["INCR", "k"]).starts_with("-ERR"));
}

#[test]
fn expire_and_ttl() {
    let mut shared = shared_with(None);
    let mut c = Conn::open(&mut shared);
    c.cmd(&mut shared, &["SET", "session", "abc"]);
    assert_eq!(c.cmd(&mut shared, &["TTL", "session"]), integer(-1));
    assert_eq!(c.cmd(&mut shared, &["EXPIRE", "session", "100"]), integer(1));
    let ttl = c.cmd(&mut shared, &["TTL", "session"]);
    assert!(ttl == integer(100) || ttl == integer(99), "got {ttl}");
    assert_eq!(c.cmd(&mut shared, &["EXPIRE", "ghost", "10"]), integer(0));
    assert_eq!(c.cmd(&mut shared, &["TTL", "ghost"]), integer(-2));
}

// ── inline commands ──────────────────────────────────────────────────────────

#[test]
fn inline_commands() {
    let mut shared = shared_with(None);
    let mut c = Conn::open(&mut shared);
    c.send(&mut shared, b"PING\n");
    assert_eq!(c.take(), simple("PONG"));
    c.send(&mut shared, b"PING hello\n");
    assert_eq!(c.take(), bulk("hello"));
    c.send(&mut shared, b"ECHO \"hello world\"\r\n");
    assert_eq!(c.take(), bulk("hello world"));
    c.send(&mut shared, b"BLAH\n");
    assert!(c.take().starts_with("-ERR"));
    c.send(&mut shared, b"PING\nPING\n");
    assert_eq!(c.take(), format!("{}{}", simple("PONG"), simple("PONG")));
    c.send(&mut shared, b"ECHO ru");
    assert_eq!(c.take(), "");
    c.send(&mut shared, b"st\n");
    assert_eq!(c.take(), bulk("rust"));
}

#[test]
fn invalid_frame_closes_connection() {
    let mut shared = shared_with(None);
    let mut c = Conn::open(&mut shared);
    c.send(&mut shared, b"*1\r\n*1\r\n$4\r\nPING\r\n");
    assert!(c.take().starts_with("-ERR invalid frame"));
    assert!(c.closed);
}

#[test]
fn quit_closes_connection() {
    let mut shared = shared_with(None);
    let mut c = Conn::open(&mut shared);
    assert_eq!(c.cmd(&mut shared, &["QUIT"]), simple("OK"));
    assert!(c.closed);
}

#[test]
fn next_request_stops_when_client_closed() {
    assert!(matches!(next_request(b"*2\r\n$3\r\nGET", true), ReadOutcome::Stop));
    assert!(matches!(next_request(b"*2\r\n$3\r\nGET", false), ReadOutcome::Wait));
    assert!(matches!(next_request(b"", true), ReadOutcome::Stop));
    assert!(matches!(next_request(b"GET", true), ReadOutcome::Stop));
    assert!(matches!(
        next_request(b"*1\r\n$4\r\nPING\r\nextra", false),
        ReadOutcome::Command(_, 14)
    ));
}

// ── publish / subscribe ──────────────────────────────────────────────────────

#[test]
fn subscribe_and_publish_delivers_message() {
    let mut shared = shared_with(None);
    let mut sub = Conn::open(&mut shared);
    let mut publisher = Conn::open(&mut shared);

    let reply = sub.cmd(&mut shared, &["SUBSCRIBE", "news"]);
    assert_eq!(reply, format!("*3{0}{1}{2}{3}", LINE_ENDING, bulk("subscribe"), bulk("news"), integer(1)));

    assert_eq!(publisher.cmd(&mut shared, &["PUBLISH", "news", "hello"]), integer(1));
    sub.deliver();
    assert_eq!(
        sub.take(),
        format!("*3{0}{1}{2}{3}", LINE_ENDING, bulk("message"), bulk("news"), bulk("hello"))
    );
}

#[test]
fn unsubscribe_stops_future_messages() {
    let mut shared = shared_with(None);
    let mut sub = Conn::open(&mut shared);
    let mut publisher = Conn::open(&mut shared);

    sub.cmd(&mut shared, &["SUBSCRIBE", "news"]);
    let reply = sub.cmd(&mut shared, &["UNSUBSCRIBE", "news"]);
    assert_eq!(reply, format!("*3{0}{1}{2}{3}", LINE_ENDING, bulk("unsubscribe"), bulk("news"), integer(0)));
    assert_eq!(publisher.cmd(&mut shared, &["PUBLISH", "news", "hello"]), integer(0));
    sub.deliver();
    assert_eq!(sub.take(), "");
}

#[test]
fn subscribed_mode_rejects_kv_commands_until_unsubscribed() {
    let mut shared = shared_with(None);
    let mut c = Conn::open(&mut shared);
    assert_eq!(c.cmd(&mut shared, &["SET", "key", "value"]), simple("OK"));
    c.cmd(&mut shared, &["SUBSCRIBE", "news"]);
    assert!(c.cmd(&mut shared, &["GET", "key"]).starts_with("-ERR"));
    let pong = c.cmd(&mut shared, &["PING", "hi"]);
    assert_eq!(pong, format!("*2{0}{1}{2}", LINE_ENDING, bulk("pong"), bulk("hi")));
    c.cmd(&mut shared, &["UNSUBSCRIBE"]);
    assert_eq!(c.cmd(&mut shared, &["GET", "key"]), bulk("value"));
}

#[test]
fn unsubscribe_without_channels_when_none() {
    let mut shared = shared_with(None);
    let mut c = Conn::open(&mut shared);
    let reply = c.cmd(&mut shared, &["UNSUBSCRIBE"]);
    assert_eq!(reply, format!("*3{0}{1}{2}{3}", LINE_ENDING, bulk("unsubscribe"), nil(), integer(0)));
}

#[test]
fn pubsub_message_does_not_drop_partial_client_command() {
    let mut shared = shared_with(None);
    let mut sub = Conn::open(&mut shared);
    let mut publisher = Conn::open(&mut shared);

    sub.cmd(&mut shared, &["SUBSCRIBE", "news"]);
    sub.send(&mut shared, b"*2\r\n$4\r\nPIN");
    assert_eq!(sub.take(), "");
    assert_eq!(publisher.cmd(&mut shared, &["PUBLISH", "news", "hello"]), integer(1));
    sub.deliver();
    assert_eq!(
        sub.take(),
        format!("*3{0}{1}{2}{3}", LINE_ENDING, bulk("message"), bulk("news"), bulk("hello"))
    );
    sub.send(&mut shared, b"G\r\n$2\r\nhi\r\n");
    assert_eq!(sub.take(), format!("*2{0}$4{0}pong{0}$2{0}hi{0}", LINE_ENDING));
}

#[test]
fn reset_leaves_subscribed_mode() {
    let mut shared = shared_with(None);
    let mut c = Conn::open(&mut shared);
    let mut publisher = Conn::open(&mut shared);
    c.cmd(&mut shared, &["SUBSCRIBE", "a", "b"]);
    assert_eq!(c.cmd(&mut shared, &["RESET"]), simple("RESET"));
    assert_eq!(publisher.cmd(&mut shared, &["PUBLISH", "a", "x"]), integer(0));
    assert_eq!(c.cmd(&mut shared, &["GET", "k"]), nil());
}

#[test]
fn cleanup_removes_client_from_channels() {
    let mut shared = shared_with(None);
    let mut c = Conn::open(&mut shared);
    let mut publisher = Conn::open(&mut shared);
    c.cmd(&mut shared, &["SUBSCRIBE", "a"]);
    c.session.cleanup(&mut shared);
    assert_eq!(publisher.cmd(&mut shared, &["PUBLISH", "a", "x"]), integer(0));
    assert!(c.slow.try_recv().is_err());
}

#[test]
fn parse_command_runs_in_session() {
    let mut shared = shared_with(None);
    let (mut session, _m, _s) = ClientSession::new(&mut shared);
    let outcome = session.execute(parse_command("ECHO hi").unwrap(), &mut shared);
    assert!(!outcome.close_connection);
    assert_eq!(outcome.replies.len(), 1);
    assert!(matches!(&outcome.replies[0], RespValue::Bulk(s) if s == "hi"));
}

#[test]
fn inline_line_and_frame_give_the_same_command() {
    let inline = next_request(b"set foo bar\r\nrest", false);
    let frame = next_request(&command(&["set", "foo", "bar"]), false);
    match (inline, frame) {
        (
            ReadOutcome::Command(Command::Normal(NormalCommand::SetValue { key: k1, value: v1 }), n1),
            ReadOutcome::Command(Command::Normal(NormalCommand::SetValue { key: k2, value: v2 }), n2),
        ) => {
            assert_eq!((k1.as_str(), v1.as_str()), ("foo", "bar"));
            assert_eq!((k2.as_str(), v2.as_str()), ("foo", "bar"));
            assert_eq!(n1, 13);
            assert_eq!(n2, command(&["set", "foo", "bar"]).len());
        }
        other => panic!("unexpected {other:?}"),
    }
    match (next_request(b"GET\r\n", false), next_request(&command(&["GET"]), false)) {
        (
            ReadOutcome::Reply { reply: RespValue::Error(a), close_connection: false, consumed: 5 },
            ReadOutcome::Reply { reply: RespValue::Error(b), close_connection: false, .. },
        ) => assert_eq!(a, b),
        other => panic!("unexpected {other:?}"),
    }
}

#[test]
fn subscriber_queue_holds_the_buffer_size_before_it_counts_as_slow() {
    let mut shared = shared_with(None);
    let mut sub = Conn::open(&mut shared);
    let mut publisher = Conn::open(&mut shared);
    sub.cmd(&mut shared, &["SUBSCRIBE", "news"]);

    for _ in 0..redis_app::pubsub::PUBSUB_BUFFER_SIZE {
        assert_eq!(publisher.cmd(&mut shared, &["PUBLISH", "news", "m"]), integer(1));
    }
    assert_eq!(publisher.cmd(&mut shared, &["PUBLISH", "news", "m"]), integer(0));
    assert!(sub.slow.try_recv().is_ok());
    assert_eq!(publisher.cmd(&mut shared, &["PUBLISH", "news", "m"]), integer(0));
}
