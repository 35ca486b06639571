//! One client's session: authentication, subscribed mode, and the commands that
//! change them.
use tokio::sync::mpsc::{Receiver, Sender, UnboundedReceiver, UnboundedSender};
use vstd::prelude::*;

use crate::commands;
use crate::commands::misc::{self, ping_spec};
use crate::commands::{normal_step, outcomes_fit};
use crate::config::opt_str;
use crate::protocol::{
    resp_seq, strings_view, Command, CommandSpec, NormalCommand, NormalSpec, RespSpec, RespValue,
    SessionCommand, SessionSpec,
};
use crate::commands::logs_step;
use crate::pubsub::{
    deliveries, subscribers, subscribe_spec, unsubscribe_all_spec, unsubscribe_spec, ClientId,
    PubSubMessage, PubSubView, Queues, SendOutcome, PUBSUB_BUFFER_SIZE,
};
use crate::queues::{clone_sender, clone_signal, message_channel, queue_capacity, signal_channel};
use crate::seqs::{lemma_without_absent, lemma_without_at, lemma_without_no_dup, without};
use crate::server::Shared;
use crate::store::entry::EntrySpec;

verus! {

/// The replies to a command, and whether the connection closes after them.
#[derive(Debug)]
pub struct CommandOutcome {
    pub replies: Vec<RespValue>,
    pub close_connection: bool,
}

impl CommandOutcome {
    /// One reply; the connection stays open.
    pub fn single(reply: RespValue) -> (o: CommandOutcome)
        ensures
            resp_seq(o.replies@) == seq![reply@],
            !o.close_connection,
    {
        let mut replies = Vec::new();
        replies.push(reply);
        proof {
            assert(resp_seq(replies@) =~= seq![reply@]);
        }
        CommandOutcome { replies, close_connection: false }
    }

    /// One reply, after which the connection closes.
    pub fn close(reply: RespValue) -> (o: CommandOutcome)
        ensures
            resp_seq(o.replies@) == seq![reply@],
            o.close_connection,
    {
        let mut replies = Vec::new();
        replies.push(reply);
        proof {
            assert(resp_seq(replies@) =~= seq![reply@]);
        }
        CommandOutcome { replies, close_connection: true }
    }
}

// ---------------------------------------------------------------------------
// The model
// ---------------------------------------------------------------------------

pub struct SessionView {
    pub is_authed: bool,
    pub client_id: u64,
    /// The channels the client has subscribed to, in the order it did.
    pub channels: Seq<Seq<char>>,
    /// The client's own queue, to which its messages go.
    pub queue: Sender<PubSubMessage>,
    /// The client's own queue on which it is told that it was too slow.
    pub signal: UnboundedSender<()>,
}

/// The result of a command: the replies, whether the connection closes, and the
/// session, store and channels after it.
pub struct StepResult {
    pub replies: Seq<RespSpec>,
    pub close: bool,
    pub session: SessionView,
    pub store: Map<Seq<char>, EntrySpec>,
    pub pubsub: Map<Seq<char>, Seq<u64>>,
}

pub open spec fn subscribe_reply_spec(ch: Seq<char>, n: nat) -> RespSpec {
    RespSpec::Array(seq![RespSpec::Bulk("subscribe"@), RespSpec::Bulk(ch), RespSpec::Integer(n as i64)])
}

pub open spec fn unsubscribe_reply_spec(ch: Option<Seq<char>>, n: nat) -> RespSpec {
    RespSpec::Array(
        seq![
            RespSpec::Bulk("unsubscribe"@),
            match ch {
                Some(c) => RespSpec::Bulk(c),
                None => RespSpec::Nil,
            },
            RespSpec::Integer(n as i64),
        ],
    )
}

pub open spec fn pong_reply_spec(m: Option<Seq<char>>) -> RespSpec {
    RespSpec::Array(
        seq![
            RespSpec::Bulk("pong"@),
            RespSpec::Bulk(
                match m {
                    Some(s) => s,
                    None => seq![],
                },
            ),
        ],
    )
}

pub open spec fn message_reply_spec(ch: Seq<char>, msg: Seq<char>) -> RespSpec {
    RespSpec::Array(seq![RespSpec::Bulk("message"@), RespSpec::Bulk(ch), RespSpec::Bulk(msg)])
}

pub open spec fn add_channel(s: Seq<Seq<char>>, ch: Seq<char>) -> Seq<Seq<char>> {
    if s.contains(ch) {
        s
    } else {
        s.push(ch)
    }
}

/// Subscribing to the channels one after the other: the replies, the client's
/// channels, and the registry.
pub open spec fn subscribe_list(
    id: u64,
    chans: Seq<Seq<char>>,
    mine: Seq<Seq<char>>,
    ps: Map<Seq<char>, Seq<u64>>,
) -> (Seq<RespSpec>, Seq<Seq<char>>, Map<Seq<char>, Seq<u64>>)
    decreases chans.len(),
{
    if chans.len() == 0 {
        (seq![], mine, ps)
    } else {
        let (rs, mine1, ps1) = subscribe_list(id, chans.drop_last(), mine, ps);
        let ch = chans.last();
        let mine2 = add_channel(mine1, ch);
        (rs.push(subscribe_reply_spec(ch, mine2.len())), mine2, subscribe_spec(ps1, id, ch))
    }
}

/// Unsubscribing from the channels one after the other.
pub open spec fn unsubscribe_list(
    id: u64,
    chans: Seq<Seq<char>>,
    mine: Seq<Seq<char>>,
    ps: Map<Seq<char>, Seq<u64>>,
) -> (Seq<RespSpec>, Seq<Seq<char>>, Map<Seq<char>, Seq<u64>>)
    decreases chans.len(),
{
    if chans.len() == 0 {
        (seq![], mine, ps)
    } else {
        let (rs, mine1, ps1) = unsubscribe_list(id, chans.drop_last(), mine, ps);
        let ch = chans.last();
        let mine2 = without(mine1, ch);
        (rs.push(unsubscribe_reply_spec(Some(ch), mine2.len())), mine2, unsubscribe_spec(ps1, id, ch))
    }
}

pub open spec fn unchanged(
    replies: Seq<RespSpec>,
    s: SessionView,
    st: Map<Seq<char>, EntrySpec>,
    ps: Map<Seq<char>, Seq<u64>>,
) -> StepResult {
    StepResult { replies, close: false, session: s, store: st, pubsub: ps }
}

/// SUBSCRIBE, UNSUBSCRIBE, QUIT and RESET.
pub open spec fn session_cmd_step(
    s: SessionView,
    c: SessionSpec,
    st: Map<Seq<char>, EntrySpec>,
    ps: Map<Seq<char>, Seq<u64>>,
) -> StepResult {
    match c {
        SessionSpec::Subscribe(chans) => {
            let (rs, mine, ps1) = subscribe_list(s.client_id, chans, s.channels, ps);
            StepResult {
                replies: rs,
                close: false,
                session: SessionView { channels: mine, ..s },
                store: st,
                pubsub: ps1,
            }
        },
        SessionSpec::Unsubscribe(chans) => {
            let todo = if chans.len() == 0 {
                s.channels
            } else {
                chans
            };
            if todo.len() == 0 {
                unchanged(seq![unsubscribe_reply_spec(None, 0)], s, st, ps)
            } else {
                let (rs, mine, ps1) = unsubscribe_list(s.client_id, todo, s.channels, ps);
                StepResult {
                    replies: rs,
                    close: false,
                    session: SessionView { channels: mine, ..s },
                    store: st,
                    pubsub: ps1,
                }
            }
        },
        SessionSpec::Quit => StepResult {
            replies: seq![RespSpec::Simple("OK"@)],
            close: true,
            session: s,
            store: st,
            pubsub: unsubscribe_all_spec(ps, s.client_id),
        },
        SessionSpec::Reset => StepResult {
            replies: seq![RespSpec::Simple("RESET"@)],
            close: false,
            session: SessionView { channels: seq![], ..s },
            store: st,
            pubsub: unsubscribe_all_spec(ps, s.client_id),
        },
    }
}

/// What a command does in a session, with `password` the server's password, at the
/// moment `now`, with `o` what subscribers' queues answered to a publish.
///
/// Before a client has authenticated on a server with a password, only AUTH and PING
/// run. While a client is subscribed, PING answers in an array and other commands
/// on the data are refused.
pub open spec fn session_step(
    s: SessionView,
    cmd: CommandSpec,
    password: Option<Seq<char>>,
    st: Map<Seq<char>, EntrySpec>,
    ps: Map<Seq<char>, Seq<u64>>,
    now: u128,
    o: Seq<SendOutcome>,
) -> StepResult {
    match cmd {
        CommandSpec::Auth(p) => match password {
            None => unchanged(
                seq![RespSpec::Error("ERR Client sent AUTH but no password is set"@)],
                s,
                st,
                ps,
            ),
            Some(expected) => if expected == p {
                unchanged(
                    seq![RespSpec::Simple("OK"@)],
                    SessionView { is_authed: true, ..s },
                    st,
                    ps,
                )
            } else {
                unchanged(seq![RespSpec::Error("WRONGPASS invalid password"@)], s, st, ps)
            },
        },
        CommandSpec::Normal(NormalSpec::Ping(m)) if !s.is_authed => unchanged(
            seq![ping_spec(m)],
            s,
            st,
            ps,
        ),
        _ if !s.is_authed => unchanged(
            seq![RespSpec::Error("NOAUTH Authentication required"@)],
            s,
            st,
            ps,
        ),
        CommandSpec::Normal(NormalSpec::Ping(m)) if s.channels.len() > 0 => unchanged(
            seq![pong_reply_spec(m)],
            s,
            st,
            ps,
        ),
        CommandSpec::Session(c) => session_cmd_step(s, c, st, ps),
        CommandSpec::Normal(c) => if s.channels.len() > 0 {
            unchanged(
                seq![RespSpec::Error("Can't execute command in subscribed mode"@)],
                s,
                st,
                ps,
            )
        } else {
            let (r, st1, ps1) = normal_step(c, st, ps, now, o);
            unchanged(seq![r], s, st1, ps1)
        },
    }
}

/// The registry's queues with the client `id`'s own queues registered for each of the
/// channels `chans`, in order.
pub open spec fn register_all(
    q: Queues,
    chans: Seq<Seq<char>>,
    id: u64,
    tx: Sender<PubSubMessage>,
    sig: UnboundedSender<()>,
) -> Queues
    decreases chans.len(),
{
    if chans.len() == 0 {
        q
    } else {
        register_all(q, chans.drop_last(), id, tx, sig).insert((chans.last(), id), (tx, sig))
    }
}

/// The registry's queues after a command in the session: a SUBSCRIBE that runs
/// registers the session's own queues for each of its channels; nothing else
/// changes them.
pub open spec fn queues_after(s: SessionView, cmd: CommandSpec, q: Queues) -> Queues {
    match cmd {
        CommandSpec::Session(SessionSpec::Subscribe(chans)) => if s.is_authed {
            register_all(q, chans, s.client_id, s.queue, s.signal)
        } else {
            q
        },
        _ => q,
    }
}

/// The record of what was handed to the queues is as it was.
pub open spec fn logs_kept(p0: PubSubView, p1: PubSubView) -> bool {
    &&& p1.sent == p0.sent
    &&& p1.signalled == p0.signalled
}

/// What a command in the session adds to the record of the queues, with `o` what the
/// queues answered: a command on the data that runs (the client has authenticated
/// and is not subscribed) adds what it adds outside a session; nothing else adds
/// anything.
pub open spec fn session_logs(s: SessionView, cmd: CommandSpec, p0: PubSubView, p1: PubSubView, o: Seq<SendOutcome>) -> bool {
    match cmd {
        CommandSpec::Normal(c) => if s.is_authed && s.channels.len() == 0 {
            logs_step(c, p0, p1, o)
        } else {
            logs_kept(p0, p1)
        },
        _ => logs_kept(p0, p1),
    }
}

/// The queue answers fit a publish, when the command is one.
pub open spec fn cmd_outcomes_fit(c: CommandSpec, ps: Map<Seq<char>, Seq<u64>>, o: Seq<SendOutcome>) -> bool {
    match c {
        CommandSpec::Normal(n) => outcomes_fit(n, ps, o),
        _ => true,
    }
}

/// Queue answers that fit a publish of the command, when it is one: every queue took
/// the message.
pub open spec fn fitting_outcomes(c: CommandSpec, ps: Map<Seq<char>, Seq<u64>>) -> Seq<SendOutcome> {
    match c {
        CommandSpec::Normal(NormalSpec::Publish(ch, _)) => Seq::new(
            crate::pubsub::subscribers(ps, ch).len(),
            |i: int| SendOutcome::Delivered,
        ),
        _ => seq![],
    }
}

pub open spec fn step_of(
    replies: Seq<RespValue>,
    close: bool,
    s: SessionView,
    st: Map<Seq<char>, EntrySpec>,
    ps: Map<Seq<char>, Seq<u64>>,
) -> StepResult {
    StepResult { replies: resp_seq(replies), close, session: s, store: st, pubsub: ps }
}

// ---------------------------------------------------------------------------
// The session
// ---------------------------------------------------------------------------

/// A client's session: whether it has authenticated, its client number, the sending
/// ends of its own queues (handed to the registry when it subscribes), and the
/// channels it has subscribed to. The channels are a `Vec` that holds each name once
/// (`wf`), in the order of subscription, in place of a set of strings, about which a
/// proof could say nothing. The view holds the session's own queue handles, so that
/// a subscription can be seen to register them.
pub struct ClientSession {
    is_authed: bool,
    client_id: ClientId,
    pubsub_tx: Sender<PubSubMessage>,
    slow_consumer_tx: UnboundedSender<()>,
    subscribed_channels: Vec<String>,
}

impl View for ClientSession {
    type V = SessionView;

    closed spec fn view(&self) -> SessionView {
        SessionView {
            is_authed: self.is_authed,
            client_id: self.client_id,
            channels: strings_view(self.subscribed_channels@),
            queue: self.pubsub_tx,
            signal: self.slow_consumer_tx,
        }
    }
}

fn subscribe_reply(channel: String, count: usize) -> (r: RespValue)
    ensures
        r@ == subscribe_reply_spec(channel@, count as nat),
{
    let mut items = Vec::new();
    items.push(RespValue::Bulk("subscribe".to_string()));
    items.push(RespValue::Bulk(channel));
    items.push(RespValue::Integer(count as i64));
    let r = RespValue::Array(items);
    proof {
        assert(r@ == RespSpec::Array(crate::protocol::resp_items(items@)));
        assert(crate::protocol::resp_items(items@) =~= seq![
            RespSpec::Bulk("subscribe"@),
            RespSpec::Bulk(channel@),
            RespSpec::Integer(count as i64),
        ]);
    }
    r
}

fn unsubscribe_reply(channel: Option<String>, count: usize) -> (r: RespValue)
    ensures
        r@ == unsubscribe_reply_spec(opt_str(channel), count as nat),
{
    let mut items = Vec::new();
    items.push(RespValue::Bulk("unsubscribe".to_string()));
    let ghost ch = opt_str(channel);
    match channel {
        Some(c) => items.push(RespValue::Bulk(c)),
        None => items.push(RespValue::Nil),
    }
    items.push(RespValue::Integer(count as i64));
    let r = RespValue::Array(items);
    proof {
        assert(crate::protocol::resp_items(items@) =~= seq![
            RespSpec::Bulk("unsubscribe"@),
            match ch {
                Some(c) => RespSpec::Bulk(c),
                None => RespSpec::Nil,
            },
            RespSpec::Integer(count as i64),
        ]);
    }
    r
}

fn subscribed_pong_reply(message: Option<String>) -> (r: RespValue)
    ensures
        r@ == pong_reply_spec(opt_str(message)),
{
    let ghost m = opt_str(message);
    let mut items = Vec::new();
    items.push(RespValue::Bulk("pong".to_string()));
    match message {
        Some(s) => items.push(RespValue::Bulk(s)),
        None => items.push(RespValue::Bulk(String::new())),
    }
    let r = RespValue::Array(items);
    proof {
        assert(crate::protocol::resp_items(items@) =~= seq![
            RespSpec::Bulk("pong"@),
            RespSpec::Bulk(
                match m {
                    Some(s) => s,
                    None => seq![],
                },
            ),
        ]);
    }
    r
}

impl ClientSession {
    /// The session is well formed: each channel once.
    pub closed spec fn wf(&self) -> bool {
        strings_view(self.subscribed_channels@).no_duplicates()
    }

    /// A new session with a fresh client number, and the receiving ends of the queue
    /// of its messages and of the signal that it was too slow. A client needs no
    /// authentication when the server has no password.
    pub fn new(shared: &mut Shared) -> (r: (ClientSession, Receiver<PubSubMessage>, UnboundedReceiver<()>))
        requires
            old(shared).wf(),
        ensures
            final(shared).wf(),
            r.0.wf(),
            r.0@.client_id == old(shared).pubsub@.next_client_id,
            r.0@.is_authed == (old(shared).config.password is None),
            r.0@.channels == Seq::<Seq<char>>::empty(),
            queue_capacity(r.0@.queue) == PUBSUB_BUFFER_SIZE,
            final(shared).pubsub@.channels == old(shared).pubsub@.channels,
            final(shared).pubsub@.queues == old(shared).pubsub@.queues,
            logs_kept(old(shared).pubsub@, final(shared).pubsub@),
            final(shared).store@ == old(shared).store@,
            final(shared).config == old(shared).config,
    {
        let client_id = shared.pubsub.next_client_id();
        proof {
            let m: usize = usize::MAX;
            assert(m >= 0xFFFF_FFFFusize);
            assert(m >> 3 >= 0x1FFF_FFFFusize) by (bit_vector)
                requires
                    m >= 0xFFFF_FFFFusize,
            ;
        }
        let (pubsub_tx, pubsub_rx) = message_channel(PUBSUB_BUFFER_SIZE);
        let (slow_consumer_tx, slow_consumer_rx) = signal_channel();
        let is_authed = match &shared.config.password {
            None => true,
            Some(_) => false,
        };
        let s = ClientSession {
            client_id,
            pubsub_tx,
            slow_consumer_tx,
            is_authed,
            subscribed_channels: Vec::new(),
        };
        proof {
            assert(strings_view(s.subscribed_channels@) =~= Seq::<Seq<char>>::empty());
        }
        (s, pubsub_rx, slow_consumer_rx)
    }

    fn is_subscribed(&self) -> (b: bool)
        ensures
            b == (self@.channels.len() > 0),
    {
        self.subscribed_channels.len() > 0
    }

    /// The reply that carries a published message to a subscriber.
    pub fn pubsub_message_reply(message: PubSubMessage) -> (r: RespValue)
        ensures
            r@ == message_reply_spec(message.channel@, message.message@),
    {
        let mut items = Vec::new();
        items.push(RespValue::Bulk("message".to_string()));
        items.push(RespValue::Bulk(message.channel));
        items.push(RespValue::Bulk(message.message));
        let r = RespValue::Array(items);
        proof {
            assert(crate::protocol::resp_items(items@) =~= seq![
                RespSpec::Bulk("message"@),
                RespSpec::Bulk(message.channel@),
                RespSpec::Bulk(message.message@),
            ]);
        }
        r
    }

    /// Takes the client out of every channel.
    pub fn cleanup(&self, shared: &mut Shared)
        requires
            old(shared).wf(),
        ensures
            final(shared).wf(),
            final(shared).pubsub@.channels == unsubscribe_all_spec(old(shared).pubsub@.channels, self@.client_id),
            final(shared).pubsub@.next_client_id == old(shared).pubsub@.next_client_id,
            final(shared).pubsub@.queues == old(shared).pubsub@.queues,
            logs_kept(old(shared).pubsub@, final(shared).pubsub@),
            final(shared).store@ == old(shared).store@,
            final(shared).config == old(shared).config,
    {
        shared.pubsub.unsubscribe_all(self.client_id);
    }

    fn position(&self, channel: &String) -> (r: Option<usize>)
        ensures
            match r {
                Some(j) => j < self.subscribed_channels@.len() && self@.channels[j as int] == channel@,
                None => !self@.channels.contains(channel@),
            },
    {
        let mut j: usize = 0;
        while j < self.subscribed_channels.len()
            invariant
                j <= self.subscribed_channels@.len(),
                forall|l: int| 0 <= l < j ==> #[trigger] self@.channels[l] != channel@,
            decreases self.subscribed_channels.len() - j,
        {
            if self.subscribed_channels[j] == *channel {
                return Some(j);
            }
            j += 1;
        }
        None
    }

    fn subscribe(&mut self, channel: String, shared: &mut Shared) -> (r: RespValue)
        requires
            old(self).wf(),
            old(shared).wf(),
        ensures
            final(self).wf(),
            final(shared).wf(),
            final(self)@ == (SessionView { channels: add_channel(old(self)@.channels, channel@), ..old(self)@ }),
            r@ == subscribe_reply_spec(channel@, final(self)@.channels.len()),
            final(shared).pubsub@.channels == subscribe_spec(old(shared).pubsub@.channels, old(self)@.client_id, channel@),
            final(shared).pubsub@.next_client_id == old(shared).pubsub@.next_client_id,
            final(shared).pubsub@.queues == old(shared).pubsub@.queues.insert(
                (channel@, old(self)@.client_id),
                (old(self)@.queue, old(self)@.signal),
            ),
            logs_kept(old(shared).pubsub@, final(shared).pubsub@),
            final(shared).store@ == old(shared).store@,
            final(shared).config == old(shared).config,
    {
        match self.position(&channel) {
            Some(_) => {},
            None => {
                let ghost before = self@.channels;
                self.subscribed_channels.push(channel.clone());
                proof {
                    assert(self@.channels =~= before.push(channel@));
                    assert forall|a: int, b: int| 0 <= a < self@.channels.len() && 0 <= b < self@.channels.len() && a != b implies self@.channels[a] != self@.channels[b] by {
                        if a < before.len() && b < before.len() {
                        } else if a < before.len() {
                            assert(before.contains(before[a]));
                        } else if b < before.len() {
                            assert(before.contains(before[b]));
                        }
                    }
                }
            },
        }
        shared.pubsub.subscribe(
            self.client_id,
            channel.clone(),
            clone_sender(&self.pubsub_tx),
            clone_signal(&self.slow_consumer_tx),
        );
        subscribe_reply(channel, self.subscribed_channels.len())
    }

    fn remove_channel(&mut self, channel: &String)
        requires
            old(self).wf(),
        ensures
            final(self).wf(),
            final(self)@ == (SessionView { channels: without(old(self)@.channels, channel@), ..old(self)@ }),
    {
        let ghost before = self@.channels;
        match self.position(channel) {
            Some(j) => {
                self.subscribed_channels.remove(j);
                proof {
                    lemma_without_at(before, j as int, channel@);
                    assert(self@.channels =~= before.remove(j as int));
                }
            },
            None => {
                proof {
                    lemma_without_absent(before, channel@);
                }
            },
        }
        proof {
            lemma_without_no_dup(before, channel@);
        }
    }

    fn unsubscribe(&mut self, channels: Vec<String>, shared: &mut Shared) -> (r: Vec<RespValue>)
        requires
            old(self).wf(),
            old(shared).wf(),
        ensures
            final(self).wf(),
            final(shared).wf(),
            step_of(r@, false, final(self)@, final(shared).store@, final(shared).pubsub@.channels)
                == session_cmd_step(old(self)@, SessionSpec::Unsubscribe(strings_view(channels@)), old(shared).store@, old(shared).pubsub@.channels),
            final(shared).pubsub@.next_client_id == old(shared).pubsub@.next_client_id,
            final(shared).pubsub@.queues == old(shared).pubsub@.queues,
            logs_kept(old(shared).pubsub@, final(shared).pubsub@),
            final(shared).config == old(shared).config,
    {
        let ghost s0 = self@;
        let ghost ps0 = shared.pubsub@.channels;
        let todo: Vec<String> = if channels.len() == 0 {
            let mut t: Vec<String> = Vec::new();
            let mut i: usize = 0;
            while i < self.subscribed_channels.len()
                invariant
                    i <= self.subscribed_channels@.len(),
                    strings_view(t@) == strings_view(self.subscribed_channels@).take(i as int),
                decreases self.subscribed_channels.len() - i,
            {
                let c = self.subscribed_channels[i].clone();
                let ghost before = strings_view(t@);
                t.push(c);
                proof {
                    assert(strings_view(t@) =~= before.push(c@));
                    assert(strings_view(self.subscribed_channels@).take(i + 1) =~= strings_view(self.subscribed_channels@).take(i as int).push(self.subscribed_channels@[i as int]@));
                }
                i += 1;
            }
            proof {
                assert(strings_view(self.subscribed_channels@).take(i as int) =~= strings_view(self.subscribed_channels@));
            }
            t
        } else {
            channels
        };
        let ghost tv = strings_view(todo@);
        if todo.len() == 0 {
            let mut r = Vec::new();
            r.push(unsubscribe_reply(None, 0));
            proof {
                assert(resp_seq(r@) =~= seq![unsubscribe_reply_spec(None, 0)]);
            }
            return r;
        }
        let mut replies: Vec<RespValue> = Vec::new();
        let mut i: usize = 0;
        proof {
            assert(tv.take(0) =~= Seq::<Seq<char>>::empty());
            assert(resp_seq(replies@) =~= Seq::<RespSpec>::empty());
        }
        while i < todo.len()
            invariant
                i <= todo@.len(),
                tv == strings_view(todo@),
                self.wf(),
                shared.wf(),
                self@.client_id == s0.client_id,
                self@.is_authed == s0.is_authed,
                shared.store@ == old(shared).store@,
                shared.config == old(shared).config,
                shared.pubsub@.next_client_id == old(shared).pubsub@.next_client_id,
                shared.pubsub@.queues == old(shared).pubsub@.queues,
                logs_kept(old(shared).pubsub@, shared.pubsub@),
                self@.queue == s0.queue,
                self@.signal == s0.signal,
                (resp_seq(replies@), self@.channels, shared.pubsub@.channels) == unsubscribe_list(s0.client_id, tv.take(i as int), s0.channels, ps0),
            decreases todo.len() - i,
        {
            let ch = &todo[i];
            proof {
                assert(tv.take(i + 1).drop_last() =~= tv.take(i as int));
                assert(tv.take(i + 1).last() == ch@);
            }
            self.remove_channel(ch);
            shared.pubsub.unsubscribe(self.client_id, ch.as_str());
            let reply = unsubscribe_reply(Some(ch.clone()), self.subscribed_channels.len());
            let ghost before = resp_seq(replies@);
            replies.push(reply);
            proof {
                assert(resp_seq(replies@) =~= before.push(reply@));
            }
            i += 1;
        }
        proof {
            assert(tv.take(i as int) =~= tv);
        }
        replies
    }

    fn execute_auth(&mut self, password: String, shared: &Shared) -> (o: CommandOutcome)
        requires
            old(self).wf(),
        ensures
            final(self).wf(),
            step_of(o.replies@, o.close_connection, final(self)@, shared.store@, shared.pubsub@.channels)
                == session_step(old(self)@, CommandSpec::Auth(password@), opt_str(shared.config.password), shared.store@, shared.pubsub@.channels, 0, seq![]),
    {
        match &shared.config.password {
            None => CommandOutcome::single(
                RespValue::Error("ERR Client sent AUTH but no password is set".to_string()),
            ),
            Some(expected) => {
                if *expected == password {
                    self.is_authed = true;
                    CommandOutcome::single(RespValue::Simple("OK".to_string()))
                } else {
                    CommandOutcome::single(RespValue::Error("WRONGPASS invalid password".to_string()))
                }
            },
        }
    }

    fn execute_session(&mut self, cmd: SessionCommand, shared: &mut Shared) -> (o: CommandOutcome)
        requires
            old(self).wf(),
            old(shared).wf(),
        ensures
            final(self).wf(),
            final(shared).wf(),
            step_of(o.replies@, o.close_connection, final(self)@, final(shared).store@, final(shared).pubsub@.channels)
                == session_cmd_step(old(self)@, cmd@, old(shared).store@, old(shared).pubsub@.channels),
            final(shared).pubsub@.next_client_id == old(shared).pubsub@.next_client_id,
            final(shared).pubsub@.queues == (match cmd@ {
                SessionSpec::Subscribe(chans) => register_all(
                    old(shared).pubsub@.queues,
                    chans,
                    old(self)@.client_id,
                    old(self)@.queue,
                    old(self)@.signal,
                ),
                _ => old(shared).pubsub@.queues,
            }),
            logs_kept(old(shared).pubsub@, final(shared).pubsub@),
            final(shared).config == old(shared).config,
    {
        let ghost s0 = self@;
        let ghost ps0 = shared.pubsub@.channels;
        let ghost q0 = shared.pubsub@.queues;
        match cmd {
            SessionCommand::Subscribe { channels } => {
                let ghost cv = strings_view(channels@);
                let mut replies: Vec<RespValue> = Vec::new();
                let mut i: usize = 0;
                proof {
                    assert(cv.take(0) =~= Seq::<Seq<char>>::empty());
                    assert(resp_seq(replies@) =~= Seq::<RespSpec>::empty());
                }
                while i < channels.len()
                    invariant
                        i <= channels@.len(),
                        cv == strings_view(channels@),
                        self.wf(),
                        shared.wf(),
                        self@.client_id == s0.client_id,
                        self@.is_authed == s0.is_authed,
                        shared.store@ == old(shared).store@,
                        shared.config == old(shared).config,
                        shared.pubsub@.next_client_id == old(shared).pubsub@.next_client_id,
                        shared.pubsub@.queues == register_all(q0, cv.take(i as int), s0.client_id, s0.queue, s0.signal),
                        logs_kept(old(shared).pubsub@, shared.pubsub@),
                        self@.queue == s0.queue,
                        self@.signal == s0.signal,
                        (resp_seq(replies@), self@.channels, shared.pubsub@.channels) == subscribe_list(s0.client_id, cv.take(i as int), s0.channels, ps0),
                    decreases channels.len() - i,
                {
                    let ch = channels[i].clone();
                    proof {
                        assert(cv.take(i + 1).drop_last() =~= cv.take(i as int));
                        assert(cv.take(i + 1).last() == ch@);
                    }
                    let reply = self.subscribe(ch, shared);
                    let ghost before = resp_seq(replies@);
                    replies.push(reply);
                    proof {
                        assert(resp_seq(replies@) =~= before.push(reply@));
                    }
                    i += 1;
                }
                proof {
                    assert(cv.take(i as int) =~= cv);
                }
                CommandOutcome { replies, close_connection: false }
            },
            SessionCommand::Unsubscribe { channels } => {
                let replies = self.unsubscribe(channels, shared);
                CommandOutcome { replies, close_connection: false }
            },
            SessionCommand::Quit => {
                self.cleanup(shared);
                CommandOutcome::close(RespValue::Simple("OK".to_string()))
            },
            SessionCommand::Reset => {
                self.cleanup(shared);
                self.subscribed_channels.clear();
                proof {
                    assert(self@.channels =~= Seq::<Seq<char>>::empty());
                }
                CommandOutcome::single(RespValue::Simple("RESET".to_string()))
            },
        }
    }

    /// Runs a command in the session: authentication first, then subscribed mode,
    /// then the command itself.
    pub fn execute(&mut self, cmd: Command, shared: &mut Shared) -> (o: CommandOutcome)
        requires
            old(self).wf(),
            old(shared).wf(),
        ensures
            final(self).wf(),
            final(shared).wf(),
            exists|now: u128, q: Seq<SendOutcome>|
                cmd_outcomes_fit(cmd@, old(shared).pubsub@.channels, q)
                && step_of(o.replies@, o.close_connection, final(self)@, final(shared).store@, final(shared).pubsub@.channels)
                    == #[trigger] session_step(old(self)@, cmd@, opt_str(old(shared).config.password), old(shared).store@, old(shared).pubsub@.channels, now, q)
                && session_logs(old(self)@, cmd@, old(shared).pubsub@, final(shared).pubsub@, q),
            final(shared).pubsub@.next_client_id == old(shared).pubsub@.next_client_id,
            final(shared).pubsub@.queues == queues_after(old(self)@, cmd@, old(shared).pubsub@.queues),
            final(shared).config == old(shared).config,
    {
        let ghost c = cmd@;
        let ghost s0 = self@;
        let ghost pw = opt_str(shared.config.password);
        let ghost st = shared.store@;
        let ghost ps = shared.pubsub@.channels;
        let ghost none = fitting_outcomes(c, ps);
        assert(cmd_outcomes_fit(c, ps, none));
        match cmd {
            Command::Auth { password } => {
                let o = self.execute_auth(password, shared);
                assert(session_step(s0, c, pw, st, ps, 0, none) == step_of(o.replies@, o.close_connection, self@, shared.store@, shared.pubsub@.channels));
                return o;
            },
            _ => {},
        }
        let is_ping = match &cmd {
            Command::Normal(NormalCommand::Ping(_)) => true,
            _ => false,
        };
        if !self.is_authed {
            let o = if is_ping {
                match cmd {
                    Command::Normal(NormalCommand::Ping(msg)) => CommandOutcome::single(misc::ping(msg)),
                    _ => CommandOutcome::single(RespValue::Nil),
                }
            } else {
                CommandOutcome::single(RespValue::Error("NOAUTH Authentication required".to_string()))
            };
            assert(session_step(s0, c, pw, st, ps, 0, none) == step_of(o.replies@, o.close_connection, self@, shared.store@, shared.pubsub@.channels));
            return o;
        }
        if is_ping && self.is_subscribed() {
            let o = match cmd {
                Command::Normal(NormalCommand::Ping(msg)) => CommandOutcome::single(subscribed_pong_reply(msg)),
                _ => CommandOutcome::single(RespValue::Nil),
            };
            assert(session_step(s0, c, pw, st, ps, 0, none) == step_of(o.replies@, o.close_connection, self@, shared.store@, shared.pubsub@.channels));
            return o;
        }
        match cmd {
            Command::Session(sc) => {
                let o = self.execute_session(sc, shared);
                assert(session_step(s0, c, pw, st, ps, 0, none) == step_of(o.replies@, o.close_connection, self@, shared.store@, shared.pubsub@.channels));
                o
            },
            Command::Normal(nc) => {
                if self.is_subscribed() {
                    let o = CommandOutcome::single(RespValue::Error("Can't execute command in subscribed mode".to_string()));
                    assert(session_step(s0, c, pw, st, ps, 0, none) == step_of(o.replies@, o.close_connection, self@, shared.store@, shared.pubsub@.channels));
                    o
                } else {
                    let r = commands::execute(nc, shared);
                    let o = CommandOutcome::single(r);
                    proof {
                        let (now, q) = choose|now: u128, q: Seq<SendOutcome>|
                            outcomes_fit(c->Normal_0, ps, q) && (r@, shared.store@, shared.pubsub@.channels)
                                == #[trigger] normal_step(c->Normal_0, st, ps, now, q)
                                && logs_step(c->Normal_0, old(shared).pubsub@, shared.pubsub@, q);
                        assert(session_logs(s0, c, old(shared).pubsub@, shared.pubsub@, q));
                        assert(session_step(s0, c, pw, st, ps, now, q) == step_of(o.replies@, o.close_connection, self@, shared.store@, shared.pubsub@.channels));
                    }
                    o
                }
            },
            Command::Auth { .. } => {
                CommandOutcome::single(RespValue::Nil)
            },
        }
    }
}


// ---------------------------------------------------------------------------
// What holds of a session
// ---------------------------------------------------------------------------

/// Before a client has authenticated, every command but AUTH and PING is refused with
/// `NOAUTH`, and nothing changes.
pub proof fn law_noauth_refuses(
    s: SessionView,
    cmd: CommandSpec,
    password: Option<Seq<char>>,
    st: Map<Seq<char>, EntrySpec>,
    ps: Map<Seq<char>, Seq<u64>>,
    now: u128,
    o: Seq<SendOutcome>,
)
    requires
        !s.is_authed,
        !(cmd is Auth),
        !(cmd matches CommandSpec::Normal(NormalSpec::Ping(_))),
    ensures
        session_step(s, cmd, password, st, ps, now, o) == unchanged(
            seq![RespSpec::Error("NOAUTH Authentication required"@)],
            s,
            st,
            ps,
        ),
{
}

/// Before a client has authenticated, PING is answered as usual.
pub proof fn law_ping_before_auth(
    s: SessionView,
    m: Option<Seq<char>>,
    password: Option<Seq<char>>,
    st: Map<Seq<char>, EntrySpec>,
    ps: Map<Seq<char>, Seq<u64>>,
    now: u128,
    o: Seq<SendOutcome>,
)
    requires
        !s.is_authed,
    ensures
        session_step(s, CommandSpec::Normal(NormalSpec::Ping(m)), password, st, ps, now, o) == unchanged(seq![ping_spec(m)], s, st, ps),
{
}

/// AUTH with the server's password authenticates the client; with another password
/// it is refused with `WRONGPASS` and the session stays as it was; on a server
/// without a password it is an error.
pub proof fn law_auth(
    s: SessionView,
    p: Seq<char>,
    password: Option<Seq<char>>,
    st: Map<Seq<char>, EntrySpec>,
    ps: Map<Seq<char>, Seq<u64>>,
    now: u128,
    o: Seq<SendOutcome>,
)
    ensures
        password == Some(p) ==> session_step(s, CommandSpec::Auth(p), password, st, ps, now, o)
            == unchanged(seq![RespSpec::Simple("OK"@)], SessionView { is_authed: true, ..s }, st, ps),
        (password is Some && password != Some(p)) ==> session_step(s, CommandSpec::Auth(p), password, st, ps, now, o)
            == unchanged(seq![RespSpec::Error("WRONGPASS invalid password"@)], s, st, ps),
        password is None ==> session_step(s, CommandSpec::Auth(p), password, st, ps, now, o)
            == unchanged(seq![RespSpec::Error("ERR Client sent AUTH but no password is set"@)], s, st, ps),
{
}

/// While a client is subscribed, commands on the data other than PING are refused,
/// and nothing changes.
pub proof fn law_subscribed_mode_refuses(
    s: SessionView,
    c: NormalSpec,
    password: Option<Seq<char>>,
    st: Map<Seq<char>, EntrySpec>,
    ps: Map<Seq<char>, Seq<u64>>,
    now: u128,
    o: Seq<SendOutcome>,
)
    requires
        s.is_authed,
        s.channels.len() > 0,
        !(c is Ping),
    ensures
        session_step(s, CommandSpec::Normal(c), password, st, ps, now, o) == unchanged(
            seq![RespSpec::Error("Can't execute command in subscribed mode"@)],
            s,
            st,
            ps,
        ),
{
}

/// A client that subscribes to a channel and then unsubscribes from it is told it has
/// one subscription, then none; it is back out of subscribed mode and no longer among
/// the channel's subscribers.
pub proof fn law_subscribe_then_unsubscribe(
    s: SessionView,
    ch: Seq<char>,
    password: Option<Seq<char>>,
    st: Map<Seq<char>, EntrySpec>,
    ps: Map<Seq<char>, Seq<u64>>,
    now: u128,
    o: Seq<SendOutcome>,
)
    requires
        s.is_authed,
        s.channels.len() == 0,
    ensures
        ({
            let r1 = session_step(s, CommandSpec::Session(SessionSpec::Subscribe(seq![ch])), password, st, ps, now, o);
            let r2 = session_step(r1.session, CommandSpec::Session(SessionSpec::Unsubscribe(seq![ch])), password, r1.store, r1.pubsub, now, o);
            &&& r1.replies == seq![subscribe_reply_spec(ch, 1)]
            &&& r1.session.channels == seq![ch]
            &&& crate::pubsub::subscribers(r1.pubsub, ch).contains(s.client_id)
            &&& r2.replies == seq![unsubscribe_reply_spec(Some(ch), 0)]
            &&& r2.session.channels.len() == 0
            &&& !crate::pubsub::subscribers(r2.pubsub, ch).contains(s.client_id)
            &&& r2.store == st
        }),
{
    let chans = seq![ch];
    assert(chans.drop_last() =~= Seq::<Seq<char>>::empty());
    assert(chans.last() == ch);
    assert(!s.channels.contains(ch));
    assert(add_channel(s.channels, ch) =~= seq![ch]);
    let id = s.client_id;
    assert(subscribe_list(id, Seq::<Seq<char>>::empty(), s.channels, ps) == (Seq::<RespSpec>::empty(), s.channels, ps));
    let ps1 = subscribe_spec(ps, id, ch);
    assert(subscribe_list(id, chans, s.channels, ps) == (seq![subscribe_reply_spec(ch, 1)], seq![ch], ps1)) by {
        assert(Seq::<RespSpec>::empty().push(subscribe_reply_spec(ch, 1)) =~= seq![subscribe_reply_spec(ch, 1)]);
    }
    let r1 = session_step(s, CommandSpec::Session(SessionSpec::Subscribe(chans)), password, st, ps, now, o);
    assert(r1.session.channels == seq![ch]);
    assert(r1.pubsub == ps1);
    crate::pubsub::law_subscribe_adds(ps, s.client_id, ch, ch);
    assert(unsubscribe_list(id, Seq::<Seq<char>>::empty(), seq![ch], ps1) == (Seq::<RespSpec>::empty(), seq![ch], ps1));
    let w = without(seq![ch], ch);
    crate::seqs::lemma_without_excludes(seq![ch], ch);
    assert(seq![ch].drop_last() =~= Seq::<Seq<char>>::empty());
    assert(without(Seq::<Seq<char>>::empty(), ch) == Seq::<Seq<char>>::empty());
    assert(w =~= Seq::<Seq<char>>::empty());
    assert(unsubscribe_list(id, chans, seq![ch], ps1) == (seq![unsubscribe_reply_spec(Some(ch), 0)], w, unsubscribe_spec(ps1, id, ch))) by {
        assert(Seq::<RespSpec>::empty().push(unsubscribe_reply_spec(Some(ch), 0)) =~= seq![unsubscribe_reply_spec(Some(ch), 0)]);
    }
    crate::pubsub::law_unsubscribe_removes(r1.pubsub, s.client_id, ch, o);
}

proof fn lemma_unsubscribe_list_leaves(
    id: u64,
    chans: Seq<Seq<char>>,
    mine: Seq<Seq<char>>,
    ps: Map<Seq<char>, Seq<u64>>,
)
    requires
        mine.no_duplicates(),
    ensures
        unsubscribe_list(id, chans, mine, ps).1.no_duplicates(),
        forall|x: Seq<char>| #[trigger] unsubscribe_list(id, chans, mine, ps).1.contains(x) ==> mine.contains(x)
            && !chans.contains(x),
    decreases chans.len(),
{
    if chans.len() > 0 {
        let init = chans.drop_last();
        let last = chans.last();
        lemma_unsubscribe_list_leaves(id, init, mine, ps);
        let prev = unsubscribe_list(id, init, mine, ps).1;
        lemma_without_no_dup(prev, last);
        let res = unsubscribe_list(id, chans, mine, ps).1;
        assert(res == without(prev, last));
        assert forall|x: Seq<char>| #[trigger] res.contains(x) implies mine.contains(x) && !chans.contains(x) by {
            assert(prev.contains(x) && x != last);
            if chans.contains(x) {
                let k = choose|k: int| 0 <= k < chans.len() && chans[k] == x;
                if k < chans.len() - 1 {
                    assert(init[k] == x);
                    assert(init.contains(x));
                }
            }
        }
    }
}

/// A command on the data that is refused while the client is subscribed runs again
/// once the client has left every channel (UNSUBSCRIBE without channels): it then
/// does what it does outside subscribed mode.
pub proof fn law_commands_work_again_after_unsubscribe(
    s: SessionView,
    c: NormalSpec,
    password: Option<Seq<char>>,
    st: Map<Seq<char>, EntrySpec>,
    ps: Map<Seq<char>, Seq<u64>>,
    now: u128,
    o: Seq<SendOutcome>,
)
    requires
        s.is_authed,
        s.channels.len() > 0,
        s.channels.no_duplicates(),
        !(c is Ping),
    ensures
        session_step(s, CommandSpec::Normal(c), password, st, ps, now, o) == unchanged(
            seq![RespSpec::Error("Can't execute command in subscribed mode"@)],
            s,
            st,
            ps,
        ),
        ({
            let u = session_step(s, CommandSpec::Session(SessionSpec::Unsubscribe(seq![])), password, st, ps, now, o);
            &&& u.session.channels.len() == 0
            &&& u.session.is_authed
            &&& u.store == st
            &&& !u.close
            &&& session_step(u.session, CommandSpec::Normal(c), password, u.store, u.pubsub, now, o) == ({
                let (r, st1, ps1) = normal_step(c, st, u.pubsub, now, o);
                unchanged(seq![r], u.session, st1, ps1)
            })
        }),
{
    let id = s.client_id;
    lemma_unsubscribe_list_leaves(id, s.channels, s.channels, ps);
    let left = unsubscribe_list(id, s.channels, s.channels, ps).1;
    if left.len() > 0 {
        assert(left.contains(left[0]));
        assert(s.channels.contains(left[0]));
    }
    let u = session_step(s, CommandSpec::Session(SessionSpec::Unsubscribe(seq![])), password, st, ps, now, o);
    assert(u.session.channels == left);
}

/// Once a client has subscribed to a channel, a publish on that channel hands the
/// message to the client's own queue, the one its connection reads, whatever the
/// queues answer.
pub proof fn law_publish_offers_to_subscriber_queue(
    s: SessionView,
    ch: Seq<char>,
    m: Seq<char>,
    password: Option<Seq<char>>,
    st: Map<Seq<char>, EntrySpec>,
    ps: Map<Seq<char>, Seq<u64>>,
    q: Queues,
    now: u128,
    o: Seq<SendOutcome>,
    answers: Seq<SendOutcome>,
)
    requires
        s.is_authed,
    ensures
        ({
            let cmd = CommandSpec::Session(SessionSpec::Subscribe(seq![ch]));
            let r = session_step(s, cmd, password, st, ps, now, o);
            let q1 = queues_after(s, cmd, q);
            let subs = subscribers(r.pubsub, ch);
            answers.len() == subs.len() ==> exists|k: int|
                0 <= k < subs.len() && #[trigger] deliveries(subs, (ch, m), ch, q1, answers)[k] == (s.queue, (ch, m), answers[k])
        }),
{
    let chans = seq![ch];
    let id = s.client_id;
    assert(chans.drop_last() =~= Seq::<Seq<char>>::empty());
    assert(chans.last() == ch);
    assert(subscribe_list(id, Seq::<Seq<char>>::empty(), s.channels, ps) == (Seq::<RespSpec>::empty(), s.channels, ps));
    let ps1 = subscribe_spec(ps, id, ch);
    assert(subscribe_list(id, chans, s.channels, ps).2 == ps1);
    let cmd = CommandSpec::Session(SessionSpec::Subscribe(chans));
    let r = session_step(s, cmd, password, st, ps, now, o);
    assert(r.pubsub == ps1);
    crate::pubsub::law_subscribe_adds(ps, id, ch, ch);
    let subs = subscribers(ps1, ch);
    assert(subs.contains(id));
    let k = choose|k: int| 0 <= k < subs.len() && subs[k] == id;
    let q1 = queues_after(s, cmd, q);
    assert(register_all(q, Seq::<Seq<char>>::empty(), id, s.queue, s.signal) == q);
    assert(q1 == q.insert((ch, id), (s.queue, s.signal)));
    if answers.len() == subs.len() {
        let d = deliveries(subs, (ch, m), ch, q1, answers);
        assert(d[k] == (s.queue, (ch, m), answers[k]));
    }
}

proof fn lemma_subscribe_list_counts(id: u64, chans: Seq<Seq<char>>, mine: Seq<Seq<char>>, ps: Map<Seq<char>, Seq<u64>>)
    requires
        mine.no_duplicates(),
    ensures
        ({
            let (rs, mine2, _) = subscribe_list(id, chans, mine, ps);
            &&& rs.len() == chans.len()
            &&& mine2.no_duplicates()
            &&& mine2.to_set() == (mine + chans).to_set()
            &&& forall|i: int| 0 <= i < chans.len() ==> #[trigger] rs[i] == subscribe_reply_spec(
                chans[i],
                (mine + chans.take(i + 1)).to_set().len(),
            )
        }),
    decreases chans.len(),
{
    if chans.len() == 0 {
        assert(mine + chans =~= mine);
    } else {
        let init = chans.drop_last();
        let ch = chans.last();
        lemma_subscribe_list_counts(id, init, mine, ps);
        let (rs1, mine1, ps1) = subscribe_list(id, init, mine, ps);
        let mine2 = add_channel(mine1, ch);
        let (rs, m2, _) = subscribe_list(id, chans, mine, ps);
        assert(m2 == mine2);
        assert(mine + chans =~= (mine + init).push(ch));
        (mine + init).lemma_push_to_set_commute(ch);
        if mine1.contains(ch) {
            assert(mine1.to_set().contains(ch));
            assert(mine1.to_set().insert(ch) =~= mine1.to_set());
        } else {
            mine1.lemma_push_to_set_commute(ch);
            assert forall|a: int, b: int| 0 <= a < mine2.len() && 0 <= b < mine2.len() && a != b implies mine2[a] != mine2[b] by {
                if a == mine1.len() as int {
                    assert(mine1.contains(mine1[b]));
                } else if b == mine1.len() as int {
                    assert(mine1.contains(mine1[a]));
                }
            }
        }
        assert(mine2.to_set() == (mine + chans).to_set());
        mine2.unique_seq_to_set();
        assert forall|i: int| 0 <= i < chans.len() implies #[trigger] rs[i] == subscribe_reply_spec(
            chans[i],
            (mine + chans.take(i + 1)).to_set().len(),
        ) by {
            if i < init.len() {
                assert(rs[i] == rs1[i]);
                assert(init.take(i + 1) =~= chans.take(i + 1));
                assert(init[i] == chans[i]);
            } else {
                assert(chans.take(i + 1) =~= chans);
            }
        }
    }
}

/// The count in each reply to SUBSCRIBE is the number of channels the client is
/// subscribed to once that channel is added: its channels before the command and
/// the channels named so far, each counted once. After the command the client is
/// subscribed to exactly its earlier channels and the ones named, each once.
pub proof fn law_subscribe_counts(
    s: SessionView,
    chans: Seq<Seq<char>>,
    password: Option<Seq<char>>,
    st: Map<Seq<char>, EntrySpec>,
    ps: Map<Seq<char>, Seq<u64>>,
    now: u128,
    o: Seq<SendOutcome>,
)
    requires
        s.is_authed,
        s.channels.no_duplicates(),
    ensures
        ({
            let r = session_step(s, CommandSpec::Session(SessionSpec::Subscribe(chans)), password, st, ps, now, o);
            &&& r.replies.len() == chans.len()
            &&& forall|i: int| 0 <= i < chans.len() ==> #[trigger] r.replies[i] == subscribe_reply_spec(
                chans[i],
                (s.channels + chans.take(i + 1)).to_set().len(),
            )
            &&& r.session.channels.no_duplicates()
            &&& r.session.channels.to_set() == (s.channels + chans).to_set()
        }),
{
    lemma_subscribe_list_counts(s.client_id, chans, s.channels, ps);
}

proof fn lemma_without_to_set(s: Seq<Seq<char>>, ch: Seq<char>)
    requires
        s.no_duplicates(),
    ensures
        without(s, ch).no_duplicates(),
        without(s, ch).to_set() == s.to_set().remove(ch),
{
    lemma_without_no_dup(s, ch);
    let w = without(s, ch);
    if s.contains(ch) {
        let j = choose|j: int| 0 <= j < s.len() && s[j] == ch;
        lemma_without_at(s, j, ch);
        assert forall|x: Seq<char>| s.to_set().remove(ch).contains(x) implies w.to_set().contains(x) by {
            let a = choose|a: int| 0 <= a < s.len() && s[a] == x;
            if a < j {
                assert(w[a] == x);
            } else {
                assert(a != j);
                assert(w[a - 1] == x);
            }
        }
    } else {
        lemma_without_absent(s, ch);
    }
    assert(w.to_set() =~= s.to_set().remove(ch));
}

proof fn lemma_unsubscribe_list_counts(id: u64, chans: Seq<Seq<char>>, mine: Seq<Seq<char>>, ps: Map<Seq<char>, Seq<u64>>)
    requires
        mine.no_duplicates(),
    ensures
        ({
            let (rs, mine2, _) = unsubscribe_list(id, chans, mine, ps);
            &&& rs.len() == chans.len()
            &&& mine2.no_duplicates()
            &&& mine2.to_set() == mine.to_set().difference(chans.to_set())
            &&& forall|i: int| 0 <= i < chans.len() ==> #[trigger] rs[i] == unsubscribe_reply_spec(
                Some(chans[i]),
                mine.to_set().difference(chans.take(i + 1).to_set()).len(),
            )
        }),
    decreases chans.len(),
{
    if chans.len() == 0 {
        assert(mine.to_set().difference(chans.to_set()) =~= mine.to_set());
    } else {
        let init = chans.drop_last();
        let ch = chans.last();
        lemma_unsubscribe_list_counts(id, init, mine, ps);
        let (rs1, mine1, ps1) = unsubscribe_list(id, init, mine, ps);
        let mine2 = without(mine1, ch);
        let (rs, m2, _) = unsubscribe_list(id, chans, mine, ps);
        assert(m2 == mine2);
        lemma_without_to_set(mine1, ch);
        assert(chans =~= init.push(ch));
        init.lemma_push_to_set_commute(ch);
        assert(mine2.to_set() =~= mine.to_set().difference(chans.to_set()));
        mine2.unique_seq_to_set();
        assert forall|i: int| 0 <= i < chans.len() implies #[trigger] rs[i] == unsubscribe_reply_spec(
            Some(chans[i]),
            mine.to_set().difference(chans.take(i + 1).to_set()).len(),
        ) by {
            if i < init.len() {
                assert(rs[i] == rs1[i]);
                assert(init.take(i + 1) =~= chans.take(i + 1));
                assert(init[i] == chans[i]);
            } else {
                assert(chans.take(i + 1) =~= chans);
            }
        }
    }
}

/// The count in each reply to UNSUBSCRIBE is the number of channels the client is
/// still subscribed to once that channel is dropped: its channels before the command
/// less the channels named so far (all of its channels when none is named). After
/// the command the client is subscribed to exactly the channels not named, each once;
/// with no channel named and none subscribed, the one reply counts zero.
pub proof fn law_unsubscribe_counts(
    s: SessionView,
    chans: Seq<Seq<char>>,
    password: Option<Seq<char>>,
    st: Map<Seq<char>, EntrySpec>,
    ps: Map<Seq<char>, Seq<u64>>,
    now: u128,
    o: Seq<SendOutcome>,
)
    requires
        s.is_authed,
        s.channels.no_duplicates(),
    ensures
        ({
            let r = session_step(s, CommandSpec::Session(SessionSpec::Unsubscribe(chans)), password, st, ps, now, o);
            let todo = if chans.len() == 0 {
                s.channels
            } else {
                chans
            };
            &&& todo.len() == 0 ==> r.replies == seq![unsubscribe_reply_spec(None, 0)]
            &&& todo.len() > 0 ==> r.replies.len() == todo.len()
            &&& forall|i: int| 0 <= i < todo.len() ==> #[trigger] r.replies[i] == unsubscribe_reply_spec(
                Some(todo[i]),
                s.channels.to_set().difference(todo.take(i + 1).to_set()).len(),
            )
            &&& r.session.channels.no_duplicates()
            &&& r.session.channels.to_set() == s.channels.to_set().difference(todo.to_set())
        }),
{
    let todo = if chans.len() == 0 {
        s.channels
    } else {
        chans
    };
    lemma_unsubscribe_list_counts(s.client_id, todo, s.channels, ps);
    if todo.len() == 0 {
        assert(s.channels.to_set().difference(todo.to_set()) =~= s.channels.to_set());
    }
}

} // verus!
