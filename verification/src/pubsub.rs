//! Channels, the clients subscribed to them, and the delivery of published messages.
use tokio::sync::mpsc::{Sender, UnboundedSender};
use vstd::prelude::*;

pub use crate::queues::SendOutcome;
use crate::queues::{send_signal, try_send, Delivery, QueueLog};
use crate::seqs::without;

verus! {

pub type ClientId = u64;

/// The number of messages that may wait for a subscriber before it counts as too slow.
pub const PUBSUB_BUFFER_SIZE: usize = 1024;

/// A message published on a channel.
#[derive(Debug)]
pub struct PubSubMessage {
    pub channel: String,
    pub message: String,
}

impl View for PubSubMessage {
    type V = (Seq<char>, Seq<char>);

    open spec fn view(&self) -> (Seq<char>, Seq<char>) {
        (self.channel@, self.message@)
    }
}

impl PubSubMessage {
    /// The message `message` published on the channel `channel`.
    pub fn new(channel: String, message: String) -> (m: PubSubMessage)
        ensures
            m@ == (channel@, message@),
    {
        PubSubMessage { channel, message }
    }

    pub fn copy(&self) -> (m: PubSubMessage)
        ensures
            m.channel@ == self.channel@,
            m.message@ == self.message@,
    {
        PubSubMessage { channel: self.channel.clone(), message: self.message.clone() }
    }
}

// ---------------------------------------------------------------------------
// The model
// ---------------------------------------------------------------------------

/// The channel names with their subscribers, each name once.
pub open spec fn distinct_names(cs: Seq<(Seq<char>, Seq<u64>)>) -> bool {
    forall|i: int, j: int| 0 <= i < cs.len() && 0 <= j < cs.len() && i != j ==> #[trigger] cs[i].0 != #[trigger] cs[j].0
}

pub open spec fn index_of(cs: Seq<(Seq<char>, Seq<u64>)>, k: Seq<char>) -> int {
    choose|i: int| 0 <= i < cs.len() && cs[i].0 == k
}

/// The subscribers of each channel, by name.
pub open spec fn pairs_map(cs: Seq<(Seq<char>, Seq<u64>)>) -> Map<Seq<char>, Seq<u64>> {
    Map::new(
        |k: Seq<char>| exists|i: int| 0 <= i < cs.len() && #[trigger] cs[i].0 == k,
        |k: Seq<char>| cs[index_of(cs, k)].1,
    )
}

/// The subscribers with the client added at the end, unless it is there already.
pub open spec fn add_client(s: Seq<u64>, id: u64) -> Seq<u64> {
    if s.contains(id) {
        s
    } else {
        s.push(id)
    }
}

/// The subscribers without the client.
pub open spec fn remove_client(s: Seq<u64>, id: u64) -> Seq<u64> {
    without(s, id)
}

/// The subscribers of a channel; none when there is no such channel.
pub open spec fn subscribers(m: Map<Seq<char>, Seq<u64>>, ch: Seq<char>) -> Seq<u64> {
    if m.contains_key(ch) {
        m[ch]
    } else {
        seq![]
    }
}

/// The map with the channel's subscribers replaced; a channel without subscribers
/// is dropped.
pub open spec fn with_subscribers(m: Map<Seq<char>, Seq<u64>>, ch: Seq<char>, s: Seq<u64>) -> Map<
    Seq<char>,
    Seq<u64>,
> {
    if s.len() == 0 {
        m.remove(ch)
    } else {
        m.insert(ch, s)
    }
}

pub open spec fn subscribe_spec(m: Map<Seq<char>, Seq<u64>>, id: u64, ch: Seq<char>) -> Map<
    Seq<char>,
    Seq<u64>,
> {
    m.insert(ch, add_client(subscribers(m, ch), id))
}

pub open spec fn unsubscribe_spec(m: Map<Seq<char>, Seq<u64>>, id: u64, ch: Seq<char>) -> Map<
    Seq<char>,
    Seq<u64>,
> {
    if m.contains_key(ch) {
        with_subscribers(m, ch, remove_client(m[ch], id))
    } else {
        m
    }
}

/// The client taken out of every channel; channels left without subscribers dropped.
pub open spec fn unsubscribe_all_spec(m: Map<Seq<char>, Seq<u64>>, id: u64) -> Map<
    Seq<char>,
    Seq<u64>,
> {
    Map::new(
        |k: Seq<char>| m.contains_key(k) && remove_client(m[k], id).len() > 0,
        |k: Seq<char>| remove_client(m[k], id),
    )
}

/// The client taken out of the channels in `p`; those of them left without
/// subscribers dropped.
pub open spec fn partial_unsubscribe(m: Map<Seq<char>, Seq<u64>>, id: u64, p: Set<Seq<char>>) -> Map<
    Seq<char>,
    Seq<u64>,
> {
    Map::new(
        |k: Seq<char>| m.contains_key(k) && (p.contains(k) ==> remove_client(m[k], id).len() > 0),
        |k: Seq<char>| if p.contains(k) {
            remove_client(m[k], id)
        } else {
            m[k]
        },
    )
}

/// The subscribers to whom the message was delivered, in order.
pub open spec fn delivered_to(s: Seq<u64>, o: Seq<SendOutcome>) -> Seq<u64>
    decreases s.len(),
{
    if s.len() == 0 {
        seq![]
    } else {
        let init = delivered_to(s.drop_last(), o);
        if o[s.len() - 1] == SendOutcome::Delivered {
            init.push(s.last())
        } else {
            init
        }
    }
}

proof fn lemma_delivered_no_dup(s: Seq<u64>, o: Seq<SendOutcome>)
    requires
        s.no_duplicates(),
    ensures
        delivered_to(s, o).no_duplicates(),
        forall|x: u64| #[trigger] delivered_to(s, o).contains(x) ==> s.contains(x),
    decreases s.len(),
{
    if s.len() > 0 {
        let init = s.drop_last();
        assert(init.no_duplicates()) by {
            assert forall|a: int, b: int| 0 <= a < init.len() && 0 <= b < init.len() && a != b implies init[a] != init[b] by {
                assert(s[a] != s[b]);
            }
        }
        lemma_delivered_no_dup(init, o);
        let r0 = delivered_to(init, o);
        assert forall|x: u64| #[trigger] delivered_to(s, o).contains(x) implies s.contains(x) by {
            if r0.contains(x) {
                assert(init.contains(x));
                let k = choose|k: int| 0 <= k < init.len() && init[k] == x;
                assert(s[k] == x);
            } else {
                assert(s[s.len() - 1] == x);
            }
        }
        if o[s.len() - 1] == SendOutcome::Delivered {
            assert(!r0.contains(s.last())) by {
                if r0.contains(s.last()) {
                    assert(init.contains(s.last()));
                    let k = choose|k: int| 0 <= k < init.len() && init[k] == s.last();
                    assert(s[k] == s[s.len() - 1]);
                }
            }
            let r = r0.push(s.last());
            assert forall|a: int, b: int| 0 <= a < r.len() && 0 <= b < r.len() && a != b implies r[a] != r[b] by {
                if a < r0.len() && b < r0.len() {
                } else if a < r0.len() {
                    assert(r0.contains(r0[a]));
                } else if b < r0.len() {
                    assert(r0.contains(r0[b]));
                }
            }
        }
    }
}

/// A publish in which the subscribers' queues answered `o`, in the order of the
/// subscribers: the number of deliveries, and the subscribers that remain — those
/// whose queue took the message.
pub open spec fn publish_spec(m: Map<Seq<char>, Seq<u64>>, ch: Seq<char>, o: Seq<SendOutcome>) -> (
    nat,
    Map<Seq<char>, Seq<u64>>,
) {
    if !m.contains_key(ch) {
        (0, m)
    } else {
        let kept = delivered_to(m[ch], o);
        (kept.len(), with_subscribers(m, ch, kept))
    }
}

/// The registry is well formed: every channel has subscribers, each once.
pub open spec fn registry_wf(m: Map<Seq<char>, Seq<u64>>) -> bool {
    forall|k: Seq<char>| #[trigger] m.contains_key(k) ==> m[k].len() > 0 && m[k].no_duplicates()
}

/// The positions, in order, of the queues that were full.
pub open spec fn full_indices(o: Seq<SendOutcome>) -> Seq<usize>
    decreases o.len(),
{
    if o.len() == 0 {
        seq![]
    } else if o.last() == SendOutcome::Full {
        full_indices(o.drop_last()).push((o.len() - 1) as usize)
    } else {
        full_indices(o.drop_last())
    }
}

/// The queues registered for each channel and client: the queue its messages go to,
/// and the queue on which it is told that it was too slow.
pub type Queues = Map<(Seq<char>, u64), (Sender<PubSubMessage>, UnboundedSender<()>)>;

/// The queues of the subscribers `s` of channel `ch` on which they are told that
/// they were too slow, for those whose queue was full by the answers `o`, in order.
pub open spec fn slow_queues(s: Seq<u64>, o: Seq<SendOutcome>, ch: Seq<char>, q: Queues) -> Seq<UnboundedSender<()>> {
    full_indices(o).map_values(|i: usize| q[(ch, s[i as int])].1)
}

/// The message `m` handed once to the registered queue of each of the subscribers
/// `s` of channel `ch`, in order, the queue answering `o[i]` to the `i`-th.
pub open spec fn deliveries(s: Seq<u64>, m: (Seq<char>, Seq<char>), ch: Seq<char>, q: Queues, o: Seq<SendOutcome>) -> Seq<Delivery> {
    Seq::new(s.len(), |i: int| (q[(ch, s[i])].0, m, o[i]))
}

pub struct PubSubView {
    pub next_client_id: u64,
    pub channels: Map<Seq<char>, Seq<u64>>,
    /// The queues registered for each channel and client.
    pub queues: Queues,
    /// Every message handed to a subscriber's queue, with the queue and its answer,
    /// in the order they were handed over.
    pub sent: Seq<Delivery>,
    /// Every queue on which a client was told that it was too slow, in order.
    pub signalled: Seq<UnboundedSender<()>>,
}

// ---------------------------------------------------------------------------
// The registry
// ---------------------------------------------------------------------------

/// The queues through which a client receives messages and learns that it was too slow.
pub struct Subscriber {
    messages: Sender<PubSubMessage>,
    disconnect: UnboundedSender<()>,
}

struct ChannelSubs {
    name: String,
    clients: Vec<ClientId>,
    subscribers: Vec<Subscriber>,
}

/// The channels with their subscribers. The registry is a `Vec` of channels, each
/// holding its clients and their queues side by side, with each name and each client
/// once (`wf`); it stands in for a map keyed by channel name, because a map keyed by
/// strings gives a proof nothing to work with. Beside them stand, as ghost state, the
/// queues registered for each channel and client, and the record of every call that
/// handed something to a queue.
pub struct PubSub {
    next_client_id: u64,
    channels: Vec<ChannelSubs>,
    queues: Ghost<Queues>,
    log: QueueLog,
}

/// The queues of each subscriber of the channel are those registered for it.
spec fn queues_match(q: Queues, c: ChannelSubs) -> bool {
    forall|j: int|
        0 <= j < c.clients@.len() ==> q.contains_key((c.name@, #[trigger] c.clients@[j])) && q[(
            c.name@,
            c.clients@[j],
        )] == (c.subscribers@[j].messages, c.subscribers@[j].disconnect)
}

proof fn lemma_queues_insert_other(
    q: Queues,
    c: ChannelSubs,
    k: (Seq<char>, u64),
    v: (Sender<PubSubMessage>, UnboundedSender<()>),
)
    requires
        queues_match(q, c),
        !(k.0 == c.name@ && c.clients@.contains(k.1)),
    ensures
        queues_match(q.insert(k, v), c),
{
    assert forall|j: int| 0 <= j < c.clients@.len() implies q.insert(k, v).contains_key((c.name@, #[trigger] c.clients@[j])) && q.insert(k, v)[(
        c.name@,
        c.clients@[j],
    )] == (c.subscribers@[j].messages, c.subscribers@[j].disconnect) by {
        if (c.name@, c.clients@[j]) == k {
            assert(c.clients@.contains(c.clients@[j]));
        }
    }
}

spec fn chan_pairs(cs: Seq<ChannelSubs>) -> Seq<(Seq<char>, Seq<u64>)> {
    cs.map_values(|c: ChannelSubs| (c.name@, c.clients@))
}

impl View for PubSub {
    type V = PubSubView;

    closed spec fn view(&self) -> PubSubView {
        PubSubView {
            next_client_id: self.next_client_id,
            channels: pairs_map(chan_pairs(self.channels@)),
            queues: self.queues@,
            sent: self.log@.sent,
            signalled: self.log@.signalled,
        }
    }
}

proof fn lemma_pairs_lookup(cs: Seq<(Seq<char>, Seq<u64>)>, i: int)
    requires
        distinct_names(cs),
        0 <= i < cs.len(),
    ensures
        pairs_map(cs).contains_key(cs[i].0),
        pairs_map(cs)[cs[i].0] == cs[i].1,
{
    let k = cs[i].0;
    assert(exists|j: int| 0 <= j < cs.len() && #[trigger] cs[j].0 == k);
    let j = index_of(cs, k);
    assert(cs[j].0 == k);
    if j != i {
        assert(cs[i].0 != cs[j].0);
    }
}

proof fn lemma_pairs_absent(cs: Seq<(Seq<char>, Seq<u64>)>, k: Seq<char>)
    requires
        forall|i: int| 0 <= i < cs.len() ==> #[trigger] cs[i].0 != k,
    ensures
        !pairs_map(cs).contains_key(k),
{
}

proof fn lemma_pairs_update(cs: Seq<(Seq<char>, Seq<u64>)>, i: int, v: Seq<u64>)
    requires
        distinct_names(cs),
        0 <= i < cs.len(),
    ensures
        distinct_names(cs.update(i, (cs[i].0, v))),
        pairs_map(cs.update(i, (cs[i].0, v))) == pairs_map(cs).insert(cs[i].0, v),
{
    let cs2 = cs.update(i, (cs[i].0, v));
    assert forall|a: int, b: int| 0 <= a < cs2.len() && 0 <= b < cs2.len() && a != b implies #[trigger] cs2[a].0 != #[trigger] cs2[b].0 by {
        assert(cs2[a].0 == cs[a].0);
        assert(cs2[b].0 == cs[b].0);
        assert(cs[a].0 != cs[b].0);
    }
    assert forall|k: Seq<char>| #[trigger] pairs_map(cs2).contains_key(k) == pairs_map(cs).insert(cs[i].0, v).contains_key(k) by {
        if pairs_map(cs).contains_key(k) {
            let j = choose|j: int| 0 <= j < cs.len() && #[trigger] cs[j].0 == k;
            assert(cs2[j].0 == k);
        }
        if pairs_map(cs2).contains_key(k) {
            let j = choose|j: int| 0 <= j < cs2.len() && #[trigger] cs2[j].0 == k;
            assert(cs[j].0 == k);
        }
        assert(cs2[i].0 == cs[i].0);
    }
    assert forall|k: Seq<char>| #[trigger] pairs_map(cs2).contains_key(k) implies pairs_map(cs2)[k] == pairs_map(cs).insert(cs[i].0, v)[k] by {
        let j = choose|j: int| 0 <= j < cs2.len() && #[trigger] cs2[j].0 == k;
        lemma_pairs_lookup(cs2, j);
        if j != i {
            assert(cs2[j] == cs[j]);
            lemma_pairs_lookup(cs, j);
            assert(k != cs[i].0);
        }
    }
    assert(pairs_map(cs2) =~= pairs_map(cs).insert(cs[i].0, v));
}

proof fn lemma_pairs_push(cs: Seq<(Seq<char>, Seq<u64>)>, k: Seq<char>, v: Seq<u64>)
    requires
        distinct_names(cs),
        !pairs_map(cs).contains_key(k),
    ensures
        distinct_names(cs.push((k, v))),
        pairs_map(cs.push((k, v))) == pairs_map(cs).insert(k, v),
{
    let cs2 = cs.push((k, v));
    assert forall|i: int| 0 <= i < cs.len() implies #[trigger] cs[i].0 != k by {
        if cs[i].0 == k {
            assert(pairs_map(cs).contains_key(k));
        }
    }
    assert forall|a: int, b: int| 0 <= a < cs2.len() && 0 <= b < cs2.len() && a != b implies #[trigger] cs2[a].0 != #[trigger] cs2[b].0 by {
        if a < cs.len() && b < cs.len() {
            assert(cs[a].0 != cs[b].0);
        } else if a < cs.len() {
            assert(cs[a].0 != k);
        } else if b < cs.len() {
            assert(cs[b].0 != k);
        }
    }
    assert forall|q: Seq<char>| #[trigger] pairs_map(cs2).contains_key(q) == pairs_map(cs).insert(k, v).contains_key(q) by {
        if pairs_map(cs).contains_key(q) {
            let j = choose|j: int| 0 <= j < cs.len() && #[trigger] cs[j].0 == q;
            assert(cs2[j].0 == q);
        }
        if pairs_map(cs2).contains_key(q) {
            let j = choose|j: int| 0 <= j < cs2.len() && #[trigger] cs2[j].0 == q;
            if j < cs.len() {
                assert(cs[j].0 == q);
            }
        }
        assert(cs2[cs.len() as int].0 == k);
    }
    assert forall|q: Seq<char>| #[trigger] pairs_map(cs2).contains_key(q) implies pairs_map(cs2)[q] == pairs_map(cs).insert(k, v)[q] by {
        let j = choose|j: int| 0 <= j < cs2.len() && #[trigger] cs2[j].0 == q;
        lemma_pairs_lookup(cs2, j);
        if j < cs.len() {
            assert(cs2[j] == cs[j]);
            lemma_pairs_lookup(cs, j);
        }
    }
    assert(pairs_map(cs2) =~= pairs_map(cs).insert(k, v));
}

proof fn lemma_pairs_remove(cs: Seq<(Seq<char>, Seq<u64>)>, i: int)
    requires
        distinct_names(cs),
        0 <= i < cs.len(),
    ensures
        distinct_names(cs.remove(i)),
        pairs_map(cs.remove(i)) == pairs_map(cs).remove(cs[i].0),
{
    let cs2 = cs.remove(i);
    let k = cs[i].0;
    assert forall|a: int, b: int| 0 <= a < cs2.len() && 0 <= b < cs2.len() && a != b implies #[trigger] cs2[a].0 != #[trigger] cs2[b].0 by {
        let a1 = if a < i { a } else { a + 1 };
        let b1 = if b < i { b } else { b + 1 };
        assert(cs2[a] == cs[a1]);
        assert(cs2[b] == cs[b1]);
        assert(cs[a1].0 != cs[b1].0);
    }
    assert forall|q: Seq<char>| #[trigger] pairs_map(cs2).contains_key(q) == pairs_map(cs).remove(k).contains_key(q) by {
        if pairs_map(cs2).contains_key(q) {
            let j = choose|j: int| 0 <= j < cs2.len() && #[trigger] cs2[j].0 == q;
            let j1 = if j < i { j } else { j + 1 };
            assert(cs2[j] == cs[j1]);
            assert(cs[j1].0 == q);
            assert(cs[i].0 != cs[j1].0);
        }
        if pairs_map(cs).contains_key(q) && q != k {
            let j = choose|j: int| 0 <= j < cs.len() && #[trigger] cs[j].0 == q;
            assert(j != i);
            let j2 = if j < i { j } else { j - 1 };
            assert(cs2[j2] == cs[j]);
            assert(cs2[j2].0 == q);
        }
    }
    assert forall|q: Seq<char>| #[trigger] pairs_map(cs2).contains_key(q) implies pairs_map(cs2)[q] == pairs_map(cs).remove(k)[q] by {
        let j = choose|j: int| 0 <= j < cs2.len() && #[trigger] cs2[j].0 == q;
        lemma_pairs_lookup(cs2, j);
        let j1 = if j < i { j } else { j + 1 };
        assert(cs2[j] == cs[j1]);
        lemma_pairs_lookup(cs, j1);
    }
    assert(pairs_map(cs2) =~= pairs_map(cs).remove(k));
}

impl PubSub {
    /// The registry is well formed: channel names once each, every channel with its
    /// subscribers once each and a queue for each of them.
    pub closed spec fn wf(&self) -> bool {
        &&& distinct_names(chan_pairs(self.channels@))
        &&& forall|i: int| 0 <= i < self.channels@.len() ==> queues_match(self.queues@, #[trigger] self.channels@[i])
        &&& forall|i: int|
            0 <= i < self.channels@.len() ==> {
                let c = #[trigger] self.channels@[i];
                &&& c.clients@.len() > 0
                &&& c.clients@.no_duplicates()
                &&& c.subscribers@.len() == c.clients@.len()
            }
    }

    proof fn lemma_wf(&self)
        requires
            self.wf(),
        ensures
            registry_wf(self@.channels),
    {
        let cs = chan_pairs(self.channels@);
        assert forall|k: Seq<char>| #[trigger] self@.channels.contains_key(k) implies self@.channels[k].len() > 0 && self@.channels[k].no_duplicates() by {
            let j = choose|j: int| 0 <= j < cs.len() && #[trigger] cs[j].0 == k;
            lemma_pairs_lookup(cs, j);
            assert(self.channels@[j].clients@ == cs[j].1);
        }
    }

    /// An empty registry; client numbers start at 1.
    pub fn new() -> (p: PubSub)
        ensures
            p.wf(),
            p@.next_client_id == 1,
            p@.channels == Map::<Seq<char>, Seq<u64>>::empty(),
            p@.queues == Map::<(Seq<char>, u64), (Sender<PubSubMessage>, UnboundedSender<()>)>::empty(),
            p@.sent == Seq::<Delivery>::empty(),
            p@.signalled == Seq::<UnboundedSender<()>>::empty(),
    {
        let p = PubSub {
            next_client_id: 1,
            channels: Vec::new(),
            queues: Ghost(Map::empty()),
            log: QueueLog::new(),
        };
        proof {
            assert(p@.channels =~= Map::<Seq<char>, Seq<u64>>::empty());
        }
        p
    }

    /// A fresh client number: the counter's value, after which it moves on by one
    /// (past the largest number it starts again at 0).
    pub fn next_client_id(&mut self) -> (id: ClientId)
        requires
            old(self).wf(),
        ensures
            final(self).wf(),
            id == old(self)@.next_client_id,
            final(self)@.next_client_id == (if id == u64::MAX { 0 } else { id + 1 }),
            final(self)@.channels == old(self)@.channels,
            final(self)@.queues == old(self)@.queues,
            final(self)@.sent == old(self)@.sent,
            final(self)@.signalled == old(self)@.signalled,
    {
        let id = self.next_client_id;
        self.next_client_id = if id == u64::MAX {
            0
        } else {
            id + 1
        };
        id
    }

    fn find_channel(&self, channel: &String) -> (r: Option<usize>)
        requires
            self.wf(),
        ensures
            match r {
                Some(i) => i < self.channels@.len() && self.channels@[i as int].name@ == channel@,
                None => !self@.channels.contains_key(channel@),
            },
    {
        let mut i: usize = 0;
        while i < self.channels.len()
            invariant
                i <= self.channels@.len(),
                forall|j: int| 0 <= j < i ==> #[trigger] self.channels@[j].name@ != channel@,
            decreases self.channels.len() - i,
        {
            if self.channels[i].name == *channel {
                return Some(i);
            }
            i += 1;
        }
        proof {
            let cs = chan_pairs(self.channels@);
            assert forall|j: int| 0 <= j < cs.len() implies #[trigger] cs[j].0 != channel@ by {
                assert(cs[j].0 == self.channels@[j].name@);
            }
            lemma_pairs_absent(cs, channel@);
        }
        None
    }

    /// Registers the client, with its queues, as a subscriber of the channel; a client
    /// already there keeps its place and gets the new queues.
    pub fn subscribe(
        &mut self,
        client_id: ClientId,
        channel: String,
        messages: Sender<PubSubMessage>,
        disconnect: UnboundedSender<()>,
    )
        requires
            old(self).wf(),
        ensures
            final(self).wf(),
            final(self)@.channels == subscribe_spec(old(self)@.channels, client_id, channel@),
            final(self)@.next_client_id == old(self)@.next_client_id,
            final(self)@.queues == old(self)@.queues.insert((channel@, client_id), (messages, disconnect)),
            final(self)@.sent == old(self)@.sent,
            final(self)@.signalled == old(self)@.signalled,
    {
        let ghost cs0 = chan_pairs(self.channels@);
        let ghost q0 = self.queues@;
        let ghost v = (messages, disconnect);
        let sub = Subscriber { messages, disconnect };
        let found = self.find_channel(&channel);
        proof {
            self.queues@ = q0.insert((channel@, client_id), v);
        }
        match found {
            None => {
                let mut clients = Vec::new();
                clients.push(client_id);
                let mut subscribers = Vec::new();
                subscribers.push(sub);
                let c = ChannelSubs { name: channel, clients, subscribers };
                let ghost cl = c.clients@;
                self.channels.push(c);
                proof {
                    assert(chan_pairs(self.channels@) =~= cs0.push((channel@, cl)));
                    lemma_pairs_push(cs0, channel@, cl);
                    assert(cl =~= add_client(Seq::<u64>::empty(), client_id));
                    assert forall|i: int| 0 <= i < self.channels@.len() implies ({
                        let c = #[trigger] self.channels@[i];
                        &&& c.clients@.len() > 0
                        &&& c.clients@.no_duplicates()
                        &&& c.subscribers@.len() == c.clients@.len()
                    }) by {
                        if i < self.channels@.len() - 1 {
                            assert(self.channels@[i] == old(self).channels@[i]);
                        }
                    }
                    assert forall|i: int| 0 <= i < self.channels@.len() implies queues_match(self.queues@, #[trigger] self.channels@[i]) by {
                        if i < self.channels@.len() - 1 {
                            let ci = old(self).channels@[i];
                            assert(self.channels@[i] == ci);
                            lemma_pairs_lookup(cs0, i);
                            assert(cs0[i].0 == ci.name@);
                            lemma_queues_insert_other(q0, ci, (channel@, client_id), v);
                        } else {
                            let cn = self.channels@[i];
                            assert(cn.clients@ == seq![client_id]);
                            assert forall|j: int| 0 <= j < cn.clients@.len() implies self.queues@.contains_key((cn.name@, #[trigger] cn.clients@[j])) && self.queues@[(
                                cn.name@,
                                cn.clients@[j],
                            )] == (cn.subscribers@[j].messages, cn.subscribers@[j].disconnect) by {
                                assert(j == 0);
                            }
                        }
                    }
                }
            },
            Some(i) => {
                let mut c = self.channels.remove(i);
                let ghost c0 = c;
                proof {
                    assert(cs0[i as int].0 == channel@);
                    lemma_pairs_lookup(cs0, i as int);
                    assert(cs0[i as int].1 == c.clients@);
                    assert(c == old(self).channels@[i as int]);
                    assert(queues_match(q0, c0));
                    assert(c.subscribers@.len() == c.clients@.len() && c.clients@.no_duplicates());
                }
                let mut j: usize = 0;
                while j < c.clients.len()
                    invariant
                        j <= c.clients@.len(),
                        forall|l: int| 0 <= l < j ==> c.clients@[l] != client_id,
                    ensures
                        j <= c.clients@.len(),
                        forall|l: int| 0 <= l < j ==> c.clients@[l] != client_id,
                        j < c.clients@.len() ==> c.clients@[j as int] == client_id,
                    decreases c.clients.len() - j,
                {
                    if c.clients[j] == client_id {
                        break ;
                    }
                    j += 1;
                }
                let ghost before = c.clients@;
                if j < c.clients.len() {
                    c.subscribers.set(j, sub);
                    proof {
                        assert(before[j as int] == client_id);
                        assert(before.contains(client_id));
                    }
                } else {
                    c.clients.push(client_id);
                    c.subscribers.push(sub);
                    proof {
                        assert(!before.contains(client_id));
                    }
                }
                let ghost cl = c.clients@;
                self.channels.insert(i, c);
                proof {
                    assert(chan_pairs(self.channels@) =~= cs0.update(i as int, (channel@, cl)));
                    lemma_pairs_update(cs0, i as int, cl);
                    assert(cl == add_client(before, client_id));
                    assert forall|a: int, b: int| 0 <= a < cl.len() && 0 <= b < cl.len() && a != b implies cl[a] != cl[b] by {
                        if a < before.len() && b < before.len() {
                        } else if a < before.len() {
                            assert(before.contains(before[a]));
                        } else if b < before.len() {
                            assert(before.contains(before[b]));
                        }
                    }
                    assert forall|l: int| 0 <= l < self.channels@.len() implies ({
                        let c = #[trigger] self.channels@[l];
                        &&& c.clients@.len() > 0
                        &&& c.clients@.no_duplicates()
                        &&& c.subscribers@.len() == c.clients@.len()
                    }) by {
                        if l != i {
                            assert(self.channels@[l] == old(self).channels@[l]);
                        }
                    }
                    let cn = self.channels@[i as int];
                    assert(cn.name@ == channel@);
                    assert forall|l: int| 0 <= l < self.channels@.len() implies queues_match(self.queues@, #[trigger] self.channels@[l]) by {
                        if l != i {
                            let cl_ = old(self).channels@[l];
                            assert(self.channels@[l] == cl_);
                            lemma_pairs_lookup(cs0, l);
                            assert(cs0[l].0 == cl_.name@);
                            assert(cs0[l].0 != cs0[i as int].0);
                            lemma_queues_insert_other(q0, cl_, (channel@, client_id), v);
                        } else {
                            assert forall|p: int| 0 <= p < cn.clients@.len() implies self.queues@.contains_key((cn.name@, #[trigger] cn.clients@[p])) && self.queues@[(
                                cn.name@,
                                cn.clients@[p],
                            )] == (cn.subscribers@[p].messages, cn.subscribers@[p].disconnect) by {
                                if cn.clients@[p] == client_id {
                                    if j < before.len() {
                                        assert(cn.clients@[j as int] == client_id);
                                        assert(p == j);
                                    } else {
                                        assert(p == before.len()) by {
                                            if p < before.len() {
                                                assert(before[p] == client_id);
                                                assert(before.contains(client_id));
                                            }
                                        }
                                    }
                                } else {
                                    assert(p < before.len());
                                    assert(cn.clients@[p] == c0.clients@[p]);
                                    assert(cn.subscribers@[p] == c0.subscribers@[p]);
                                }
                            }
                        }
                    }
                }
            },
        }
    }

    /// Removes the client from the channel's subscribers; a channel left without
    /// subscribers is dropped.
    pub fn unsubscribe(&mut self, client_id: ClientId, channel: &str)
        requires
            old(self).wf(),
        ensures
            final(self).wf(),
            final(self)@.channels == unsubscribe_spec(old(self)@.channels, client_id, channel@),
            final(self)@.next_client_id == old(self)@.next_client_id,
            final(self)@.queues == old(self)@.queues,
            final(self)@.sent == old(self)@.sent,
            final(self)@.signalled == old(self)@.signalled,
    {
        let ghost cs0 = chan_pairs(self.channels@);
        let name = channel.to_string();
        match self.find_channel(&name) {
            None => {},
            Some(i) => {
                let mut c = self.channels.remove(i);
                proof {
                    lemma_pairs_lookup(cs0, i as int);
                    assert(cs0[i as int].1 == c.clients@);
                    assert(c.clients@.len() > 0 && c.clients@.no_duplicates() && c.subscribers@.len() == c.clients@.len()) by {
                        assert(c == old(self).channels@[i as int]);
                    }
                }
                let ghost before = c.clients@;
                let ghost c0 = c;
                proof {
                    assert(queues_match(self.queues@, c0));
                }
                let mut j: usize = 0;
                while j < c.clients.len()
                    invariant
                        j <= c.clients@.len(),
                        forall|l: int| 0 <= l < j ==> c.clients@[l] != client_id,
                    ensures
                        j <= c.clients@.len(),
                        forall|l: int| 0 <= l < j ==> c.clients@[l] != client_id,
                        j < c.clients@.len() ==> c.clients@[j as int] == client_id,
                    decreases c.clients.len() - j,
                {
                    if c.clients[j] == client_id {
                        break ;
                    }
                    j += 1;
                }
                if j < c.clients.len() {
                    c.clients.remove(j);
                    c.subscribers.remove(j);
                    proof {
                        crate::seqs::lemma_without_at(before, j as int, client_id);
                        assert forall|p: int| 0 <= p < c.clients@.len() implies self.queues@.contains_key((c.name@, #[trigger] c.clients@[p])) && self.queues@[(
                            c.name@,
                            c.clients@[p],
                        )] == (c.subscribers@[p].messages, c.subscribers@[p].disconnect) by {
                            let p1 = if p < j { p } else { p + 1 };
                            assert(c.clients@[p] == c0.clients@[p1]);
                            assert(c.subscribers@[p] == c0.subscribers@[p1]);
                        }
                        assert(queues_match(self.queues@, c));
                    }
                } else {
                    proof {
                        assert(!before.contains(client_id));
                        crate::seqs::lemma_without_absent(before, client_id);
                    }
                }
                proof {
                    crate::seqs::lemma_without_no_dup(before, client_id);
                }
                let ghost cl = c.clients@;
                if c.clients.len() == 0 {
                    proof {
                        assert(self.channels@ =~= old(self).channels@.remove(i as int));
                        assert(chan_pairs(self.channels@) =~= cs0.remove(i as int));
                        lemma_pairs_remove(cs0, i as int);
                        assert forall|l: int| 0 <= l < self.channels@.len() implies ({
                            let c = #[trigger] self.channels@[l];
                            &&& c.clients@.len() > 0
                            &&& c.clients@.no_duplicates()
                            &&& c.subscribers@.len() == c.clients@.len()
                        }) by {
                            let l1 = if l < i { l } else { l + 1 };
                            assert(self.channels@[l] == old(self).channels@[l1]);
                        }
                        assert forall|l: int| 0 <= l < self.channels@.len() implies queues_match(self.queues@, #[trigger] self.channels@[l]) by {
                            let l1 = if l < i { l } else { l + 1 };
                            assert(self.channels@[l] == old(self).channels@[l1]);
                        }
                    }
                } else {
                    self.channels.insert(i, c);
                    proof {
                        assert(chan_pairs(self.channels@) =~= cs0.update(i as int, (channel@, cl)));
                        lemma_pairs_update(cs0, i as int, cl);
                        assert forall|l: int| 0 <= l < self.channels@.len() implies ({
                            let c = #[trigger] self.channels@[l];
                            &&& c.clients@.len() > 0
                            &&& c.clients@.no_duplicates()
                            &&& c.subscribers@.len() == c.clients@.len()
                        }) by {
                            if l != i {
                                assert(self.channels@[l] == old(self).channels@[l]);
                            }
                        }
                        assert forall|l: int| 0 <= l < self.channels@.len() implies queues_match(self.queues@, #[trigger] self.channels@[l]) by {
                            if l != i {
                                assert(self.channels@[l] == old(self).channels@[l]);
                            }
                        }
                    }
                }
            },
        }
    }

    /// Removes the client from every channel; channels left without subscribers are
    /// dropped.
    pub fn unsubscribe_all(&mut self, client_id: ClientId)
        requires
            old(self).wf(),
        ensures
            final(self).wf(),
            final(self)@.channels == unsubscribe_all_spec(old(self)@.channels, client_id),
            final(self)@.next_client_id == old(self)@.next_client_id,
            final(self)@.queues == old(self)@.queues,
            final(self)@.sent == old(self)@.sent,
            final(self)@.signalled == old(self)@.signalled,
    {
        let ghost m0 = self@.channels;
        let ghost cs0 = chan_pairs(self.channels@);
        let mut names: Vec<String> = Vec::new();
        let mut i: usize = 0;
        while i < self.channels.len()
            invariant
                i <= self.channels@.len(),
                cs0 == chan_pairs(self.channels@),
                names@.len() == i,
                forall|l: int| 0 <= l < i ==> #[trigger] names@[l]@ == cs0[l].0,
            decreases self.channels.len() - i,
        {
            names.push(self.channels[i].name.clone());
            i += 1;
        }
        proof {
            self.lemma_wf();
        }
        let ghost nv = names@.map_values(|n: String| n@);
        let mut k: usize = 0;
        proof {
            assert(nv.take(0).to_set() =~= Set::<Seq<char>>::empty());
            assert(self@.channels =~= partial_unsubscribe(m0, client_id, nv.take(0).to_set()));
        }
        while k < names.len()
            invariant
                k <= names@.len(),
                names@.len() == cs0.len(),
                nv == names@.map_values(|n: String| n@),
                forall|l: int| 0 <= l < names@.len() ==> #[trigger] names@[l]@ == cs0[l].0,
                distinct_names(cs0),
                m0 == pairs_map(cs0),
                self.wf(),
                self@.next_client_id == old(self)@.next_client_id,
                self@.queues == old(self)@.queues,
                self@.sent == old(self)@.sent,
                self@.signalled == old(self)@.signalled,
                self@.channels == partial_unsubscribe(m0, client_id, nv.take(k as int).to_set()),
            decreases names.len() - k,
        {
            let ghost q0 = names@[k as int]@;
            let ghost p = nv.take(k as int).to_set();
            proof {
                lemma_pairs_lookup(cs0, k as int);
                assert(nv[k as int] == q0);
                assert(!p.contains(q0)) by {
                    if p.contains(q0) {
                        let l = choose|l: int| 0 <= l < k && nv.take(k as int)[l] == q0;
                        assert(nv[l] == names@[l]@);
                        assert(cs0[l].0 != cs0[k as int].0);
                    }
                }
                assert(nv.take(k + 1) =~= nv.take(k as int).push(q0));
                nv.take(k as int).lemma_push_to_set_commute(q0);
            }
            self.unsubscribe(client_id, names[k].as_str());
            proof {
                assert(self@.channels =~= partial_unsubscribe(m0, client_id, p.insert(q0)));
            }
            k += 1;
        }
        proof {
            assert(nv.take(k as int) =~= nv);
            assert forall|q: Seq<char>| m0.contains_key(q) implies nv.to_set().contains(q) by {
                let l = choose|l: int| 0 <= l < cs0.len() && #[trigger] cs0[l].0 == q;
                assert(nv[l] == names@[l]@);
            }
            assert(self@.channels =~= unsubscribe_all_spec(m0, client_id));
        }
    }

    /// Keeps, of the channel's subscribers, those whose queue took the message by the
    /// outcomes `outcomes` (in the order of the subscribers), drops the others, and
    /// returns the number kept; a channel left without subscribers is dropped.
    pub fn retain_delivered(&mut self, channel: &str, outcomes: &[SendOutcome]) -> (r: usize)
        requires
            old(self).wf(),
            outcomes@.len() == subscribers(old(self)@.channels, channel@).len(),
        ensures
            final(self).wf(),
            (r as nat, final(self)@.channels) == publish_spec(old(self)@.channels, channel@, outcomes@),
            final(self)@.next_client_id == old(self)@.next_client_id,
            final(self)@.queues == old(self)@.queues,
            final(self)@.sent == old(self)@.sent,
            final(self)@.signalled == old(self)@.signalled,
    {
        let ghost cs0 = chan_pairs(self.channels@);
        let name = channel.to_string();
        let i = match self.find_channel(&name) {
            None => {
                return 0;
            },
            Some(i) => i,
        };
        let mut c = self.channels.remove(i);
        let ghost before = c.clients@;
        let ghost subs0 = c.subscribers@;
        let ghost q = self.queues@;
        proof {
            lemma_pairs_lookup(cs0, i as int);
            assert(cs0[i as int].1 == before);
            assert(before.len() > 0 && before.no_duplicates() && c.subscribers@.len() == before.len()) by {
                assert(c == old(self).channels@[i as int]);
            }
            assert(c.name@ == channel@);
            assert(queues_match(q, c));
            assert(c.subscribers@.subrange(0, before.len() as int) =~= subs0);
        }
        let n = c.clients.len();
        let mut kept_clients: Vec<ClientId> = Vec::new();
        let mut kept_subs: Vec<Subscriber> = Vec::new();
        let mut j: usize = 0;
        while j < n
            invariant
                n == before.len(),
                j <= n,
                c.clients@ == before,
                c.name@ == channel@,
                self.channels@ == old(self).channels@.remove(i as int),
                c.subscribers@.len() == n - j,
                outcomes@.len() == n,
                kept_clients@ == delivered_to(before.take(j as int), outcomes@),
                kept_subs@.len() == kept_clients@.len(),
                subs0.len() == n,
                c.subscribers@ == subs0.subrange(j as int, n as int),
                q == self.queues@,
                q == old(self).queues@,
                forall|p: int| 0 <= p < before.len() ==> q.contains_key((channel@, #[trigger] before[p])) && q[(channel@, before[p])] == (subs0[p].messages, subs0[p].disconnect),
                forall|t: int| 0 <= t < kept_clients@.len() ==> q.contains_key((channel@, #[trigger] kept_clients@[t])) && q[(channel@, kept_clients@[t])] == (kept_subs@[t].messages, kept_subs@[t].disconnect),
            decreases n - j,
        {
            let sub = c.subscribers.remove(0);
            proof {
                assert(sub == subs0[j as int]);
                assert(c.subscribers@ =~= subs0.subrange(j + 1, n as int));
                assert(before.take(j + 1).drop_last() =~= before.take(j as int));
                assert(before.take(j + 1).last() == before[j as int]);
            }
            if outcomes[j] == SendOutcome::Delivered {
                kept_clients.push(c.clients[j]);
                kept_subs.push(sub);
            }
            j += 1;
        }
        proof {
            assert(before.take(n as int) =~= before);
            lemma_delivered_no_dup(before, outcomes@);
        }
        let count = kept_clients.len();
        let ghost cl = kept_clients@;
        if count == 0 {
            proof {
                assert(self.channels@ =~= old(self).channels@.remove(i as int));
                assert(chan_pairs(self.channels@) =~= cs0.remove(i as int));
                lemma_pairs_remove(cs0, i as int);
                assert forall|l: int| 0 <= l < self.channels@.len() implies ({
                    let c = #[trigger] self.channels@[l];
                    &&& c.clients@.len() > 0
                    &&& c.clients@.no_duplicates()
                    &&& c.subscribers@.len() == c.clients@.len()
                }) by {
                    let l1 = if l < i { l } else { l + 1 };
                    assert(self.channels@[l] == old(self).channels@[l1]);
                }
                assert forall|l: int| 0 <= l < self.channels@.len() implies queues_match(self.queues@, #[trigger] self.channels@[l]) by {
                    let l1 = if l < i { l } else { l + 1 };
                    assert(self.channels@[l] == old(self).channels@[l1]);
                }
            }
        } else {
            let c2 = ChannelSubs { name: c.name, clients: kept_clients, subscribers: kept_subs };
            proof {
                assert(queues_match(q, c2));
            }
            self.channels.insert(i, c2);
            proof {
                assert(chan_pairs(self.channels@) =~= cs0.update(i as int, (channel@, cl)));
                lemma_pairs_update(cs0, i as int, cl);
                assert forall|l: int| 0 <= l < self.channels@.len() implies ({
                    let c = #[trigger] self.channels@[l];
                    &&& c.clients@.len() > 0
                    &&& c.clients@.no_duplicates()
                    &&& c.subscribers@.len() == c.clients@.len()
                }) by {
                    if l != i {
                        assert(self.channels@[l] == old(self).channels@[l]);
                    }
                }
                assert forall|l: int| 0 <= l < self.channels@.len() implies queues_match(self.queues@, #[trigger] self.channels@[l]) by {
                    if l != i {
                        assert(self.channels@[l] == old(self).channels@[l]);
                    }
                }
            }
        }
        count
    }

    /// Publishes a message on a channel: it is handed to the queue of every subscriber
    /// without waiting. A subscriber whose queue is full is told it was too slow; it
    /// and any subscriber that has gone are dropped. Returns the number of queues
    /// that took the message.
    ///
    /// The record of the queues shows the message (this channel, this text) handed
    /// once to each subscriber's registered queue, in order, with the queue's answer;
    /// the count, the subscribers that stay and the queues told that their client was
    /// too slow all follow from those answers. Which answer a queue gives is up to
    /// the queue.
    pub fn publish(&mut self, channel: &str, message: String) -> (r: usize)
        requires
            old(self).wf(),
        ensures
            final(self).wf(),
            final(self)@.queues == old(self)@.queues,
            exists|o: Seq<SendOutcome>|
                o.len() == subscribers(old(self)@.channels, channel@).len() && final(self)@.sent
                    == old(self)@.sent + deliveries(
                    subscribers(old(self)@.channels, channel@),
                    (channel@, message@),
                    channel@,
                    old(self)@.queues,
                    o,
                ) && (r as nat, final(self)@.channels) == #[trigger] publish_spec(
                    old(self)@.channels,
                    channel@,
                    o,
                ) && final(self)@.signalled == old(self)@.signalled + slow_queues(
                    subscribers(old(self)@.channels, channel@),
                    o,
                    channel@,
                    old(self)@.queues,
                ),
            final(self)@.next_client_id == old(self)@.next_client_id,
    {
        let ghost cs0 = chan_pairs(self.channels@);
        let ghost ch0 = self.channels@;
        let ghost q0 = self.queues@;
        let ghost sent0 = self@.sent;
        let ghost sig0 = self@.signalled;
        let name = channel.to_string();
        let i = match self.find_channel(&name) {
            None => {
                let r = self.retain_delivered(channel, &[]);
                proof {
                    let o = Seq::<SendOutcome>::empty();
                    let subs = subscribers(old(self)@.channels, channel@);
                    assert(deliveries(subs, (channel@, message@), channel@, q0, o) =~= Seq::<Delivery>::empty());
                    assert(self@.sent =~= sent0 + Seq::<Delivery>::empty());
                    assert(full_indices(o) =~= Seq::<usize>::empty());
                    assert(self@.signalled =~= sig0 + slow_queues(subs, o, channel@, q0));
                    assert(publish_spec(old(self)@.channels, channel@, o) == (r as nat, self@.channels));
                }
                return r;
            },
            Some(i) => i,
        };
        let ghost cl = self.channels@[i as int].clients@;
        let ghost subs = self.channels@[i as int].subscribers@;
        proof {
            lemma_pairs_lookup(cs0, i as int);
            assert(cs0[i as int].1 == cl);
            assert(subscribers(old(self)@.channels, channel@) == cl);
            let c = self.channels@[i as int];
            assert(c.subscribers@.len() == c.clients@.len());
            assert(queues_match(q0, c));
            assert(c.name@ == channel@);
        }
        let msg = PubSubMessage::new(name, message);
        let n = self.channels[i].subscribers.len();
        let mut outcomes: Vec<SendOutcome> = Vec::new();
        let mut j: usize = 0;
        while j < n
            invariant
                j <= n,
                i < ch0.len(),
                self.channels@ == ch0,
                self.queues@ == q0,
                cl == ch0[i as int].clients@,
                subs == ch0[i as int].subscribers@,
                n == subs.len(),
                n == cl.len(),
                forall|p: int| 0 <= p < n ==> q0.contains_key((channel@, #[trigger] cl[p])) && q0[(channel@, cl[p])] == (subs[p].messages, subs[p].disconnect),
                outcomes@.len() == j,
                msg@ == (channel@, message@),
                self@.sent == sent0 + deliveries(cl.take(j as int), msg@, channel@, q0, outcomes@),
                self@.signalled == sig0,
                self.next_client_id == old(self).next_client_id,
            decreases n - j,
        {
            let o = try_send(&self.channels[i].subscribers[j].messages, msg.copy(), &mut self.log);
            proof {
                assert(deliveries(cl.take(j + 1), msg@, channel@, q0, outcomes@.push(o)) =~= deliveries(cl.take(j as int), msg@, channel@, q0, outcomes@).push(
                    (q0[(channel@, cl[j as int])].0, msg@, o),
                ));
            }
            outcomes.push(o);
            j += 1;
        }
        proof {
            assert(cl.take(n as int) =~= cl);
        }
        let slow = slow_subscribers(outcomes.as_slice());
        proof {
            lemma_full_indices_bound(outcomes@);
        }
        let mut k: usize = 0;
        while k < slow.len()
            invariant
                k <= slow@.len(),
                slow@ == full_indices(outcomes@),
                forall|x: int| 0 <= x < slow@.len() ==> #[trigger] slow@[x] < outcomes@.len(),
                outcomes@.len() == n,
                i < ch0.len(),
                self.channels@ == ch0,
                self.queues@ == q0,
                cl == ch0[i as int].clients@,
                subs == ch0[i as int].subscribers@,
                n == subs.len(),
                n == cl.len(),
                forall|p: int| 0 <= p < n ==> q0.contains_key((channel@, #[trigger] cl[p])) && q0[(channel@, cl[p])] == (subs[p].messages, subs[p].disconnect),
                self@.sent == sent0 + deliveries(cl, (channel@, message@), channel@, q0, outcomes@),
                self@.signalled == sig0 + slow@.take(k as int).map_values(|x: usize| q0[(channel@, cl[x as int])].1),
                self.next_client_id == old(self).next_client_id,
            decreases slow.len() - k,
        {
            let idx = slow[k];
            send_signal(&self.channels[i].subscribers[idx].disconnect, &mut self.log);
            proof {
                assert(slow@.take(k + 1).map_values(|x: usize| q0[(channel@, cl[x as int])].1)
                    =~= slow@.take(k as int).map_values(|x: usize| q0[(channel@, cl[x as int])].1).push(
                    q0[(channel@, cl[idx as int])].1,
                ));
            }
            k += 1;
        }
        proof {
            assert(slow@.take(k as int) =~= slow@);
            assert(self@.signalled == sig0 + slow_queues(cl, outcomes@, channel@, q0));
        }
        let r = self.retain_delivered(channel, outcomes.as_slice());
        proof {
            assert(publish_spec(old(self)@.channels, channel@, outcomes@) == (r as nat, self@.channels));
        }
        r
    }
}

/// The positions, in order, of the answers that say the queue was full.
pub fn slow_subscribers(outcomes: &[SendOutcome]) -> (r: Vec<usize>)
    ensures
        r@ == full_indices(outcomes@),
{
    let mut r: Vec<usize> = Vec::new();
    let mut i: usize = 0;
    while i < outcomes.len()
        invariant
            i <= outcomes@.len(),
            r@ == full_indices(outcomes@.take(i as int)),
        decreases outcomes.len() - i,
    {
        proof {
            assert(outcomes@.take(i + 1).drop_last() =~= outcomes@.take(i as int));
            assert(outcomes@.take(i + 1).last() == outcomes@[i as int]);
        }
        if outcomes[i] == SendOutcome::Full {
            r.push(i);
        }
        i += 1;
    }
    proof {
        assert(outcomes@.take(i as int) =~= outcomes@);
    }
    r
}

proof fn lemma_full_indices_bound(o: Seq<SendOutcome>)
    ensures
        forall|x: int| 0 <= x < full_indices(o).len() ==> #[trigger] full_indices(o)[x] < o.len(),
    decreases o.len(),
{
    if o.len() > 0 {
        let init = o.drop_last();
        lemma_full_indices_bound(init);
        let f = full_indices(o);
        assert forall|x: int| 0 <= x < f.len() implies #[trigger] f[x] < o.len() by {
            if x < full_indices(init).len() {
                assert(f[x] == full_indices(init)[x]);
            }
        }
    }
}

impl Default for PubSub {
    fn default() -> (p: PubSub)
        ensures
            p.wf(),
            p@.next_client_id == 1,
            p@.channels == Map::<Seq<char>, Seq<u64>>::empty(),
    {
        PubSub::new()
    }
}


// ---------------------------------------------------------------------------
// What holds of the registry
// ---------------------------------------------------------------------------

/// After subscribing, the client is among the channel's subscribers, and the other
/// channels are as they were.
pub proof fn law_subscribe_adds(m: Map<Seq<char>, Seq<u64>>, id: u64, ch: Seq<char>, other: Seq<char>)
    ensures
        subscribers(subscribe_spec(m, id, ch), ch).contains(id),
        other != ch ==> subscribers(subscribe_spec(m, id, ch), other) == subscribers(m, other),
{
    let s = subscribers(m, ch);
    if !s.contains(id) {
        assert(s.push(id)[s.len() as int] == id);
    }
}

/// After unsubscribing from a channel, the client is not among its subscribers, so
/// no publish on it reaches the client.
pub proof fn law_unsubscribe_removes(m: Map<Seq<char>, Seq<u64>>, id: u64, ch: Seq<char>, o: Seq<SendOutcome>)
    ensures
        !subscribers(unsubscribe_spec(m, id, ch), ch).contains(id),
        !subscribers(unsubscribe_all_spec(m, id), ch).contains(id),
{
    crate::seqs::lemma_without_excludes(subscribers(m, ch), id);
    if m.contains_key(ch) {
        crate::seqs::lemma_without_excludes(m[ch], id);
    }
}

proof fn lemma_all_delivered(s: Seq<u64>, o: Seq<SendOutcome>)
    requires
        o.len() >= s.len(),
        forall|i: int| 0 <= i < o.len() ==> #[trigger] o[i] == SendOutcome::Delivered,
    ensures
        delivered_to(s, o) == s,
    decreases s.len(),
{
    if s.len() > 0 {
        lemma_all_delivered(s.drop_last(), o);
        assert(s.drop_last().push(s.last()) =~= s);
    }
}

/// A publish on a channel without subscribers reaches no one and changes nothing.
pub proof fn law_publish_without_subscribers(m: Map<Seq<char>, Seq<u64>>, ch: Seq<char>, o: Seq<SendOutcome>)
    requires
        !m.contains_key(ch),
    ensures
        publish_spec(m, ch, o) == (0nat, m),
{
}

/// When every queue takes the message, a publish reaches every subscriber of the
/// channel and the registry stays as it was.
pub proof fn law_publish_reaches_all(m: Map<Seq<char>, Seq<u64>>, ch: Seq<char>, o: Seq<SendOutcome>)
    requires
        registry_wf(m),
        o.len() == subscribers(m, ch).len(),
        forall|i: int| 0 <= i < o.len() ==> #[trigger] o[i] == SendOutcome::Delivered,
    ensures
        publish_spec(m, ch, o) == (subscribers(m, ch).len(), m),
{
    if m.contains_key(ch) {
        lemma_all_delivered(m[ch], o);
        assert(m.insert(ch, m[ch]) =~= m);
    }
}

/// A subscriber whose queue did not take the message is no longer subscribed.
pub proof fn law_publish_drops_failed(m: Map<Seq<char>, Seq<u64>>, ch: Seq<char>, o: Seq<SendOutcome>, i: int)
    requires
        registry_wf(m),
        m.contains_key(ch),
        0 <= i < m[ch].len(),
        o[i] != SendOutcome::Delivered,
    ensures
        !subscribers(publish_spec(m, ch, o).1, ch).contains(m[ch][i]),
{
    lemma_delivered_excludes(m[ch], o, i);
}

proof fn lemma_delivered_excludes(s: Seq<u64>, o: Seq<SendOutcome>, i: int)
    requires
        s.no_duplicates(),
        0 <= i < s.len(),
        o[i] != SendOutcome::Delivered,
    ensures
        !delivered_to(s, o).contains(s[i]),
    decreases s.len(),
{
    let init = s.drop_last();
    assert(init.no_duplicates()) by {
        assert forall|a: int, b: int| 0 <= a < init.len() && 0 <= b < init.len() && a != b implies init[a] != init[b] by {
            assert(s[a] != s[b]);
        }
    }
    if i == s.len() - 1 {
        lemma_delivered_no_dup(init, o);
        if delivered_to(init, o).contains(s[i]) {
            assert(init.contains(s[i]));
            let k = choose|k: int| 0 <= k < init.len() && init[k] == s[i];
            assert(s[k] == s[i]);
        }
    } else {
        lemma_delivered_excludes(init, o, i);
        assert(init[i] == s[i]);
        if o[s.len() - 1] == SendOutcome::Delivered {
            assert(s.last() != s[i]) by {
                assert(s[s.len() - 1] != s[i]);
            }
            assert forall|k: int| 0 <= k < delivered_to(s, o).len() implies delivered_to(s, o)[k] != s[i] by {
                let d0 = delivered_to(init, o);
                if k < d0.len() {
                    assert(d0.contains(d0[k]));
                }
            }
        }
    }
}

} // verus!
