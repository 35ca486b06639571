use redis_app::pubsub::{slow_subscribers, PubSub, PubSubMessage, SendOutcome};
use tokio::sync::mpsc;

#[test]
fn publish_removes_subscriber_when_queue_is_full() {
    let mut pubsub = PubSub::new();
    let client_id = pubsub.next_client_id();
    let (messages_tx, _messages_rx) = mpsc::channel(1);
    let (disconnect_tx, mut disconnect_rx) = mpsc::unbounded_channel();

    pubsub.subscribe(client_id, "news".into(), messages_tx, disconnect_tx);

    assert_eq!(pubsub.publish("news", "one".into()), 1);
    assert_eq!(pubsub.publish("news", "two".into()), 0);
    assert!(disconnect_rx.try_recv().is_ok());
    assert_eq!(pubsub.publish("news", "three".into()), 0);
}

#[test]
fn client_ids_count_up_from_one() {
    let mut pubsub = PubSub::new();
    assert_eq!(pubsub.next_client_id(), 1);
    assert_eq!(pubsub.next_client_id(), 2);
    assert_eq!(pubsub.next_client_id(), 3);
}

#[test]
fn publish_without_subscribers_reaches_nobody() {
    let mut pubsub = PubSub::new();
    assert_eq!(pubsub.publish("empty", "hello".into()), 0);
}

#[test]
fn publish_reaches_every_subscriber_once() {
    let mut pubsub = PubSub::new();
    let a = pubsub.next_client_id();
    let b = pubsub.next_client_id();
    let (a_tx, mut a_rx) = mpsc::channel(4);
    let (b_tx, mut b_rx) = mpsc::channel(4);
    let (sig_tx, _sig_rx) = mpsc::unbounded_channel();
    pubsub.subscribe(a, "news".into(), a_tx.clone(), sig_tx.clone());
    pubsub.subscribe(a, "news".into(), a_tx, sig_tx.clone());
    pubsub.subscribe(b, "news".into(), b_tx, sig_tx);

    assert_eq!(pubsub.publish("news", "hi".into()), 2);
    let m = a_rx.try_recv().unwrap();
    assert_eq!(m.channel, "news");
    assert_eq!(m.message, "hi");
    assert!(a_rx.try_recv().is_err());
    assert_eq!(b_rx.try_recv().unwrap().message, "hi");
    assert_eq!(pubsub.publish("other", "x".into()), 0);
}

#[test]
fn unsubscribe_stops_delivery() {
    let mut pubsub = PubSub::new();
    let a = pubsub.next_client_id();
    let (a_tx, mut a_rx) = mpsc::channel(4);
    let (sig_tx, _sig_rx) = mpsc::unbounded_channel();
    pubsub.subscribe(a, "news".into(), a_tx.clone(), sig_tx.clone());
    pubsub.subscribe(a, "sport".into(), a_tx, sig_tx);
    pubsub.unsubscribe(a, "news");
    assert_eq!(pubsub.publish("news", "x".into()), 0);
    assert_eq!(pubsub.publish("sport", "y".into()), 1);
    assert_eq!(a_rx.try_recv().unwrap().message, "y");
    pubsub.unsubscribe_all(a);
    assert_eq!(pubsub.publish("sport", "z".into()), 0);
}

#[test]
fn closed_subscriber_is_dropped() {
    let mut pubsub = PubSub::new();
    let a = pubsub.next_client_id();
    let (a_tx, a_rx) = mpsc::channel(4);
    let (sig_tx, _sig_rx) = mpsc::unbounded_channel();
    pubsub.subscribe(a, "news".into(), a_tx, sig_tx);
    drop(a_rx);
    assert_eq!(pubsub.publish("news", "x".into()), 0);
    assert_eq!(pubsub.publish("news", "y".into()), 0);
}

#[test]
fn retain_delivered_keeps_those_that_took_the_message() {
    let mut pubsub = PubSub::new();
    let (tx, _rx) = mpsc::channel(4);
    let (sig_tx, _sig_rx) = mpsc::unbounded_channel();
    for id in 1..=3u64 {
        pubsub.subscribe(id, "c".into(), tx.clone(), sig_tx.clone());
    }
    let kept = pubsub.retain_delivered(
        "c",
        &[SendOutcome::Delivered, SendOutcome::Full, SendOutcome::Delivered],
    );
    assert_eq!(kept, 2);
    assert_eq!(pubsub.publish("c", "m".into()), 2);
    assert_eq!(pubsub.retain_delivered("c", &[SendOutcome::Closed, SendOutcome::Closed]), 0);
    assert_eq!(pubsub.publish("c", "m".into()), 0);
    assert_eq!(pubsub.retain_delivered("nothing", &[]), 0);
}

#[test]
fn slow_subscribers_are_the_full_queues() {
    assert_eq!(
        slow_subscribers(&[SendOutcome::Full, SendOutcome::Delivered, SendOutcome::Closed, SendOutcome::Full]),
        vec![0, 3]
    );
    assert!(slow_subscribers(&[]).is_empty());
    let m = PubSubMessage::new("ch".into(), "text".into());
    assert_eq!(m.channel, "ch");
    assert_eq!(m.message, "text");
}

#[test]
fn full_queue_is_signalled_once_and_others_are_not() {
    let mut pubsub = PubSub::new();
    let (full_tx, _full_rx) = mpsc::channel(1);
    let (ok_tx, mut ok_rx) = mpsc::channel(8);
    let (sig1_tx, mut sig1_rx) = mpsc::unbounded_channel();
    let (sig2_tx, mut sig2_rx) = mpsc::unbounded_channel();
    pubsub.subscribe(1, "c".into(), full_tx, sig1_tx);
    pubsub.subscribe(2, "c".into(), ok_tx, sig2_tx);
    assert_eq!(pubsub.publish("c", "a".into()), 2);
    assert_eq!(pubsub.publish("c", "b".into()), 1);
    assert!(sig1_rx.try_recv().is_ok());
    assert!(sig1_rx.try_recv().is_err());
    assert!(sig2_rx.try_recv().is_err());
    let first = ok_rx.try_recv().unwrap();
    assert_eq!((first.channel.as_str(), first.message.as_str()), ("c", "a"));
    assert_eq!(ok_rx.try_recv().unwrap().message, "b");
}
