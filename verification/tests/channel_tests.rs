use word_finder::finder::channel::{ChannelState, RecvError, RecvPoll, SendError};

#[test]
fn message_sent_is_received() {
    let mut ch: ChannelState<u32, &str> = ChannelState::new();
    let (sent, woken) = ch.send(42);
    assert!(sent.is_ok());
    assert!(woken.is_none());
    let id = ch.start_recv();
    match ch.poll(id, "task") {
        RecvPoll::Ready(Ok(m), None) => assert_eq!(m, 42),
        _ => panic!("expected the message"),
    }
}

#[test]
fn messages_come_out_in_order_and_wake_the_next_waiter() {
    let mut ch: ChannelState<u32, &str> = ChannelState::new();
    let a = ch.start_recv();
    let b = ch.start_recv();
    assert_ne!(a, b);
    assert!(matches!(ch.poll(a, "A"), RecvPoll::Pending));
    assert!(matches!(ch.poll(b, "B"), RecvPoll::Pending));
    let (_, w1) = ch.send(10);
    assert_eq!(w1, Some("A"));
    let (_, w2) = ch.send(20);
    assert_eq!(w2, Some("B"));
    ch.send(30);
    match ch.poll(a, "A") {
        RecvPoll::Ready(Ok(10), None) => {}
        _ => panic!("expected 10"),
    }
    match ch.poll(b, "B") {
        RecvPoll::Ready(Ok(20), None) => {}
        _ => panic!("expected 20"),
    }
    match ch.poll(a, "A") {
        RecvPoll::Ready(Ok(30), None) => {}
        _ => panic!("expected 30"),
    }
}

#[test]
fn send_fails_without_receivers_and_returns_the_message() {
    let mut ch: ChannelState<&str, ()> = ChannelState::new();
    ch.drop_receiver();
    let (r, w) = ch.send("hello");
    assert_eq!(r.map_err(|SendError(m)| m), Err("hello"));
    assert!(w.is_none());
}

#[test]
fn buffered_messages_survive_the_last_sender() {
    let mut ch: ChannelState<u32, ()> = ChannelState::new();
    ch.send(1);
    ch.send(2);
    let woken = ch.drop_sender();
    assert!(woken.is_empty());
    let id = ch.start_recv();
    assert!(matches!(ch.poll(id, ()), RecvPoll::Ready(Ok(1), _)));
    assert!(matches!(ch.poll(id, ()), RecvPoll::Ready(Ok(2), _)));
    assert!(matches!(ch.poll(id, ()), RecvPoll::Ready(Err(RecvError), None)));
}

#[test]
fn last_sender_wakes_every_waiter() {
    let mut ch: ChannelState<u32, &str> = ChannelState::new();
    let a = ch.start_recv();
    let b = ch.start_recv();
    ch.poll(a, "A");
    ch.poll(b, "B");
    ch.add_sender();
    assert!(ch.drop_sender().is_empty());
    assert_eq!(ch.drop_sender(), vec!["A", "B"]);
    assert!(matches!(ch.poll(a, "A"), RecvPoll::Ready(Err(RecvError), None)));
}

#[test]
fn a_cancelled_call_leaves_no_waker() {
    let mut ch: ChannelState<u32, &str> = ChannelState::new();
    let a = ch.start_recv();
    assert!(matches!(ch.poll(a, "A"), RecvPoll::Pending));
    assert!(matches!(ch.poll(a, "A2"), RecvPoll::Pending));
    ch.cancel(a);
    let (sent, woken) = ch.send(42);
    assert!(sent.is_ok());
    assert_eq!(woken, None);
    let b = ch.start_recv();
    assert!(matches!(ch.poll(b, "B"), RecvPoll::Ready(Ok(42), None)));
}

#[test]
fn repolling_replaces_the_waker() {
    let mut ch: ChannelState<u32, &str> = ChannelState::new();
    let a = ch.start_recv();
    ch.poll(a, "old");
    ch.poll(a, "new");
    let (_, w) = ch.send(1);
    assert_eq!(w, Some("new"));
    let (_, w) = ch.send(2);
    assert_eq!(w, None);
}

#[test]
fn cloned_receivers_keep_sending_possible() {
    let mut ch: ChannelState<u32, ()> = ChannelState::new();
    ch.add_receiver();
    ch.drop_receiver();
    assert!(ch.send(99).0.is_ok());
}
