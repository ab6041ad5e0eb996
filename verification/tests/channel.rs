use playlist::channel::{channel, Inner, Received};

#[test]
fn ping_pong() {
    let (tx, mut rx, mut inner) = channel();
    tx.send(&mut inner, "hello there");
    assert!(matches!(rx.recv(&mut inner), Received::Message("hello there")));
    {
        let t = tx;
        t.release(&mut inner);
    }
    assert!(matches!(rx.recv(&mut inner), Received::Closed));
}

#[test]
fn video_5_multiple() {
    let (tx, mut rx, mut inner) = channel();
    tx.send(&mut inner, "hello");
    tx.send(&mut inner, "there");
    tx.send(&mut inner, "what is my help");
    assert!(matches!(rx.recv(&mut inner), Received::Message("hello")));
    {
        let _t = tx;
        _t.release(&mut inner);
    }
    assert!(matches!(rx.recv(&mut inner), Received::Message("there")));
    assert!(matches!(rx.recv(&mut inner), Received::Message("what is my help")));
    assert!(matches!(rx.recv(&mut inner), Received::Closed));
}

#[test]
fn recv_waits_while_a_sender_lives() {
    let (tx, mut rx, mut inner) = channel::<u32>();
    assert!(matches!(rx.recv(&mut inner), Received::Wait));
    let tx2 = tx.clone(&mut inner);
    assert_eq!(inner.sender_size(), 2);
    assert!(!tx.release(&mut inner));
    tx2.send(&mut inner, 9);
    assert!(matches!(rx.recv(&mut inner), Received::Message(9)));
    assert!(matches!(rx.recv(&mut inner), Received::Wait));
    assert!(tx2.release(&mut inner));
    assert!(matches!(rx.recv(&mut inner), Received::Closed));
}

#[test]
fn messages_come_in_order_across_buffer_and_queue() {
    let (tx, mut rx, mut inner) = channel::<u32>();
    tx.send(&mut inner, 1);
    tx.send(&mut inner, 2);
    assert!(matches!(rx.recv(&mut inner), Received::Message(1)));
    tx.send(&mut inner, 3);
    assert!(matches!(rx.recv(&mut inner), Received::Message(2)));
    assert!(matches!(rx.recv(&mut inner), Received::Message(3)));
    assert!(matches!(rx.recv(&mut inner), Received::Wait));
}

#[test]
fn default_inner_has_no_sender() {
    let inner: Inner<u32> = Inner::default();
    assert_eq!(inner.sender_size(), 0);
}
