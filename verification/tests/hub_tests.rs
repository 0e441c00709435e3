use worldsync::hub::BroadcastHub;

#[test]
fn fanout_delivers_one_publish_to_both_subscribers() {
    let mut hub = BroadcastHub::new(16);
    let t1 = hub.subscribe();
    let t2 = hub.subscribe();
    assert_ne!(t1, t2);
    let payload: Vec<u8> = vec![1, 2, 3, 4];
    hub.publish(&payload);
    assert_eq!(hub.recv(t1), Some(payload.clone()));
    assert_eq!(hub.recv(t2), Some(payload.clone()));
    // Exactly once: nothing further is pending.
    assert_eq!(hub.recv(t1), None);
    assert_eq!(hub.recv(t2), None);
}

#[test]
fn unsubscribed_receiver_misses_the_publish() {
    let mut hub = BroadcastHub::new(16);
    let t1 = hub.subscribe();
    let t2 = hub.subscribe();
    hub.unsubscribe(t1);
    let payload: Vec<u8> = vec![9, 9];
    hub.publish(&payload);
    assert_eq!(hub.recv(t1), None);
    assert_eq!(hub.recv(t2), Some(payload));
    // Unsubscribing again stays a no-op.
    hub.unsubscribe(t1);
    assert_eq!(hub.recv(t2), None);
}

#[test]
fn publish_without_subscribers_is_discarded() {
    let mut hub = BroadcastHub::new(4);
    let early: Vec<u8> = vec![5];
    hub.publish(&early);
    // A later subscriber gets no backlog: only publishes after the
    // subscription are delivered.
    let t = hub.subscribe();
    assert_eq!(hub.recv(t), None);
    let late: Vec<u8> = vec![6];
    hub.publish(&late);
    assert_eq!(hub.recv(t), Some(late));
}

#[test]
fn full_queue_drops_the_oldest_payload() {
    let mut hub = BroadcastHub::new(2);
    let t = hub.subscribe();
    hub.publish(&vec![1]);
    hub.publish(&vec![2]);
    hub.publish(&vec![3]);
    assert_eq!(hub.recv(t), Some(vec![2]));
    assert_eq!(hub.recv(t), Some(vec![3]));
    assert_eq!(hub.recv(t), None);
}

#[test]
fn delivery_keeps_publish_order_per_subscriber() {
    let mut hub = BroadcastHub::new(8);
    let t = hub.subscribe();
    hub.publish(&vec![1]);
    hub.publish(&vec![2]);
    hub.publish(&vec![3]);
    assert_eq!(hub.recv(t), Some(vec![1]));
    assert_eq!(hub.recv(t), Some(vec![2]));
    assert_eq!(hub.recv(t), Some(vec![3]));
}

#[test]
fn recv_on_unknown_token_is_none() {
    let mut hub = BroadcastHub::new(4);
    assert_eq!(hub.recv(42), None);
}
