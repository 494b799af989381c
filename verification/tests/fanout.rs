use txpool::fanout::Fanout;

#[test]
fn publish_reaches_every_subscriber_in_order() {
    let mut feed: Fanout<u32> = Fanout::new(4);
    let a = feed.subscribe().unwrap();
    feed.publish(1);
    let b = feed.subscribe().unwrap();
    feed.publish(2);
    feed.publish(3);
    assert_eq!(feed.poll(a), Some(1));
    assert_eq!(feed.poll(a), Some(2));
    assert_eq!(feed.poll(b), Some(2));
    assert_eq!(feed.poll(a), Some(3));
    assert_eq!(feed.poll(a), None);
    assert_eq!(feed.poll(b), Some(3));
    assert_eq!(feed.poll(b), None);
}

#[test]
fn full_queue_drops_its_oldest_event() {
    let mut feed: Fanout<u32> = Fanout::new(3);
    let a = feed.subscribe().unwrap();
    for event in 1..=5 {
        feed.publish(event);
    }
    assert_eq!(feed.poll(a), Some(3));
    assert_eq!(feed.poll(a), Some(4));
    assert_eq!(feed.poll(a), Some(5));
    assert_eq!(feed.poll(a), None);
}

#[test]
fn queue_without_room_keeps_nothing() {
    let mut feed: Fanout<u32> = Fanout::new(0);
    let a = feed.subscribe().unwrap();
    feed.publish(1);
    assert_eq!(feed.poll(a), None);
}

#[test]
fn closed_or_unknown_handles_yield_nothing() {
    let mut feed: Fanout<u32> = Fanout::new(2);
    let a = feed.subscribe().unwrap();
    let b = feed.subscribe().unwrap();
    feed.publish(7);
    assert!(feed.is_subscribed(a));
    assert!(feed.unsubscribe(a));
    assert!(!feed.is_subscribed(a));
    assert!(!feed.unsubscribe(a));
    assert_eq!(feed.poll(a), None);
    assert_eq!(feed.poll(b + 1), None);
    assert_eq!(feed.poll(b), Some(7));
    let c = feed.subscribe().unwrap();
    assert!(c != a && c != b);
}

#[test]
fn handles_are_given_out_in_order_and_never_again() {
    let mut feed: Fanout<u32> = Fanout::new(2);
    assert_eq!(feed.subscribe(), Some(0));
    assert_eq!(feed.subscribe(), Some(1));
    assert!(feed.unsubscribe(0));
    feed.publish(9);
    assert_eq!(feed.poll(1), Some(9));
    assert_eq!(feed.subscribe(), Some(2));
    assert!(!feed.is_subscribed(0));
    assert_eq!(feed.poll(2), None);
}
