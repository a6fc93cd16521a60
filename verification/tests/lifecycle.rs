use pubsub_rs::{Payload, Pubsub, PubsubError, Received, Subscriber};

fn topics(names: &[&str]) -> Vec<String> {
    names.iter().map(|s| s.to_string()).collect()
}

#[test]
fn dropped_subscribers_are_cleaned_up_from_topic_map() {
    let mut pubsub: Pubsub<String> = Pubsub::new();
    let subscriber1 = pubsub.subscribe(topics(&["a", "b"]));
    let subscriber2 = pubsub.subscribe(topics(&["a", "b"]));

    assert_eq!(pubsub.subscriber_count(&"a".to_string()), Some(2));

    pubsub.remove_subscriber(&subscriber1);
    drop(subscriber1);
    assert_eq!(pubsub.subscriber_count(&"a".to_string()), Some(1));

    pubsub.remove_subscriber(&subscriber2);
    drop(subscriber2);
    assert_eq!(pubsub.subscriber_count(&"a".to_string()), Some(0));
}

#[test]
fn subscriber_receives_error_when_pubsub_dropped() {
    let mut pubsub: Pubsub<String> = Pubsub::new();
    let mut subscriber = pubsub.subscribe(topics(&["a", "b"]));
    pubsub.close_all();
    drop(pubsub);
    let Err(e) = subscriber.try_recv() else {
        panic!("should get error");
    };
    assert_eq!(e, PubsubError);
}

#[test]
fn messages_sent_before_close_are_still_received() {
    let mut pubsub: Pubsub<String> = Pubsub::new();
    let mut subscriber = pubsub.subscribe(topics(&["a"]));
    pubsub.publish("a".to_string(), "test".to_owned());
    pubsub.close_all();
    assert_eq!(subscriber.try_recv(), Ok(Some(("a".to_string(), "test".to_string()))));
    assert_eq!(subscriber.try_recv(), Err(PubsubError));
}

#[test]
fn close_all_closes_every_registered_subscriber() {
    let mut pubsub: Pubsub<u8> = Pubsub::new();
    let mut s1 = pubsub.subscribe(topics(&["a"]));
    let mut s2 = pubsub.subscribe(topics(&["b", "c"]));
    let mut quiet = pubsub.subscribe(Vec::new());
    let mut closed = pubsub.close_all();
    closed.sort();
    assert_eq!(closed, vec![s1.id(), s2.id(), quiet.id()]);
    assert_eq!(s1.try_recv(), Err(PubsubError));
    assert_eq!(s2.try_recv(), Err(PubsubError));
    // A subscriber listed under no topic gets the error too.
    assert_eq!(quiet.try_recv(), Err(PubsubError));
}

#[test]
fn subscriber_of_another_registry_removes_nothing() {
    let mut first: Pubsub<u8> = Pubsub::new();
    let mut second: Pubsub<u8> = Pubsub::new();
    let mut mine = first.subscribe(topics(&["a"]));
    let mut stranger = second.subscribe(topics(&["a"]));
    assert_eq!(mine.id(), stranger.id());
    first.remove_subscriber(&stranger);
    assert_eq!(first.subscriber_count(&"a".to_string()), Some(1));
    assert_eq!(first.deliver(&"a".to_string(), 4), vec![mine.id()]);
    assert_eq!(mine.try_recv(), Ok(Some(("a".to_string(), 4))));
    assert_eq!(stranger.try_recv(), Ok(None));
}

#[test]
fn removed_subscriber_gets_no_more_messages() {
    let mut pubsub: Pubsub<u8> = Pubsub::new();
    let mut stays = pubsub.subscribe(topics(&["a"]));
    let mut leaves = pubsub.subscribe(topics(&["a"]));
    pubsub.remove_subscriber(&leaves);
    assert_eq!(pubsub.deliver(&"a".to_string(), 9), vec![stays.id()]);
    assert_eq!(stays.try_recv(), Ok(Some(("a".to_string(), 9))));
    // Its channel stays open: nothing arrives, and no error either.
    assert_eq!(leaves.try_recv(), Ok(None));
    // Closing the registry no longer reaches it.
    pubsub.close_all();
    assert_eq!(leaves.try_recv(), Ok(None));
    assert_eq!(stays.try_recv(), Err(PubsubError));
}

#[test]
fn leaving_keeps_the_order_of_the_others() {
    let mut pubsub: Pubsub<u8> = Pubsub::new();
    let s1 = pubsub.subscribe(topics(&["a"]));
    let s2 = pubsub.subscribe(topics(&["a", "b"]));
    let s3 = pubsub.subscribe(topics(&["a"]));
    pubsub.remove_subscriber(&s2);
    assert_eq!(pubsub.deliver(&"a".to_string(), 1), vec![s1.id(), s3.id()]);
    assert_eq!(pubsub.subscriber_count(&"b".to_string()), Some(0));
}

#[test]
fn removing_twice_changes_nothing_more() {
    let mut pubsub: Pubsub<u8> = Pubsub::new();
    let s1 = pubsub.subscribe(topics(&["a"]));
    let s2 = pubsub.subscribe(topics(&["a"]));
    pubsub.remove_subscriber(&s1);
    pubsub.remove_subscriber(&s1);
    assert_eq!(pubsub.deliver(&"a".to_string(), 1), vec![s2.id()]);
}

#[test]
fn subscribe_then_leave_restores_counts() {
    let mut pubsub: Pubsub<u8> = Pubsub::new();
    let _s1 = pubsub.subscribe(topics(&["a", "b"]));
    let before_a = pubsub.subscriber_count(&"a".to_string());
    let before_b = pubsub.subscriber_count(&"b".to_string());
    let s2 = pubsub.subscribe(topics(&["a", "b", "c"]));
    assert_eq!(pubsub.subscriber_count(&"a".to_string()), Some(2));
    pubsub.remove_subscriber(&s2);
    assert_eq!(pubsub.subscriber_count(&"a".to_string()), before_a);
    assert_eq!(pubsub.subscriber_count(&"b".to_string()), before_b);
    // A topic first named by the subscriber that left keeps an empty entry.
    assert_eq!(pubsub.subscriber_count(&"c".to_string()), Some(0));
    assert_eq!(pubsub.subscriber_count(&"d".to_string()), None);
}

#[test]
fn subscribers_get_distinct_ids() {
    let mut pubsub: Pubsub<u8> = Pubsub::new();
    assert!(pubsub.can_subscribe());
    let s1 = pubsub.subscribe(topics(&["a"]));
    let s2 = pubsub.subscribe(topics(&["a"]));
    assert_eq!(s1.id(), 0);
    assert_eq!(s2.id(), 1);
}

#[test]
fn receive_outcomes() {
    let msg = Payload::new("t".to_string(), 5u8);
    assert_eq!(msg.topic, "t");
    assert_eq!(msg.payload, 5);
    assert_eq!(Subscriber::<u8>::recv_outcome(Received::Message(msg)), Ok(Some(("t".to_string(), 5))));
    assert_eq!(Subscriber::<u8>::recv_outcome(Received::Empty), Ok(None));
    assert_eq!(Subscriber::<u8>::recv_outcome(Received::Closed), Err(PubsubError));
}

#[test]
fn error_message() {
    assert_eq!(PubsubError.message(), "pubsub closed");
    assert_eq!(PubsubError, PubsubError.clone());
}
