use pubsub_rs::Pubsub;

fn topics(names: &[&str]) -> Vec<String> {
    names.iter().map(|s| s.to_string()).collect()
}

#[test]
fn can_publish_to_different_topics() {
    let mut pubsub: Pubsub<String> = Pubsub::new();
    let mut subscriber = pubsub.subscribe(topics(&["a", "b"]));

    pubsub.publish("a".to_string(), "msg1".to_owned());
    pubsub.publish("b".to_string(), "msg2".to_owned());

    {
        let (topic, msg) = subscriber.try_recv().unwrap().unwrap();
        assert_eq!(topic, "a");
        assert_eq!(msg, "msg1");
    }
    {
        let (topic, msg) = subscriber.try_recv().unwrap().unwrap();
        assert_eq!(topic, "b");
        assert_eq!(msg, "msg2");
    }
}

#[test]
fn publish_reaches_only_subscribers_of_the_topic() {
    let mut pubsub: Pubsub<u32> = Pubsub::new();
    let mut on_a = pubsub.subscribe(topics(&["a"]));
    let mut on_b = pubsub.subscribe(topics(&["b"]));
    let mut on_both = pubsub.subscribe(topics(&["a", "b"]));

    let reached = pubsub.deliver(&"a".to_string(), 7);
    assert_eq!(reached, vec![on_a.id(), on_both.id()]);

    assert_eq!(on_a.try_recv(), Ok(Some(("a".to_string(), 7))));
    assert_eq!(on_b.try_recv(), Ok(None));
    assert_eq!(on_both.try_recv(), Ok(Some(("a".to_string(), 7))));
    assert_eq!(on_both.try_recv(), Ok(None));
}

#[test]
fn publish_to_topic_without_subscribers_reaches_no_one() {
    let mut pubsub: Pubsub<u32> = Pubsub::new();
    let mut sub = pubsub.subscribe(topics(&["a"]));
    assert_eq!(pubsub.deliver(&"z".to_string(), 1), Vec::<u64>::new());
    assert_eq!(sub.try_recv(), Ok(None));
}

#[test]
fn messages_arrive_in_publish_order() {
    let mut pubsub: Pubsub<u32> = Pubsub::new();
    let mut sub = pubsub.subscribe(topics(&["a", "b"]));
    for n in 0..5u32 {
        let topic = if n % 2 == 0 { "a" } else { "b" };
        pubsub.publish(topic.to_string(), n);
    }
    for n in 0..5u32 {
        let topic = if n % 2 == 0 { "a" } else { "b" };
        assert_eq!(sub.try_recv(), Ok(Some((topic.to_string(), n))));
    }
    assert_eq!(sub.try_recv(), Ok(None));
}

#[test]
fn topic_named_twice_delivers_twice() {
    let mut pubsub: Pubsub<u32> = Pubsub::new();
    let mut sub = pubsub.subscribe(topics(&["a", "a"]));
    assert_eq!(pubsub.subscriber_count(&"a".to_string()), Some(2));
    assert_eq!(pubsub.deliver(&"a".to_string(), 3), vec![sub.id(), sub.id()]);
    assert_eq!(sub.try_recv(), Ok(Some(("a".to_string(), 3))));
    assert_eq!(sub.try_recv(), Ok(Some(("a".to_string(), 3))));
    assert_eq!(sub.try_recv(), Ok(None));
}

#[test]
fn publish_then_async_receive() {
    let mut pubsub: Pubsub<String> = Pubsub::new();
    let sub = pubsub.subscribe(topics(&["topic1", "topic2"]));
    pubsub.publish("topic1".to_string(), "Hello".to_owned());
    let got = futures_lite::future::block_on(sub.receiver().recv()).unwrap();
    let outcome = pubsub_rs::Subscriber::<String>::recv_outcome(pubsub_rs::Received::Message(got));
    assert_eq!(outcome, Ok(Some(("topic1".to_string(), "Hello".to_string()))));
}
