use pubsub::Broker;

#[test]
fn subscribe_rejects_empty_identifiers() {
    let mut b: Broker<u64> = Broker::new();
    assert!(!b.subscribe("", "news", None));
    assert!(!b.subscribe("alice", "", None));
    assert!(b.subscribe("alice", "news", None));
}

#[test]
fn unsubscribe_rejects_empty_subscriber() {
    let mut b: Broker<u64> = Broker::new();
    assert!(!b.unsubscribe("", None));
    assert!(!b.unsubscribe("", Some("news")));
}

#[test]
fn fresh_pull_subscriber_round_trip() {
    let mut b: Broker<u64> = Broker::new();
    assert!(b.subscribe("alice", "news", None));
    assert!(!b.has_messages("alice", Some("news")));
    let (delivered, pushes) = b.publish("news", "hello");
    assert!(delivered);
    assert!(pushes.is_empty());
    assert!(b.has_messages("alice", Some("news")));
    let m = b.get_next_message("alice", Some("news")).unwrap();
    assert_eq!(m.topic, "news");
    assert_eq!(m.payload, "hello");
    assert!(!b.has_messages("alice", Some("news")));
    assert!(b.get_next_message("alice", Some("news")).is_none());
}

#[test]
fn queue_is_fifo_without_filter() {
    let mut b: Broker<u64> = Broker::new();
    assert!(b.subscribe("alice", "news", None));
    assert!(b.publish("news", "first").0);
    assert!(b.publish("news", "second").0);
    assert_eq!(b.get_next_message("alice", None).unwrap().payload, "first");
    assert_eq!(b.get_next_message("alice", None).unwrap().payload, "second");
    assert!(b.get_next_message("alice", None).is_none());
}

#[test]
fn filtered_retrieval_keeps_remaining_order() {
    let mut b: Broker<u64> = Broker::new();
    assert!(b.subscribe("alice", "a", None));
    assert!(b.subscribe("alice", "b", None));
    assert!(b.publish("a", "x").0);
    assert!(b.publish("b", "y").0);
    assert!(b.publish("a", "z").0);
    let m = b.get_next_message("alice", Some("b")).unwrap();
    assert_eq!(m.topic, "b");
    assert_eq!(m.payload, "y");
    assert_eq!(b.get_next_message("alice", None).unwrap().payload, "x");
    assert_eq!(b.get_next_message("alice", None).unwrap().payload, "z");
    assert!(b.get_next_message("alice", None).is_none());
}

#[test]
fn unsubscribing_one_topic_keeps_the_other() {
    let mut b: Broker<u64> = Broker::new();
    assert!(b.subscribe("alice", "t1", None));
    assert!(b.subscribe("alice", "t2", None));
    assert!(b.unsubscribe("alice", Some("t1")));
    assert!(b.publish("t2", "kept").0);
    assert!(b.publish("t1", "dropped").0);
    assert!(b.has_messages("alice", Some("t2")));
    assert!(!b.has_messages("alice", Some("t1")));
    assert_eq!(b.get_next_message("alice", None).unwrap().payload, "kept");
    assert!(b.get_next_message("alice", None).is_none());
}

#[test]
fn full_unsubscribe_clears_everything() {
    let mut b: Broker<u64> = Broker::new();
    assert!(b.subscribe("alice", "t1", None));
    assert!(b.subscribe("alice", "t2", None));
    assert!(b.publish("t1", "pending").0);
    assert!(b.unsubscribe("alice", None));
    assert!(!b.has_messages("alice", None));
    let (delivered, pushes) = b.publish("t1", "late");
    assert!(delivered);
    assert!(pushes.is_empty());
    assert!(!b.has_messages("alice", None));
    assert!(b.get_next_message("alice", None).is_none());
}

#[test]
fn publish_to_unknown_topic_fails_without_side_effects() {
    let mut b: Broker<u64> = Broker::new();
    assert!(b.subscribe("alice", "news", None));
    let (delivered, pushes) = b.publish("nobody-listens", "m");
    assert!(!delivered);
    assert!(pushes.is_empty());
    assert!(!b.has_messages("alice", None));
    let (empty_delivered, _) = b.publish("", "m");
    assert!(!empty_delivered);
}

#[test]
fn unsubscribe_from_never_joined_topic_is_a_no_op() {
    let mut b: Broker<u64> = Broker::new();
    assert!(b.subscribe("alice", "news", None));
    assert!(b.unsubscribe("alice", Some("sports")));
    assert!(b.publish("news", "still-there").0);
    assert!(b.has_messages("alice", Some("news")));
}

#[test]
fn push_subscriber_gets_deliveries_not_queue() {
    let mut b: Broker<u64> = Broker::new();
    assert!(b.subscribe("cb", "news", Some(7)));
    assert!(b.subscribe("queue", "news", None));
    let (delivered, pushes) = b.publish("news", "hello");
    assert!(delivered);
    assert_eq!(pushes.len(), 1);
    assert_eq!(pushes[0].subscriber, "cb");
    assert_eq!(pushes[0].context, 7);
    assert!(!b.has_messages("cb", None));
    assert!(b.has_messages("queue", Some("news")));
}

#[test]
fn resubscribing_with_a_callback_replaces_the_old_one() {
    let mut b: Broker<u64> = Broker::new();
    assert!(b.subscribe("cb", "news", Some(1)));
    assert!(b.subscribe("cb", "news", Some(2)));
    let (_, pushes) = b.publish("news", "m");
    assert_eq!(pushes.len(), 1);
    assert_eq!(pushes[0].context, 2);
}

#[test]
fn converting_to_push_mode_keeps_the_old_queue() {
    let mut b: Broker<u64> = Broker::new();
    assert!(b.subscribe("alice", "news", None));
    assert!(b.publish("news", "queued-before").0);
    assert!(b.subscribe("alice", "news", Some(9)));
    let (_, pushes) = b.publish("news", "pushed-after");
    assert_eq!(pushes.len(), 1);
    assert_eq!(pushes[0].subscriber, "alice");
    // The residual queue still holds the earlier message, and only it.
    assert_eq!(
        b.get_next_message("alice", None).unwrap().payload,
        "queued-before"
    );
    assert!(b.get_next_message("alice", None).is_none());
}

#[test]
fn reads_on_unknown_subscriber_are_absent_not_errors() {
    let mut b: Broker<u64> = Broker::new();
    assert!(!b.has_messages("ghost", None));
    assert!(!b.has_messages("ghost", Some("news")));
    assert!(b.get_next_message("ghost", None).is_none());
    assert!(b.get_next_message("ghost", Some("news")).is_none());
}

#[test]
fn interleaved_publishes_to_distinct_topics_do_not_interfere() {
    let mut b: Broker<u64> = Broker::new();
    assert!(b.subscribe("s1", "t1", None));
    assert!(b.subscribe("s2", "t2", None));
    assert!(b.publish("t1", "m1").0);
    assert!(b.publish("t2", "m2").0);
    let m1 = b.get_next_message("s1", None).unwrap();
    assert_eq!((m1.topic.as_str(), m1.payload.as_str()), ("t1", "m1"));
    assert!(b.get_next_message("s1", None).is_none());
    let m2 = b.get_next_message("s2", None).unwrap();
    assert_eq!((m2.topic.as_str(), m2.payload.as_str()), ("t2", "m2"));
    assert!(b.get_next_message("s2", None).is_none());
}

#[test]
fn subscribing_twice_queues_only_one_copy() {
    let mut b: Broker<u64> = Broker::new();
    assert!(b.subscribe("alice", "news", None));
    assert!(b.subscribe("alice", "news", None));
    assert!(b.publish("news", "once").0);
    assert_eq!(b.get_next_message("alice", None).unwrap().payload, "once");
    assert!(b.get_next_message("alice", None).is_none());
}
