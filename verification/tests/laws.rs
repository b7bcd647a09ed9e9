use event_bus::{matches_glob, EventBus, EventPriority};

#[test]
fn star_matches_everything_even_empty() {
    assert!(matches_glob("*", ""));
    assert!(matches_glob("*", "a.b.c.d"));
    assert!(matches_glob("*", "..."));
}

#[test]
fn pattern_matches_itself() {
    for p in ["", "a", "a.b", "a..b", ".", "*.x", "crop.*.y"] {
        assert!(matches_glob(p, p));
    }
}

#[test]
fn literal_pattern_matches_only_itself() {
    assert!(matches_glob("a.b", "a.b"));
    assert!(!matches_glob("a.b", "a.bb"));
    assert!(!matches_glob("a.b", "a.b."));
    assert!(!matches_glob("a..b", "a.b"));
    assert!(!matches_glob("", "a"));
}

#[test]
fn star_segment_matches_one_segment_only() {
    assert!(matches_glob("a.*", "a."));
    assert!(matches_glob("*.*", "."));
    assert!(!matches_glob("*.*", "a"));
    assert!(!matches_glob("a.*", "a"));
    assert!(!matches_glob("a*", "ab"));
    assert!(matches_glob("a*", "a*"));
}

#[test]
fn unsubscribe_undoes_subscribe() {
    let mut bus: EventBus<u32> = EventBus::new();
    bus.subscribe("x.*", "first");
    let id = bus.subscribe("y.*", "second");
    assert_eq!(bus.subscription_count(), 2);
    assert!(bus.unsubscribe(id));
    assert_eq!(bus.subscription_count(), 1);
    assert!(!bus.unsubscribe(id));
    assert_eq!(bus.subscription_count(), 1);
    bus.publish("x.a", 1, "s", EventPriority::Normal);
    bus.publish("y.a", 2, "s", EventPriority::Normal);
    let results = bus.process();
    assert_eq!(results[0].1, vec!["first".to_string()]);
    assert!(results[1].1.is_empty());
}

#[test]
fn ids_keep_increasing_after_unsubscribe() {
    let mut bus: EventBus<u32> = EventBus::new();
    let a = bus.subscribe("a", "a");
    assert!(bus.unsubscribe(a));
    let b = bus.subscribe("b", "b");
    assert_eq!(a, 1);
    assert_eq!(b, 2);
}

#[test]
fn callbacks_come_in_subscription_order() {
    let mut bus: EventBus<u32> = EventBus::new();
    bus.subscribe("*", "third_kind");
    bus.subscribe("a.b", "exact");
    bus.subscribe("a.*", "prefix");
    bus.subscribe("b.*", "other");
    bus.publish("a.b", 7, "s", EventPriority::High);
    let results = bus.process();
    assert_eq!(
        results[0].1,
        vec!["third_kind".to_string(), "exact".to_string(), "prefix".to_string()]
    );
    assert_eq!(results[0].0.data, 7);
    assert_eq!(results[0].0.id.as_u64(), 1);
    assert_eq!(results[0].0.priority, EventPriority::High);
}

#[test]
fn published_event_ends_the_history() {
    let mut bus: EventBus<u32> = EventBus::with_history_limit(2);
    bus.set_tick(5);
    bus.publish("p.1", 10, "alpha", EventPriority::Low);
    bus.process();
    bus.publish("p.2", 20, "beta", EventPriority::Critical);
    let results = bus.process();
    assert_eq!(results.len(), 1);
    let last = &bus.history()[bus.history().len() - 1];
    assert_eq!(last.event_type, "p.2");
    assert_eq!(last.data, 20);
    assert_eq!(last.source, "beta");
    assert_eq!(last.tick, 5);
    assert_eq!(last.id.as_u64(), 2);
}

#[test]
fn processing_twice_hands_out_nothing() {
    let mut bus: EventBus<u32> = EventBus::new();
    bus.publish("a", 1, "s", EventPriority::Normal);
    assert_eq!(bus.process().len(), 1);
    assert_eq!(bus.process().len(), 0);
    assert_eq!(bus.history().len(), 1);
}

#[test]
fn zero_history_limit_keeps_nothing() {
    let mut bus: EventBus<u32> = EventBus::with_history_limit(0);
    bus.subscribe("a", "h");
    bus.publish("a", 1, "s", EventPriority::Normal);
    let results = bus.process();
    assert_eq!(results.len(), 1);
    assert_eq!(results[0].1, vec!["h".to_string()]);
    assert_eq!(bus.history().len(), 0);
    assert_eq!(bus.stats().total_published, 1);
    assert_eq!(bus.stats().total_processed, 0);
}

#[test]
fn trimming_keeps_the_last_events_across_batches() {
    let mut bus: EventBus<u32> = EventBus::with_history_limit(3);
    bus.publish("e.0", 0, "s", EventPriority::Normal);
    bus.publish("e.1", 1, "s", EventPriority::Normal);
    bus.process();
    bus.publish("e.2", 2, "s", EventPriority::Normal);
    bus.publish("e.3", 3, "s", EventPriority::Normal);
    bus.publish("e.4", 4, "s", EventPriority::Normal);
    bus.process();
    let kept: Vec<u32> = bus.history().iter().map(|e| e.data).collect();
    assert_eq!(kept, vec![2, 3, 4]);
}

#[test]
fn stats_list_each_type_once() {
    let mut bus: EventBus<u32> = EventBus::new();
    bus.publish("a", 0, "s", EventPriority::Normal);
    bus.publish("b", 0, "s", EventPriority::Normal);
    bus.publish("a", 0, "s", EventPriority::Normal);
    bus.process();
    let stats = bus.stats();
    assert_eq!(stats.event_types_seen.len(), 2);
    assert_eq!(stats.total_published, 3);
    assert_eq!(stats.total_processed, 3);
}

#[test]
fn clear_history_keeps_pending_and_subscriptions() {
    let mut bus: EventBus<u32> = EventBus::new();
    bus.subscribe("a", "h");
    bus.publish("a", 0, "s", EventPriority::Normal);
    bus.process();
    bus.publish("a", 1, "s", EventPriority::Normal);
    bus.clear_history();
    assert_eq!(bus.history().len(), 0);
    assert_eq!(bus.pending_count(), 1);
    assert_eq!(bus.subscription_count(), 1);
    assert_eq!(bus.stats().total_published, 2);
}

#[test]
fn history_queries_keep_order() {
    let mut bus: EventBus<u32> = EventBus::new();
    bus.publish("a.x", 1, "s1", EventPriority::Normal);
    bus.publish("b.x", 2, "s2", EventPriority::Normal);
    bus.publish("a.y", 3, "s1", EventPriority::Normal);
    bus.process();
    let by_type: Vec<u32> = bus.history_for_type("a.*").iter().map(|e| e.data).collect();
    assert_eq!(by_type, vec![1, 3]);
    let all: Vec<u32> = bus.history_for_type("*").iter().map(|e| e.data).collect();
    assert_eq!(all, vec![1, 2, 3]);
    let by_source: Vec<u32> = bus.history_for_source("s2").iter().map(|e| e.data).collect();
    assert_eq!(by_source, vec![2]);
    assert!(bus.history_for_source("s").is_empty());
}

#[test]
fn default_bus_equals_new() {
    let bus: EventBus<u32> = EventBus::default();
    assert_eq!(bus.max_history(), 10_000);
    assert_eq!(bus.tick(), 0);
    assert_eq!(bus.subscription_count(), 0);
}

#[test]
fn clone_copies_events() {
    let mut bus: EventBus<String> = EventBus::new();
    bus.publish("a", "payload".to_string(), "s", EventPriority::Normal);
    let mut copy = bus.clone();
    let results = copy.process();
    assert_eq!(results[0].0.data, "payload");
    assert_eq!(bus.pending_count(), 1);
}

#[test]
fn nth_publish_gets_id_n_across_clear_and_clone() {
    let mut bus: EventBus<u32> = EventBus::with_history_limit(1);
    bus.publish("a", 0, "s", EventPriority::Normal);
    bus.process();
    bus.clear_history();
    let mut copy = bus.clone();
    copy.publish("b", 0, "s", EventPriority::Normal);
    copy.publish("c", 0, "s", EventPriority::Normal);
    let results = copy.process();
    assert_eq!(results[0].0.id.as_u64(), 2);
    assert_eq!(results[1].0.id.as_u64(), 3);
    assert_eq!(copy.history()[0].id.as_u64(), 3);
}

#[test]
fn counts_follow_the_calls() {
    let mut bus: EventBus<u32> = EventBus::new();
    let a = bus.subscribe("a", "h");
    bus.subscribe("b", "h");
    assert!(bus.unsubscribe(a));
    assert!(!bus.unsubscribe(a));
    assert_eq!(bus.subscription_count(), 1);
    bus.publish("a", 0, "s", EventPriority::Normal);
    bus.publish("a", 0, "s", EventPriority::Normal);
    assert_eq!(bus.pending_count(), 2);
    bus.process();
    assert_eq!(bus.pending_count(), 0);
    bus.publish("a", 0, "s", EventPriority::Normal);
    assert_eq!(bus.pending_count(), 1);
    let stats = bus.stats();
    assert!(stats.total_published >= stats.total_processed + bus.pending_count() as u64);
    assert!(stats.event_types_seen.len() as u64 <= stats.total_processed);
}

#[test]
fn set_tick_leaves_earlier_events_alone() {
    let mut bus: EventBus<u32> = EventBus::new();
    bus.publish("a", 0, "s", EventPriority::Normal);
    bus.set_tick(9);
    bus.publish("b", 0, "s", EventPriority::Normal);
    bus.process();
    assert_eq!(bus.history()[0].tick, 0);
    assert_eq!(bus.history()[1].tick, 9);
}
