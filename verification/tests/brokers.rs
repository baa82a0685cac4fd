//! Broker registration and subscription edge cases.

use kafka_consumer::config::KafkaConfig;
use kafka_consumer::consumer::KafkaConsumer;
use kafka_consumer::engine::ClientEngine;
use kafka_consumer::errors::KafkaError;

fn consumer(eng: &mut ClientEngine) -> KafkaConsumer {
    let mut cfg = KafkaConfig::new();
    cfg.set("group.id", "group-one");
    cfg.create_consumer(eng).unwrap()
}

#[test]
fn broker_add_counts_only_parseable_entries() {
    let mut eng = ClientEngine::new();
    let c = consumer(&mut eng);
    let n = c.broker_add(&mut eng, "valid1,invalid,valid2");
    assert!(n >= 1);
    assert!(n < 3);
    assert_eq!(n, 2);
    assert_eq!(eng.brokers, vec![b"valid1".to_vec(), b"valid2".to_vec()]);
    c.close(&mut eng);
}

#[test]
fn broker_add_with_host_port_pairs() {
    let mut eng = ClientEngine::new();
    let c = consumer(&mut eng);
    let n = c.broker_add(&mut eng, "host-1.example:9092,host-2.example:9093");
    assert_eq!(n, 2);
    c.close(&mut eng);
}

#[test]
fn broker_add_total_parse_failure_returns_zero() {
    let mut eng = ClientEngine::new();
    let c = consumer(&mut eng);
    assert_eq!(c.broker_add(&mut eng, ""), 0);
    assert_eq!(c.broker_add(&mut eng, ",,"), 0);
    assert_eq!(c.broker_add(&mut eng, "nodigits,also bad"), 0);
    assert!(eng.brokers.is_empty());
    c.close(&mut eng);
}

#[test]
fn broker_add_keeps_earlier_brokers() {
    let mut eng = ClientEngine::new();
    let c = consumer(&mut eng);
    assert_eq!(c.broker_add(&mut eng, "b1"), 1);
    assert_eq!(c.broker_add(&mut eng, "b2,b3"), 2);
    assert_eq!(
        eng.brokers,
        vec![b"b1".to_vec(), b"b2".to_vec(), b"b3".to_vec()]
    );
    c.close(&mut eng);
}

#[test]
fn subscribe_rejects_empty_topic() {
    let mut eng = ClientEngine::new();
    let mut c = consumer(&mut eng);
    match c.subscribe("") {
        Err(KafkaError::SubscriptionError(topic)) => assert_eq!(topic, ""),
        _ => panic!("the engine rejects an empty topic"),
    }
    assert!(c.subscription.is_none());
    c.close(&mut eng);
}

#[test]
fn subscribe_replaces_previous_subscription() {
    let mut eng = ClientEngine::new();
    let mut c = consumer(&mut eng);
    c.subscribe("first").unwrap();
    c.subscribe("second").unwrap();
    assert_eq!(c.subscription.as_deref(), Some("second"));
    eng.enqueue_record("first", 0, None, None, 0, 0);
    match c.poll(&mut eng, 10) {
        Ok(None) => {}
        _ => panic!("a replaced subscription no longer delivers"),
    }
    c.close(&mut eng);
}
