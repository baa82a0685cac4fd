//! Polling, delivery, and record release against the engine model.

use kafka_consumer::config::KafkaConfig;
use kafka_consumer::consumer::KafkaConsumer;
use kafka_consumer::engine::{ClientEngine, EngineAction};
use kafka_consumer::errors::KafkaError;

fn consumer_on(eng: &mut ClientEngine, topic: &str) -> KafkaConsumer {
    let mut cfg = KafkaConfig::new();
    cfg.set("group.id", "group-one");
    let mut c = cfg.create_consumer(eng).unwrap();
    c.subscribe(topic).unwrap();
    c
}

#[test]
fn subscribe_then_poll_delivers() {
    let mut eng = ClientEngine::new();
    let c = consumer_on(&mut eng, "news");
    eng.enqueue_record("news", 0, Some(b"hello".to_vec()), Some(b"k1".to_vec()), 3, 42);
    let view = c.poll(&mut eng, 1000).unwrap().expect("a pending message must be delivered");
    assert!(view.partition >= 0);
    assert!(view.offset >= 0);
    assert_eq!(view.partition, 3);
    assert_eq!(view.offset, 42);
    assert_eq!(view.payload_bytes(), Some(&b"hello"[..]));
    assert_eq!(view.key_bytes(), Some(&b"k1"[..]));
    view.release(&mut eng);
    c.close(&mut eng);
}

#[test]
fn poll_timeout_without_message_is_not_an_error() {
    let mut eng = ClientEngine::new();
    let c = consumer_on(&mut eng, "quiet");
    let actions_before = eng.actions.clone();
    match c.poll(&mut eng, 10) {
        Ok(None) => {}
        _ => panic!("an expired poll must yield Ok(None), never an error"),
    }
    assert_eq!(eng.actions, actions_before);
    c.close(&mut eng);
}

#[test]
fn poll_before_subscribe_delivers_nothing() {
    let mut eng = ClientEngine::new();
    let mut cfg = KafkaConfig::new();
    cfg.set("group.id", "group-one");
    let c = cfg.create_consumer(&mut eng).unwrap();
    eng.enqueue_record("news", 0, Some(b"x".to_vec()), None, 0, 0);
    match c.poll(&mut eng, 10) {
        Ok(None) => {}
        _ => panic!("an unsubscribed consumer is never delivered a message"),
    }
    c.close(&mut eng);
}

#[test]
fn empty_payload_differs_from_null_payload() {
    let mut eng = ClientEngine::new();
    let c = consumer_on(&mut eng, "t");
    eng.enqueue_record("t", 0, Some(Vec::new()), None, 0, 0);
    eng.enqueue_record("t", 0, None, Some(Vec::new()), 0, 1);
    let first = c.poll(&mut eng, 10).unwrap().unwrap();
    assert_eq!(first.payload_bytes(), Some(&[][..]));
    assert_eq!(first.key_bytes(), None);
    let second = c.poll(&mut eng, 10).unwrap().unwrap();
    assert_eq!(second.payload_bytes(), None);
    assert_eq!(second.key_bytes(), Some(&[][..]));
    first.release(&mut eng);
    second.release(&mut eng);
    c.close(&mut eng);
}

#[test]
fn error_record_is_released_before_the_error_returns() {
    let mut eng = ClientEngine::new();
    let c = consumer_on(&mut eng, "t");
    let id = eng.enqueue_record("t", 42, None, None, 0, 0);
    match c.poll(&mut eng, 10) {
        Err(KafkaError::MessageConsumptionError(code)) => assert_eq!(code, 42),
        _ => panic!("an error record must surface its engine code"),
    }
    assert_eq!(eng.outstanding(), 0);
    assert_eq!(eng.actions.last(), Some(&EngineAction::RecordReleased(id)));
    c.close(&mut eng);
}

#[test]
fn thousand_views_release_exactly_once_each() {
    let mut eng = ClientEngine::new();
    let c = consumer_on(&mut eng, "bulk");
    for i in 0..1000i64 {
        eng.enqueue_record("bulk", 0, Some(vec![1, 2, 3]), None, 0, i);
        let view = c.poll(&mut eng, 10).unwrap().unwrap();
        assert_eq!(eng.outstanding(), 1);
        view.release(&mut eng);
        assert_eq!(eng.outstanding(), 0);
    }
    c.close(&mut eng);
    assert_eq!(eng.outstanding(), 0);
    let releases: Vec<&EngineAction> = eng
        .actions
        .iter()
        .filter(|a| matches!(a, EngineAction::RecordReleased(_)))
        .collect();
    assert_eq!(releases.len(), 1000);
    for (n, act) in releases.iter().enumerate() {
        match act {
            EngineAction::RecordReleased(id) => assert_eq!(*id, n as u64),
            _ => unreachable!(),
        }
    }
}

#[test]
fn records_on_one_partition_arrive_in_offset_order() {
    let mut eng = ClientEngine::new();
    let c = consumer_on(&mut eng, "ordered");
    for off in [5i64, 6, 9] {
        eng.enqueue_record("ordered", 0, None, None, 1, off);
    }
    let mut seen = Vec::new();
    while let Ok(Some(view)) = c.poll(&mut eng, 10) {
        seen.push(view.offset);
        view.release(&mut eng);
        if seen.len() == 3 {
            break;
        }
    }
    assert_eq!(seen, vec![5, 6, 9]);
    c.close(&mut eng);
}

#[test]
fn poll_leaves_other_topics_pending() {
    let mut eng = ClientEngine::new();
    let c = consumer_on(&mut eng, "mine");
    eng.enqueue_record("other", 0, Some(b"skip".to_vec()), None, 0, 0);
    eng.enqueue_record("mine", 0, Some(b"take".to_vec()), None, 0, 0);
    let view = c.poll(&mut eng, 10).unwrap().unwrap();
    assert_eq!(view.payload_bytes(), Some(&b"take"[..]));
    assert_eq!(eng.pending.len(), 1);
    assert_eq!(eng.pending[0].topic, "other");
    view.release(&mut eng);
    c.close(&mut eng);
}
