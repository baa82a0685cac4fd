//! Consumer creation and teardown against the engine model.

use kafka_consumer::config::KafkaConfig;
use kafka_consumer::engine::{ClientEngine, EngineAction, DESTROY_WAIT_MS};
use kafka_consumer::errors::KafkaError;

fn accepted_config() -> KafkaConfig {
    let mut cfg = KafkaConfig::new();
    cfg.set("group.id", "group-one");
    cfg
}

#[test]
fn creation_failure_leaves_no_handle() {
    let mut eng = ClientEngine::new();
    let cfg = KafkaConfig::new();
    let r = cfg.create_consumer(&mut eng);
    match r {
        Err(err) => assert!(err.is_creation_error()),
        _ => panic!("rejected configuration must fail creation"),
    }
    assert!(eng.live_handles.is_empty());
    assert!(eng.actions.is_empty());
    assert_eq!(eng.outstanding(), 0);
}

#[test]
fn creation_failure_carries_decoded_diagnostic() {
    let mut eng = ClientEngine::new();
    let mut cfg = KafkaConfig::new();
    cfg.set("group.id", "");
    match cfg.create_consumer(&mut eng) {
        Err(KafkaError::ConsumerCreationError(text)) => {
            assert_eq!(text, "missing group.id");
        }
        _ => panic!("empty group id must be rejected"),
    }
}

#[test]
fn creation_registers_group_polling_immediately() {
    let mut eng = ClientEngine::new();
    let c = accepted_config().create_consumer(&mut eng).unwrap();
    assert_eq!(c.handle, 0);
    assert_eq!(
        eng.actions,
        vec![
            EngineAction::HandleCreated(0),
            EngineAction::PollSetConsumer(0),
        ]
    );
    assert_eq!(eng.live_handles, vec![0]);
    c.close(&mut eng);
}

#[test]
fn teardown_order_without_subscribe() {
    let mut eng = ClientEngine::new();
    let c = accepted_config().create_consumer(&mut eng).unwrap();
    let before = eng.actions.len();
    let h = c.handle;
    c.close(&mut eng);
    assert_eq!(
        &eng.actions[before..],
        &[
            EngineAction::GroupLeave(h),
            EngineAction::HandleDestroy(h),
            EngineAction::WaitDestroyed(DESTROY_WAIT_MS),
        ]
    );
    assert!(eng.live_handles.is_empty());
}

#[test]
fn teardown_order_after_subscribe() {
    let mut eng = ClientEngine::new();
    let mut c = accepted_config().create_consumer(&mut eng).unwrap();
    c.subscribe("topic-a").unwrap();
    let h = c.handle;
    let before = eng.actions.len();
    c.close(&mut eng);
    assert_eq!(
        &eng.actions[before..],
        &[
            EngineAction::GroupLeave(h),
            EngineAction::HandleDestroy(h),
            EngineAction::WaitDestroyed(DESTROY_WAIT_MS),
        ]
    );
}

#[test]
fn two_consumers_get_distinct_handles() {
    let mut eng = ClientEngine::new();
    let a = accepted_config().create_consumer(&mut eng).unwrap();
    let b = accepted_config().create_consumer(&mut eng).unwrap();
    assert_ne!(a.handle, b.handle);
    a.close(&mut eng);
    assert!(eng.live_handles.contains(&b.handle));
    b.close(&mut eng);
    assert!(eng.live_handles.is_empty());
}

#[test]
fn config_acceptance_requires_nonempty_group_id() {
    let mut cfg = KafkaConfig::new();
    assert!(!cfg.is_accepted());
    cfg.set("client.id", "me");
    assert!(!cfg.is_accepted());
    cfg.set("group.id", "");
    assert!(!cfg.is_accepted());
    cfg.set("group.id", "g");
    assert!(cfg.is_accepted());
}
