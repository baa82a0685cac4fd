//! The consumer: sole owner of one native client handle.
//!
//! A [`KafkaConsumer`] is created from a configuration, registers
//! brokers, subscribes to one topic, and polls for messages.  Every
//! operation is specified against the engine model
//! ([`crate::engine::ClientEngine`]): what it returns, what it does to
//! the engine's resources, and that nothing leaks on any error path.
//! Teardown is an explicit consuming call, so the group-leave,
//! handle-destroy and bounded-wait steps happen exactly once and in
//! that order.

use crate::config::KafkaConfig;
use crate::diag::{decode_diagnostic, lossy_utf8};
use crate::engine::{
    creation_diag,
    first_match,
    lemma_first_match,
    ClientEngine,
    EngineAction,
    DESTROY_WAIT_MS,
};
use crate::errors::KafkaError;
use vstd::prelude::*;
use vstd::string::StringSliceAdditionalSpecFns;

verus! {

/// A consumer of one topic, owning exactly one live engine handle.
/// The handle is never copied: the consumer is moved, and consumed by
/// [`KafkaConsumer::close`].
pub struct KafkaConsumer {
    /// The engine handle this consumer exclusively owns.
    pub handle: u64,
    /// The topic currently subscribed to, if any; a successful
    /// subscription replaces the previous one.
    pub subscription: Option<String>,
}

impl KafkaConsumer {
    /// The subscription as a mathematical value.
    pub open spec fn sub_view(self) -> Option<Seq<char>> {
        match self.subscription {
            Some(t) => Some(t@),
            None => None,
        }
    }

    /// The consumer's handle is live in `e`, and `e` is consistent:
    /// what every operation on an existing consumer relies on, and
    /// preserves until [`KafkaConsumer::close`] retires the handle.
    pub open spec fn attached(self, e: ClientEngine) -> bool {
        &&& e.wf()
        &&& e.live_handles@.contains(self.handle)
    }

    /// Passes a comma-separated broker address list to the engine and
    /// answers with the number of entries the engine parsed; `0` signals
    /// total parse failure and is advisory, never a typed error.
    pub fn broker_add(&self, engine: &mut ClientEngine, brokers: &str) -> (n: i32)
        requires
            self.attached(*old(engine)),
            brokers.spec_bytes().len() < 0x7fff_ffff,
        ensures
            self.attached(*final(engine)),
            final(engine).brokers_view() == old(engine).brokers_view()
                + crate::engine::ok_entries(brokers.spec_bytes()),
            n as int == crate::engine::ok_entries(brokers.spec_bytes()).len(),
            n >= 0,
            final(engine).live_handles@ == old(engine).live_handles@,
            final(engine).next_handle == old(engine).next_handle,
            final(engine).pending@ == old(engine).pending@,
            final(engine).live_records@ == old(engine).live_records@,
            final(engine).next_record == old(engine).next_record,
            final(engine).actions@ == old(engine).actions@,
    {
        engine.native_brokers_add(self.handle, brokers)
    }

    /// Subscribes to one topic, replacing any earlier subscription.
    /// The engine accepts any non-empty topic name; an empty one is
    /// rejected with [`KafkaError::SubscriptionError`] carrying the
    /// topic, and the consumer is left as it was.
    pub fn subscribe(&mut self, topic: &str) -> (r: Result<(), KafkaError>)
        ensures
            final(self).handle == old(self).handle,
            topic@.len() > 0 ==> r is Ok && final(self).sub_view() == Some(topic@),
            topic@.len() == 0 ==> (*final(self) == *old(self) && (r matches Err(
                KafkaError::SubscriptionError(t),
            ) && t@ == topic@)),
    {
        if topic.is_empty() {
            Err(KafkaError::SubscriptionError(topic.to_owned()))
        } else {
            self.subscription = Some(topic.to_owned());
            Ok(())
        }
    }

    /// Blocks for up to `timeout_ms` waiting for one message.  Exactly
    /// three outcomes, told apart for the caller:
    ///
    /// - no matching record was pending: `Ok(None)` — a timeout is not
    ///   an error, and the engine is untouched;
    /// - the oldest matching record carries an engine error code:
    ///   `Err(MessageConsumptionError)` with that code, and the record
    ///   is released back to the engine *before* returning, so nothing
    ///   leaks on the error path;
    /// - a proper record: `Ok(Some(view))` borrowing the record's
    ///   payload and key exactly as delivered — a null payload or key
    ///   stays absent, distinct from an empty-but-present one — and the
    ///   view now holds the record, which stays outstanding until the
    ///   view is released.
    pub fn poll(&self, engine: &mut ClientEngine, timeout_ms: i32) -> (r: Result<
        Option<Message>,
        KafkaError,
    >)
        requires
            self.attached(*old(engine)),
        ensures
            self.attached(*final(engine)),
            self.sub_view() is None ==> (*final(engine) == *old(engine) && (r matches Ok(m)
                && m is None)),
            ({
                let t = self.sub_view().unwrap();
                let m = first_match(old(engine).pending@, t) as int;
                self.sub_view() is Some && m >= old(engine).pending@.len() ==> (*final(engine)
                    == *old(engine) && (r matches Ok(m) && m is None))
            }),
            ({
                let t = self.sub_view().unwrap();
                let m = first_match(old(engine).pending@, t) as int;
                let rec = old(engine).pending@[m];
                (self.sub_view() is Some && m < old(engine).pending@.len() && rec.err != 0) ==> {
                    &&& r matches Err(e) && e == KafkaError::MessageConsumptionError(rec.err)
                    &&& final(engine).pending@ == old(engine).pending@.remove(m)
                    &&& final(engine).live_records@ == old(engine).live_records@
                    &&& final(engine).actions@ == old(engine).actions@.push(
                        EngineAction::RecordReleased(rec.id),
                    )
                    &&& final(engine).live_handles@ == old(engine).live_handles@
                    &&& final(engine).next_handle == old(engine).next_handle
                    &&& final(engine).next_record == old(engine).next_record
                    &&& final(engine).brokers@ == old(engine).brokers@
                }
            }),
            ({
                let t = self.sub_view().unwrap();
                let m = first_match(old(engine).pending@, t) as int;
                let rec = old(engine).pending@[m];
                (self.sub_view() is Some && m < old(engine).pending@.len() && rec.err == 0) ==> {
                    &&& r matches Ok(o) && o matches Some(msg) && {
                        &&& msg.payload_view() == rec.payload_view()
                        &&& msg.key_view() == rec.key_view()
                        &&& msg.partition == rec.partition
                        &&& msg.offset == rec.offset
                        &&& msg.record_id == rec.id
                        &&& msg.partition >= 0
                        &&& msg.offset >= 0
                    }
                    &&& final(engine).pending@ == old(engine).pending@.remove(m)
                    &&& final(engine).live_records@ == old(engine).live_records@.push(rec.id)
                    &&& final(engine).live_records@.contains(rec.id)
                    &&& final(engine).actions@ == old(engine).actions@
                    &&& final(engine).live_handles@ == old(engine).live_handles@
                    &&& final(engine).next_handle == old(engine).next_handle
                    &&& final(engine).next_record == old(engine).next_record
                    &&& final(engine).brokers@ == old(engine).brokers@
                }
            }),
    {
        match &self.subscription {
            None => Ok(None),
            Some(t) => {
                let polled = engine.native_consumer_poll(self.handle, t);
                match polled {
                    None => Ok(None),
                    Some(rec) => {
                        if rec.err != 0 {
                            let ghost live_before = old(engine).live_records@;
                            let code = rec.err;
                            let id = rec.id;
                            proof {
                                lemma_live_excludes_pending(*old(engine), *engine, id);
                            }
                            engine.native_message_destroy(id);
                            proof {
                                lemma_push_then_remove(live_before, id);
                            }
                            Err(KafkaError::MessageConsumptionError(code))
                        } else {
                            let msg = Message {
                                payload: rec.payload,
                                key: rec.key,
                                partition: rec.partition,
                                offset: rec.offset,
                                record_id: rec.id,
                            };
                            Ok(Some(msg))
                        }
                    },
                }
            },
        }
    }

    /// Tears the consumer down, in the one order the engine tolerates:
    /// leave the consumer group, destroy the handle, then wait — bounded
    /// by [`DESTROY_WAIT_MS`] — for the engine's internal resources.
    /// The consumer is consumed: the handle cannot be destroyed twice,
    /// and it leaves the engine's live set for good.
    pub fn close(self, engine: &mut ClientEngine)
        requires
            self.attached(*old(engine)),
        ensures
            final(engine).wf(),
            final(engine).actions@ == old(engine).actions@ + seq![
                EngineAction::GroupLeave(self.handle),
                EngineAction::HandleDestroy(self.handle),
                EngineAction::WaitDestroyed(DESTROY_WAIT_MS),
            ],
            !final(engine).live_handles@.contains(self.handle),
            final(engine).live_handles@ == old(engine).live_handles@.remove(
                old(engine).live_handles@.index_of_first(self.handle).unwrap(),
            ),
            final(engine).pending@ == old(engine).pending@,
            final(engine).live_records@ == old(engine).live_records@,
            final(engine).next_record == old(engine).next_record,
            final(engine).next_handle == old(engine).next_handle,
            final(engine).brokers@ == old(engine).brokers@,
    {
        engine.native_consumer_close(self.handle);
        engine.native_destroy(self.handle);
        engine.native_wait_destroyed(DESTROY_WAIT_MS);
        proof {
            assert(engine.actions@ =~= old(engine).actions@ + seq![
                EngineAction::GroupLeave(self.handle),
                EngineAction::HandleDestroy(self.handle),
                EngineAction::WaitDestroyed(DESTROY_WAIT_MS),
            ]);
        }
    }
}

impl KafkaConfig {
    /// Consumes this configuration to create a consumer.  The engine's
    /// construction call either yields a fresh handle — which is
    /// immediately registered with the consumer-group polling machinery,
    /// before any poll can happen — or rejects the configuration, in
    /// which case nothing was allocated, the engine is exactly as it
    /// was, and the engine's diagnostic text is decoded once at the
    /// boundary into the returned [`KafkaError::ConsumerCreationError`].
    pub fn create_consumer(&self, engine: &mut ClientEngine) -> (r: Result<
        KafkaConsumer,
        KafkaError,
    >)
        requires
            old(engine).wf(),
            old(engine).next_handle < u64::MAX,
        ensures
            final(engine).wf(),
            self.accepted() ==> (r matches Ok(c) && {
                &&& c.handle == old(engine).next_handle
                &&& c.sub_view() is None
                &&& c.attached(*final(engine))
                &&& final(engine).live_handles@ == old(engine).live_handles@.push(c.handle)
                &&& final(engine).next_handle == old(engine).next_handle + 1
                &&& final(engine).actions@ == old(engine).actions@ + seq![
                    EngineAction::HandleCreated(c.handle),
                    EngineAction::PollSetConsumer(c.handle),
                ]
                &&& final(engine).brokers@ == old(engine).brokers@
                &&& final(engine).pending@ == old(engine).pending@
                &&& final(engine).live_records@ == old(engine).live_records@
                &&& final(engine).next_record == old(engine).next_record
            }),
            !self.accepted() ==> (*final(engine) == *old(engine) && (r matches Err(e)
                && e matches KafkaError::ConsumerCreationError(s) && s@ == lossy_utf8(
                creation_diag(),
            ))),
    {
        match engine.native_new(self) {
            Ok(h) => {
                proof {
                    assert(engine.live_handles@[engine.live_handles@.len() - 1] == h);
                    assert(engine.live_handles@.contains(h));
                }
                engine.native_poll_set_consumer(h);
                proof {
                    assert(engine.actions@ =~= old(engine).actions@ + seq![
                        EngineAction::HandleCreated(h),
                        EngineAction::PollSetConsumer(h),
                    ]);
                }
                Ok(KafkaConsumer { handle: h, subscription: None })
            },
            Err(d) => {
                proof {
                    crate::engine::lemma_creation_diag_trims();
                }
                let text = decode_diagnostic(d.as_slice());
                Err(KafkaError::ConsumerCreationError(text))
            },
        }
    }
}

/// A zero-copy view of one delivered message.  It owns the underlying
/// native record: the payload and key stay valid for the view's
/// lifetime, and [`Message::release`] — which consumes the view —
/// returns the record to the engine exactly once.
pub struct Message {
    /// The payload; `None` is a null payload (a tombstone), distinct
    /// from `Some` of an empty buffer.
    pub payload: Option<Vec<u8>>,
    /// The key; `None` is a null key, distinct from an empty one.
    pub key: Option<Vec<u8>>,
    /// The partition the message came from; never negative.
    pub partition: i32,
    /// The message's broker-assigned position in its partition; never
    /// negative.
    pub offset: i64,
    /// The identity of the native record this view holds.
    pub record_id: u64,
}

impl Message {
    /// The payload as a mathematical value.
    pub open spec fn payload_view(self) -> Option<Seq<u8>> {
        match self.payload {
            Some(p) => Some(p@),
            None => None,
        }
    }

    /// The key as a mathematical value.
    pub open spec fn key_view(self) -> Option<Seq<u8>> {
        match self.key {
            Some(k) => Some(k@),
            None => None,
        }
    }

    /// The payload bytes, borrowed for no longer than the view lives;
    /// `None` for a null payload.
    pub fn payload_bytes(&self) -> (r: Option<&[u8]>)
        ensures
            r is Some <==> self.payload_view() is Some,
            r matches Some(b) ==> Some(b@) == self.payload_view(),
    {
        match &self.payload {
            Some(p) => Some(p.as_slice()),
            None => None,
        }
    }

    /// The key bytes, borrowed for no longer than the view lives;
    /// `None` for a null key.
    pub fn key_bytes(&self) -> (r: Option<&[u8]>)
        ensures
            r is Some <==> self.key_view() is Some,
            r matches Some(b) ==> Some(b@) == self.key_view(),
    {
        match &self.key {
            Some(k) => Some(k.as_slice()),
            None => None,
        }
    }

    /// Releases the underlying native record back to the engine.  The
    /// view is consumed and the record's identity leaves the
    /// outstanding set for good: a second release of the same record is
    /// impossible.
    pub fn release(self, engine: &mut ClientEngine)
        requires
            old(engine).wf(),
            old(engine).live_records@.contains(self.record_id),
        ensures
            final(engine).wf(),
            final(engine).live_records@.len() == old(engine).live_records@.len() - 1,
            !final(engine).live_records@.contains(self.record_id),
            final(engine).live_records@ == old(engine).live_records@.remove(
                old(engine).live_records@.index_of_first(self.record_id).unwrap(),
            ),
            final(engine).actions@ == old(engine).actions@.push(
                EngineAction::RecordReleased(self.record_id),
            ),
            final(engine).live_handles@ == old(engine).live_handles@,
            final(engine).next_handle == old(engine).next_handle,
            final(engine).brokers@ == old(engine).brokers@,
            final(engine).pending@ == old(engine).pending@,
            final(engine).next_record == old(engine).next_record,
    {
        engine.native_message_destroy(self.record_id);
    }
}

/// After a delivery, the record's identity is held only at the end of
/// the outstanding set: a consistent engine never had it there before,
/// since queued and outstanding identities are disjoint.
proof fn lemma_live_excludes_pending(before: ClientEngine, after: ClientEngine, id: u64)
    requires
        after.wf(),
        after.live_records@ == before.live_records@.push(id),
    ensures
        !before.live_records@.contains(id),
{
    let live = after.live_records@;
    let p = crate::engine::record_ids(after.pending@).len() as int;
    if before.live_records@.contains(id) {
        let w = choose|w: int|
            0 <= w < before.live_records@.len() && before.live_records@[w] == id;
        assert(after.all_ids()[p + w] == id);
        assert(after.all_ids()[p + live.len() - 1] == id);
        assert(false);
    }
}

/// Pushing an absent identity and then removing its first occurrence is
/// the identity: the occurrence is the pushed one.
proof fn lemma_push_then_remove(s: Seq<u64>, x: u64)
    requires
        !s.contains(x),
    ensures
        s.push(x).index_of_first(x) == Some(s.len() as int),
        s.push(x).remove(s.len() as int) == s,
{
    let t = s.push(x);
    t.index_of_first_ensures(x);
    assert(t[s.len() as int] == x);
    assert(t.contains(x));
    match t.index_of_first(x) {
        Some(idx) => {
            if idx < s.len() {
                assert(t[idx] == s[idx]);
                assert(s.contains(x));
            }
        },
        None => {
            assert(false);
        },
    }
    assert(t.remove(s.len() as int) =~= s);
}

/// Law: one delivery, one release.  A record just delivered sits only
/// at the end of the engine's outstanding set — a consistent engine
/// never held it there before — so releasing the view removes exactly
/// that occurrence, restores the outstanding set as it was before the
/// delivery, and leaves the identity absent: the pair of
/// [`KafkaConsumer::poll`] and [`Message::release`] keeps no record
/// outstanding, and a second release of the same record is impossible.
pub proof fn lemma_single_release(before: ClientEngine, after: ClientEngine, id: u64)
    requires
        after.wf(),
        after.live_records@ == before.live_records@.push(id),
    ensures
        !before.live_records@.contains(id),
        after.live_records@.index_of_first(id) == Some(before.live_records@.len() as int),
        after.live_records@.remove(before.live_records@.len() as int) == before.live_records@,
{
    lemma_live_excludes_pending(before, after, id);
    lemma_push_then_remove(before.live_records@, id);
}

/// Law: the subscribe round-trip delivers.  If the engine holds any
/// pending record on the subscribed topic, a poll finds one — the
/// oldest — and a found record always carries a non-negative partition
/// and offset, exactly what [`KafkaConsumer::poll`]'s contract then
/// promises of the returned view.
pub proof fn lemma_subscribe_round_trip(eng: ClientEngine, topic: Seq<char>)
    requires
        eng.wf(),
        exists|i: int| 0 <= i < eng.pending@.len() && (#[trigger] eng.pending@[i]).topic@ == topic,
    ensures
        first_match(eng.pending@, topic) < eng.pending@.len(),
        eng.pending@[first_match(eng.pending@, topic) as int].partition >= 0,
        eng.pending@[first_match(eng.pending@, topic) as int].offset >= 0,
{
    lemma_first_match(eng.pending@, topic);
    if first_match(eng.pending@, topic) >= eng.pending@.len() {
        let w = choose|w: int|
            0 <= w < eng.pending@.len() && (#[trigger] eng.pending@[w]).topic@ == topic;
        assert(false);
    }
}

} // verus!
