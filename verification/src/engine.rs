//! A model of the native client engine's observable resource behaviour.
//!
//! The real engine is an opaque native library: it owns broker
//! connections, allocates consumer handles, delivers message records and
//! reclaims them.  What this crate verifies is the *protocol* the
//! consumer layer must keep with that engine: which calls are made, in
//! which order, and what each does to the engine's resources.
//! [`ClientEngine`] states that protocol as plain data — live handles,
//! queued records, records held by the caller, and a log of the
//! resource-managing calls — so every consumer operation can carry an
//! exact contract over it.  The process-level engine driven over FFI
//! lives outside the verified boundary and is exercised by the
//! application shell instead.

use crate::config::KafkaConfig;
use crate::diag::{lemma_prefix_of_terminated, prefix_to_nul};
use vstd::prelude::*;
use vstd::utf8::{is_ascii_chars, is_ascii_chars_encode_utf8};
use vstd::string::StrSliceExecFns;
use vstd::string::StringSliceAdditionalSpecFns;

verus! {

/// How many time-units a consumer teardown waits for the engine's
/// internal resources to be released.
pub const DESTROY_WAIT_MS: u64 = 1000;

/// One message record owned by the engine until it is either delivered
/// to the caller or released.
pub struct Record {
    /// Engine-assigned identity of the underlying native record.
    pub id: u64,
    /// The topic the record was published on.
    pub topic: String,
    /// The engine's error code for this record; `0` means a proper
    /// message, any other value a delivery-time error.
    pub err: i32,
    /// The payload bytes; `None` is a null payload (a tombstone),
    /// distinct from `Some` of an empty sequence.
    pub payload: Option<Vec<u8>>,
    /// The key bytes; `None` is a null key, distinct from an empty one.
    pub key: Option<Vec<u8>>,
    /// The partition the record came from; broker-assigned, never
    /// negative.
    pub partition: i32,
    /// The record's position in its partition; broker-assigned, never
    /// negative.
    pub offset: i64,
}

impl Record {
    /// The payload as a mathematical value: absent, or a byte sequence.
    pub open spec fn payload_view(self) -> Option<Seq<u8>> {
        match self.payload {
            Some(p) => Some(p@),
            None => None,
        }
    }

    /// The key as a mathematical value: absent, or a byte sequence.
    pub open spec fn key_view(self) -> Option<Seq<u8>> {
        match self.key {
            Some(k) => Some(k@),
            None => None,
        }
    }
}

/// One resource-managing call made into the engine, as it appears in the
/// engine's call log.
#[derive(Debug, Clone, Copy, PartialEq, Eq, Structural)]
pub enum EngineAction {
    /// A consumer handle was allocated.
    HandleCreated(u64),
    /// The handle was registered with the engine's consumer-group
    /// polling machinery.
    PollSetConsumer(u64),
    /// The handle left its consumer group and stopped consumer-side
    /// polling.
    GroupLeave(u64),
    /// The handle itself was destroyed.
    HandleDestroy(u64),
    /// A bounded wait for the engine's internal resources, with its
    /// bound in time-units.
    WaitDestroyed(u64),
    /// A record held by the caller was released back to the engine.
    RecordReleased(u64),
}

/// The identities of a sequence of records.
pub open spec fn record_ids(s: Seq<Record>) -> Seq<u64> {
    s.map_values(|r: Record| r.id)
}

/// No identity occurs twice.
pub open spec fn distinct_ids(s: Seq<u64>) -> bool {
    forall|i: int, j: int| 0 <= i < j < s.len() ==> s[i] != s[j]
}

/// Every identity is below `bound`.
pub open spec fn ids_bounded(s: Seq<u64>, bound: u64) -> bool {
    forall|i: int| 0 <= i < s.len() ==> s[i] < bound
}

/// The engine's observable state: its live consumer handles, the broker
/// addresses it accepted, the records it has queued for delivery, the
/// records currently held by the caller, and the log of resource-managing
/// calls made into it.
pub struct ClientEngine {
    /// The next handle identity the engine will allocate.
    pub next_handle: u64,
    /// Handles allocated and not yet destroyed.
    pub live_handles: Vec<u64>,
    /// Broker address entries the engine parsed successfully, in the
    /// order they were added.
    pub brokers: Vec<Vec<u8>>,
    /// Records queued inside the engine, oldest first.
    pub pending: Vec<Record>,
    /// Identities of records delivered to the caller and not yet
    /// released: the engine's outstanding-object counter counts these.
    pub live_records: Vec<u64>,
    /// The next record identity the engine will assign.
    pub next_record: u64,
    /// Every resource-managing call made into the engine, in order.
    pub actions: Vec<EngineAction>,
}

impl ClientEngine {
    /// Every record identity the engine has handed out and not retired:
    /// the queued ones followed by the ones held by the caller.
    pub open spec fn all_ids(self) -> Seq<u64> {
        record_ids(self.pending@) + self.live_records@
    }

    /// The engine's internal consistency: record identities are unique
    /// and below the allocation counter, handles likewise, and every
    /// queued record carries broker-assigned coordinates.
    pub open spec fn wf(self) -> bool {
        &&& distinct_ids(self.all_ids())
        &&& ids_bounded(self.all_ids(), self.next_record)
        &&& distinct_ids(self.live_handles@)
        &&& ids_bounded(self.live_handles@, self.next_handle)
        &&& forall|i: int|
            0 <= i < self.pending@.len() ==> (#[trigger] self.pending@[i]).partition >= 0
                && self.pending@[i].offset >= 0
    }

    /// A fresh engine: no handles, no brokers, no records, an empty log.
    pub fn new() -> (e: Self)
        ensures
            e.wf(),
            e.next_handle == 0,
            e.next_record == 0,
            e.live_handles@ == Seq::<u64>::empty(),
            e.brokers@ == Seq::<Vec<u8>>::empty(),
            e.pending@ == Seq::<Record>::empty(),
            e.live_records@ == Seq::<u64>::empty(),
            e.actions@ == Seq::<EngineAction>::empty(),
    {
        let e = ClientEngine {
            next_handle: 0,
            live_handles: Vec::new(),
            brokers: Vec::new(),
            pending: Vec::new(),
            live_records: Vec::new(),
            next_record: 0,
            actions: Vec::new(),
        };
        proof {
            assert(e.live_handles@ =~= Seq::<u64>::empty());
            assert(e.brokers@ =~= Seq::<Vec<u8>>::empty());
            assert(e.pending@ =~= Seq::<Record>::empty());
            assert(e.live_records@ =~= Seq::<u64>::empty());
            assert(e.actions@ =~= Seq::<EngineAction>::empty());
            assert(record_ids(e.pending@) =~= Seq::<u64>::empty());
        }
        e
    }

    /// The engine's outstanding-object counter: how many delivered
    /// records the caller still holds.
    pub fn outstanding(&self) -> (n: usize)
        ensures
            n == self.live_records@.len(),
    {
        self.live_records.len()
    }

    /// Models broker activity: the engine queues one more record, to be
    /// delivered to a matching subscriber.  Returns the record's
    /// engine-assigned identity.
    pub fn enqueue_record(
        &mut self,
        topic: &str,
        err: i32,
        payload: Option<Vec<u8>>,
        key: Option<Vec<u8>>,
        partition: i32,
        offset: i64,
    ) -> (id: u64)
        requires
            old(self).wf(),
            old(self).next_record < u64::MAX,
            partition >= 0,
            offset >= 0,
        ensures
            final(self).wf(),
            id == old(self).next_record,
            final(self).pending@.len() == old(self).pending@.len() + 1,
            final(self).pending@ == old(self).pending@.push(final(self).pending@.last()),
            ({
                let r = final(self).pending@.last();
                &&& r.id == id
                &&& r.topic@ == topic@
                &&& r.err == err
                &&& r.payload_view() == opt_bytes_view(payload)
                &&& r.key_view() == opt_bytes_view(key)
                &&& r.partition == partition
                &&& r.offset == offset
            }),
            final(self).next_record == old(self).next_record + 1,
            final(self).live_records@ == old(self).live_records@,
            final(self).live_handles@ == old(self).live_handles@,
            final(self).next_handle == old(self).next_handle,
            final(self).brokers@ == old(self).brokers@,
            final(self).actions@ == old(self).actions@,
    {
        let id = self.next_record;
        let rec = Record {
            id,
            topic: topic.to_owned(),
            err,
            payload,
            key,
            partition,
            offset,
        };
        self.pending.push(rec);
        self.next_record = self.next_record + 1;
        proof {
            lemma_record_ids_push(old(self).pending@, self.pending@.last());
            assert(self.all_ids() =~= old(self).all_ids().insert(
                old(self).pending@.len() as int,
                id,
            ));
            lemma_insert_fresh_distinct(old(self).all_ids(), old(self).pending@.len() as int, id);
        }
        id
    }
}

/// The diagnostic message the model engine reports when it rejects a
/// configuration at consumer creation.
pub open spec fn creation_diag() -> Seq<u8> {
    "missing group.id".spec_bytes()
}

impl ClientEngine {
    /// Models the native consumer-mode construction call.  An accepted
    /// configuration yields a fresh live handle; a rejected one yields
    /// the NUL-terminated diagnostic bytes and leaves the engine exactly
    /// as it was — in particular, nothing is allocated.
    pub fn native_new(&mut self, cfg: &KafkaConfig) -> (r: Result<u64, Vec<u8>>)
        requires
            old(self).wf(),
            old(self).next_handle < u64::MAX,
        ensures
            final(self).wf(),
            cfg.accepted() ==> {
                &&& r == Result::<u64, Vec<u8>>::Ok(old(self).next_handle)
                &&& final(self).live_handles@ == old(self).live_handles@.push(
                    old(self).next_handle,
                )
                &&& final(self).next_handle == old(self).next_handle + 1
                &&& final(self).actions@ == old(self).actions@.push(
                    EngineAction::HandleCreated(old(self).next_handle),
                )
                &&& final(self).brokers@ == old(self).brokers@
                &&& final(self).pending@ == old(self).pending@
                &&& final(self).live_records@ == old(self).live_records@
                &&& final(self).next_record == old(self).next_record
            },
            !cfg.accepted() ==> {
                &&& *final(self) == *old(self)
                &&& r matches Err(d) && d@ == creation_diag().push(0u8)
            },
    {
        if cfg.is_accepted() {
            let h = self.next_handle;
            self.live_handles.push(h);
            self.next_handle = self.next_handle + 1;
            self.actions.push(EngineAction::HandleCreated(h));
            proof {
                assert(self.live_handles@ == old(self).live_handles@.insert(
                    old(self).live_handles@.len() as int,
                    h,
                ));
                lemma_insert_fresh_distinct(
                    old(self).live_handles@,
                    old(self).live_handles@.len() as int,
                    h,
                );
            }
            Ok(h)
        } else {
            let mut d = "missing group.id".as_bytes_vec();
            d.push(0u8);
            Err(d)
        }
    }

    /// Models the one-time registration of a handle with the engine's
    /// consumer-group polling machinery; it must precede any poll.
    pub fn native_poll_set_consumer(&mut self, h: u64)
        requires
            old(self).wf(),
            old(self).live_handles@.contains(h),
        ensures
            final(self).wf(),
            final(self).actions@ == old(self).actions@.push(EngineAction::PollSetConsumer(h)),
            final(self).live_handles@ == old(self).live_handles@,
            final(self).next_handle == old(self).next_handle,
            final(self).brokers@ == old(self).brokers@,
            final(self).pending@ == old(self).pending@,
            final(self).live_records@ == old(self).live_records@,
            final(self).next_record == old(self).next_record,
    {
        self.actions.push(EngineAction::PollSetConsumer(h));
    }

    /// Models the release of one delivered record back to the engine.
    /// The record leaves the outstanding set for good: releasing the same
    /// record twice is impossible, since its identity is no longer held.
    pub fn native_message_destroy(&mut self, id: u64)
        requires
            old(self).wf(),
            old(self).live_records@.contains(id),
        ensures
            final(self).wf(),
            final(self).live_records@ == old(self).live_records@.remove(
                old(self).live_records@.index_of_first(id).unwrap(),
            ),
            final(self).live_records@.len() == old(self).live_records@.len() - 1,
            !final(self).live_records@.contains(id),
            final(self).actions@ == old(self).actions@.push(EngineAction::RecordReleased(id)),
            final(self).live_handles@ == old(self).live_handles@,
            final(self).next_handle == old(self).next_handle,
            final(self).brokers@ == old(self).brokers@,
            final(self).pending@ == old(self).pending@,
            final(self).next_record == old(self).next_record,
    {
        let n = self.live_records.len();
        let mut i: usize = 0;
        while i < n
            invariant
                0 <= i <= n,
                n == self.live_records@.len(),
                *self == *old(self),
                old(self).wf(),
                old(self).live_records@.contains(id),
                forall|j: int| 0 <= j < i ==> self.live_records@[j] != id,
            decreases n - i,
        {
            if self.live_records[i] == id {
                proof {
                    lemma_live_release(*old(self), id, i as int);
                }
                self.live_records.remove(i);
                self.actions.push(EngineAction::RecordReleased(id));
                return ;
            }
            i = i + 1;
        }
        proof {
            let k = choose|k: int|
                0 <= k < old(self).live_records@.len() && old(self).live_records@[k] == id;
            assert(false);
        }
    }

    /// Models the group-leave call: the handle commits engine-managed
    /// offset state and stops consumer-side polling.  The handle itself
    /// stays alive.
    pub fn native_consumer_close(&mut self, h: u64)
        requires
            old(self).wf(),
            old(self).live_handles@.contains(h),
        ensures
            final(self).wf(),
            final(self).actions@ == old(self).actions@.push(EngineAction::GroupLeave(h)),
            final(self).live_handles@ == old(self).live_handles@,
            final(self).next_handle == old(self).next_handle,
            final(self).brokers@ == old(self).brokers@,
            final(self).pending@ == old(self).pending@,
            final(self).live_records@ == old(self).live_records@,
            final(self).next_record == old(self).next_record,
    {
        self.actions.push(EngineAction::GroupLeave(h));
    }

    /// Models the destruction of a consumer handle: it leaves the live
    /// set for good.
    pub fn native_destroy(&mut self, h: u64)
        requires
            old(self).wf(),
            old(self).live_handles@.contains(h),
        ensures
            final(self).wf(),
            final(self).live_handles@ == old(self).live_handles@.remove(
                old(self).live_handles@.index_of_first(h).unwrap(),
            ),
            final(self).live_handles@.len() == old(self).live_handles@.len() - 1,
            !final(self).live_handles@.contains(h),
            final(self).actions@ == old(self).actions@.push(EngineAction::HandleDestroy(h)),
            final(self).next_handle == old(self).next_handle,
            final(self).brokers@ == old(self).brokers@,
            final(self).pending@ == old(self).pending@,
            final(self).live_records@ == old(self).live_records@,
            final(self).next_record == old(self).next_record,
    {
        let n = self.live_handles.len();
        let mut i: usize = 0;
        while i < n
            invariant
                0 <= i <= n,
                n == self.live_handles@.len(),
                *self == *old(self),
                old(self).wf(),
                old(self).live_handles@.contains(h),
                forall|j: int| 0 <= j < i ==> self.live_handles@[j] != h,
            decreases n - i,
        {
            if self.live_handles[i] == h {
                proof {
                    lemma_handle_release(*old(self), h, i as int);
                }
                self.live_handles.remove(i);
                self.actions.push(EngineAction::HandleDestroy(h));
                return ;
            }
            i = i + 1;
        }
        proof {
            let k = choose|k: int|
                0 <= k < old(self).live_handles@.len() && old(self).live_handles@[k] == h;
            assert(false);
        }
    }

    /// Models the bounded wait for the engine's internal resources after
    /// a handle destruction.
    pub fn native_wait_destroyed(&mut self, timeout_ms: u64)
        requires
            old(self).wf(),
        ensures
            final(self).wf(),
            final(self).actions@ == old(self).actions@.push(
                EngineAction::WaitDestroyed(timeout_ms),
            ),
            final(self).live_handles@ == old(self).live_handles@,
            final(self).next_handle == old(self).next_handle,
            final(self).brokers@ == old(self).brokers@,
            final(self).pending@ == old(self).pending@,
            final(self).live_records@ == old(self).live_records@,
            final(self).next_record == old(self).next_record,
    {
        self.actions.push(EngineAction::WaitDestroyed(timeout_ms));
    }
}

/// Removing any element of a distinct, bounded identity sequence keeps
/// it distinct and bounded.
pub proof fn lemma_remove_distinct(s: Seq<u64>, p: int, bound: u64)
    requires
        distinct_ids(s),
        ids_bounded(s, bound),
        0 <= p < s.len(),
    ensures
        distinct_ids(s.remove(p)),
        ids_bounded(s.remove(p), bound),
{
    let t = s.remove(p);
    assert forall|i: int, j: int| 0 <= i < j < t.len() implies t[i] != t[j] by {
        if j < p {
            assert(t[i] == s[i] && t[j] == s[j]);
        } else if i < p {
            assert(t[i] == s[i] && t[j] == s[j + 1]);
        } else {
            assert(t[i] == s[i + 1] && t[j] == s[j + 1]);
        }
    }
    assert forall|i: int| 0 <= i < t.len() implies t[i] < bound by {
        if i < p {
            assert(t[i] == s[i]);
        } else {
            assert(t[i] == s[i + 1]);
        }
    }
}

/// Releasing the record at position `k` of the outstanding set keeps the
/// engine consistent, removes that identity for good, and is exactly the
/// removal of the identity's first occurrence.
proof fn lemma_live_release(e: ClientEngine, id: u64, k: int)
    requires
        e.wf(),
        0 <= k < e.live_records@.len(),
        e.live_records@[k] == id,
        forall|j: int| 0 <= j < k ==> e.live_records@[j] != id,
    ensures
        e.live_records@.index_of_first(id) == Some(k),
        distinct_ids(record_ids(e.pending@) + e.live_records@.remove(k)),
        ids_bounded(record_ids(e.pending@) + e.live_records@.remove(k), e.next_record),
        !e.live_records@.remove(k).contains(id),
{
    let live = e.live_records@;
    let p = record_ids(e.pending@).len() as int;
    live.index_of_first_ensures(id);
    match live.index_of_first(id) {
        Some(idx) => {
            if idx < k {
                assert(live[idx] != id);
            }
            if idx > k {
                assert(e.all_ids()[p + k] == id && e.all_ids()[p + idx] == id);
            }
        },
        None => {
            assert(!live.contains(id));
            assert(live[k] == id);
        },
    }
    assert(e.all_ids().remove(p + k) =~= record_ids(e.pending@) + live.remove(k));
    lemma_remove_distinct(e.all_ids(), p + k, e.next_record);
    assert forall|j: int| 0 <= j < live.remove(k).len() implies live.remove(k)[j] != id by {
        if j < k {
            assert(live.remove(k)[j] == live[j]);
        } else {
            assert(live.remove(k)[j] == live[j + 1]);
            assert(e.all_ids()[p + k] == id);
            assert(e.all_ids()[p + j + 1] == live[j + 1]);
        }
    }
    if live.remove(k).contains(id) {
        let w = choose|w: int| 0 <= w < live.remove(k).len() && live.remove(k)[w] == id;
        assert(false);
    }
}

/// Destroying the handle at position `k` of the live set keeps the
/// engine consistent, removes that handle for good, and is exactly the
/// removal of the handle's first occurrence.
proof fn lemma_handle_release(e: ClientEngine, h: u64, k: int)
    requires
        e.wf(),
        0 <= k < e.live_handles@.len(),
        e.live_handles@[k] == h,
        forall|j: int| 0 <= j < k ==> e.live_handles@[j] != h,
    ensures
        e.live_handles@.index_of_first(h) == Some(k),
        distinct_ids(e.live_handles@.remove(k)),
        ids_bounded(e.live_handles@.remove(k), e.next_handle),
        !e.live_handles@.remove(k).contains(h),
{
    let live = e.live_handles@;
    live.index_of_first_ensures(h);
    match live.index_of_first(h) {
        Some(idx) => {
            if idx < k {
                assert(live[idx] != h);
            }
        },
        None => {
            assert(!live.contains(h));
            assert(live[k] == h);
        },
    }
    lemma_remove_distinct(live, k, e.next_handle);
    if live.remove(k).contains(h) {
        let w = choose|w: int| 0 <= w < live.remove(k).len() && live.remove(k)[w] == h;
        if w < k {
            assert(live.remove(k)[w] == live[w]);
        } else {
            assert(live.remove(k)[w] == live[w + 1]);
        }
        assert(false);
    }
}

/// Byte values used by the broker-entry grammar.
pub const COMMA_BYTE: u8 = 44;

/// The lowest decimal-digit byte, `'0'`.
pub const DIGIT_LO: u8 = 48;

/// The highest decimal-digit byte, `'9'`.
pub const DIGIT_HI: u8 = 57;

/// The lowest upper-case letter byte, `'A'`.
pub const UPPER_LO: u8 = 65;

/// The highest upper-case letter byte, `'Z'`.
pub const UPPER_HI: u8 = 90;

/// The lowest lower-case letter byte, `'a'`.
pub const LOWER_LO: u8 = 97;

/// The highest lower-case letter byte, `'z'`.
pub const LOWER_HI: u8 = 122;

/// The byte `'.'`.
pub const DOT_BYTE: u8 = 46;

/// The byte `'-'`.
pub const HYPHEN_BYTE: u8 = 45;

/// The byte `':'`.
pub const COLON_BYTE: u8 = 58;

/// The byte `'_'`.
pub const UNDERSCORE_BYTE: u8 = 95;

/// The creation diagnostic holds no zero byte, so NUL-terminating it —
/// as the engine's construction call does — and trimming back at the
/// terminator, as the boundary decoding does, returns exactly its text.
pub proof fn lemma_creation_diag_trims()
    ensures
        prefix_to_nul(creation_diag().push(0u8)) == creation_diag(),
{
    let s = "missing group.id";
    reveal_strlit("missing group.id");
    assert(is_ascii_chars(s@));
    is_ascii_chars_encode_utf8(s@);
    assert forall|i: int| 0 <= i < creation_diag().len() implies creation_diag()[i] != 0u8 by {
        assert(creation_diag()[i] == s@[i] as u8);
        assert(s@[i] != '\0');
    }
    lemma_prefix_of_terminated(creation_diag());
}

/// A byte that may stand in a broker host entry: a letter, a digit, or
/// one of `.`, `-`, `:`, `_`.
pub open spec fn host_byte(b: u8) -> bool {
    ||| LOWER_LO <= b <= LOWER_HI
    ||| UPPER_LO <= b <= UPPER_HI
    ||| DIGIT_LO <= b <= DIGIT_HI
    ||| b == DOT_BYTE
    ||| b == HYPHEN_BYTE
    ||| b == COLON_BYTE
    ||| b == UNDERSCORE_BYTE
}

/// A decimal digit byte.
pub open spec fn digit_byte(b: u8) -> bool {
    DIGIT_LO <= b <= DIGIT_HI
}

/// Whether the model engine can parse one broker address entry: it is
/// non-empty, holds only host bytes, and names at least one decimal
/// digit (the numeric address or port component every reachable broker
/// entry carries in this model).
pub open spec fn entry_ok(e: Seq<u8>) -> bool {
    &&& e.len() > 0
    &&& forall|i: int| 0 <= i < e.len() ==> host_byte(#[trigger] e[i])
    &&& exists|i: int| 0 <= i < e.len() && digit_byte(#[trigger] e[i])
}

/// The position of the first comma of `s`, or `s.len()` when `s` holds
/// none.
pub open spec fn first_comma(s: Seq<u8>) -> nat
    decreases s.len(),
{
    if s.len() == 0 {
        0
    } else if s[0] == COMMA_BYTE {
        0
    } else {
        1 + first_comma(s.skip(1))
    }
}

/// `first_comma` is pinned by its characterization: if nothing before
/// `k` is a comma and `k` is past the end or a comma, then `k` is the
/// first comma position.
pub proof fn lemma_first_comma_at(s: Seq<u8>, k: int)
    requires
        0 <= k <= s.len(),
        forall|j: int| 0 <= j < k ==> s[j] != COMMA_BYTE,
        k < s.len() ==> s[k] == COMMA_BYTE,
    ensures
        first_comma(s) == k,
    decreases s.len(),
{
    if s.len() == 0 {
    } else if s[0] == COMMA_BYTE {
    } else {
        assert forall|j: int| 0 <= j < k - 1 implies s.skip(1)[j] != COMMA_BYTE by {
            assert(s.skip(1)[j] == s[j + 1]);
        }
        if k - 1 < s.skip(1).len() {
            assert(s.skip(1)[k - 1] == s[k]);
        }
        lemma_first_comma_at(s.skip(1), k - 1);
    }
}

/// The broker entries of a comma-separated list that the model engine
/// parses successfully, in order.
pub open spec fn ok_entries(s: Seq<u8>) -> Seq<Seq<u8>>
    decreases s.len(),
{
    let k = first_comma(s) as int;
    let head = s.take(k);
    let head_part: Seq<Seq<u8>> = if entry_ok(head) {
        seq![head]
    } else {
        Seq::empty()
    };
    if first_comma(s) >= s.len() {
        head_part
    } else {
        head_part + ok_entries(s.skip(k + 1))
    }
}

/// The position of the first record of `pending` published on `topic`,
/// or `pending.len()` when no pending record matches.
pub open spec fn first_match(pending: Seq<Record>, topic: Seq<char>) -> nat
    decreases pending.len(),
{
    if pending.len() == 0 {
        0
    } else if pending[0].topic@ == topic {
        0
    } else {
        1 + first_match(pending.skip(1), topic)
    }
}

/// What `first_match` promises: it stays within bounds, no earlier
/// record matches, and it points at a matching record whenever one
/// exists.
pub proof fn lemma_first_match(pending: Seq<Record>, topic: Seq<char>)
    ensures
        first_match(pending, topic) <= pending.len(),
        forall|i: int| 0 <= i < first_match(pending, topic) ==> pending[i].topic@ != topic,
        first_match(pending, topic) < pending.len() ==> pending[
            first_match(pending, topic) as int
        ].topic@ == topic,
    decreases pending.len(),
{
    if pending.len() > 0 && pending[0].topic@ != topic {
        lemma_first_match(pending.skip(1), topic);
        assert forall|i: int| 0 <= i < first_match(pending, topic) implies pending[i].topic@
            != topic by {
            if i > 0 {
                assert(pending.skip(1)[i - 1] == pending[i]);
            }
        }
        if first_match(pending, topic) < pending.len() {
            assert(pending.skip(1)[first_match(pending, topic) as int - 1] == pending[
                first_match(pending, topic) as int
            ]);
        }
    }
}

/// `first_match` is pinned by its characterization, exactly as
/// [`lemma_first_comma_at`] pins `first_comma`.
pub proof fn lemma_first_match_at(pending: Seq<Record>, topic: Seq<char>, k: int)
    requires
        0 <= k <= pending.len(),
        forall|j: int| 0 <= j < k ==> pending[j].topic@ != topic,
        k < pending.len() ==> pending[k].topic@ == topic,
    ensures
        first_match(pending, topic) == k,
    decreases pending.len(),
{
    if pending.len() == 0 {
    } else if pending[0].topic@ == topic {
    } else {
        assert forall|j: int| 0 <= j < k - 1 implies pending.skip(1)[j].topic@ != topic by {
            assert(pending.skip(1)[j] == pending[j + 1]);
        }
        if k - 1 < pending.skip(1).len() {
            assert(pending.skip(1)[k - 1] == pending[k]);
        }
        lemma_first_match_at(pending.skip(1), topic, k - 1);
    }
}

/// Moving the element at position `p` to the end of a distinct, bounded
/// identity sequence keeps it distinct and bounded.
pub proof fn lemma_move_to_end_distinct(s: Seq<u64>, p: int, bound: u64)
    requires
        distinct_ids(s),
        ids_bounded(s, bound),
        0 <= p < s.len(),
    ensures
        distinct_ids(s.remove(p).push(s[p])),
        ids_bounded(s.remove(p).push(s[p]), bound),
{
    lemma_remove_distinct(s, p, bound);
    let t = s.remove(p).push(s[p]);
    assert forall|i: int, j: int| 0 <= i < j < t.len() implies t[i] != t[j] by {
        if j == t.len() - 1 {
            assert(t[j] == s[p]);
            if i < p {
                assert(t[i] == s[i]);
            } else {
                assert(t[i] == s[i + 1]);
            }
        } else {
            assert(t[i] == s.remove(p)[i] && t[j] == s.remove(p)[j]);
        }
    }
    assert forall|i: int| 0 <= i < t.len() implies t[i] < bound by {
        if i == t.len() - 1 {
            assert(t[i] == s[p]);
        } else {
            assert(t[i] == s.remove(p)[i]);
        }
    }
}

impl ClientEngine {
    /// The broker entries the engine has accepted so far, as byte
    /// sequences.
    pub open spec fn brokers_view(self) -> Seq<Seq<u8>> {
        self.brokers@.map_values(|v: Vec<u8>| v@)
    }

    /// Models the broker-registration call: the engine walks the
    /// comma-separated address list, keeps every entry it can parse, and
    /// answers with the number kept — `0` signals total parse failure
    /// and is advisory, never an error.
    pub fn native_brokers_add(&mut self, h: u64, list: &str) -> (n: i32)
        requires
            old(self).wf(),
            old(self).live_handles@.contains(h),
            list.spec_bytes().len() < 0x7fff_ffff,
        ensures
            final(self).wf(),
            final(self).brokers_view() == old(self).brokers_view() + ok_entries(
                list.spec_bytes(),
            ),
            n as int == ok_entries(list.spec_bytes()).len(),
            n >= 0,
            final(self).live_handles@ == old(self).live_handles@,
            final(self).next_handle == old(self).next_handle,
            final(self).pending@ == old(self).pending@,
            final(self).live_records@ == old(self).live_records@,
            final(self).next_record == old(self).next_record,
            final(self).actions@ == old(self).actions@,
    {
        let bytes: &[u8] = list.as_bytes();
        let len: usize = bytes.len();
        let ghost s = list.spec_bytes();
        let ghost base = old(self).brokers@.len() as int;
        let mut start: usize = 0;
        let mut count: usize = 0;
        proof {
            assert(s.skip(0) =~= s);
            assert(self.brokers_view().skip(base) =~= Seq::<Seq<u8>>::empty());
            assert(self.brokers_view().take(base) =~= self.brokers_view());
            assert(ok_entries(s) =~= self.brokers_view().skip(base) + ok_entries(s));
        }
        while start < len
            invariant
                0 <= start <= len,
                count <= start,
                bytes@ == s,
                len == s.len(),
                len < 0x7fff_ffff,
                self.wf(),
                base == old(self).brokers@.len() as int,
                count as int == self.brokers_view().len() - base,
                self.brokers_view().take(base) == old(self).brokers_view(),
                ok_entries(s) == self.brokers_view().skip(base) + ok_entries(
                    s.skip(start as int),
                ),
                self.live_handles@ == old(self).live_handles@,
                self.next_handle == old(self).next_handle,
                self.pending@ == old(self).pending@,
                self.live_records@ == old(self).live_records@,
                self.next_record == old(self).next_record,
                self.actions@ == old(self).actions@,
            decreases len - start,
        {
            let mut end: usize = start;
            let mut all_host = true;
            let mut has_digit = false;
            while end < len && bytes[end] != COMMA_BYTE
                invariant
                    0 <= start <= end <= len,
                    bytes@ == s,
                    len == s.len(),
                    forall|j: int| start <= j < end ==> s[j] != COMMA_BYTE,
                    all_host == (forall|j: int| start <= j < end ==> host_byte(#[trigger] s[j])),
                    has_digit == (exists|j: int| start <= j < end && digit_byte(#[trigger] s[j])),
                decreases len - end,
            {
                let b = bytes[end];
                let is_host = (b >= LOWER_LO && b <= LOWER_HI) || (b >= UPPER_LO && b <= UPPER_HI) || (b >= DIGIT_LO
                    && b <= DIGIT_HI) || b == DOT_BYTE || b == HYPHEN_BYTE || b == COLON_BYTE || b == UNDERSCORE_BYTE;
                let is_digit = b >= DIGIT_LO && b <= DIGIT_HI;
                if !is_host {
                    all_host = false;
                }
                if is_digit {
                    has_digit = true;
                }
                end = end + 1;
            }
            let ok = all_host && has_digit && end > start;
            let ghost sub = s.skip(start as int);
            let ghost e = s.subrange(start as int, end as int);
            let ghost b_before = self.brokers_view();
            proof {
                assert forall|j: int| 0 <= j < end - start implies sub[j] != COMMA_BYTE by {
                    assert(sub[j] == s[start + j]);
                }
                if (end - start) < sub.len() {
                    assert(sub[(end - start) as int] == s[end as int]);
                }
                lemma_first_comma_at(sub, (end - start) as int);
                assert(sub.take((end - start) as int) =~= e);
                assert forall|j: int| 0 <= j < e.len() implies e[j] == s[start + j] by {}
                assert(entry_ok(e) ==> end > start && has_digit) by {
                    if entry_ok(e) {
                        let w = choose|w: int| 0 <= w < e.len() && digit_byte(e[w]);
                        assert(s[start + w] == e[w]);
                    }
                }
                assert(entry_ok(e) ==> all_host) by {
                    if entry_ok(e) {
                        assert forall|j: int| start <= j < end implies host_byte(
                            #[trigger] s[j],
                        ) by {
                            assert(e[j - start] == s[j]);
                        }
                    }
                }
                assert(ok ==> entry_ok(e)) by {
                    if ok {
                        assert forall|j: int| 0 <= j < e.len() implies host_byte(
                            #[trigger] e[j],
                        ) by {
                            assert(e[j] == s[start + j]);
                        }
                        let w = choose|w: int| start <= w < end && digit_byte(s[w]);
                        assert(e[w - start] == s[w]);
                    }
                }
                assert(entry_ok(e) == ok);
            }
            if ok {
                let entry = vstd::slice::slice_to_vec(vstd::slice::slice_subrange(
                    bytes,
                    start,
                    end,
                ));
                self.brokers.push(entry);
                count = count + 1;
                proof {
                    assert(self.brokers_view() =~= b_before.push(e));
                }
            }
            proof {
                let ghost head_part: Seq<Seq<u8>> = if ok {
                    seq![e]
                } else {
                    Seq::empty()
                };
                let ghost rest: Seq<Seq<u8>> = if end < len {
                    ok_entries(s.skip(end as int + 1))
                } else {
                    Seq::empty()
                };
                if end < len {
                    assert(sub.skip((end - start) as int + 1) =~= s.skip(end as int + 1));
                    assert(ok_entries(sub) == head_part + rest);
                } else {
                    assert(ok_entries(sub) == head_part);
                    assert(head_part =~= head_part + rest);
                    assert(s.skip(len as int) =~= Seq::<u8>::empty());
                    assert(ok_entries(s.skip(len as int)) =~= Seq::<Seq<u8>>::empty());
                }
                if ok {
                    assert(self.brokers_view().skip(base) =~= b_before.skip(base) + head_part);
                    assert(self.brokers_view().take(base) =~= b_before.take(base));
                } else {
                    assert(self.brokers_view().skip(base) =~= b_before.skip(base) + head_part);
                }
                assert(ok_entries(s) =~= self.brokers_view().skip(base) + rest);
            }
            if end < len {
                start = end + 1;
            } else {
                start = len;
            }
        }
        proof {
            assert(s.skip(len as int) =~= Seq::<u8>::empty());
            assert(ok_entries(s.skip(len as int)) =~= Seq::<Seq<u8>>::empty());
            assert(ok_entries(s) =~= self.brokers_view().skip(base));
            assert(self.brokers_view() =~= self.brokers_view().take(base) + self.brokers_view().skip(
                base,
            ));
        }
        count as i32
    }
}

impl ClientEngine {
    /// Models the blocking poll call: the engine hands over the oldest
    /// pending record published on `topic`, if any, and counts it as
    /// held by the caller from then on.  With no matching record the
    /// poll expires with nothing, whatever the timeout was, and the
    /// engine is left exactly as it was.
    pub fn native_consumer_poll(&mut self, h: u64, topic: &String) -> (r: Option<Record>)
        requires
            old(self).wf(),
            old(self).live_handles@.contains(h),
        ensures
            final(self).wf(),
            first_match(old(self).pending@, topic@) >= old(self).pending@.len() ==> (r is None
                && *final(self) == *old(self)),
            first_match(old(self).pending@, topic@) < old(self).pending@.len() ==> ({
                let m = first_match(old(self).pending@, topic@) as int;
                &&& r == Some(old(self).pending@[m])
                &&& final(self).pending@ == old(self).pending@.remove(m)
                &&& final(self).live_records@ == old(self).live_records@.push(
                    old(self).pending@[m].id,
                )
                &&& final(self).live_records@.contains(old(self).pending@[m].id)
                &&& final(self).actions@ == old(self).actions@
                &&& final(self).live_handles@ == old(self).live_handles@
                &&& final(self).next_handle == old(self).next_handle
                &&& final(self).next_record == old(self).next_record
                &&& final(self).brokers@ == old(self).brokers@
            }),
    {
        let n = self.pending.len();
        let mut i: usize = 0;
        while i < n
            invariant
                0 <= i <= n,
                n == self.pending@.len(),
                *self == *old(self),
                old(self).wf(),
                forall|j: int| 0 <= j < i ==> self.pending@[j].topic@ != topic@,
            decreases n - i,
        {
            let matches_topic = self.pending[i].topic == *topic;
            if matches_topic {
                proof {
                    lemma_first_match_at(self.pending@, topic@, i as int);
                }
                let rec = self.pending.remove(i);
                self.live_records.push(rec.id);
                proof {
                    lemma_poll_transfer(*old(self), i as int);
                    assert(self.live_records@[self.live_records@.len() - 1] == rec.id);
                    assert(self.live_records@.contains(rec.id));
                }
                return Some(rec);
            }
            i = i + 1;
        }
        proof {
            lemma_first_match_at(self.pending@, topic@, n as int);
        }
        None
    }
}

/// Handing the queued record at position `m` over to the caller keeps
/// the engine's identities distinct and bounded: the move only reorders
/// them.
proof fn lemma_poll_transfer(e: ClientEngine, m: int)
    requires
        e.wf(),
        0 <= m < e.pending@.len(),
    ensures
        distinct_ids(record_ids(e.pending@.remove(m)) + e.live_records@.push(e.pending@[m].id)),
        ids_bounded(
            record_ids(e.pending@.remove(m)) + e.live_records@.push(e.pending@[m].id),
            e.next_record,
        ),
        forall|i: int|
            0 <= i < e.pending@.remove(m).len() ==> (#[trigger] e.pending@.remove(
                m,
            )[i]).partition >= 0 && e.pending@.remove(m)[i].offset >= 0,
{
    let moved = e.all_ids().remove(m).push(e.all_ids()[m]);
    lemma_move_to_end_distinct(e.all_ids(), m, e.next_record);
    assert(record_ids(e.pending@.remove(m)) =~= record_ids(e.pending@).remove(m));
    assert(record_ids(e.pending@.remove(m)) + e.live_records@.push(e.pending@[m].id) =~= moved);
    assert forall|i: int| 0 <= i < e.pending@.remove(m).len() implies (#[trigger] e.pending@.remove(
        m,
    )[i]).partition >= 0 && e.pending@.remove(m)[i].offset >= 0 by {
        if i < m {
            assert(e.pending@.remove(m)[i] == e.pending@[i]);
        } else {
            assert(e.pending@.remove(m)[i] == e.pending@[i + 1]);
        }
    }
}

/// An optional byte buffer as a mathematical value.
pub open spec fn opt_bytes_view(b: Option<Vec<u8>>) -> Option<Seq<u8>> {
    match b {
        Some(v) => Some(v@),
        None => None,
    }
}

/// Mapping record identities distributes over appending one record.
pub proof fn lemma_record_ids_push(s: Seq<Record>, r: Record)
    ensures
        record_ids(s.push(r)) == record_ids(s).push(r.id),
{
    assert(record_ids(s.push(r)) =~= record_ids(s).push(r.id));
}

/// Inserting an identity at least as large as every present one keeps
/// the identities distinct and raises the bound by one.
pub proof fn lemma_insert_fresh_distinct(s: Seq<u64>, p: int, x: u64)
    requires
        distinct_ids(s),
        ids_bounded(s, x),
        0 <= p <= s.len(),
        x < u64::MAX,
    ensures
        distinct_ids(s.insert(p, x)),
        ids_bounded(s.insert(p, x), (x + 1) as u64),
{
    let t = s.insert(p, x);
    assert forall|i: int, j: int| 0 <= i < j < t.len() implies t[i] != t[j] by {
        if i < p && j < p {
            assert(t[i] == s[i] && t[j] == s[j]);
        } else if i < p && j == p {
            assert(t[i] == s[i] && t[j] == x);
        } else if i < p && j > p {
            assert(t[i] == s[i] && t[j] == s[j - 1]);
        } else if i == p {
            assert(t[i] == x && t[j] == s[j - 1]);
        } else {
            assert(t[i] == s[i - 1] && t[j] == s[j - 1]);
        }
    }
    assert forall|i: int| 0 <= i < t.len() implies t[i] < (x + 1) as u64 by {
        if i < p {
            assert(t[i] == s[i]);
        } else if i == p {
            assert(t[i] == x);
        } else {
            assert(t[i] == s[i - 1]);
        }
    }
}

} // verus!
