//! Publishing records to the overlay's table: queues by destination, pacing,
//! and what the acknowledgements say.
//!
//! Times are in milliseconds of a clock that does not run back.
use vstd::prelude::*;

use crate::bytes::same_16;
use crate::clock::{elapsed, ms_since};
use crate::ember::dht::{BatchedRecord, EmberContact, EmberNodeId, RecordView, K_BUCKET_SIZE};
use crate::key_map::{put, KeyMap, MapKey};

verus! {

/// How many records may wait in all.
pub const EMBER_BATCH_QUEUE_MAX: usize = 8192;

/// How many rounds of a file may fail before it has to wait.
pub const EMBER_PUBLISH_MAX_ATTEMPTS: u32 = 3;

/// How many batches one node gets at a time.
pub const EMBER_MAX_BATCH_FRAMES_PER_PEER: usize = 12;

/// How many records one node gets in a minute.
pub const EMBER_STORE_RECORDS_PER_PEER_PER_MIN: u32 = 120;

/// How often the queues are drained.
pub const EMBER_FLUSH_INTERVAL_MS: u64 = 6000;

/// How many records of one node may be held over.
pub const EMBER_MAX_CARRY_OVER_PER_PEER: usize = 256;

/// How many nodes a record goes to.
pub const K_EMBER_REPLICAS: usize = K_BUCKET_SIZE;

/// How long a batch waits for its acknowledgement.
pub const EMBER_BATCH_ACK_TIMEOUT_MS: u64 = 30000;

/// How much longer one waits that is queued behind a handshake.
pub const EMBER_SEARCH_QUEUED_QUERY_TIMEOUT_MS: u64 = 15000;

/// A batch has as many records as an acknowledgement has bits.
pub const MAX_BATCH_RECORDS: usize = 64;

/// The length of the window in which the records for a node are counted.
pub const SENT_WINDOW_MS: u64 = 60000;

/// After this time the count of a node is forgotten.
pub const SENT_MEMORY_MS: u64 = 300000;

/// Which schedule of a file a record belongs to.
#[derive(Clone, Copy, PartialEq, Eq, Hash, Debug, Structural)]
pub enum EmberPublishKind {
    Keyword,
    Source,
    /// A record of someone else that we pass on.
    Replication,
}

/// A record: its file, its schedule, and the key it lives under.
#[derive(Clone, Copy, PartialEq, Eq, Debug)]
pub struct EmberRecordRef {
    pub file_hash: [u8; 16],
    pub kind: EmberPublishKind,
    pub key: [u8; 16],
}

impl EmberRecordRef {
    pub fn same(&self, other: &EmberRecordRef) -> (r: bool)
        ensures
            r == (*self == *other),
    {
        self.kind == other.kind && same_16(&self.file_hash, &other.file_hash) && same_16(
            &self.key,
            &other.key,
        )
    }
}

/// The failed rounds of a file's records.
pub struct EmberPublishAttempts {
    pub rounds_failed: u32,
    pub last_charged: u64,
}

/// A record that waits to be sent to one node.
pub struct EmberQueuedRecord {
    pub reference: EmberRecordRef,
    pub record: BatchedRecord,
}

pub struct QueuedView {
    pub reference: EmberRecordRef,
    pub record: RecordView,
}

impl View for EmberQueuedRecord {
    type V = QueuedView;

    open spec fn view(&self) -> QueuedView {
        QueuedView { reference: self.reference, record: self.record@ }
    }
}

pub open spec fn queue_views(v: Seq<EmberQueuedRecord>) -> Seq<QueuedView> {
    v.map_values(|q: EmberQueuedRecord| q@)
}

/// What a pass picked up and what came of it.
#[derive(Default, Debug, Clone, Copy)]
pub struct EmberPublishPassStats {
    /// Files that were due.
    pub due: usize,
    /// How many of those were taken.
    pub selected: usize,
    pub flush: EmberFlushStats,
}

/// What draining the queues achieved.
#[derive(Default, Debug, Clone, Copy)]
pub struct EmberFlushStats {
    pub frames_sent: usize,
    pub records_sent: usize,
    pub frames_behind_handshake: usize,
    pub records_behind_handshake: usize,
    pub records_carried: usize,
    pub records_dropped: usize,
    pub records_rearmed: usize,
}

/// A batch that waits for its acknowledgement, its records in the order of the
/// acknowledgement's bits.
pub struct EmberBatchInFlight {
    pub node_id: EmberNodeId,
    pub records: Vec<EmberRecordRef>,
    pub deadline: u64,
}

/// How a node's acknowledgement decided the records that it was sent.
pub struct EmberBatchAckOutcome {
    /// Records that the node took.
    pub placed: Vec<EmberRecordRef>,
    /// Records that the node turned away.
    pub refused: Vec<EmberRecordRef>,
}

impl Default for EmberBatchAckOutcome {
    fn default() -> (r: EmberBatchAckOutcome)
        ensures
            r.placed@.len() == 0,
            r.refused@.len() == 0,
    {
        EmberBatchAckOutcome { placed: Vec::new(), refused: Vec::new() }
    }
}

/// When a batch that is sent now is given up.
pub fn ember_batch_ack_deadline(now: u64, behind_handshake: bool) -> (r: u64)
    requires
        now <= u64::MAX - EMBER_BATCH_ACK_TIMEOUT_MS - EMBER_SEARCH_QUEUED_QUERY_TIMEOUT_MS,
    ensures
        r == now + EMBER_BATCH_ACK_TIMEOUT_MS + if behind_handshake {
            EMBER_SEARCH_QUEUED_QUERY_TIMEOUT_MS as int
        } else {
            0
        },
{
    let budget: u64 = if behind_handshake {
        EMBER_BATCH_ACK_TIMEOUT_MS + EMBER_SEARCH_QUEUED_QUERY_TIMEOUT_MS
    } else {
        EMBER_BATCH_ACK_TIMEOUT_MS
    };
    now + budget
}

// ---------------------------------------------------------------------------
// Queues by destination
// ---------------------------------------------------------------------------
/// The queue of a node: where it is, and what waits for it.
pub struct EmberQueue {
    pub contact: EmberContact,
    pub records: Vec<EmberQueuedRecord>,
}

pub struct QueueView {
    pub contact: EmberContact,
    pub records: Seq<QueuedView>,
}

impl View for EmberQueue {
    type V = QueueView;

    open spec fn view(&self) -> QueueView {
        QueueView { contact: self.contact, records: queue_views(self.records@) }
    }
}

/// The queues by their views.
pub open spec fn queues(m: Map<EmberNodeId, EmberQueue>) -> Map<EmberNodeId, QueueView> {
    Map::new(|k: EmberNodeId| m.contains_key(k), |k: EmberNodeId| m[k]@)
}

proof fn lemma_queues_insert(m: Map<EmberNodeId, EmberQueue>, k: EmberNodeId, q: EmberQueue)
    ensures
        queues(m.insert(k, q)) == queues(m).insert(k, q@),
{
    assert(queues(m.insert(k, q)) =~= queues(m).insert(k, q@));
}

proof fn lemma_queues_remove(m: Map<EmberNodeId, EmberQueue>, k: EmberNodeId)
    ensures
        queues(m.remove(k)) == queues(m).remove(k),
{
    assert(queues(m.remove(k)) =~= queues(m).remove(k));
}

/// How many records wait in all.
pub open spec fn total_queued(m: Map<EmberNodeId, QueueView>) -> nat
    decreases m.dom().len(),
    when m.dom().finite()
{
    if m.dom().len() == 0 {
        0
    } else {
        let k = m.dom().choose();
        m[k].records.len() + total_queued(m.remove(k))
    }
}

/// The records of any one node can be counted first.
proof fn lemma_total_queued(m: Map<EmberNodeId, QueueView>, k: EmberNodeId)
    requires
        m.dom().finite(),
        m.contains_key(k),
    ensures
        total_queued(m) == m[k].records.len() + total_queued(m.remove(k)),
    decreases m.dom().len(),
{
    let c = m.dom().choose();
    assert(m.dom().contains(c)) by {
        assert(m.dom().contains(k));
        assert(m.dom().len() != 0);
    }
    if c != k {
        lemma_total_queued(m.remove(c), k);
        lemma_total_queued(m.remove(k), c);
        assert(m.remove(c).remove(k) =~= m.remove(k).remove(c));
    }
}

pub open spec fn none_empty(m: Map<EmberNodeId, QueueView>) -> bool {
    forall|k: EmberNodeId| #[trigger] m.contains_key(k) ==> m[k].records.len() > 0
}

/// Where no queue is empty there are no more queues than records.
proof fn lemma_queues_bound(m: Map<EmberNodeId, QueueView>)
    requires
        m.dom().finite(),
        none_empty(m),
    ensures
        m.dom().len() <= total_queued(m),
    decreases m.dom().len(),
{
    if m.dom().len() > 0 {
        let k = m.dom().choose();
        assert(m.contains_key(k));
        assert(none_empty(m.remove(k)));
        lemma_queues_bound(m.remove(k));
    }
}

/// A record put behind what waits for a node.
pub open spec fn added(
    m: Map<EmberNodeId, QueueView>,
    contact: EmberContact,
    q: QueuedView,
) -> Map<EmberNodeId, QueueView> {
    if m.contains_key(contact.node_id) {
        m.insert(
            contact.node_id,
            QueueView { records: m[contact.node_id].records.push(q), ..m[contact.node_id] },
        )
    } else {
        m.insert(contact.node_id, QueueView { contact, records: seq![q] })
    }
}

/// A record put into the queues of several nodes.
pub open spec fn added_all(
    m: Map<EmberNodeId, QueueView>,
    targets: Seq<EmberContact>,
    q: QueuedView,
) -> Map<EmberNodeId, QueueView>
    decreases targets.len(),
{
    if targets.len() == 0 {
        m
    } else {
        added(added_all(m, targets.drop_last(), q), targets.last(), q)
    }
}

proof fn lemma_added_total(m: Map<EmberNodeId, QueueView>, contact: EmberContact, q: QueuedView)
    requires
        m.dom().finite(),
    ensures
        total_queued(added(m, contact, q)) == total_queued(m) + 1,
        added(m, contact, q).dom().finite(),
{
    let k = contact.node_id;
    let n = added(m, contact, q);
    lemma_total_queued(n, k);
    if m.contains_key(k) {
        lemma_total_queued(m, k);
        assert(n.remove(k) =~= m.remove(k));
    } else {
        assert(n.remove(k) =~= m);
    }
}

/// What is left of a node's queue once records come back: those go first, as
/// far as there is room.
pub open spec fn carried(held: Seq<QueuedView>, tail: Seq<QueuedView>) -> (
    Seq<QueuedView>,
    Seq<QueuedView>,
) {
    let room = if held.len() >= EMBER_MAX_CARRY_OVER_PER_PEER {
        0
    } else {
        EMBER_MAX_CARRY_OVER_PER_PEER - held.len()
    };
    let n = if tail.len() <= room {
        tail.len() as int
    } else {
        room
    };
    (tail.take(n) + held, tail.skip(n))
}

/// The records of a batch whose bit is set, or those whose bit is not.
pub open spec fn by_bit(records: Seq<EmberRecordRef>, bits: u64, set: bool) -> Seq<EmberRecordRef>
    decreases records.len(),
{
    if records.len() == 0 {
        Seq::empty()
    } else {
        let i = (records.len() - 1) as u64;
        let rest = by_bit(records.drop_last(), bits, set);
        if (bits & (1u64 << i) != 0) == set {
            rest.push(records.last())
        } else {
            rest
        }
    }
}

/// The records of several batches, one after the other.
pub open spec fn records_of(m: Map<u32, EmberBatchInFlight>, ids: Seq<u32>) -> Seq<EmberRecordRef>
    decreases ids.len(),
{
    if ids.len() == 0 {
        Seq::empty()
    } else {
        records_of(m, ids.drop_last()) + m[ids.last()].records@
    }
}

/// Groups records by destination, so that each node gets few packets.
pub struct EmberBatchPublisher {
    pub queued: KeyMap<EmberNodeId, EmberQueue>,
    /// How many records wait in all.
    pub queued_count: usize,
    pub in_flight: KeyMap<u32, EmberBatchInFlight>,
    /// How many records a node got since a time.
    pub sent_window: KeyMap<EmberNodeId, (u32, u64)>,
}

impl Default for EmberBatchPublisher {
    fn default() -> (r: EmberBatchPublisher)
        ensures
            r.wf(),
            r.queues() == Map::<EmberNodeId, QueueView>::empty(),
            r.in_flight@ == Map::<u32, EmberBatchInFlight>::empty(),
            r.sent_window@ == Map::<EmberNodeId, (u32, u64)>::empty(),
    {
        let r = EmberBatchPublisher {
            queued: KeyMap::new(),
            queued_count: 0,
            in_flight: KeyMap::new(),
            sent_window: KeyMap::new(),
        };
        proof {
            assert(r.queues() =~= Map::empty());
        }
        r
    }
}

impl EmberBatchPublisher {
    pub open spec fn queues(&self) -> Map<EmberNodeId, QueueView> {
        queues(self.queued@)
    }

    /// The count is right, no queue is empty, and an acknowledgement has a bit
    /// for every record of a batch.
    pub open spec fn wf(&self) -> bool {
        &&& self.queues().dom().finite()
        &&& none_empty(self.queues())
        &&& self.queued_count == total_queued(self.queues())
        &&& forall|id: u32| #[trigger]
            self.in_flight@.contains_key(id) ==> self.in_flight@[id].records@.len()
                <= MAX_BATCH_RECORDS
    }

    /// Queues a record for every node of a list. Refused where there are none,
    /// or where not all would fit.
    pub fn enqueue(
        &mut self,
        targets: &[EmberContact],
        reference: EmberRecordRef,
        record: BatchedRecord,
    ) -> (r: bool)
        requires
            old(self).wf(),
        ensures
            r == (targets@.len() > 0 && old(self).queued_count + targets@.len()
                <= EMBER_BATCH_QUEUE_MAX),
            final(self).queues() == if r {
                added_all(
                    old(self).queues(),
                    targets@,
                    QueuedView { reference, record: record@ },
                )
            } else {
                old(self).queues()
            },
            final(self).in_flight@ == old(self).in_flight@,
            final(self).sent_window@ == old(self).sent_window@,
            final(self).wf(),
    {
        if targets.len() == 0 || self.queued_count > EMBER_BATCH_QUEUE_MAX || targets.len()
            > EMBER_BATCH_QUEUE_MAX - self.queued_count {
            return false;
        }
        let ghost q = QueuedView { reference, record: record@ };
        let ghost m0 = self.queues();
        let mut i: usize = 0;
        assert(targets@.take(0) =~= Seq::<EmberContact>::empty());
        while i < targets.len()
            invariant
                i <= targets@.len(),
                q == (QueuedView { reference, record: record@ }),
                old(self).queued_count + targets@.len() <= EMBER_BATCH_QUEUE_MAX,
                self.queued_count == old(self).queued_count + i,
                self.queues() == added_all(m0, targets@.take(i as int), q),
                self.in_flight@ == old(self).in_flight@,
                self.sent_window@ == old(self).sent_window@,
                self.wf(),
            decreases targets@.len() - i,
        {
            let contact = targets[i];
            let ghost part = targets@.take(i as int + 1);
            proof {
                assert(part.drop_last() =~= targets@.take(i as int));
                assert(part.last() == contact);
                lemma_added_total(self.queues(), contact, q);
            }
            let ghost m = self.queues();
            let ghost raw = self.queued@;
            let mut queue = match self.queued.remove(&contact.node_id) {
                Some(queue) => queue,
                None => EmberQueue { contact, records: Vec::new() },
            };
            let ghost before = queue.records@;
            queue.records.push(EmberQueuedRecord { reference, record: record.duplicate() });
            proof {
                assert(queue_views(queue.records@) =~= queue_views(before).push(q));
                assert(queue_views(before) =~= if m.contains_key(contact.node_id) {
                    m[contact.node_id].records
                } else {
                    Seq::empty()
                });
                lemma_queues_remove(raw, contact.node_id);
                lemma_queues_insert(raw.remove(contact.node_id), contact.node_id, queue);
                lemma_queues_bound(m);
                assert(raw.dom() =~= m.dom());
            }
            self.queued.insert(contact.node_id, queue);
            proof {
                assert(self.queues() =~= added(m, contact, q));
            }
            self.queued_count = self.queued_count + 1;
            i = i + 1;
        }
        assert(targets@.take(i as int) =~= targets@);
        true
    }
    /// Takes an acknowledgement in: which records of its batch the node took,
    /// and which it turned away. One from another node than the batch went to
    /// is ignored.
    pub fn note_ack(&mut self, request_id: u32, accepted: u64, from: EmberNodeId) -> (r:
        EmberBatchAckOutcome)
        requires
            old(self).wf(),
        ensures
            ({
                let m = old(self).in_flight@;
                let ours = m.contains_key(request_id) && m[request_id].node_id == from;
                &&& r.placed@ == if ours {
                    by_bit(m[request_id].records@, accepted, true)
                } else {
                    Seq::empty()
                }
                &&& r.refused@ == if ours {
                    by_bit(m[request_id].records@, accepted, false)
                } else {
                    Seq::empty()
                }
                &&& final(self).in_flight@ == if ours {
                    m.remove(request_id)
                } else {
                    m
                }
            }),
            final(self).queues() == old(self).queues(),
            final(self).sent_window@ == old(self).sent_window@,
            final(self).wf(),
    {
        let ours = match self.in_flight.get(&request_id) {
            Some(batch) => batch.node_id.same(&from),
            None => false,
        };
        let mut outcome = EmberBatchAckOutcome::default();
        if !ours {
            assert(outcome.placed@ =~= Seq::empty());
            assert(outcome.refused@ =~= Seq::empty());
            return outcome;
        }
        if let Some(batch) = self.in_flight.remove(&request_id) {
            let mut i: usize = 0;
            assert(batch.records@.take(0) =~= Seq::<EmberRecordRef>::empty());
            assert(outcome.placed@ =~= Seq::empty());
            assert(outcome.refused@ =~= Seq::empty());
            while i < batch.records.len()
                invariant
                    i <= batch.records@.len() <= MAX_BATCH_RECORDS,
                    outcome.placed@ == by_bit(batch.records@.take(i as int), accepted, true),
                    outcome.refused@ == by_bit(batch.records@.take(i as int), accepted, false),
                decreases batch.records@.len() - i,
            {
                let reference = batch.records[i];
                let ghost part = batch.records@.take(i as int + 1);
                assert(part.drop_last() =~= batch.records@.take(i as int));
                assert(part.last() == reference);
                let bit: u64 = i as u64;
                if accepted & (1u64 << bit) != 0 {
                    outcome.placed.push(reference);
                } else {
                    outcome.refused.push(reference);
                }
                i = i + 1;
            }
            assert(batch.records@.take(i as int) =~= batch.records@);
        }
        outcome
    }

    /// Whether the acknowledgement of a batch is overdue.
    pub open spec fn overdue(&self, id: u32, now: u64) -> bool {
        self.in_flight@.contains_key(id) && now >= self.in_flight@[id].deadline
    }

    /// Gives up the batches whose acknowledgement is overdue. Their records
    /// come back, batch by batch, in no particular order of the batches.
    pub fn expire(&mut self, now: u64) -> (r: Vec<EmberRecordRef>)
        requires
            old(self).wf(),
        ensures
            exists|ids: Seq<u32>|
                {
                    &&& ids.no_duplicates()
                    &&& forall|id: u32| #[trigger] ids.contains(id) <==> old(self).overdue(id, now)
                    &&& r@ == #[trigger] records_of(old(self).in_flight@, ids)
                },
            final(self).in_flight@ == old(self).in_flight@.restrict(
                Set::new(|id: u32| !old(self).overdue(id, now)),
            ),
            final(self).queues() == old(self).queues(),
            final(self).sent_window@ == old(self).sent_window@,
            final(self).wf(),
    {
        let ghost m0 = self.in_flight@;
        let keys = self.in_flight.keys();
        let mut abandoned: Vec<EmberRecordRef> = Vec::new();
        let ghost mut ids = Seq::<u32>::empty();
        let mut i: usize = 0;
        assert(abandoned@ =~= Seq::empty());
        while i < keys.len()
            invariant
                i <= keys@.len(),
                m0 == old(self).in_flight@,
                forall|k: u32| #[trigger] keys@.contains(k) <==> m0.contains_key(k),
                ids.no_duplicates(),
                forall|k: u32| #[trigger] ids.contains(k) ==> old(self).overdue(k, now),
                forall|j: int|
                    0 <= j < i && old(self).overdue(#[trigger] keys@[j], now) ==> ids.contains(
                        keys@[j],
                    ),
                abandoned@ == records_of(m0, ids),
                forall|k: u32| #[trigger]
                    self.in_flight@.contains_key(k) <==> m0.contains_key(k) && !ids.contains(k),
                forall|k: u32| #[trigger]
                    self.in_flight@.contains_key(k) ==> self.in_flight@[k] == m0[k],
                self.queues() == old(self).queues(),
                self.queued_count == old(self).queued_count,
                self.sent_window@ == old(self).sent_window@,
            decreases keys@.len() - i,
        {
            let id: u32 = keys[i];
            assert(keys@.contains(id));
            let late = match self.in_flight.get(&id) {
                Some(batch) => now >= batch.deadline,
                None => false,
            };
            if late {
                if let Some(batch) = self.in_flight.remove(&id) {
                    let mut records = batch.records;
                    abandoned.append(&mut records);
                    proof {
                        let more = ids.push(id);
                        assert(more.drop_last() =~= ids);
                        assert forall|k: u32| #[trigger] more.contains(k) <==> ids.contains(k) || k
                            == id by {
                            if more.contains(k) {
                                let j = choose|j: int| 0 <= j < more.len() && more[j] == k;
                                if j < ids.len() {
                                    assert(ids[j] == k);
                                }
                            }
                            if ids.contains(k) {
                                let j = choose|j: int| 0 <= j < ids.len() && ids[j] == k;
                                assert(more[j] == k);
                            }
                            assert(more[ids.len() as int] == id);
                        }
                        ids = more;
                    }
                }
            }
            i = i + 1;
        }
        proof {
            assert forall|id: u32| #[trigger] ids.contains(id) <==> old(self).overdue(id, now) by {
                if old(self).overdue(id, now) {
                    assert(keys@.contains(id));
                    let j = choose|j: int| 0 <= j < keys@.len() && keys@[j] == id;
                    assert(old(self).overdue(keys@[j], now));
                }
            }
            assert(self.in_flight@ =~= m0.restrict(Set::new(|id: u32| !old(self).overdue(id, now))));
            assert(abandoned@ == records_of(m0, ids));
        }
        abandoned
    }

    /// Whether a record waits in some queue or for some acknowledgement.
    pub open spec fn outstanding(&self, reference: EmberRecordRef) -> bool {
        ||| exists|id: u32| #[trigger]
            self.in_flight@.contains_key(id) && self.in_flight@[id].records@.contains(reference)
        ||| exists|k: EmberNodeId| #[trigger]
            self.queues().contains_key(k) && has_reference(self.queues()[k].records, reference)
    }

    /// Whether a record waits in some queue or for some acknowledgement.
    pub fn record_still_outstanding(&self, reference: EmberRecordRef) -> (r: bool)
        ensures
            r == self.outstanding(reference),
    {
        let ids = self.in_flight.keys();
        let mut i: usize = 0;
        while i < ids.len()
            invariant
                i <= ids@.len(),
                forall|k: u32| #[trigger] ids@.contains(k) <==> self.in_flight@.contains_key(k),
                forall|j: int|
                    0 <= j < i ==> !self.in_flight@[#[trigger] ids@[j]].records@.contains(
                        reference,
                    ),
            decreases ids@.len() - i,
        {
            assert(ids@.contains(ids@[i as int]));
            if let Some(batch) = self.in_flight.get(&ids[i]) {
                if lists(&batch.records, &reference) {
                    return true;
                }
            }
            i = i + 1;
        }
        let nodes = self.queued.keys();
        let mut n: usize = 0;
        while n < nodes.len()
            invariant
                n <= nodes@.len(),
                forall|k: EmberNodeId| #[trigger]
                    nodes@.contains(k) <==> self.queued@.contains_key(k),
                forall|j: int|
                    0 <= j < n ==> !has_reference(
                        self.queues()[#[trigger] nodes@[j]].records,
                        reference,
                    ),
            decreases nodes@.len() - n,
        {
            assert(nodes@.contains(nodes@[n as int]));
            if let Some(queue) = self.queued.get(&nodes[n]) {
                if queues_reference(&queue.records, &reference) {
                    assert(self.queues().contains_key(nodes@[n as int]));
                    return true;
                }
            }
            n = n + 1;
        }
        proof {
            assert forall|id: u32| #[trigger] self.in_flight@.contains_key(
                id,
            ) implies !self.in_flight@[id].records@.contains(reference) by {
                assert(ids@.contains(id));
                let j = choose|j: int| 0 <= j < ids@.len() && ids@[j] == id;
                assert(!self.in_flight@[ids@[j]].records@.contains(reference));
            }
            assert forall|k: EmberNodeId| #[trigger] self.queues().contains_key(
                k,
            ) implies !has_reference(self.queues()[k].records, reference) by {
                assert(nodes@.contains(k));
                let j = choose|j: int| 0 <= j < nodes@.len() && nodes@[j] == k;
                assert(!has_reference(self.queues()[nodes@[j]].records, reference));
            }
        }
        false
    }

    /// Puts records that could not be sent back in front of their node's
    /// queue. Those for which it has no room are handed back.
    pub fn carry_over(
        &mut self,
        node_id: EmberNodeId,
        contact: &EmberContact,
        tail: Vec<EmberQueuedRecord>,
    ) -> (r: Vec<EmberQueuedRecord>)
        requires
            old(self).wf(),
            old(self).queued_count + EMBER_MAX_CARRY_OVER_PER_PEER < usize::MAX,
        ensures
            ({
                let m = old(self).queues();
                let held = if m.contains_key(node_id) {
                    m[node_id].records
                } else {
                    Seq::empty()
                };
                let (kept, dropped) = carried(held, queue_views(tail@));
                &&& queue_views(r@) == dropped
                &&& final(self).queues() == if kept.len() == 0 {
                    m.remove(node_id)
                } else {
                    m.insert(
                        node_id,
                        QueueView {
                            contact: if m.contains_key(node_id) {
                                m[node_id].contact
                            } else {
                                *contact
                            },
                            records: kept,
                        },
                    )
                }
            }),
            final(self).in_flight@ == old(self).in_flight@,
            final(self).sent_window@ == old(self).sent_window@,
            final(self).wf(),
    {
        let ghost m = self.queues();
        let ghost raw = self.queued@;
        proof {
            lemma_queues_bound(m);
            assert(raw.dom() =~= m.dom());
            lemma_queues_remove(raw, node_id);
            if m.contains_key(node_id) {
                lemma_total_queued(m, node_id);
            } else {
                assert(m.remove(node_id) =~= m);
            }
        }
        let queue = match self.queued.remove(&node_id) {
            Some(queue) => queue,
            None => EmberQueue { contact: *contact, records: Vec::new() },
        };
        let contact_kept = queue.contact;
        let mut held = queue.records;
        let ghost h = queue_views(held@);
        let ghost t = queue_views(tail@);
        proof {
            assert(h =~= if m.contains_key(node_id) {
                m[node_id].records
            } else {
                Seq::empty()
            });
        }
        let room: usize = if held.len() >= EMBER_MAX_CARRY_OVER_PER_PEER {
            0
        } else {
            EMBER_MAX_CARRY_OVER_PER_PEER - held.len()
        };
        let n: usize = if tail.len() < room {
            tail.len()
        } else {
            room
        };
        let mut kept = tail;
        let dropped = kept.split_off(n);
        self.queued_count = self.queued_count + n;
        let ghost a = kept@;
        let ghost b = held@;
        kept.append(&mut held);
        proof {
            assert(queue_views(dropped@) =~= t.skip(n as int));
            assert(queue_views(kept@) =~= t.take(n as int) + h);
            assert((queue_views(kept@), queue_views(dropped@)) == carried(h, t));
        }
        if kept.len() > 0 {
            let back = EmberQueue { contact: contact_kept, records: kept };
            proof {
                lemma_queues_insert(raw.remove(node_id), node_id, back);
            }
            self.queued.insert(node_id, back);
            proof {
                let after = self.queues();
                assert(after =~= m.insert(node_id, back@));
                lemma_total_queued(after, node_id);
                assert(after.remove(node_id) =~= m.remove(node_id));
            }
        } else {
            assert(queue_views(kept@).len() == 0);
            assert(self.queues() == m.remove(node_id));
        }
        dropped
    }

    /// How many records a node may still get within the minute.
    pub open spec fn allowance(&self, node_id: EmberNodeId, now: u64) -> int {
        if self.sent_window@.contains_key(node_id) && elapsed(self.sent_window@[node_id].1, now)
            < SENT_WINDOW_MS {
            if self.sent_window@[node_id].0 >= EMBER_STORE_RECORDS_PER_PEER_PER_MIN {
                0
            } else {
                EMBER_STORE_RECORDS_PER_PEER_PER_MIN - self.sent_window@[node_id].0
            }
        } else {
            EMBER_STORE_RECORDS_PER_PEER_PER_MIN as int
        }
    }

    /// How many records a node may still get within the minute.
    pub fn record_allowance(&self, node_id: EmberNodeId, now: u64) -> (r: usize)
        ensures
            r == self.allowance(node_id, now),
    {
        match self.sent_window.get(&node_id) {
            Some((used, since)) => if ms_since(*since, now) < SENT_WINDOW_MS {
                EMBER_STORE_RECORDS_PER_PEER_PER_MIN.saturating_sub(*used) as usize
            } else {
                EMBER_STORE_RECORDS_PER_PEER_PER_MIN as usize
            },
            None => EMBER_STORE_RECORDS_PER_PEER_PER_MIN as usize,
        }
    }

    /// Counts records that a node was sent.
    pub fn note_records_sent(&mut self, node_id: EmberNodeId, now: u64, records: usize)
        requires
            old(self).wf(),
        ensures
            ({
                let m = old(self).sent_window@;
                let (used, since) = if m.contains_key(node_id) && elapsed(m[node_id].1, now)
                    < SENT_WINDOW_MS {
                    m[node_id]
                } else {
                    (0u32, now)
                };
                let sum: int = used + (records as u64) % 0x1_0000_0000;
                final(self).sent_window@ == if records == 0 {
                    m
                } else {
                    put(
                        m,
                        node_id,
                        (
                            if sum > u32::MAX {
                                u32::MAX
                            } else {
                                sum as u32
                            },
                            since,
                        ),
                    )
                }
            }),
            final(self).queues() == old(self).queues(),
            final(self).in_flight@ == old(self).in_flight@,
            final(self).wf(),
    {
        if records == 0 {
            return;
        }
        let (used, since): (u32, u64) = match self.sent_window.get(&node_id) {
            Some((used, since)) => if ms_since(*since, now) < SENT_WINDOW_MS {
                (*used, *since)
            } else {
                (0, now)
            },
            None => (0, now),
        };
        let more: u32 = ((records as u64) % 0x1_0000_0000) as u32;
        self.sent_window.insert(node_id, (used.saturating_add(more), since));
    }

    /// Forgets the counts of nodes that got nothing for a while.
    pub fn prune_sent_window(&mut self, now: u64)
        requires
            old(self).wf(),
        ensures
            final(self).sent_window@ == old(self).sent_window@.restrict(
                Set::new(
                    |k: EmberNodeId| elapsed(old(self).sent_window@[k].1, now) < SENT_MEMORY_MS,
                ),
            ),
            final(self).queues() == old(self).queues(),
            final(self).in_flight@ == old(self).in_flight@,
            final(self).wf(),
    {
        let ghost m0 = self.sent_window@;
        let keys = self.sent_window.keys();
        let mut i: usize = 0;
        while i < keys.len()
            invariant
                i <= keys@.len(),
                m0 == old(self).sent_window@,
                forall|k: EmberNodeId| #[trigger] keys@.contains(k) <==> m0.contains_key(k),
                forall|k: EmberNodeId| #[trigger]
                    self.sent_window@.contains_key(k) ==> m0.contains_key(k)
                        && self.sent_window@[k] == m0[k],
                forall|k: EmberNodeId|
                    m0.contains_key(k) && elapsed(m0[k].1, now) < SENT_MEMORY_MS
                        ==> #[trigger] self.sent_window@.contains_key(k),
                forall|j: int|
                    0 <= j < i && elapsed(m0[#[trigger] keys@[j]].1, now) >= SENT_MEMORY_MS
                        ==> !self.sent_window@.contains_key(keys@[j]),
                self.queues() == old(self).queues(),
                self.queued_count == old(self).queued_count,
                self.in_flight@ == old(self).in_flight@,
            decreases keys@.len() - i,
        {
            let k = keys[i];
            assert(keys@.contains(k));
            let old_entry = match self.sent_window.get(&k) {
                Some((_, since)) => ms_since(*since, now) >= SENT_MEMORY_MS,
                None => false,
            };
            if old_entry {
                self.sent_window.remove(&k);
            }
            i = i + 1;
        }
        proof {
            let want = m0.restrict(
                Set::new(|k: EmberNodeId| elapsed(m0[k].1, now) < SENT_MEMORY_MS),
            );
            assert forall|k: EmberNodeId| self.sent_window@.contains_key(k) <==> want.contains_key(
                k,
            ) by {
                if m0.contains_key(k) {
                    assert(keys@.contains(k));
                    let j = choose|j: int| 0 <= j < keys@.len() && keys@[j] == k;
                    assert(keys@[j] == k);
                }
            }
            assert(self.sent_window@ =~= want);
        }
    }

    /// Forgets everything.
    pub fn clear(&mut self)
        ensures
            final(self).wf(),
            final(self).queues() == Map::<EmberNodeId, QueueView>::empty(),
            final(self).in_flight@ == Map::<u32, EmberBatchInFlight>::empty(),
            final(self).sent_window@ == Map::<EmberNodeId, (u32, u64)>::empty(),
    {
        self.queued = KeyMap::new();
        self.queued_count = 0;
        self.in_flight = KeyMap::new();
        self.sent_window = KeyMap::new();
        proof {
            assert(self.queues() =~= Map::empty());
        }
    }
}

/// Whether a record is among those that wait.
pub open spec fn has_reference(records: Seq<QueuedView>, reference: EmberRecordRef) -> bool {
    exists|i: int| 0 <= i < records.len() && (#[trigger] records[i]).reference == reference
}

fn lists(records: &Vec<EmberRecordRef>, reference: &EmberRecordRef) -> (r: bool)
    ensures
        r == records@.contains(*reference),
{
    let mut i: usize = 0;
    while i < records.len()
        invariant
            i <= records@.len(),
            forall|j: int| 0 <= j < i ==> records@[j] != *reference,
        decreases records@.len() - i,
    {
        if records[i].same(reference) {
            return true;
        }
        i = i + 1;
    }
    false
}

fn queues_reference(records: &Vec<EmberQueuedRecord>, reference: &EmberRecordRef) -> (r: bool)
    ensures
        r == has_reference(queue_views(records@), *reference),
{
    let mut i: usize = 0;
    while i < records.len()
        invariant
            i <= records@.len(),
            forall|j: int|
                0 <= j < i ==> (#[trigger] queue_views(records@)[j]).reference != *reference,
        decreases records@.len() - i,
    {
        if records[i].reference.same(reference) {
            assert(queue_views(records@)[i as int].reference == *reference);
            return true;
        }
        i = i + 1;
    }
    false
}

// ---------------------------------------------------------------------------
// Laws
// ---------------------------------------------------------------------------
/// An acknowledgement decides every record of its batch, one way or the other.
pub proof fn lemma_ack_decides_all(records: Seq<EmberRecordRef>, bits: u64)
    ensures
        by_bit(records, bits, true).len() + by_bit(records, bits, false).len() == records.len(),
        forall|r: EmberRecordRef| #[trigger]
            records.contains(r) ==> by_bit(records, bits, true).contains(r) || by_bit(
                records,
                bits,
                false,
            ).contains(r),
    decreases records.len(),
{
    if records.len() > 0 {
        let rest = records.drop_last();
        lemma_ack_decides_all(rest, bits);
        let (p, q) = (by_bit(records, bits, true), by_bit(records, bits, false));
        let (p0, q0) = (by_bit(rest, bits, true), by_bit(rest, bits, false));
        assert forall|r: EmberRecordRef| #[trigger] records.contains(r) implies p.contains(r)
            || q.contains(r) by {
            let j = choose|j: int| 0 <= j < records.len() && records[j] == r;
            if j < rest.len() {
                assert(rest[j] == r);
                assert(rest.contains(r));
                if p0.contains(r) {
                    let x = choose|x: int| 0 <= x < p0.len() && p0[x] == r;
                    assert(p[x] == r);
                } else {
                    let x = choose|x: int| 0 <= x < q0.len() && q0[x] == r;
                    assert(q[x] == r);
                }
            } else if p.len() > p0.len() {
                assert(p[p0.len() as int] == r);
            } else {
                assert(q[q0.len() as int] == r);
            }
        }
    }
}

/// Records that come back are neither lost nor doubled: each is kept or handed
/// back, and what is kept goes first.
pub proof fn lemma_carried_whole(held: Seq<QueuedView>, tail: Seq<QueuedView>)
    ensures
        ({
            let (kept, dropped) = carried(held, tail);
            let n = tail.len() - dropped.len();
            &&& 0 <= n
            &&& kept.take(n) + dropped == tail
            &&& kept.skip(n) == held
            &&& n > 0 ==> kept.len() <= EMBER_MAX_CARRY_OVER_PER_PEER
        }),
{
    let (kept, dropped) = carried(held, tail);
    let n = tail.len() - dropped.len();
    assert(kept.take(n) + dropped =~= tail);
    assert(kept.skip(n) =~= held);
}

/// A node that was sent what it may get is sent nothing more within the minute.
pub proof fn lemma_paced(p: EmberBatchPublisher, node_id: EmberNodeId, now: u64)
    requires
        p.sent_window@.contains_key(node_id),
        elapsed(p.sent_window@[node_id].1, now) < SENT_WINDOW_MS,
    ensures
        p.sent_window@[node_id].0 + p.allowance(node_id, now)
            >= EMBER_STORE_RECORDS_PER_PEER_PER_MIN,
        p.allowance(node_id, now) > 0 ==> p.sent_window@[node_id].0 + p.allowance(node_id, now)
            == EMBER_STORE_RECORDS_PER_PEER_PER_MIN,
{
}

/// The record at a place of a batch was taken if the bit of that place is set, the
/// lowest bit for the first record, and was turned away if it is not.
pub proof fn lemma_bit_decides(records: Seq<EmberRecordRef>, bits: u64, i: int)
    requires
        0 <= i < records.len() <= 64,
        records.no_duplicates(),
    ensures
        by_bit(records, bits, true).contains(records[i]) <==> bits & (1u64 << (i as u64)) != 0,
        by_bit(records, bits, false).contains(records[i]) <==> bits & (1u64 << (i as u64)) == 0,
{
    lemma_by_bit(records, bits, true, records[i]);
    lemma_by_bit(records, bits, false, records[i]);
}

proof fn lemma_by_bit(records: Seq<EmberRecordRef>, bits: u64, set: bool, x: EmberRecordRef)
    requires
        records.no_duplicates(),
    ensures
        by_bit(records, bits, set).contains(x) <==> exists|i: int|
            #![trigger records[i]]
            0 <= i < records.len() && records[i] == x && (bits & (1u64 << (i as u64)) != 0) == set,
    decreases records.len(),
{
    if records.len() > 0 {
        let rest = records.drop_last();
        let last = records.last();
        let n = records.len() - 1;
        let (b, c) = (by_bit(rest, bits, set), by_bit(records, bits, set));
        lemma_by_bit(rest, bits, set, x);
        if b.contains(x) {
            let i = choose|i: int|
                #![trigger rest[i]]
                0 <= i < rest.len() && rest[i] == x && (bits & (1u64 << (i as u64)) != 0) == set;
            assert(records[i] == x);
            let k = choose|k: int| 0 <= k < b.len() && b[k] == x;
            assert(c[k] == x);
        }
        if c.contains(x) && !b.contains(x) {
            let k = choose|k: int| 0 <= k < c.len() && c[k] == x;
            if k < b.len() {
                assert(b[k] == x);
            }
            assert(records[n] == x);
        }
        if exists|i: int|
            #![trigger records[i]]
            0 <= i < records.len() && records[i] == x && (bits & (1u64 << (i as u64)) != 0) == set {
            let i = choose|i: int|
                #![trigger records[i]]
                0 <= i < records.len() && records[i] == x && (bits & (1u64 << (i as u64)) != 0)
                    == set;
            if i < n {
                assert(rest[i] == x);
            } else {
                assert(c[c.len() - 1] == x);
            }
        }
    }
}

/// A record that is queued stands last in the queue of each of its nodes, and no
/// queue of another node changes.
pub proof fn lemma_queued_last(
    m: Map<EmberNodeId, QueueView>,
    targets: Seq<EmberContact>,
    q: QueuedView,
    k: EmberNodeId,
)
    requires
        forall|i: int, j: int|
            #![trigger targets[i], targets[j]]
            0 <= i < j < targets.len() ==> targets[i].node_id != targets[j].node_id,
    ensures
        ({
            let r = added_all(m, targets, q);
            let before = if m.contains_key(k) {
                m[k].records
            } else {
                Seq::empty()
            };
            let chosen = exists|i: int|
                0 <= i < targets.len() && (#[trigger] targets[i]).node_id == k;
            &&& chosen ==> r.contains_key(k) && r[k].records == before.push(q)
            &&& !chosen ==> (r.contains_key(k) <==> m.contains_key(k)) && r[k] == m[k]
            &&& m.contains_key(k) ==> r[k].contact == m[k].contact
        }),
    decreases targets.len(),
{
    if targets.len() > 0 {
        let rest = targets.drop_last();
        assert forall|i: int, j: int|
            #![trigger rest[i], rest[j]]
            0 <= i < j < rest.len() implies rest[i].node_id != rest[j].node_id by {
            assert(targets[i].node_id != targets[j].node_id);
        }
        lemma_queued_last(m, rest, q, k);
        let n = targets.len() - 1;
        if exists|i: int| 0 <= i < rest.len() && (#[trigger] rest[i]).node_id == k {
            let i = choose|i: int| 0 <= i < rest.len() && (#[trigger] rest[i]).node_id == k;
            assert(targets[i].node_id == k);
            assert(targets[i].node_id != targets[n].node_id);
        } else {
            assert(targets[n] == targets.last());
            if exists|i: int| 0 <= i < targets.len() && (#[trigger] targets[i]).node_id == k {
                let i = choose|i: int|
                    0 <= i < targets.len() && (#[trigger] targets[i]).node_id == k;
                if i < n {
                    assert(rest[i].node_id == k);
                }
            }
        }
        assert(Seq::<QueuedView>::empty().push(q) =~= seq![q]);
    }
}

/// Of records that come back to a queue the first are kept, as many as there is room
/// for among 256, in front of what waits, and in their order; the rest are handed
/// back.
pub proof fn lemma_carried_first(held: Seq<QueuedView>, tail: Seq<QueuedView>, i: int)
    ensures
        ({
            let (kept, dropped) = carried(held, tail);
            let n = kept.len() - held.len();
            &&& n + dropped.len() == tail.len()
            &&& held.len() + tail.len() <= 256 ==> dropped.len() == 0
            &&& dropped.len() > 0 ==> kept.len() == 256 || (held.len() > 256 && kept == held)
            &&& 0 <= i < n ==> kept[i] == tail[i]
            &&& n <= i < kept.len() ==> kept[i] == held[i - n]
            &&& 0 <= i < dropped.len() ==> dropped[i] == tail[n + i]
        }),
{
    let (kept, dropped) = carried(held, tail);
    if held.len() > 256 {
        assert(kept =~= held);
    }
}

/// A node may get 120 records within a minute of the first.
pub proof fn lemma_allowance(p: EmberBatchPublisher, node_id: EmberNodeId, now: u64)
    ensures
        ({
            let m = p.sent_window@;
            let counts = m.contains_key(node_id) && elapsed(m[node_id].1, now) < 60000;
            p.allowance(node_id, now) == if !counts {
                120int
            } else if m[node_id].0 < 120 {
                120 - m[node_id].0
            } else {
                0
            }
        }),
{
}

} // verus!
