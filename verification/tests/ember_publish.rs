//! Publishing records to the overlay's table.
use ember_net::ember::dht::{BatchedRecord, EmberContact, EmberNodeId};
use ember_net::ember_publish::{
    ember_batch_ack_deadline, EmberBatchInFlight, EmberBatchPublisher, EmberPublishKind,
    EmberQueuedRecord, EmberRecordRef, EMBER_BATCH_QUEUE_MAX,
};
use ember_net::net::{IpAddr, Ipv4Addr, SocketAddr};

const NOW: u64 = 1_000_000;

fn contact(id: u8) -> EmberContact {
    EmberContact {
        node_id: EmberNodeId([id; 16]),
        addr: SocketAddr { ip: IpAddr::V4(Ipv4Addr::new(1, 2, 3, id)), port: 4672 },
        noise_pub: [id; 32],
    }
}

fn reference(n: u8) -> EmberRecordRef {
    EmberRecordRef { file_hash: [n; 16], kind: EmberPublishKind::Keyword, key: [n; 16] }
}

fn record(n: u8) -> BatchedRecord {
    BatchedRecord { key: [n; 16], record: vec![n; 5], record_signature: [n; 64] }
}

#[test]
fn records_queue_by_destination() {
    let mut p = EmberBatchPublisher::default();
    assert!(!p.enqueue(&[], reference(1), record(1)));
    assert!(p.enqueue(&[contact(1), contact(2)], reference(1), record(1)));
    assert!(p.enqueue(&[contact(2)], reference(2), record(2)));
    assert_eq!(p.queued_count, 3);
    assert_eq!(p.queued.len(), 2);
    let q = p.queued.get(&EmberNodeId([2; 16])).unwrap();
    assert_eq!(q.records.len(), 2);
    assert_eq!(q.records[1].reference, reference(2));
    assert_eq!(q.records[1].record, record(2));
    assert!(p.record_still_outstanding(reference(1)));
    assert!(!p.record_still_outstanding(reference(3)));
    p.clear();
    assert_eq!(p.queued_count, 0);
    assert!(!p.record_still_outstanding(reference(1)));
}

#[test]
fn the_queue_has_a_ceiling_for_the_whole_fan_out() {
    let mut p = EmberBatchPublisher::default();
    let targets: Vec<EmberContact> = (0..16).map(contact).collect();
    for _ in 0..(EMBER_BATCH_QUEUE_MAX / 16) {
        assert!(p.enqueue(&targets, reference(1), record(1)));
    }
    assert_eq!(p.queued_count, EMBER_BATCH_QUEUE_MAX);
    assert!(!p.enqueue(&targets[..1], reference(1), record(1)));
    assert_eq!(p.queued_count, EMBER_BATCH_QUEUE_MAX);
}

fn in_flight(p: &mut EmberBatchPublisher, id: u32, node: u8, records: Vec<EmberRecordRef>) {
    p.in_flight.insert(
        id,
        EmberBatchInFlight { node_id: EmberNodeId([node; 16]), records, deadline: NOW + 30_000 },
    );
}

#[test]
fn an_acknowledgement_decides_each_record() {
    let mut p = EmberBatchPublisher::default();
    in_flight(&mut p, 7, 1, vec![reference(1), reference(2), reference(3)]);
    let stranger = p.note_ack(7, 0b111, EmberNodeId([9; 16]));
    assert!(stranger.placed.is_empty() && stranger.refused.is_empty());
    let outcome = p.note_ack(7, 0b101, EmberNodeId([1; 16]));
    assert_eq!(outcome.placed, vec![reference(1), reference(3)]);
    assert_eq!(outcome.refused, vec![reference(2)]);
    let again = p.note_ack(7, 0b101, EmberNodeId([1; 16]));
    assert!(again.placed.is_empty() && again.refused.is_empty());
}

#[test]
fn overdue_batches_come_back() {
    let mut p = EmberBatchPublisher::default();
    in_flight(&mut p, 7, 1, vec![reference(1), reference(2)]);
    assert!(p.expire(NOW + 29_999).is_empty());
    assert!(p.record_still_outstanding(reference(2)));
    assert_eq!(p.expire(NOW + 30_000), vec![reference(1), reference(2)]);
    assert!(!p.record_still_outstanding(reference(2)));
    assert_eq!(ember_batch_ack_deadline(NOW, false), NOW + 30_000);
    assert_eq!(ember_batch_ack_deadline(NOW, true), NOW + 45_000);
}

#[test]
fn what_could_not_be_sent_goes_first_next_time() {
    let mut p = EmberBatchPublisher::default();
    let node = EmberNodeId([1; 16]);
    assert!(p.enqueue(&[contact(1)], reference(9), record(9)));
    let tail: Vec<EmberQueuedRecord> = (0..300)
        .map(|_| EmberQueuedRecord { reference: reference(1), record: record(1) })
        .collect();
    let dropped = p.carry_over(node, &contact(1), tail);
    assert_eq!(dropped.len(), 45);
    let q = p.queued.get(&node).unwrap();
    assert_eq!(q.records.len(), 256);
    assert_eq!(q.records[0].reference, reference(1));
    assert_eq!(q.records[255].reference, reference(9));
    assert_eq!(p.queued_count, 256);
    let none = p.carry_over(EmberNodeId([2; 16]), &contact(2), Vec::new());
    assert!(none.is_empty());
    assert_eq!(p.queued.len(), 1);
}

#[test]
fn nodes_are_paced_by_the_minute() {
    let mut p = EmberBatchPublisher::default();
    let node = EmberNodeId([1; 16]);
    assert_eq!(p.record_allowance(node, NOW), 120);
    p.note_records_sent(node, NOW, 0);
    assert_eq!(p.sent_window.len(), 0);
    p.note_records_sent(node, NOW, 100);
    assert_eq!(p.record_allowance(node, NOW + 59_999), 20);
    p.note_records_sent(node, NOW + 10, 50);
    assert_eq!(p.record_allowance(node, NOW + 59_999), 0);
    assert_eq!(p.record_allowance(node, NOW + 60_000), 120);
    p.note_records_sent(node, NOW + 60_000, 1);
    assert_eq!(p.record_allowance(node, NOW + 60_000), 119);
    p.prune_sent_window(NOW + 359_999);
    assert_eq!(p.sent_window.len(), 1);
    p.prune_sent_window(NOW + 360_000);
    assert_eq!(p.sent_window.len(), 0);
}
