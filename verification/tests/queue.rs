use asteroid_mq::protocol::endpoint::{
    EndpointAddr, LocalEndpoint, Message, MessageAckExpectKind, MessageHeader, MessageId,
    MessageStatusKind, MessageTargetKind,
};
use asteroid_mq::protocol::interest::{Interest, Subject};
use asteroid_mq::protocol::node::NodeId;
use asteroid_mq::protocol::table::EpTable;
use asteroid_mq::protocol::topic::hold_message::{HoldMessage, MessageQueue, Polled};
use asteroid_mq::protocol::topic::wait_ack::{
    WaitAck, WaitAckErrorException, WaitAckReport,
};

fn queue_message(id: u128, ack_kind: MessageAckExpectKind) -> Message {
    Message::new(
        MessageHeader {
            message_id: MessageId::new(id),
            ack_kind,
            target_kind: MessageTargetKind::Online,
            subjects: vec![Subject::new("s")],
        },
        vec![9],
    )
}

fn queue_hold(id: u128, ack_kind: MessageAckExpectKind, recipients: &[u128]) -> HoldMessage {
    let eps: Vec<EndpointAddr> = recipients.iter().map(|bits| EndpointAddr::new(*bits)).collect();
    HoldMessage::new(queue_message(id, ack_kind), &eps)
}

fn queue_ids(queue: &MessageQueue) -> Vec<u128> {
    (0..queue.len()).map(|i| queue.hold_at(i).id().bits).collect()
}

const ALL_STATUSES: [MessageStatusKind; 6] = [
    MessageStatusKind::Unsent,
    MessageStatusKind::Sent,
    MessageStatusKind::Received,
    MessageStatusKind::Processed,
    MessageStatusKind::Failed,
    MessageStatusKind::Unreachable,
];

#[test]
fn status_chain_moves_upwards_only() {
    assert!(MessageStatusKind::Unsent.precedes(MessageStatusKind::Sent));
    assert!(MessageStatusKind::Unsent.precedes(MessageStatusKind::Processed));
    assert!(MessageStatusKind::Sent.precedes(MessageStatusKind::Received));
    assert!(MessageStatusKind::Received.precedes(MessageStatusKind::Processed));
    assert!(!MessageStatusKind::Sent.precedes(MessageStatusKind::Unsent));
    assert!(!MessageStatusKind::Received.precedes(MessageStatusKind::Sent));
    assert!(!MessageStatusKind::Sent.precedes(MessageStatusKind::Sent));
    assert!(MessageStatusKind::Unsent.precedes(MessageStatusKind::Unreachable));
    assert!(MessageStatusKind::Sent.precedes(MessageStatusKind::Failed));
    assert!(MessageStatusKind::Received.precedes(MessageStatusKind::Failed));
    for next in ALL_STATUSES {
        assert!(!MessageStatusKind::Processed.precedes(next));
        assert!(!MessageStatusKind::Failed.precedes(next));
        assert!(!MessageStatusKind::Unreachable.precedes(next));
    }
    assert!(MessageStatusKind::Failed.is_failure() && MessageStatusKind::Unreachable.is_failure());
    assert!(!MessageStatusKind::Processed.is_failure() && !MessageStatusKind::Unsent.is_failure());
    assert!(MessageStatusKind::Unsent.is_unsent() && !MessageStatusKind::Sent.is_unsent());
    assert_eq!(MessageStatusKind::Processed.level(), 3);
    assert_eq!(MessageAckExpectKind::Received.level(), 2);
}

#[test]
fn status_fulfills_the_expected_level_or_fails() {
    assert!(!MessageStatusKind::Unsent.fulfills(MessageAckExpectKind::Sent));
    assert!(MessageStatusKind::Sent.fulfills(MessageAckExpectKind::Sent));
    assert!(MessageStatusKind::Processed.fulfills(MessageAckExpectKind::Sent));
    assert!(!MessageStatusKind::Sent.fulfills(MessageAckExpectKind::Received));
    assert!(!MessageStatusKind::Received.fulfills(MessageAckExpectKind::Processed));
    assert!(MessageStatusKind::Processed.fulfills(MessageAckExpectKind::Processed));
    assert!(MessageStatusKind::Failed.fulfills(MessageAckExpectKind::Processed));
    assert!(MessageStatusKind::Unreachable.fulfills(MessageAckExpectKind::Processed));
    assert!(MessageStatusKind::Unsent.fulfills(MessageAckExpectKind::Unconfirmed));
}

#[test]
fn update_ack_never_moves_a_status_down() {
    for from in ALL_STATUSES {
        for next in ALL_STATUSES {
            let mut wait = WaitAck::new(MessageAckExpectKind::Processed, &vec![EndpointAddr::new(1)]);
            wait.update_ack(EndpointAddr::new(1), from);
            let before = *wait.status.get(EndpointAddr::new(1)).unwrap();
            let changed = wait.update_ack(EndpointAddr::new(1), next);
            let after = *wait.status.get(EndpointAddr::new(1)).unwrap();
            assert_eq!(changed, before.precedes(next));
            assert_eq!(after, if changed { next } else { before });
            assert!(after == before || before.precedes(after));
            assert_eq!(wait.status.len(), 1);
        }
    }
}

#[test]
fn update_ack_ignores_strangers() {
    let mut wait = WaitAck::new(MessageAckExpectKind::Sent, &vec![EndpointAddr::new(1)]);
    assert!(!wait.update_ack(EndpointAddr::new(2), MessageStatusKind::Processed));
    assert_eq!(wait.status.len(), 1);
    assert!(!wait.is_settled());
    assert!(wait.add_recipient(EndpointAddr::new(2)));
    assert!(!wait.add_recipient(EndpointAddr::new(2)));
    assert_eq!(wait.status.get(EndpointAddr::new(2)).copied(), Some(MessageStatusKind::Unsent));
}

#[test]
fn message_is_complete_when_every_recipient_is_settled() {
    let mut hold = queue_hold(1, MessageAckExpectKind::Received, &[1, 2]);
    assert!(!hold.is_complete());
    hold.update_ack(EndpointAddr::new(1), MessageStatusKind::Received);
    assert!(!hold.is_complete());
    hold.update_ack(EndpointAddr::new(2), MessageStatusKind::Sent);
    assert!(!hold.is_complete());
    hold.update_ack(EndpointAddr::new(2), MessageStatusKind::Unreachable);
    assert!(hold.is_complete());
    assert!(hold.wait_ack.has_failure());
    let report = hold.report();
    assert_eq!(report.exception, None);
    assert!(!report.is_success());
    assert_eq!(report.status.get(EndpointAddr::new(2)).copied(), Some(MessageStatusKind::Unreachable));
}

#[test]
fn message_without_recipients_is_not_complete() {
    let hold = queue_hold(1, MessageAckExpectKind::Unconfirmed, &[]);
    assert!(!hold.is_complete());
    let hold = queue_hold(1, MessageAckExpectKind::Unconfirmed, &[4]);
    assert!(hold.is_complete());
    assert_eq!(hold.unsent(), vec![EndpointAddr::new(4)]);
}

#[test]
fn queue_keeps_admission_order() {
    let mut queue = MessageQueue::new(4);
    assert!(queue.push(queue_hold(3, MessageAckExpectKind::Sent, &[1])));
    assert!(queue.push(queue_hold(1, MessageAckExpectKind::Sent, &[1])));
    assert!(queue.push(queue_hold(2, MessageAckExpectKind::Sent, &[1])));
    assert!(!queue.push(queue_hold(1, MessageAckExpectKind::Processed, &[5])));
    assert_eq!(queue_ids(&queue), vec![3, 1, 2]);
    assert_eq!(queue.position(MessageId::new(1)), Some(1));
    assert_eq!(queue.position(MessageId::new(9)), None);
    assert!(queue.contains(MessageId::new(2)));
    assert_eq!(queue.get(MessageId::new(1)).unwrap().wait_ack.expect, MessageAckExpectKind::Sent);
    assert_eq!(queue.pop().unwrap().id(), MessageId::new(3));
    assert_eq!(queue_ids(&queue), vec![1, 2]);
    queue.clear();
    assert_eq!(queue.len(), 0);
    assert!(queue.pop().is_none());
}

#[test]
fn queue_update_ack_reports_completion() {
    let mut queue = MessageQueue::new(4);
    queue.push(queue_hold(1, MessageAckExpectKind::Received, &[1, 2]));
    assert!(!queue.update_ack(MessageId::new(1), EndpointAddr::new(1), MessageStatusKind::Received));
    assert!(!queue.update_ack(MessageId::new(9), EndpointAddr::new(1), MessageStatusKind::Received));
    assert!(queue.update_ack(MessageId::new(1), EndpointAddr::new(2), MessageStatusKind::Processed));
    // A lower status is ignored, and the message stays complete.
    assert!(queue.update_ack(MessageId::new(1), EndpointAddr::new(2), MessageStatusKind::Sent));
    let hold = queue.get(MessageId::new(1)).unwrap();
    assert_eq!(hold.wait_ack.status.get(EndpointAddr::new(2)).copied(), Some(MessageStatusKind::Processed));
}

#[test]
fn waiter_is_resolved_once() {
    let mut queue = MessageQueue::new(4);
    let handle = queue.wait_ack(MessageId::new(1));
    assert_eq!(handle.message_id, MessageId::new(1));
    queue.wait_ack(MessageId::new(1));
    queue.wait_ack(MessageId::new(2));
    assert!(queue.is_waiting(MessageId::new(1)));
    assert!(queue.resolve(WaitAckReport::failed(MessageId::new(1), WaitAckErrorException::CommitFailed)));
    assert!(!queue.resolve(WaitAckReport::failed(MessageId::new(1), WaitAckErrorException::Overflow)));
    assert!(!queue.resolve(WaitAckReport::failed(MessageId::new(7), WaitAckErrorException::Overflow)));
    assert!(!queue.is_waiting(MessageId::new(1)));
    assert!(queue.is_waiting(MessageId::new(2)));
    let reports = queue.take_reports();
    assert_eq!(reports.len(), 1);
    assert_eq!(reports[0].exception, Some(WaitAckErrorException::CommitFailed));
    assert_eq!(reports[0].status.len(), 0);
    assert!(queue.take_reports().is_empty());
}

#[test]
fn flush_stops_at_the_first_incomplete_message() {
    let mut queue = MessageQueue::new(4);
    for id in [1u128, 2, 3, 4] {
        queue.push(queue_hold(id, MessageAckExpectKind::Sent, &[1]));
        queue.wait_ack(MessageId::new(id));
    }
    for id in [1u128, 2, 4] {
        queue.update_ack(MessageId::new(id), EndpointAddr::new(1), MessageStatusKind::Sent);
    }
    let flushed: Vec<u128> = queue.flush().iter().map(|hold| hold.id().bits).collect();
    assert_eq!(flushed, vec![1, 2]);
    assert_eq!(queue_ids(&queue), vec![3, 4]);
    let resolved: Vec<u128> = queue.take_reports().iter().map(|r| r.message_id.bits).collect();
    assert_eq!(resolved, vec![1, 2]);
    assert!(queue.is_waiting(MessageId::new(4)));
    assert!(queue.flush().is_empty());
}

#[test]
fn poll_dispatches_to_local_endpoints() {
    let here = NodeId::new(1);
    let mut routing: EpTable<NodeId> = EpTable::new();
    routing.insert(EndpointAddr::new(1), here);
    routing.insert(EndpointAddr::new(2), here);
    routing.insert(EndpointAddr::new(3), NodeId::new(2));
    let mut locals: EpTable<LocalEndpoint> = EpTable::new();
    locals.insert(
        EndpointAddr::new(1),
        LocalEndpoint::new(EndpointAddr::new(1), vec![Interest::new("s")]),
    );
    let mut queue = MessageQueue::new(4);
    queue.push(queue_hold(1, MessageAckExpectKind::Sent, &[1, 2, 3, 4]));
    queue.wait_ack(MessageId::new(1));
    assert_eq!(queue.poll_message(MessageId::new(9), &routing, here, &mut locals), None);
    assert_eq!(
        queue.poll_message(MessageId::new(1), &routing, here, &mut locals),
        Some(Polled::Pending)
    );
    let status = &queue.get(MessageId::new(1)).unwrap().wait_ack.status;
    // Attached here: sent.  Hosted here but not attached: unreachable.
    // Hosted elsewhere, or not routed at all: left alone.
    assert_eq!(status.get(EndpointAddr::new(1)).copied(), Some(MessageStatusKind::Sent));
    assert_eq!(status.get(EndpointAddr::new(2)).copied(), Some(MessageStatusKind::Unreachable));
    assert_eq!(status.get(EndpointAddr::new(3)).copied(), Some(MessageStatusKind::Unsent));
    assert_eq!(status.get(EndpointAddr::new(4)).copied(), Some(MessageStatusKind::Unsent));
    assert_eq!(locals.get(EndpointAddr::new(1)).unwrap().pending(), 1);

    // A second poll sends nothing twice.
    queue.poll_message(MessageId::new(1), &routing, here, &mut locals);
    assert_eq!(locals.get(EndpointAddr::new(1)).unwrap().pending(), 1);
    assert!(queue.take_reports().is_empty());

    queue.update_ack(MessageId::new(1), EndpointAddr::new(3), MessageStatusKind::Sent);
    queue.update_ack(MessageId::new(1), EndpointAddr::new(4), MessageStatusKind::Failed);
    assert_eq!(
        queue.poll_message(MessageId::new(1), &routing, here, &mut locals),
        Some(Polled::Ready)
    );
    let reports = queue.take_reports();
    assert_eq!(reports.len(), 1);
    assert_eq!(reports[0].exception, None);
    assert!(!reports[0].is_success());
    assert_eq!(reports[0].status.len(), 4);
}

#[test]
fn poll_completes_a_message_that_only_waits_to_be_sent() {
    let here = NodeId::new(1);
    let mut routing: EpTable<NodeId> = EpTable::new();
    routing.insert(EndpointAddr::new(1), here);
    let mut locals: EpTable<LocalEndpoint> = EpTable::new();
    locals.insert(EndpointAddr::new(1), LocalEndpoint::new(EndpointAddr::new(1), Vec::new()));
    let mut queue = MessageQueue::new(4);
    queue.push(queue_hold(1, MessageAckExpectKind::Sent, &[1]));
    queue.wait_ack(MessageId::new(1));
    assert_eq!(
        queue.poll_message(MessageId::new(1), &routing, here, &mut locals),
        Some(Polled::Ready)
    );
    let reports = queue.take_reports();
    assert_eq!(reports.len(), 1);
    assert!(reports[0].is_success());
    let mailbox = locals.value_at_mut(0);
    let delivered = mailbox.next_message().unwrap();
    assert_eq!(delivered.id(), MessageId::new(1));
    assert_eq!(delivered.payload, vec![9]);
    assert!(mailbox.next_message().is_none());
}

#[test]
fn drop_all_resolves_every_waiter_with_the_reason() {
    let mut queue = MessageQueue::new(4);
    queue.push(queue_hold(1, MessageAckExpectKind::Sent, &[1]));
    queue.wait_ack(MessageId::new(5));
    queue.wait_ack(MessageId::new(1));
    queue.drop_all(WaitAckErrorException::MessageDropped);
    assert_eq!(queue.len(), 0);
    let reports = queue.take_reports();
    let ids: Vec<u128> = reports.iter().map(|r| r.message_id.bits).collect();
    assert_eq!(ids, vec![5, 1]);
    assert!(reports.iter().all(|r| r.exception == Some(WaitAckErrorException::MessageDropped)));
    assert!(!queue.is_waiting(MessageId::new(1)));
}
