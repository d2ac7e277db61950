use asteroid_mq::protocol::endpoint::{
    EndpointAddr, Message, MessageAckExpectKind, MessageHeader, MessageId, MessageStateUpdate,
    MessageStatusKind, MessageTargetKind,
};
use asteroid_mq::protocol::interest::{Interest, Subject};
use asteroid_mq::protocol::node::NodeId;
use asteroid_mq::protocol::topic::config::{TopicConfig, TopicOverflowConfig, TopicOverflowPolicy};
use asteroid_mq::protocol::topic::wait_ack::WaitAckErrorException;
use asteroid_mq::protocol::topic::{TopicCode, TopicData};
use asteroid_mq::TimestampSec;

fn scenario_message(
    id: u128,
    target_kind: MessageTargetKind,
    ack_kind: MessageAckExpectKind,
    subject: &str,
) -> Message {
    Message::new(
        MessageHeader {
            message_id: MessageId::new(id),
            ack_kind,
            target_kind,
            subjects: vec![Subject::new(subject)],
        },
        vec![1, 2, 3],
    )
}

fn scenario_topic(overflow: Option<TopicOverflowConfig>) -> TopicData {
    let mut config = TopicConfig::new(TopicCode::new("T"));
    config.overflow_config = overflow;
    TopicData::new(config, NodeId::new(1))
}

fn status_of(topic: &TopicData, id: u128, ep: u128) -> Option<MessageStatusKind> {
    topic
        .queue()
        .get(MessageId::new(id))
        .and_then(|hold| hold.wait_ack.status.get(EndpointAddr::new(ep)).copied())
}

fn held_ids(topic: &TopicData) -> Vec<u128> {
    let queue = topic.queue();
    (0..queue.len()).map(|i| queue.hold_at(i).message.id().bits).collect()
}

const ELSEWHERE: u128 = 2;

#[test]
fn push_routing_picks_the_same_endpoint_everywhere() {
    // Endpoints with digests 0x10, 0x20, 0x30; a message with digest 0x22.
    for host in [1u128, 2, 3] {
        let mut topic = TopicData::new(TopicConfig::new(TopicCode::new("T")), NodeId::new(host));
        for addr in [0x30u128, 0x10, 0x20] {
            topic.ep_online(
                EndpointAddr::new(addr),
                vec![Interest::new("s")],
                NodeId::new(9),
                TimestampSec::new(1),
            );
        }
        assert_eq!(EndpointAddr::new(0x20).hash64(), 0x20);
        assert_eq!(MessageId::new(0x22).hash64(), 0x22);
        let admitted = topic.hold_new_message(scenario_message(
            0x22,
            MessageTargetKind::Push,
            MessageAckExpectKind::Sent,
            "s",
        ));
        assert_eq!(admitted, Ok(()));
        let hold = topic.queue().get(MessageId::new(0x22)).unwrap();
        assert_eq!(hold.wait_ack.status.len(), 1);
        assert_eq!(status_of(&topic, 0x22, 0x20), Some(MessageStatusKind::Unsent));
        assert_eq!(status_of(&topic, 0x22, 0x10), None);
        assert_eq!(status_of(&topic, 0x22, 0x30), None);
    }
}

#[test]
fn overflow_drop_old_evicts_the_head() {
    let mut topic = scenario_topic(Some(TopicOverflowConfig::new(TopicOverflowPolicy::DropOld, 2)));
    topic.ep_online(
        EndpointAddr::new(7),
        vec![Interest::new("s")],
        NodeId::new(ELSEWHERE),
        TimestampSec::new(1),
    );
    for id in [1u128, 2, 3] {
        topic.wait_ack(MessageId::new(id));
    }
    for id in [1u128, 2] {
        let admitted = topic.hold_new_message(scenario_message(
            id,
            MessageTargetKind::Online,
            MessageAckExpectKind::Processed,
            "s",
        ));
        assert_eq!(admitted, Ok(()));
    }
    assert!(topic.take_reports().is_empty());
    let admitted = topic.hold_new_message(scenario_message(
        3,
        MessageTargetKind::Online,
        MessageAckExpectKind::Processed,
        "s",
    ));
    assert_eq!(admitted, Ok(()));
    let reports = topic.take_reports();
    assert_eq!(reports.len(), 1);
    assert_eq!(reports[0].message_id, MessageId::new(1));
    assert_eq!(reports[0].exception, Some(WaitAckErrorException::Overflow));
    assert!(!reports[0].is_success());
    assert_eq!(held_ids(&topic), vec![2, 3]);
    assert!(topic.queue().is_waiting(MessageId::new(2)));
    assert!(!topic.queue().is_waiting(MessageId::new(1)));
}

#[test]
fn overflow_reject_new_refuses_the_arrival() {
    let mut topic = scenario_topic(Some(TopicOverflowConfig::new(TopicOverflowPolicy::RejectNew, 2)));
    topic.ep_online(
        EndpointAddr::new(7),
        vec![Interest::new("s")],
        NodeId::new(ELSEWHERE),
        TimestampSec::new(1),
    );
    for id in [1u128, 2] {
        let admitted = topic.hold_new_message(scenario_message(
            id,
            MessageTargetKind::Online,
            MessageAckExpectKind::Processed,
            "s",
        ));
        assert_eq!(admitted, Ok(()));
    }
    topic.wait_ack(MessageId::new(3));
    let admitted = topic.hold_new_message(scenario_message(
        3,
        MessageTargetKind::Online,
        MessageAckExpectKind::Processed,
        "s",
    ));
    assert_eq!(admitted, Err(WaitAckErrorException::Overflow));
    let reports = topic.take_reports();
    assert_eq!(reports.len(), 1);
    assert_eq!(reports[0].message_id, MessageId::new(3));
    assert_eq!(reports[0].exception, Some(WaitAckErrorException::Overflow));
    assert_eq!(held_ids(&topic), vec![1, 2]);
}

#[test]
fn durable_message_waits_for_a_late_endpoint() {
    let mut topic = scenario_topic(None);
    let handle = topic.wait_ack(MessageId::new(1));
    assert_eq!(handle.message_id, MessageId::new(1));
    let admitted = topic.hold_new_message(scenario_message(
        1,
        MessageTargetKind::Durable,
        MessageAckExpectKind::Processed,
        "s",
    ));
    assert_eq!(admitted, Ok(()));
    assert_eq!(held_ids(&topic), vec![1]);
    assert!(topic.queue().get(MessageId::new(1)).unwrap().wait_ack.status.len() == 0);
    assert!(topic.take_reports().is_empty());

    topic.ep_online(
        EndpointAddr::new(5),
        vec![Interest::new("s")],
        NodeId::new(ELSEWHERE),
        TimestampSec::new(10),
    );
    assert_eq!(status_of(&topic, 1, 5), Some(MessageStatusKind::Unsent));
    assert_eq!(held_ids(&topic), vec![1]);

    topic.update_and_flush(MessageStateUpdate::new(
        MessageId::new(1),
        vec![(EndpointAddr::new(5), MessageStatusKind::Processed)],
    ));
    assert!(held_ids(&topic).is_empty());
    let reports = topic.take_reports();
    assert_eq!(reports.len(), 1);
    assert_eq!(reports[0].message_id, MessageId::new(1));
    assert_eq!(reports[0].exception, None);
    assert!(reports[0].is_success());
    assert_eq!(
        reports[0].status.get(EndpointAddr::new(5)).copied(),
        Some(MessageStatusKind::Processed)
    );
    let flushed = topic.take_flushed();
    assert_eq!(flushed.len(), 1);
    assert_eq!(flushed[0].message.id(), MessageId::new(1));
}

#[test]
fn online_message_does_not_gain_late_endpoints() {
    let mut topic = scenario_topic(None);
    topic.ep_online(
        EndpointAddr::new(5),
        vec![Interest::new("s")],
        NodeId::new(ELSEWHERE),
        TimestampSec::new(10),
    );
    let admitted = topic.hold_new_message(scenario_message(
        1,
        MessageTargetKind::Online,
        MessageAckExpectKind::Processed,
        "s",
    ));
    assert_eq!(admitted, Ok(()));
    topic.ep_online(
        EndpointAddr::new(6),
        vec![Interest::new("s")],
        NodeId::new(ELSEWHERE),
        TimestampSec::new(11),
    );
    assert_eq!(status_of(&topic, 1, 5), Some(MessageStatusKind::Unsent));
    assert_eq!(status_of(&topic, 1, 6), None);
}

#[test]
fn flush_is_first_in_first_out() {
    let mut topic = scenario_topic(None);
    topic.ep_online(
        EndpointAddr::new(5),
        vec![Interest::new("s")],
        NodeId::new(ELSEWHERE),
        TimestampSec::new(10),
    );
    for id in [1u128, 2] {
        topic.wait_ack(MessageId::new(id));
        let admitted = topic.hold_new_message(scenario_message(
            id,
            MessageTargetKind::Online,
            MessageAckExpectKind::Received,
            "s",
        ));
        assert_eq!(admitted, Ok(()));
    }
    topic.update_and_flush(MessageStateUpdate::new(
        MessageId::new(2),
        vec![(EndpointAddr::new(5), MessageStatusKind::Received)],
    ));
    assert_eq!(held_ids(&topic), vec![1, 2]);
    assert!(topic.take_flushed().is_empty());
    assert!(topic.queue().get(MessageId::new(2)).unwrap().is_complete());

    topic.update_and_flush(MessageStateUpdate::new(
        MessageId::new(1),
        vec![(EndpointAddr::new(5), MessageStatusKind::Received)],
    ));
    assert!(held_ids(&topic).is_empty());
    let flushed: Vec<u128> = topic.take_flushed().iter().map(|hold| hold.message.id().bits).collect();
    assert_eq!(flushed, vec![1, 2]);
    let reports = topic.take_reports();
    assert_eq!(reports.len(), 2);
    assert!(reports.iter().all(|report| report.is_success()));
    let mut resolved: Vec<u128> = reports.iter().map(|report| report.message_id.bits).collect();
    resolved.sort();
    assert_eq!(resolved, vec![1, 2]);
}

#[test]
fn snapshot_installs_the_same_queue_on_another_replica() {
    let mut first = scenario_topic(None);
    first.ep_online(
        EndpointAddr::new(5),
        vec![Interest::new("s"), Interest::new("orders.*")],
        NodeId::new(1),
        TimestampSec::new(10),
    );
    first.ep_online(
        EndpointAddr::new(6),
        vec![Interest::new("s")],
        NodeId::new(ELSEWHERE),
        TimestampSec::new(12),
    );
    let admitted = first.hold_new_message(scenario_message(
        1,
        MessageTargetKind::Online,
        MessageAckExpectKind::Processed,
        "s",
    ));
    assert_eq!(admitted, Ok(()));
    first.update_and_flush(MessageStateUpdate::new(
        MessageId::new(1),
        vec![(EndpointAddr::new(6), MessageStatusKind::Received)],
    ));
    // Endpoint 5 is hosted on the first replica but not attached to it.
    assert_eq!(status_of(&first, 1, 5), Some(MessageStatusKind::Unreachable));
    assert_eq!(status_of(&first, 1, 6), Some(MessageStatusKind::Received));

    let snapshot = first.snapshot();
    assert_eq!(snapshot.queue.len(), 1);
    let second = TopicData::from_snapshot(snapshot, NodeId::new(3));
    assert_eq!(second.host(), NodeId::new(3));
    assert_eq!(held_ids(&second), vec![1]);
    assert_eq!(status_of(&second, 1, 5), Some(MessageStatusKind::Unreachable));
    assert_eq!(status_of(&second, 1, 6), Some(MessageStatusKind::Received));
    assert_eq!(second.queue().get(MessageId::new(1)).unwrap().wait_ack.status.len(), 2);
    assert_eq!(
        second.routing_table().get(EndpointAddr::new(5)).copied(),
        Some(NodeId::new(1))
    );
    assert_eq!(
        second.latest_active().get(EndpointAddr::new(6)).copied(),
        Some(TimestampSec::new(12))
    );
    assert_eq!(second.interest_map().interest_of(EndpointAddr::new(5)).unwrap().len(), 2);
    assert_eq!(second.code().as_bytes(), b"T");
    assert!(second.get_local_ep(EndpointAddr::new(5)).is_none());
}

#[test]
fn push_without_a_target_is_rejected() {
    let mut topic = scenario_topic(None);
    topic.ep_online(
        EndpointAddr::new(5),
        vec![Interest::new("s")],
        NodeId::new(ELSEWHERE),
        TimestampSec::new(10),
    );
    topic.wait_ack(MessageId::new(1));
    let before = topic.queue_len();
    let admitted = topic.hold_new_message(scenario_message(
        1,
        MessageTargetKind::Push,
        MessageAckExpectKind::Sent,
        "q",
    ));
    assert_eq!(admitted, Err(WaitAckErrorException::NoAvailableTarget));
    assert_eq!(topic.queue_len(), before);
    let reports = topic.take_reports();
    assert_eq!(reports.len(), 1);
    assert_eq!(reports[0].exception, Some(WaitAckErrorException::NoAvailableTarget));
    assert!(topic.take_flushed().is_empty());
}

#[test]
fn available_target_is_unsupported() {
    let mut topic = scenario_topic(None);
    topic.ep_online(
        EndpointAddr::new(5),
        vec![Interest::new("s")],
        NodeId::new(ELSEWHERE),
        TimestampSec::new(10),
    );
    topic.wait_ack(MessageId::new(1));
    let admitted = topic.hold_new_message(scenario_message(
        1,
        MessageTargetKind::Available,
        MessageAckExpectKind::Sent,
        "s",
    ));
    assert_eq!(admitted, Err(WaitAckErrorException::Unsupported));
    assert_eq!(topic.queue_len(), 0);
    let reports = topic.take_reports();
    assert_eq!(reports.len(), 1);
    assert_eq!(reports[0].exception, Some(WaitAckErrorException::Unsupported));
}
