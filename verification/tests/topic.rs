use asteroid_mq::protocol::endpoint::{
    EndpointAddr, EpInfo, LocalEndpoint, Message, MessageAckExpectKind, MessageHeader, MessageId,
    MessageStateUpdate, MessageStatusKind, MessageTargetKind,
};
use asteroid_mq::protocol::interest::{Interest, Subject};
use asteroid_mq::protocol::node::NodeId;
use asteroid_mq::protocol::topic::config::{TopicConfig, TopicOverflowConfig, TopicOverflowPolicy};
use asteroid_mq::protocol::topic::wait_ack::WaitAckErrorException;
use asteroid_mq::protocol::topic::{Topic, TopicCode, TopicData};
use asteroid_mq::TimestampSec;

const HERE: u128 = 1;
const THERE: u128 = 2;

fn topic_message(id: u128, target_kind: MessageTargetKind, ack_kind: MessageAckExpectKind) -> Message {
    Message::new(
        MessageHeader {
            message_id: MessageId::new(id),
            ack_kind,
            target_kind,
            subjects: vec![Subject::new("jobs.new")],
        },
        vec![id as u8],
    )
}

fn fresh_topic() -> Topic {
    Topic::new(TopicData::new(TopicConfig::new(TopicCode::new("jobs")), NodeId::new(HERE)))
}

fn online(topic: &mut Topic, ep: u128, host: u128) {
    topic.ep_online(
        EndpointAddr::new(ep),
        vec![Interest::new("jobs.*")],
        NodeId::new(host),
        TimestampSec::new(100),
    );
}

fn status_in(topic: &Topic, id: u128, ep: u128) -> Option<MessageStatusKind> {
    topic
        .data()
        .queue()
        .get(MessageId::new(id))
        .and_then(|hold| hold.wait_ack.status.get(EndpointAddr::new(ep)).copied())
}

#[test]
fn new_topic_is_empty() {
    let topic = TopicData::new(
        TopicConfig {
            code: TopicCode::new("jobs"),
            blocking: true,
            overflow_config: Some(TopicOverflowConfig::new(TopicOverflowPolicy::RejectNew, 500)),
        },
        NodeId::new(HERE),
    );
    assert_eq!(topic.code().as_bytes(), b"jobs");
    assert_eq!(topic.host(), NodeId::new(HERE));
    assert_eq!(topic.queue_len(), 0);
    assert_eq!(topic.routing_table().len(), 0);
    assert_eq!(topic.latest_active().len(), 0);
    assert!(topic.get_ep_sync().is_empty());
    assert!(topic.config().blocking);
    assert_eq!(topic.config().overflow_config.unwrap().size(), 500);
    assert!(topic.snapshot().is_valid());
}

#[test]
fn created_endpoint_receives_its_messages() {
    let mut topic = fresh_topic();
    let entry = topic.create_endpoint(
        EndpointAddr::new(5),
        vec![Interest::new("jobs.*")],
        TimestampSec::new(100),
    );
    assert_eq!(entry.endpoint, EndpointAddr::new(5));
    assert_eq!(entry.host, NodeId::new(HERE));
    assert_eq!(entry.at, TimestampSec::new(100));
    assert_eq!(entry.topic_code.as_bytes(), b"jobs");
    assert_eq!(entry.interests.len(), 1);
    assert!(entry.interests[0].eq(&Interest::new("jobs.*")));
    // The endpoint is attached at once, and online once the entry is applied.
    assert!(topic.data().get_local_ep(EndpointAddr::new(5)).is_some());
    assert_eq!(topic.data().routing_table().len(), 0);
    topic.ep_online(entry.endpoint, entry.interests, entry.host, entry.at);

    let (handle, delegate) =
        topic.send_message(topic_message(1, MessageTargetKind::Online, MessageAckExpectKind::Received));
    assert_eq!(handle.message_id, MessageId::new(1));
    assert_eq!(delegate.topic.as_bytes(), b"jobs");
    assert_eq!(topic.hold_new_message(delegate.message), Ok(()));
    assert_eq!(status_in(&topic, 1, 5), Some(MessageStatusKind::Sent));

    let delivered = topic.next_message(EndpointAddr::new(5)).unwrap();
    assert_eq!(delivered.id(), MessageId::new(1));
    assert_eq!(delivered.payload, vec![1]);
    assert_eq!(delivered.header.subjects.len(), 1);
    assert!(delivered.header.subjects[0].eq(&Subject::new("jobs.new")));
    assert!(topic.next_message(EndpointAddr::new(5)).is_none());
    assert!(topic.next_message(EndpointAddr::new(6)).is_none());

    topic.update_and_flush(MessageStateUpdate::new(
        MessageId::new(1),
        vec![(EndpointAddr::new(5), MessageStatusKind::Received)],
    ));
    let reports = topic.take_reports();
    assert_eq!(reports.len(), 1);
    assert!(reports[0].is_success());
    assert_eq!(topic.data().queue_len(), 0);
}

#[test]
fn messages_reach_a_mailbox_in_admission_order() {
    let mut topic = fresh_topic();
    let entry = topic.create_endpoint(EndpointAddr::new(5), vec![Interest::new("jobs.*")], TimestampSec::new(1));
    topic.ep_online(entry.endpoint, entry.interests, entry.host, entry.at);
    for id in [3u128, 1, 2] {
        assert_eq!(
            topic.hold_new_message(topic_message(id, MessageTargetKind::Online, MessageAckExpectKind::Processed)),
            Ok(())
        );
    }
    let mut seen = Vec::new();
    while let Some(message) = topic.next_message(EndpointAddr::new(5)) {
        seen.push(message.id().bits);
    }
    assert_eq!(seen, vec![3, 1, 2]);
}

#[test]
fn commit_failure_resolves_the_waiter() {
    let mut topic = fresh_topic();
    let (handle, _) =
        topic.send_message(topic_message(1, MessageTargetKind::Online, MessageAckExpectKind::Sent));
    assert!(topic.data().queue().is_waiting(handle.message_id));
    assert!(topic.commit_failed(handle.message_id));
    assert!(!topic.commit_failed(handle.message_id));
    let reports = topic.take_reports();
    assert_eq!(reports.len(), 1);
    assert_eq!(reports[0].exception, Some(WaitAckErrorException::CommitFailed));
    assert_eq!(reports[0].message_id, MessageId::new(1));
}

#[test]
fn deleted_endpoint_leaves_all_tables() {
    let mut topic = fresh_topic();
    let entry = topic.create_endpoint(EndpointAddr::new(5), vec![Interest::new("jobs.*")], TimestampSec::new(1));
    topic.ep_online(entry.endpoint, entry.interests, entry.host, entry.at);
    online(&mut topic, 6, THERE);
    assert_eq!(
        topic.hold_new_message(topic_message(1, MessageTargetKind::Online, MessageAckExpectKind::Processed)),
        Ok(())
    );
    let notice = topic.delete_endpoint(EndpointAddr::new(5));
    assert_eq!(notice.endpoint, EndpointAddr::new(5));
    assert_eq!(notice.host, NodeId::new(HERE));
    assert_eq!(notice.topic_code.as_bytes(), b"jobs");
    let data = topic.data();
    assert!(data.get_local_ep(EndpointAddr::new(5)).is_none());
    assert!(data.routing_table().get(EndpointAddr::new(5)).is_none());
    assert!(data.latest_active().get(EndpointAddr::new(5)).is_none());
    assert!(data.interest_map().interest_of(EndpointAddr::new(5)).is_none());
    assert!(data.routing_table().get(EndpointAddr::new(6)).is_some());
    // The held message keeps its status for the endpoint that has left.
    assert_eq!(status_in(&topic, 1, 5), Some(MessageStatusKind::Sent));
    assert_eq!(status_in(&topic, 1, 6), Some(MessageStatusKind::Unsent));
}

#[test]
fn offline_endpoint_is_no_recipient_of_later_messages() {
    let mut topic = fresh_topic();
    online(&mut topic, 5, THERE);
    online(&mut topic, 6, THERE);
    topic.ep_offline(EndpointAddr::new(5));
    assert_eq!(
        topic.hold_new_message(topic_message(1, MessageTargetKind::Online, MessageAckExpectKind::Processed)),
        Ok(())
    );
    assert_eq!(status_in(&topic, 1, 5), None);
    assert_eq!(status_in(&topic, 1, 6), Some(MessageStatusKind::Unsent));
    topic.ep_offline(EndpointAddr::new(6));
    assert_eq!(
        topic.hold_new_message(topic_message(2, MessageTargetKind::Online, MessageAckExpectKind::Processed)),
        Err(WaitAckErrorException::NoAvailableTarget)
    );
}

#[test]
fn interests_are_replaced_as_a_whole() {
    let mut topic = fresh_topic();
    online(&mut topic, 5, THERE);
    topic.update_ep_interest(EndpointAddr::new(5), vec![Interest::new("bills.>"), Interest::new("x")]);
    let own = topic.data().interest_map().interest_of(EndpointAddr::new(5)).unwrap();
    assert_eq!(own.len(), 2);
    assert!(own[0].eq(&Interest::new("bills.>")));
    assert_eq!(
        topic.hold_new_message(topic_message(1, MessageTargetKind::Online, MessageAckExpectKind::Processed)),
        Err(WaitAckErrorException::NoAvailableTarget)
    );
    // An endpoint that is not online has no interests to replace.
    topic.update_ep_interest(EndpointAddr::new(9), vec![Interest::new("jobs.*")]);
    assert!(topic.data().interest_map().interest_of(EndpointAddr::new(9)).is_none());
    assert!(topic.data().snapshot().is_valid());
}

#[test]
fn dispatch_serves_the_endpoints_hosted_here() {
    let mut topic = fresh_topic();
    let entry = topic.create_endpoint(EndpointAddr::new(5), vec![Interest::new("jobs.*")], TimestampSec::new(1));
    topic.ep_online(entry.endpoint, entry.interests, entry.host, entry.at);
    online(&mut topic, 6, THERE);
    online(&mut topic, 4, HERE);
    let message = topic_message(9, MessageTargetKind::Online, MessageAckExpectKind::Sent);
    let eps = vec![
        EndpointAddr::new(6),
        EndpointAddr::new(5),
        EndpointAddr::new(4),
        EndpointAddr::new(5),
        EndpointAddr::new(8),
    ];
    let results = topic.dispatch_message(&message, &eps);
    assert_eq!(results, vec![(EndpointAddr::new(4), Err(())), (EndpointAddr::new(5), Ok(()))]);
    assert_eq!(topic.data().get_local_ep(EndpointAddr::new(5)).unwrap().pending(), 1);
    let groups = topic.data().resolve_node_ep_map(&eps);
    assert_eq!(
        groups,
        vec![
            (NodeId::new(THERE), vec![EndpointAddr::new(6)]),
            (NodeId::new(HERE), vec![EndpointAddr::new(5), EndpointAddr::new(4), EndpointAddr::new(5)]),
        ]
    );
    assert_eq!(
        topic.data().collect_addr_by_subjects(&vec![Subject::new("jobs.new"), Subject::new("none")]),
        vec![EndpointAddr::new(4), EndpointAddr::new(5), EndpointAddr::new(6)]
    );
}

#[test]
fn push_to_local_endpoint_hands_the_message_back_when_nobody_is_there() {
    let mut data = TopicData::new(TopicConfig::new(TopicCode::new("jobs")), NodeId::new(HERE));
    let message = topic_message(9, MessageTargetKind::Online, MessageAckExpectKind::Sent);
    let back = data.push_message_to_local_ep(EndpointAddr::new(5), message).unwrap_err();
    assert_eq!(back.id(), MessageId::new(9));
    assert!(data
        .attach_local_ep(LocalEndpoint::new(EndpointAddr::new(5), Vec::new()))
        .is_none());
    assert!(data.push_message_to_local_ep(EndpointAddr::new(5), back).is_ok());
    assert_eq!(data.get_local_ep(EndpointAddr::new(5)).unwrap().pending(), 1);
    let detached = data.detach_local_ep(EndpointAddr::new(5)).unwrap();
    assert_eq!(detached.pending(), 1);
    assert!(data.detach_local_ep(EndpointAddr::new(5)).is_none());
}

#[test]
fn endpoint_records_are_exchanged_and_merged() {
    let mut first = fresh_topic();
    online(&mut first, 5, THERE);
    online(&mut first, 3, HERE);
    let records = first.data().get_ep_sync();
    assert_eq!(records.len(), 2);
    assert_eq!(records[0].addr, EndpointAddr::new(3));
    assert_eq!(records[0].host, NodeId::new(HERE));
    assert_eq!(records[0].latest_active, TimestampSec::new(100));
    assert_eq!(records[0].interests.len(), 1);
    assert_eq!(records[1].addr, EndpointAddr::new(5));

    let mut second = TopicData::new(TopicConfig::new(TopicCode::new("jobs")), NodeId::new(THERE));
    second.ep_online(EndpointAddr::new(5), vec![Interest::new("old")], NodeId::new(7), TimestampSec::new(100));
    second.ep_online(EndpointAddr::new(3), vec![Interest::new("old")], NodeId::new(7), TimestampSec::new(99));
    second.ep_online(EndpointAddr::new(2), vec![Interest::new("old")], NodeId::new(7), TimestampSec::new(500));
    second.load_ep_sync(records);
    // Equal timestamps: the local row stays.  A later record replaces the row.
    assert_eq!(second.routing_table().get(EndpointAddr::new(5)).copied(), Some(NodeId::new(7)));
    assert!(second.interest_map().interest_of(EndpointAddr::new(5)).unwrap()[0].eq(&Interest::new("old")));
    assert_eq!(second.routing_table().get(EndpointAddr::new(3)).copied(), Some(NodeId::new(HERE)));
    assert_eq!(second.latest_active().get(EndpointAddr::new(3)).copied(), Some(TimestampSec::new(100)));
    let merged = second.interest_map().interest_of(EndpointAddr::new(3)).unwrap();
    assert_eq!(merged.len(), 1);
    assert!(merged[0].eq(&Interest::new("jobs.*")));
    assert_eq!(second.routing_table().get(EndpointAddr::new(2)).copied(), Some(NodeId::new(7)));
    second.load_ep_sync(vec![EpInfo {
        addr: EndpointAddr::new(9),
        host: NodeId::new(4),
        interests: Vec::new(),
        latest_active: TimestampSec::new(0),
    }]);
    assert_eq!(second.routing_table().get(EndpointAddr::new(9)).copied(), Some(NodeId::new(4)));
    assert_eq!(second.interest_map().interest_of(EndpointAddr::new(9)).unwrap().len(), 0);
    assert!(second.snapshot().is_valid());
}

#[test]
fn heartbeat_moves_the_record_forward_only() {
    let mut data = TopicData::new(TopicConfig::new(TopicCode::new("jobs")), NodeId::new(HERE));
    data.ep_online(EndpointAddr::new(5), Vec::new(), NodeId::new(THERE), TimestampSec::new(100));
    data.heartbeat(EndpointAddr::new(5), TimestampSec::new(90));
    assert_eq!(data.latest_active().get(EndpointAddr::new(5)).copied(), Some(TimestampSec::new(100)));
    data.heartbeat(EndpointAddr::new(5), TimestampSec::new(110));
    assert_eq!(data.latest_active().get(EndpointAddr::new(5)).copied(), Some(TimestampSec::new(110)));
    data.heartbeat(EndpointAddr::new(6), TimestampSec::new(110));
    assert!(data.latest_active().get(EndpointAddr::new(6)).is_none());
}

#[test]
fn snapshot_leaves_out_what_is_local() {
    let mut topic = fresh_topic();
    let entry = topic.create_endpoint(EndpointAddr::new(5), vec![Interest::new("jobs.*")], TimestampSec::new(1));
    topic.ep_online(entry.endpoint, entry.interests, entry.host, entry.at);
    online(&mut topic, 6, THERE);
    topic.wait_ack(MessageId::new(1));
    topic.hold_new_message(topic_message(1, MessageTargetKind::Online, MessageAckExpectKind::Processed)).unwrap();
    let snapshot = topic.data().snapshot();
    assert!(snapshot.is_valid());
    let copy = TopicData::from_snapshot(snapshot, NodeId::new(HERE));
    assert_eq!(copy.queue_len(), 1);
    assert!(copy.get_local_ep(EndpointAddr::new(5)).is_none());
    assert!(!copy.queue().is_waiting(MessageId::new(1)));
    let hold = copy.queue().get(MessageId::new(1)).unwrap();
    assert_eq!(hold.wait_ack.status.get(EndpointAddr::new(5)).copied(), Some(MessageStatusKind::Sent));
    assert_eq!(hold.wait_ack.status.get(EndpointAddr::new(6)).copied(), Some(MessageStatusKind::Unsent));
    assert_eq!(hold.message.payload, vec![1]);
}

#[test]
fn snapshot_with_mismatched_tables_is_not_valid() {
    let mut data = TopicData::new(TopicConfig::new(TopicCode::new("jobs")), NodeId::new(HERE));
    data.ep_online(EndpointAddr::new(5), vec![Interest::new("a")], NodeId::new(THERE), TimestampSec::new(1));
    let mut snapshot = data.snapshot();
    assert!(snapshot.is_valid());
    snapshot.ep_routing_table.insert(EndpointAddr::new(6), NodeId::new(THERE));
    assert!(!snapshot.is_valid());
    snapshot.ep_latest_active.insert(EndpointAddr::new(6), TimestampSec::new(2));
    assert!(!snapshot.is_valid());
    snapshot.ep_interest_map.touch(EndpointAddr::new(6));
    assert!(snapshot.is_valid());
    snapshot.ep_interest_map.raw.value_at_mut(0).push(Interest::new("a"));
    assert!(!snapshot.is_valid());
}

#[test]
fn installed_snapshot_flushes_complete_heads_and_dispatches() {
    let mut source = TopicData::new(TopicConfig::new(TopicCode::new("jobs")), NodeId::new(9));
    source.ep_online(EndpointAddr::new(5), vec![Interest::new("jobs.*")], NodeId::new(HERE), TimestampSec::new(1));
    source.ep_online(EndpointAddr::new(6), vec![Interest::new("jobs.*")], NodeId::new(THERE), TimestampSec::new(1));
    for id in [1u128, 2] {
        source
            .hold_new_message(topic_message(id, MessageTargetKind::Online, MessageAckExpectKind::Sent))
            .unwrap();
    }
    // Message 2 is complete, message 1 is not: nothing is flushed at the source.
    source.update_and_flush(MessageStateUpdate::new(
        MessageId::new(2),
        vec![
            (EndpointAddr::new(5), MessageStatusKind::Sent),
            (EndpointAddr::new(6), MessageStatusKind::Sent),
        ],
    ));
    source.update_and_flush(MessageStateUpdate::new(
        MessageId::new(1),
        vec![(EndpointAddr::new(6), MessageStatusKind::Sent)],
    ));
    assert_eq!(source.queue_len(), 2);

    let mut target = fresh_topic();
    target.create_endpoint(EndpointAddr::new(5), vec![Interest::new("jobs.*")], TimestampSec::new(1));
    target.wait_ack(MessageId::new(1));
    target.hold_new_message(topic_message(7, MessageTargetKind::Durable, MessageAckExpectKind::Sent)).unwrap();
    target.apply_snapshot(source.snapshot());
    // Endpoint 5 is attached to the target: message 1 is sent to it, which
    // completes it, and both messages are flushed in order.
    assert_eq!(target.data().queue_len(), 0);
    assert_eq!(target.next_message(EndpointAddr::new(5)).unwrap().id(), MessageId::new(1));
    assert!(target.next_message(EndpointAddr::new(5)).is_none());
    let reports = target.take_reports();
    assert_eq!(reports.len(), 1);
    assert_eq!(reports[0].message_id, MessageId::new(1));
    assert!(reports[0].is_success());
    assert_eq!(target.data().routing_table().len(), 2);

    // Rebuilt on a node to which nothing is attached, the queue is as it was.
    let rebuilt = TopicData::from_snapshot(source.snapshot(), NodeId::new(HERE));
    assert_eq!(rebuilt.queue_len(), 2);
    let first = rebuilt.queue().hold_at(0);
    assert_eq!(first.id(), MessageId::new(1));
    assert_eq!(first.wait_ack.status.get(EndpointAddr::new(5)).copied(), Some(MessageStatusKind::Unsent));
}

#[test]
fn topic_state_is_worked_on_in_place() {
    let mut topic = fresh_topic();
    topic.data_mut().load_ep_sync(vec![EpInfo {
        addr: EndpointAddr::new(9),
        host: NodeId::new(THERE),
        interests: vec![Interest::new("jobs.*")],
        latest_active: TimestampSec::new(5),
    }]);
    topic.data_mut().heartbeat(EndpointAddr::new(9), TimestampSec::new(6));
    assert_eq!(topic.data().latest_active().get(EndpointAddr::new(9)).copied(), Some(TimestampSec::new(6)));
    assert_eq!(topic.node(), NodeId::new(HERE));
    assert_eq!(
        topic.hold_new_message(topic_message(1, MessageTargetKind::Push, MessageAckExpectKind::Sent)),
        Ok(())
    );
    assert_eq!(status_in(&topic, 1, 9), Some(MessageStatusKind::Unsent));
}

#[test]
fn initial_room_follows_the_bound_within_limits() {
    let bounded = |size: u32| TopicConfig {
        code: TopicCode::new("jobs"),
        blocking: false,
        overflow_config: Some(TopicOverflowConfig::new(TopicOverflowPolicy::DropOld, size)),
    };
    assert_eq!(asteroid_mq::protocol::topic::initial_capacity(&TopicConfig::new(TopicCode::new("jobs"))), 128);
    assert_eq!(asteroid_mq::protocol::topic::initial_capacity(&bounded(7)), 7);
    assert_eq!(asteroid_mq::protocol::topic::initial_capacity(&bounded(4096)), 4096);
    assert_eq!(asteroid_mq::protocol::topic::initial_capacity(&bounded(u32::MAX)), 4096);
    // The bound itself is not limited.
    let mut topic = TopicData::new(bounded(u32::MAX), NodeId::new(HERE));
    topic.ep_online(EndpointAddr::new(5), vec![Interest::new("jobs.*")], NodeId::new(THERE), TimestampSec::new(1));
    for id in 0..300u128 {
        assert_eq!(
            topic.hold_new_message(topic_message(id, MessageTargetKind::Online, MessageAckExpectKind::Sent)),
            Ok(())
        );
    }
    assert_eq!(topic.queue_len(), 300);
}

#[test]
fn endpoint_whose_proposal_failed_is_detached_again() {
    let mut topic = fresh_topic();
    online(&mut topic, 6, THERE);
    topic.create_endpoint(EndpointAddr::new(5), vec![Interest::new("jobs.*")], TimestampSec::new(1));
    assert!(topic.data().get_local_ep(EndpointAddr::new(5)).is_some());
    let detached = topic.create_endpoint_failed(EndpointAddr::new(5)).unwrap();
    assert_eq!(detached.address, EndpointAddr::new(5));
    assert!(topic.data().get_local_ep(EndpointAddr::new(5)).is_none());
    assert!(topic.create_endpoint_failed(EndpointAddr::new(5)).is_none());
    // What is replicated is as it was.
    assert_eq!(topic.data().routing_table().len(), 1);
    assert!(topic.data().routing_table().get(EndpointAddr::new(6)).is_some());
    assert_eq!(topic.data().latest_active().len(), 1);
    assert!(topic.data().interest_map().interest_of(EndpointAddr::new(6)).is_some());
}
