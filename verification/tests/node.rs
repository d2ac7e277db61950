use asteroid_mq::protocol::endpoint::{
    DelegateMessage, EndpointAddr, EndpointOffline, EndpointOnline, Message, MessageAckExpectKind,
    MessageHeader, MessageId, MessageStateUpdate, MessageStatusKind, MessageTargetKind,
    SetEpInterest, SetState,
};
use asteroid_mq::protocol::interest::{Interest, Subject};
use asteroid_mq::protocol::node::{Applied, LoadStep, LogEntry, Node, NodeId};
use asteroid_mq::protocol::topic::config::TopicConfig;
use asteroid_mq::protocol::topic::durable_message::{DurableMessage, LoadTopic, UnloadTopic};
use asteroid_mq::protocol::topic::wait_ack::WaitAckErrorException;
use asteroid_mq::protocol::topic::{TopicCode, TopicData};
use asteroid_mq::protocol::table::EpTable;
use asteroid_mq::TimestampSec;

fn node_message(id: u128, target_kind: MessageTargetKind, subject: &str) -> Message {
    Message::new(
        MessageHeader {
            message_id: MessageId::new(id),
            ack_kind: MessageAckExpectKind::Processed,
            target_kind,
            subjects: vec![Subject::new(subject)],
        },
        vec![7, 7],
    )
}

fn load_entry(code: &str) -> LogEntry {
    LogEntry::load_topic(LoadTopic::from_config(TopicConfig::new(TopicCode::new(code))))
}

fn online_entry(code: &str, ep: u128, interest: &str, host: u128, at: u64) -> LogEntry {
    LogEntry::ep_online(EndpointOnline {
        topic_code: TopicCode::new(code),
        endpoint: EndpointAddr::new(ep),
        interests: vec![Interest::new(interest)],
        host: NodeId::new(host),
        at: TimestampSec::new(at),
    })
}

fn delegate_entry(code: &str, message: Message) -> LogEntry {
    LogEntry::delegate_message(DelegateMessage { topic: TopicCode::new(code), message })
}

fn state_entry(code: &str, id: u128, ep: u128, status: MessageStatusKind, at: u64) -> LogEntry {
    LogEntry::set_state(SetState {
        topic: TopicCode::new(code),
        update: MessageStateUpdate::new(MessageId::new(id), vec![(EndpointAddr::new(ep), status)]),
        at: TimestampSec::new(at),
    })
}

fn replica_log() -> Vec<LogEntry> {
    vec![
        load_entry("t"),
        online_entry("t", 5, "s", 8, 10),
        online_entry("t", 6, "s.*", 9, 11),
        delegate_entry("t", node_message(1, MessageTargetKind::Online, "s")),
        delegate_entry("t", node_message(2, MessageTargetKind::Durable, "s.x")),
        delegate_entry("t", node_message(3, MessageTargetKind::Push, "nobody")),
        state_entry("t", 1, 5, MessageStatusKind::Received, 20),
        LogEntry::ep_interest(SetEpInterest {
            topic_code: TopicCode::new("t"),
            endpoint: EndpointAddr::new(5),
            interests: vec![Interest::new("s.>")],
        }),
        online_entry("t", 7, "s.>", 8, 30),
        state_entry("t", 2, 6, MessageStatusKind::Processed, 31),
        LogEntry::ep_offline(EndpointOffline {
            topic_code: TopicCode::new("t"),
            endpoint: EndpointAddr::new(6),
            host: NodeId::new(9),
        }),
    ]
}

fn describe(topic: &TopicData) -> String {
    let snapshot = topic.snapshot();
    let queue: Vec<String> = snapshot
        .queue
        .iter()
        .map(|durable| {
            let status: Vec<String> = (0..durable.status.len())
                .map(|i| format!("{}={:?}", durable.status.key_at(i).bits, durable.status.value_at(i)))
                .collect();
            format!("{}:{:?}[{}]", durable.message.id().bits, durable.message.payload, status.join(","))
        })
        .collect();
    let routing: Vec<String> = (0..snapshot.ep_routing_table.len())
        .map(|i| {
            let ep = snapshot.ep_routing_table.key_at(i);
            format!(
                "{}@{}/{}/{}",
                ep.bits,
                snapshot.ep_routing_table.value_at(i).bits,
                snapshot.ep_latest_active.get(ep).unwrap().seconds,
                snapshot.ep_interest_map.interest_of(ep).unwrap().len()
            )
        })
        .collect();
    format!("{} | {}", routing.join(" "), queue.join(" "))
}

#[test]
fn load_creates_a_topic_once() {
    let mut node = Node::new(NodeId::new(1));
    assert_eq!(node.topic_count(), 0);
    assert!(node.get_topic(&TopicCode::new("t")).is_none());
    assert_eq!(node.apply(load_entry("t")), Applied::Done);
    assert_eq!(node.apply(load_entry("u")), Applied::Done);
    assert_eq!(node.apply(load_entry("t")), Applied::AlreadyLoaded);
    assert_eq!(node.topic_count(), 2);
    let topic = node.get_topic(&TopicCode::new("u")).unwrap();
    assert_eq!(topic.code().as_bytes(), b"u");
    assert_eq!(topic.node(), NodeId::new(1));
    assert_eq!(node.position(&TopicCode::new("u")), Some(1));
    assert_eq!(node.topic_at(0).code().as_bytes(), b"t");
    assert!(node.is(NodeId::new(1)));
    assert!(!node.is(NodeId::new(2)));
    assert_eq!(node.id(), NodeId::new(1));
}

#[test]
fn entries_for_an_unknown_topic_change_nothing() {
    let mut node = Node::new(NodeId::new(1));
    node.apply(load_entry("t"));
    assert_eq!(node.apply(online_entry("x", 5, "s", 1, 10)), Applied::NoSuchTopic);
    assert_eq!(
        node.apply(delegate_entry("x", node_message(1, MessageTargetKind::Online, "s"))),
        Applied::NoSuchTopic
    );
    assert_eq!(node.apply(state_entry("x", 1, 5, MessageStatusKind::Sent, 1)), Applied::NoSuchTopic);
    assert_eq!(
        node.apply(LogEntry::unload_topic(UnloadTopic::new(TopicCode::new("x")))),
        Applied::NoSuchTopic
    );
    let topic = node.get_topic(&TopicCode::new("t")).unwrap().data();
    assert_eq!(topic.queue_len(), 0);
    assert_eq!(topic.routing_table().len(), 0);
}

#[test]
fn delegate_reports_a_refusal() {
    let mut node = Node::new(NodeId::new(1));
    node.apply(load_entry("t"));
    assert_eq!(
        node.apply(delegate_entry("t", node_message(1, MessageTargetKind::Online, "s"))),
        Applied::Refused(WaitAckErrorException::NoAvailableTarget)
    );
    assert_eq!(
        node.apply(delegate_entry("t", node_message(1, MessageTargetKind::Available, "s"))),
        Applied::Refused(WaitAckErrorException::Unsupported)
    );
    assert_eq!(
        node.apply(delegate_entry("t", node_message(1, MessageTargetKind::Durable, "s"))),
        Applied::Done
    );
    // A message that is held already stays held, once.
    assert_eq!(
        node.apply(delegate_entry("t", node_message(1, MessageTargetKind::Durable, "s"))),
        Applied::Done
    );
    assert_eq!(node.get_topic(&TopicCode::new("t")).unwrap().data().queue_len(), 1);
}

#[test]
fn set_state_records_the_sighting_and_the_status() {
    let mut node = Node::new(NodeId::new(1));
    node.apply(load_entry("t"));
    node.apply(online_entry("t", 5, "s", 8, 10));
    node.apply(delegate_entry("t", node_message(1, MessageTargetKind::Online, "s")));
    assert_eq!(node.apply(state_entry("t", 1, 5, MessageStatusKind::Received, 20)), Applied::Done);
    let topic = node.get_topic(&TopicCode::new("t")).unwrap().data();
    assert_eq!(topic.latest_active().get(EndpointAddr::new(5)).copied(), Some(TimestampSec::new(20)));
    let hold = topic.queue().get(MessageId::new(1)).unwrap();
    assert_eq!(hold.wait_ack.status.get(EndpointAddr::new(5)).copied(), Some(MessageStatusKind::Received));
    // An older sighting does not move the record back.
    node.apply(state_entry("t", 1, 5, MessageStatusKind::Processed, 15));
    let topic = node.get_topic(&TopicCode::new("t")).unwrap().data();
    assert_eq!(topic.latest_active().get(EndpointAddr::new(5)).copied(), Some(TimestampSec::new(20)));
    assert_eq!(topic.queue_len(), 0);
}

#[test]
fn unload_resolves_waiters_with_message_dropped() {
    let mut node = Node::new(NodeId::new(1));
    node.apply(load_entry("t"));
    node.apply(online_entry("t", 5, "s", 8, 10));
    node.apply(delegate_entry("t", node_message(1, MessageTargetKind::Online, "s")));
    node.apply(delegate_entry("t", node_message(2, MessageTargetKind::Online, "s")));
    let at = node.position(&TopicCode::new("t")).unwrap();
    node.topic_at_mut(at).wait_ack(MessageId::new(1));
    node.topic_at_mut(at).wait_ack(MessageId::new(2));
    assert_eq!(
        node.apply(LogEntry::unload_topic(UnloadTopic::new(TopicCode::new("t")))),
        Applied::Done
    );
    assert!(node.get_topic(&TopicCode::new("t")).is_none());
    let mut unloaded = node.take_unloaded();
    assert_eq!(unloaded.len(), 1);
    assert_eq!(unloaded[0].data().queue_len(), 0);
    let reports = unloaded[0].take_reports();
    assert_eq!(reports.len(), 2);
    assert!(reports.iter().all(|r| r.exception == Some(WaitAckErrorException::MessageDropped)));
    assert!(node.take_unloaded().is_empty());
    assert!(!node.remove_topic(&TopicCode::new("t")));
}

#[test]
fn reference_is_resolved_through_the_registry() {
    let mut node = Node::new(NodeId::new(1));
    node.apply(load_entry("t"));
    let reference = node.get_topic(&TopicCode::new("t")).unwrap().reference();
    assert_eq!(reference.node, NodeId::new(1));
    assert_eq!(reference.code.as_bytes(), b"t");
    assert!(reference.upgrade(&node).is_some());
    assert_eq!(reference.upgrade(&node).unwrap().code().as_bytes(), b"t");
    let other = Node::new(NodeId::new(2));
    assert!(reference.upgrade(&other).is_none());
    assert!(node.remove_topic(&TopicCode::new("t")));
    assert!(reference.upgrade(&node).is_none());
}

#[test]
fn load_topic_step_follows_the_role_of_the_node() {
    let mut node = Node::new(NodeId::new(1));
    let config = TopicConfig::new(TopicCode::new("t"));
    match node.new_topic(config.duplicate(), false) {
        LoadStep::Wait(back) => assert_eq!(back.config.code.as_bytes(), b"t"),
        _ => panic!("a follower waits"),
    }
    let entry = match node.new_topic(config.duplicate(), true) {
        LoadStep::Propose(entry) => entry,
        _ => panic!("the leader proposes"),
    };
    assert!(entry.is_valid());
    assert_eq!(node.apply(entry), Applied::Done);
    // The leader proposes whether or not the topic is loaded; the entry for
    // a loaded topic changes nothing.
    let again = match node.new_topic(config.duplicate(), true) {
        LoadStep::Propose(entry) => entry,
        _ => panic!("the leader proposes"),
    };
    match &again {
        LogEntry::LoadTopic(load) => {
            assert_eq!(load.config.code.as_bytes(), b"t");
            assert!(load.queue.is_empty());
        }
        _ => panic!("the entry loads the topic"),
    }
    assert_eq!(node.apply(again), Applied::AlreadyLoaded);
    assert_eq!(node.topic_count(), 1);
    assert!(matches!(node.load_topic(LoadTopic::from_config(config), false), LoadStep::Loaded));
    assert!(node.delete_topic(TopicCode::new("t"), false).is_none());
    let unload = node.delete_topic(TopicCode::new("t"), true).unwrap();
    assert_eq!(node.apply(unload), Applied::Done);
    assert_eq!(node.topic_count(), 0);
}

#[test]
fn load_topic_entry_with_a_repeated_message_is_not_valid() {
    let durable = |id: u128| DurableMessage {
        message: node_message(id, MessageTargetKind::Durable, "s"),
        status: EpTable::new(),
    };
    let good = LogEntry::load_topic(LoadTopic {
        config: TopicConfig::new(TopicCode::new("t")),
        queue: vec![durable(1), durable(2)],
    });
    assert!(good.is_valid());
    let bad = LogEntry::load_topic(LoadTopic {
        config: TopicConfig::new(TopicCode::new("t")),
        queue: vec![durable(1), durable(2), durable(1)],
    });
    assert!(!bad.is_valid());
    let mut node = Node::new(NodeId::new(1));
    assert_eq!(node.apply(good), Applied::Done);
    assert_eq!(node.get_topic(&TopicCode::new("t")).unwrap().data().queue_len(), 2);
}

#[test]
fn replicas_that_host_nothing_agree_after_the_same_log() {
    let mut first = Node::new(NodeId::new(1));
    let mut second = Node::new(NodeId::new(2));
    let log_a = replica_log();
    let log_b = replica_log();
    for (a, b) in log_a.into_iter().zip(log_b) {
        let outcome_a = first.apply(a);
        let outcome_b = second.apply(b);
        assert_eq!(outcome_a, outcome_b);
        let topic_a = first.get_topic(&TopicCode::new("t")).unwrap().data();
        let topic_b = second.get_topic(&TopicCode::new("t")).unwrap().data();
        assert_eq!(describe(topic_a), describe(topic_b));
    }
    let topic = first.get_topic(&TopicCode::new("t")).unwrap().data();
    // Endpoint 5 changed its interests after message 2 was admitted, so it
    // is no recipient of it; endpoint 7 came online later and joined it.
    assert_eq!(
        describe(topic),
        "5@8/20/1 7@8/30/1 | 1:[7, 7][5=Received] 2:[7, 7][6=Processed,7=Unsent]"
    );
}

#[test]
fn replica_that_hosts_a_recipient_runs_ahead() {
    // The one input on which two replicas differ after the same log: an
    // endpoint hosted by one of them.
    let mut host = Node::new(NodeId::new(8));
    let mut other = Node::new(NodeId::new(2));
    for node in [&mut host, &mut other] {
        node.apply(load_entry("t"));
        node.apply(online_entry("t", 5, "s", 8, 10));
        node.apply(online_entry("t", 6, "s", 9, 10));
        node.apply(delegate_entry("t", node_message(1, MessageTargetKind::Online, "s")));
    }
    let on_host = host.get_topic(&TopicCode::new("t")).unwrap().data();
    let on_other = other.get_topic(&TopicCode::new("t")).unwrap().data();
    // Endpoint 5 is hosted on node 8 but not attached to it.
    assert_eq!(describe(on_host), "5@8/10/1 6@9/10/1 | 1:[7, 7][5=Unreachable,6=Unsent]");
    assert_eq!(describe(on_other), "5@8/10/1 6@9/10/1 | 1:[7, 7][5=Unsent,6=Unsent]");
}

#[test]
fn node_ids_are_numbered_or_given() {
    assert_eq!(NodeId::new_indexed(3), NodeId::new(3));
    assert_eq!(NodeId::new_indexed(u64::MAX).bits, u64::MAX as u128);
    assert!(NodeId::new(1) < NodeId::new(2));
}

#[test]
fn wrapped_topic_belongs_to_the_node_of_its_state() {
    let node = Node::new(NodeId::new(4));
    let data = TopicData::new(TopicConfig::new(TopicCode::new("w")), NodeId::new(4));
    let topic = node.wrap_topic(data);
    assert_eq!(topic.node(), NodeId::new(4));
    assert_eq!(topic.code().as_bytes(), b"w");
    assert_eq!(topic.data().queue_len(), 0);
}

#[test]
fn node_snapshot_moves_the_registry_to_another_node() {
    let mut first = Node::new(NodeId::new(1));
    for entry in replica_log() {
        first.apply(entry);
    }
    first.apply(load_entry("u"));
    let snapshots = first.export_snapshot();
    assert_eq!(snapshots.len(), 2);
    assert!(asteroid_mq::protocol::node::snapshots_are_valid(&snapshots));

    let mut second = Node::new(NodeId::new(2));
    second.apply(load_entry("gone"));
    second.apply(load_entry("u"));
    second.apply(online_entry("u", 5, "s", 8, 10));
    second.apply(delegate_entry("u", node_message(9, MessageTargetKind::Online, "s")));
    let at = second.position(&TopicCode::new("gone")).unwrap();
    second.topic_at_mut(at).wait_ack(MessageId::new(4));
    let at = second.position(&TopicCode::new("u")).unwrap();
    second.topic_at_mut(at).wait_ack(MessageId::new(9));

    second.install_snapshot(snapshots);
    assert_eq!(second.topic_count(), 2);
    assert_eq!(second.topic_at(0).code().as_bytes(), b"t");
    assert_eq!(second.topic_at(1).code().as_bytes(), b"u");
    assert_eq!(second.topic_at(0).node(), NodeId::new(2));
    let here = second.get_topic(&TopicCode::new("t")).unwrap().data();
    let there = first.get_topic(&TopicCode::new("t")).unwrap().data();
    assert_eq!(describe(here), describe(there));
    // The topic that was loaded here has the queue of the snapshot, and
    // keeps its waiter.
    let kept = second.get_topic(&TopicCode::new("u")).unwrap().data();
    assert_eq!(kept.queue_len(), 0);
    assert_eq!(kept.routing_table().len(), 0);
    assert!(kept.queue().is_waiting(MessageId::new(9)));
    // The topic that the snapshot does not name is unloaded.
    assert!(second.get_topic(&TopicCode::new("gone")).is_none());
    let mut unloaded = second.take_unloaded();
    assert_eq!(unloaded.len(), 1);
    let reports = unloaded[0].take_reports();
    assert_eq!(reports.len(), 1);
    assert_eq!(reports[0].message_id, MessageId::new(4));
    assert_eq!(reports[0].exception, Some(WaitAckErrorException::MessageDropped));
}

#[test]
fn node_snapshot_with_a_repeated_topic_is_not_valid() {
    let mut node = Node::new(NodeId::new(1));
    node.apply(load_entry("t"));
    let mut snapshots = node.export_snapshot();
    snapshots.extend(node.export_snapshot());
    assert!(!asteroid_mq::protocol::node::snapshots_are_valid(&snapshots));
    assert!(asteroid_mq::protocol::node::snapshots_are_valid(&Vec::new()));
}
