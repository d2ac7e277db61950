//! Replicas stay in agreement: the replicated state of a topic after a log
//! entry, or after a snapshot, depends on nothing that is local to a node
//! but what the node hosts.
use vstd::prelude::*;
use crate::TimestampSec;
use crate::protocol::endpoint::{
    dispatch_outcome,
    hosted,
    local_targets,
    EndpointAddr,
    MessageId,
    MessageStatusKind,
    MessageView,
    Routing,
};
use crate::protocol::interest::interests_of;
use crate::protocol::node::{LogEntry, NodeId, NodeView};
use crate::protocol::topic::hold_message::{
    lemma_flush_ignores_waiters,
    lemma_flush_removes_prefix,
    HoldView,
    QueueView,
};
use crate::protocol::topic::snapshot::durables_of;
use crate::protocol::topic::model::{
    acked_all,
    joined_durable,
    joined_ids,
    online_interests,
    SnapshotView,
    TopicView,
};

verus! {

/// True when two copies of a topic dispatch alike under the routing table
/// `routing`: each endpoint is hosted by the node of the one exactly when it
/// is hosted by the node of the other, and an endpoint that they host is
/// attached to both or to neither.
pub open spec fn dispatch_alike(a: TopicView, b: TopicView, routing: Routing) -> bool {
    forall|ep: EndpointAddr|
        #![trigger hosted(routing, a.host, ep)]
        #![trigger hosted(routing, b.host, ep)]
        {
            &&& hosted(routing, a.host, ep) == hosted(routing, b.host, ep)
            &&& hosted(routing, a.host, ep) ==> a.locals.contains_key(ep) == b.locals.contains_key(ep)
        }
}

/// True when two copies of a topic have the same replicated state: the same
/// configuration, endpoint tables and held messages.
pub open spec fn replicas_agree(a: TopicView, b: TopicView) -> bool {
    a.snapshot() == b.snapshot()
}

/// The held messages after a list of reports is applied depend on the held
/// messages alone.
pub proof fn lemma_acked_all_alike(
    a: QueueView,
    b: QueueView,
    id: MessageId,
    updates: Seq<(EndpointAddr, MessageStatusKind)>,
)
    requires
        a.holds == b.holds,
    ensures
        acked_all(a, id, updates).holds == acked_all(b, id, updates).holds,
    decreases updates.len(),
{
    if updates.len() > 0 {
        lemma_acked_all_alike(a, b, id, updates.drop_last());
    }
}

/// A poll from two copies that agree and dispatch alike leaves them in
/// agreement, reports the same, and attaches or detaches nothing.
pub proof fn lemma_poll_alike(a: TopicView, b: TopicView, id: MessageId)
    requires
        a.queue.holds == b.queue.holds,
        a.routing == b.routing,
        dispatch_alike(a, b, a.routing),
    ensures
        a.polled(id).queue.holds == b.polled(id).queue.holds,
        a.polled(id).locals.dom() == a.locals.dom(),
        b.polled(id).locals.dom() == b.locals.dom(),
        a.queue.poll_outcome(id, a.routing, a.host, a.locals) == b.queue.poll_outcome(
            id,
            b.routing,
            b.host,
            b.locals,
        ),
{
    assert(a.queue.ids() == b.queue.ids());
    assert(a.polled(id).locals.dom() =~= a.locals.dom());
    assert(b.polled(id).locals.dom() =~= b.locals.dom());
    if a.queue.holds_message(id) {
        let i = a.queue.index_of(id);
        let hold = a.queue.holds[i];
        if !hold.is_complete() {
            let from_a = local_targets(hold.unsent(), a.routing, a.host);
            let from_b = local_targets(hold.unsent(), b.routing, b.host);
            assert(from_a =~= from_b) by {
                assert forall|ep: EndpointAddr| from_a.contains(ep) == from_b.contains(ep) by {
                    assert(hosted(a.routing, a.host, ep) == hosted(a.routing, b.host, ep));
                }
            }
            assert(dispatch_outcome(a.locals, from_a) =~= dispatch_outcome(b.locals, from_b)) by {
                assert forall|ep: EndpointAddr| from_a.contains(ep) implies a.locals.contains_key(ep)
                    == b.locals.contains_key(ep) by {
                    assert(hosted(a.routing, a.host, ep));
                }
            }
        }
    }
}

/// Applying reports and polling from two copies that agree and dispatch
/// alike leaves them in agreement, and attaches or detaches nothing.
pub proof fn lemma_update_and_flush_alike(
    a: TopicView,
    b: TopicView,
    id: MessageId,
    updates: Seq<(EndpointAddr, MessageStatusKind)>,
)
    requires
        replicas_agree(a, b),
        dispatch_alike(a, b, a.routing),
    ensures
        replicas_agree(a.update_and_flush(id, updates), b.update_and_flush(id, updates)),
        a.update_and_flush(id, updates).locals.dom() == a.locals.dom(),
        b.update_and_flush(id, updates).locals.dom() == b.locals.dom(),
        a.update_and_flush(id, updates).host == a.host,
        b.update_and_flush(id, updates).host == b.host,
{
    lemma_acked_all_alike(a.queue, b.queue, id, updates);
    let acked_a = TopicView { queue: acked_all(a.queue, id, updates), ..a };
    let acked_b = TopicView { queue: acked_all(b.queue, id, updates), ..b };
    lemma_poll_alike(acked_a, acked_b, id);
    lemma_flush_ignores_waiters(acked_a.polled(id).queue, acked_b.polled(id).queue);
}

/// The arrival of a message at two copies that agree and dispatch alike is
/// judged alike, and leaves them in agreement.
pub proof fn lemma_hold_new_message_alike(a: TopicView, b: TopicView, m: MessageView)
    requires
        replicas_agree(a, b),
        dispatch_alike(a, b, a.routing),
    ensures
        a.admission(m) == b.admission(m),
        replicas_agree(a.hold_new_message(m), b.hold_new_message(m)),
        a.hold_new_message(m).locals.dom() == a.locals.dom(),
        b.hold_new_message(m).locals.dom() == b.locals.dom(),
{
    assert(a.queue.ids() == b.queue.ids());
    assert(a.targets(m) == b.targets(m));
    if a.admission(m) is Ok && !a.queue.holds_message(m.id) {
        let room_a = a.with_room();
        let room_b = b.with_room();
        assert(room_a.queue.holds == room_b.queue.holds);
        let hold = HoldView::admitted(m, a.targets(m));
        let held_a = TopicView { queue: room_a.queue.pushed(hold), ..room_a };
        let held_b = TopicView { queue: room_b.queue.pushed(hold), ..room_b };
        assert(room_a.queue.ids() == room_b.queue.ids());
        assert(held_a.queue.holds == held_b.queue.holds);
        lemma_update_and_flush_alike(held_a, held_b, m.id, Seq::empty());
    }
}

/// Polling a list of messages from two copies that agree and dispatch alike
/// leaves them in agreement.
pub proof fn lemma_repolled_alike(a: TopicView, b: TopicView, ids: Seq<MessageId>)
    requires
        replicas_agree(a, b),
        dispatch_alike(a, b, a.routing),
    ensures
        replicas_agree(a.repolled(ids), b.repolled(ids)),
        a.repolled(ids).locals.dom() == a.locals.dom(),
        b.repolled(ids).locals.dom() == b.locals.dom(),
        a.repolled(ids).host == a.host,
        b.repolled(ids).host == b.host,
    decreases ids.len(),
{
    if ids.len() > 0 {
        lemma_update_and_flush_alike(a, b, ids[0], Seq::empty());
        let next_a = a.update_and_flush(ids[0], Seq::empty());
        let next_b = b.update_and_flush(ids[0], Seq::empty());
        assert(dispatch_alike(next_a, next_b, next_a.routing)) by {
            assert forall|ep: EndpointAddr|
                #![trigger hosted(next_a.routing, next_a.host, ep)]
                #![trigger hosted(next_a.routing, next_b.host, ep)]
                hosted(next_a.routing, next_a.host, ep) == hosted(next_a.routing, next_b.host, ep) && (
                hosted(next_a.routing, next_a.host, ep) ==> next_a.locals.contains_key(ep)
                    == next_b.locals.contains_key(ep)) by {
                assert(hosted(a.routing, a.host, ep) == hosted(a.routing, b.host, ep));
                assert(next_a.locals.dom().contains(ep) == a.locals.dom().contains(ep));
                assert(next_b.locals.dom().contains(ep) == b.locals.dom().contains(ep));
            }
        }
        lemma_repolled_alike(next_a, next_b, ids.drop_first());
    }
}

/// An endpoint that comes online at two copies that agree, and that
/// dispatch alike once the endpoint is routed, leaves them in agreement.
pub proof fn lemma_ep_online_alike(
    a: TopicView,
    b: TopicView,
    ep: EndpointAddr,
    interests: Seq<Seq<Seq<u8>>>,
    host: NodeId,
    at: TimestampSec,
)
    requires
        replicas_agree(a, b),
        dispatch_alike(a, b, a.routing.insert(ep, host)),
    ensures
        replicas_agree(a.ep_online(ep, interests, host, at), b.ep_online(ep, interests, host, at)),
{
    let index = online_interests(a.interests, ep, interests);
    let joined_a = TopicView {
        active: a.active.insert(ep, at),
        routing: a.routing.insert(ep, host),
        interests: index,
        queue: QueueView { holds: joined_durable(a.queue.holds, ep, index[ep]), ..a.queue },
        ..a
    };
    let joined_b = TopicView {
        active: b.active.insert(ep, at),
        routing: b.routing.insert(ep, host),
        interests: index,
        queue: QueueView { holds: joined_durable(b.queue.holds, ep, index[ep]), ..b.queue },
        ..b
    };
    lemma_repolled_alike(joined_a, joined_b, joined_ids(a.queue.holds, ep, index[ep]));
}

/// Sightings of endpoints at two copies that agree leave them in agreement.
pub proof fn lemma_seen_all_alike(
    a: TopicView,
    b: TopicView,
    updates: Seq<(EndpointAddr, MessageStatusKind)>,
    at: TimestampSec,
)
    requires
        replicas_agree(a, b),
    ensures
        replicas_agree(a.seen_all(updates, at), b.seen_all(updates, at)),
        a.seen_all(updates, at).locals == a.locals,
        b.seen_all(updates, at).locals == b.locals,
        a.seen_all(updates, at).host == a.host,
        b.seen_all(updates, at).host == b.host,
        a.seen_all(updates, at).routing == a.routing,
    decreases updates.len(),
{
    if updates.len() > 0 {
        lemma_seen_all_alike(a, b, updates.drop_last(), at);
    }
}

/// The routing table of a topic after a log entry is applied to it.
pub open spec fn routing_after(topic: TopicView, entry: LogEntry) -> Routing {
    match entry {
        LogEntry::EndpointOnline(online) => topic.routing.insert(online.endpoint, online.host),
        _ => topic.routing,
    }
}

/// Replicas stay in agreement.
///
/// Take two copies of a topic with the same replicated state: the same
/// configuration, endpoint tables and held messages.  Let them dispatch
/// alike, under the routing table as the entry leaves it.  Then the same
/// log entry moves both to the same replicated state again.  The waiters,
/// the reports, the mailboxes and the flushed messages of the two copies may
/// differ in any way: they have no part in the replicated state.
///
/// Two copies on one node with the same endpoints attached dispatch alike,
/// and so do two copies on any two nodes that host none of the endpoints.
/// Two copies of which only one hosts a recipient do not: the one marks the
/// recipient `Sent` or `Unreachable` when it dispatches, the other leaves it
/// `Unsent` until the report of the first arrives through the log.
pub proof fn lemma_replicas_stay_in_agreement(a: TopicView, b: TopicView, entry: LogEntry)
    requires
        replicas_agree(a, b),
        dispatch_alike(a, b, routing_after(a, entry)),
    ensures
        replicas_agree(NodeView::moved(a, entry), NodeView::moved(b, entry)),
{
    match entry {
        LogEntry::LoadTopic(load) => {},
        LogEntry::UnloadTopic(unload) => {},
        LogEntry::EndpointOnline(online) => {
            lemma_ep_online_alike(
                a,
                b,
                online.endpoint,
                interests_of(online.interests@),
                online.host,
                online.at,
            );
        },
        LogEntry::EndpointOffline(offline) => {},
        LogEntry::SetEpInterest(interest) => {},
        LogEntry::DelegateMessage(delegate) => {
            lemma_hold_new_message_alike(a, b, delegate.message@);
        },
        LogEntry::SetState(state) => {
            lemma_seen_all_alike(a, b, state.update.status@, state.at);
            let seen_a = a.seen_all(state.update.status@, state.at);
            let seen_b = b.seen_all(state.update.status@, state.at);
            assert(dispatch_alike(seen_a, seen_b, seen_a.routing)) by {
                assert forall|ep: EndpointAddr|
                    #![trigger hosted(seen_a.routing, seen_a.host, ep)]
                    #![trigger hosted(seen_a.routing, seen_b.host, ep)]
                    hosted(seen_a.routing, seen_a.host, ep) == hosted(seen_a.routing, seen_b.host, ep)
                        && (hosted(seen_a.routing, seen_a.host, ep) ==> seen_a.locals.contains_key(ep)
                        == seen_b.locals.contains_key(ep)) by {
                    assert(hosted(a.routing, a.host, ep) == hosted(a.routing, b.host, ep));
                }
            }
            lemma_update_and_flush_alike(
                seen_a,
                seen_b,
                state.update.message_id,
                state.update.status@,
            );
        },
    }
}

/// Two copies on one node with the same endpoints attached dispatch alike,
/// whatever the routing table says.
pub proof fn lemma_same_node_dispatches_alike(a: TopicView, b: TopicView, routing: Routing)
    requires
        a.host == b.host,
        a.locals.dom() == b.locals.dom(),
    ensures
        dispatch_alike(a, b, routing),
{
    assert forall|ep: EndpointAddr|
        #![trigger hosted(routing, a.host, ep)]
        #![trigger hosted(routing, b.host, ep)]
        hosted(routing, a.host, ep) == hosted(routing, b.host, ep) && (hosted(routing, a.host, ep)
            ==> a.locals.contains_key(ep) == b.locals.contains_key(ep)) by {
        assert(a.locals.dom().contains(ep) == b.locals.dom().contains(ep));
    }
}

/// Two copies on nodes that host no endpoint dispatch alike.
pub proof fn lemma_idle_nodes_dispatch_alike(a: TopicView, b: TopicView, routing: Routing)
    requires
        forall|ep: EndpointAddr| routing.contains_key(ep)
            ==> routing[ep] != a.host && routing[ep] != b.host,
    ensures
        dispatch_alike(a, b, routing),
{
}

/// Sightings of endpoints touch the activity table only.
pub proof fn lemma_seen_all_frame(
    topic: TopicView,
    updates: Seq<(EndpointAddr, MessageStatusKind)>,
    at: TimestampSec,
)
    ensures
        topic.seen_all(updates, at)
            == (TopicView { active: topic.seen_all(updates, at).active, ..topic }),
        topic.seen_all(updates, at).active.dom() == topic.active.dom(),
    decreases updates.len(),
{
    if updates.len() > 0 {
        lemma_seen_all_frame(topic, updates.drop_last(), at);
        let before = topic.seen_all(updates.drop_last(), at);
        assert(before.heartbeat(updates.last().0, at).active.dom() =~= before.active.dom());
    }
}

/// A poll keeps every message at its place.
pub proof fn lemma_polled_keeps_places(topic: TopicView, id: MessageId)
    ensures
        topic.polled(id).queue.ids() == topic.queue.ids(),
        topic.polled(id).queue.holds.len() == topic.queue.holds.len(),
{
    let queue = topic.queue;
    if queue.holds_message(id) {
        let at = queue.index_of(id);
        assert(0 <= at < queue.ids().len());
        assert(topic.polled(id).queue.ids() =~= queue.ids());
    }
}

/// Polling every message from two copies that hold the same messages and
/// dispatch alike leaves them with the same messages.
pub proof fn lemma_polled_from_alike(a: TopicView, b: TopicView, from: int)
    requires
        a.queue.holds == b.queue.holds,
        a.routing == b.routing,
        dispatch_alike(a, b, a.routing),
        0 <= from,
    ensures
        a.queue.polled_from(from, a.routing, a.host, a.locals).holds == b.queue.polled_from(
            from,
            b.routing,
            b.host,
            b.locals,
        ).holds,
    decreases a.queue.holds.len() - from,
{
    if from < a.queue.holds.len() {
        let id = a.queue.holds[from].message.id;
        lemma_poll_alike(a, b, id);
        lemma_polled_keeps_places(a, id);
        lemma_polled_keeps_places(b, id);
        let next_a = a.polled(id);
        let next_b = b.polled(id);
        assert(dispatch_alike(next_a, next_b, next_a.routing)) by {
            assert forall|ep: EndpointAddr|
                #![trigger hosted(next_a.routing, next_a.host, ep)]
                #![trigger hosted(next_a.routing, next_b.host, ep)]
                hosted(next_a.routing, next_a.host, ep) == hosted(next_a.routing, next_b.host, ep) && (
                hosted(next_a.routing, next_a.host, ep) ==> next_a.locals.contains_key(ep)
                    == next_b.locals.contains_key(ep)) by {
                assert(hosted(a.routing, a.host, ep) == hosted(a.routing, b.host, ep));
                assert(next_a.locals.dom().contains(ep) == a.locals.dom().contains(ep));
                assert(next_b.locals.dom().contains(ep) == b.locals.dom().contains(ep));
            }
        }
        lemma_polled_from_alike(next_a, next_b, from + 1);
    }
}

/// Installing a snapshot forgets the history.
///
/// Whatever two copies of a topic held before, once the same snapshot is
/// installed over both they have the same replicated state, provided that
/// they dispatch alike under the routing table of the snapshot.  So a log
/// prefix followed by the snapshot comes to the same as the snapshot alone.
pub proof fn lemma_snapshot_forgets_history(a: TopicView, b: TopicView, snapshot: SnapshotView)
    requires
        a.config == b.config,
        dispatch_alike(a, b, snapshot.routing),
    ensures
        replicas_agree(a.apply_snapshot(snapshot), b.apply_snapshot(snapshot)),
{
    let installed_a = TopicView {
        routing: snapshot.routing,
        interests: snapshot.interests,
        active: snapshot.active,
        queue: QueueView { holds: snapshot.queue, ..a.queue },
        ..a
    };
    let installed_b = TopicView {
        routing: snapshot.routing,
        interests: snapshot.interests,
        active: snapshot.active,
        queue: QueueView { holds: snapshot.queue, ..b.queue },
        ..b
    };
    lemma_polled_from_alike(installed_a, installed_b, 0);
    lemma_flush_ignores_waiters(installed_a.polled_all().queue, installed_b.polled_all().queue);
}

/// A topic that is rebuilt from a snapshot holds what the snapshot holds.
///
/// The configuration and the three endpoint tables are those of the
/// snapshot.  The held messages are those of the snapshot, each with the
/// status map that the snapshot gives it and at its place, less the
/// complete messages at the head, which are flushed.  In particular a
/// snapshot whose first message is not complete comes back unchanged.
pub proof fn lemma_snapshot_round_trip(snapshot: SnapshotView, host: NodeId)
    ensures
        TopicView::from_snapshot(snapshot, host).snapshot() == (SnapshotView {
            queue: snapshot.queue.skip(
                (QueueView { holds: snapshot.queue, waiting: Seq::empty(),
                    reports: Seq::empty() }).flush_count() as int,
            ),
            ..snapshot
        }),
        snapshot.queue.len() == 0 || !snapshot.queue[0].is_complete() ==> TopicView::from_snapshot(
            snapshot,
            host,
        ).snapshot() == snapshot,
        TopicView::from_snapshot(snapshot, host).flushed == snapshot.queue.take(
            (QueueView { holds: snapshot.queue, waiting: Seq::empty(),
                reports: Seq::empty() }).flush_count() as int,
        ),
{
    let queue = QueueView { holds: snapshot.queue, waiting: Seq::empty(), reports: Seq::empty() };
    lemma_flush_removes_prefix(queue);
    assert(Seq::<HoldView>::empty() + queue.holds.take(queue.flush_count() as int) =~= queue.holds.take(
        queue.flush_count() as int,
    ));
    if snapshot.queue.len() == 0 || !snapshot.queue[0].is_complete() {
        assert(snapshot.queue.skip(0) =~= snapshot.queue);
    }
}

/// The snapshot of a topic, installed on another node, gives a topic with
/// the same snapshot, less the complete messages at the head of the queue.
pub proof fn lemma_snapshot_of_topic_round_trip(topic: TopicView, host: NodeId)
    ensures
        topic.queue.holds.len() == 0 || !topic.queue.holds[0].is_complete() ==> replicas_agree(
            TopicView::from_snapshot(topic.snapshot(), host),
            topic,
        ),
{
    lemma_snapshot_round_trip(topic.snapshot(), host);
}

/// True when the topics of two nodes dispatch alike, place by place, under
/// the routing tables as the entry leaves them.
pub open spec fn nodes_dispatch_alike(a: NodeView, b: NodeView, entry: LogEntry) -> bool {
    forall|i: int|
        0 <= i < a.topics.len() && i < b.topics.len() ==> dispatch_alike(
            #[trigger] a.topics[i],
            b.topics[i],
            routing_after(a.topics[i], entry),
        )
}

/// Nodes stay in agreement.
///
/// Take two nodes whose registries hold the same topics in the same order,
/// each topic with the same replicated state on both, and let each pair of
/// topics dispatch alike.  Then the same log entry leaves the two nodes with
/// the same snapshot again; and so, entry by entry, does the same log.
pub proof fn lemma_nodes_stay_in_agreement(a: NodeView, b: NodeView, entry: LogEntry)
    requires
        a.snapshot() == b.snapshot(),
        nodes_dispatch_alike(a, b, entry),
    ensures
        a.applied(entry).snapshot() == b.applied(entry).snapshot(),
        a.outcome(entry) == b.outcome(entry),
{
    assert(a.topics.len() == b.topics.len()) by {
        assert(a.snapshot().len() == b.snapshot().len());
    }
    assert forall|i: int| 0 <= i < a.topics.len() implies replicas_agree(
        #[trigger] a.topics[i],
        b.topics[i],
    ) by {
        assert(a.snapshot()[i] == a.topics[i].snapshot());
        assert(b.snapshot()[i] == b.topics[i].snapshot());
    }
    assert(a.codes() =~= b.codes()) by {
        assert forall|i: int| 0 <= i < a.topics.len() implies a.codes()[i] == b.codes()[i] by {
            assert(replicas_agree(a.topics[i], b.topics[i]));
        }
    }
    let code = NodeView::code_of(entry);
    match entry {
        LogEntry::LoadTopic(load) => {
            if !a.has_topic(code) {
                lemma_snapshot_round_trip(
                    SnapshotView {
                        config: load.config@,
                        routing: Map::empty(),
                        interests: Map::empty(),
                        active: Map::empty(),
                        queue: durables_of(load.queue@),
                    },
                    a.id,
                );
                lemma_snapshot_round_trip(
                    SnapshotView {
                        config: load.config@,
                        routing: Map::empty(),
                        interests: Map::empty(),
                        active: Map::empty(),
                        queue: durables_of(load.queue@),
                    },
                    b.id,
                );
                assert(a.applied(entry).snapshot() =~= a.snapshot().push(a.loaded(load).snapshot()));
                assert(b.applied(entry).snapshot() =~= b.snapshot().push(b.loaded(load).snapshot()));
            }
        },
        LogEntry::UnloadTopic(unload) => {
            if a.has_topic(code) {
                let at = a.index_of(code);
                assert(a.applied(entry).snapshot() =~= a.snapshot().remove(at));
                assert(b.applied(entry).snapshot() =~= b.snapshot().remove(at));
            }
        },
        _ => {
            if a.has_topic(code) {
                let at = a.index_of(code);
                assert(0 <= at < a.codes().len());
                assert(replicas_agree(a.topics[at], b.topics[at]));
                assert(dispatch_alike(a.topics[at], b.topics[at], routing_after(a.topics[at], entry)));
                lemma_replicas_stay_in_agreement(a.topics[at], b.topics[at], entry);
                if entry is DelegateMessage {
                    lemma_hold_new_message_alike(
                        a.topics[at],
                        b.topics[at],
                        entry->DelegateMessage_0.message@,
                    );
                }
                let next_a = NodeView::moved(a.topics[at], entry);
                let next_b = NodeView::moved(b.topics[at], entry);
                assert(a.applied(entry).snapshot() =~= a.snapshot().update(at, next_a.snapshot()));
                assert(b.applied(entry).snapshot() =~= b.snapshot().update(at, next_b.snapshot()));
            }
        },
    }
}

} // verus!
