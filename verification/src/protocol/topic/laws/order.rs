//! Held messages leave from the head, in admission order; their recipients
//! are fixed at admission, and their statuses only move up.
use vstd::prelude::*;
use crate::TimestampSec;
use crate::protocol::endpoint::{
    dispatch_outcome,
    lemma_status_order,
    local_targets,
    EndpointAddr,
    MessageId,
    MessageStatusKind,
    MessageView,
};
use crate::protocol::interest::{interests_of, recipients};
use crate::protocol::node::{LogEntry, NodeId, NodeView};
use crate::protocol::ring::lemma_push_target_is_member;
use crate::protocol::topic::hold_message::{
    lemma_dispatched_advances,
    lemma_flush_removes_prefix,
    HoldView,
    Polled,
    QueueView,
};
use crate::protocol::topic::laws::replicas::lemma_seen_all_frame;
use crate::protocol::topic::model::{
    acked_all,
    joined_durable,
    joined_ids,
    joins,
    online_interests,
    TopicView,
};
use crate::protocol::topic::wait_ack::lemma_acked_advances;

verus! {

/// How one held message fares on the way from `before` to `after`.
///
/// It is the same message.  Every recipient is still a recipient, and its
/// status has not moved down.  A recipient that was not one before is one of
/// `newcomers`, and then the message is durable.
pub open spec fn hold_follows(
    before: HoldView,
    after: HoldView,
    newcomers: Set<EndpointAddr>,
) -> bool {
    &&& after.message == before.message
    &&& forall|ep: EndpointAddr|
        #[trigger] before.status.contains_key(ep)
            ==> after.status.contains_key(ep) && before.status[ep].at_most(
            after.status[ep],
        )
    &&& forall|ep: EndpointAddr|
        #[trigger] after.status.contains_key(ep) && !before.status.contains_key(ep)
            ==> newcomers.contains(ep)
            && before.message.target_kind is Durable
}

/// The messages of `after` are, one for one and in the same order, the
/// messages of `before`, each having fared as [`hold_follows`] says.
pub open spec fn holds_follow(
    before: Seq<HoldView>,
    after: Seq<HoldView>,
    newcomers: Set<EndpointAddr>,
) -> bool {
    &&& after.len() == before.len()
    &&& forall|i: int| 0 <= i < before.len() ==> hold_follows(#[trigger] before[i], after[i], newcomers)
}

/// How the held messages of a topic fare on the way from `before` to
/// `after`, when `candidates` are the messages that are held at the start or
/// arrive on the way.
///
/// No flushed message is taken back.  The messages that are flushed on the
/// way, followed by the messages that are held at the end, are one for one
/// and in the same order the candidates.  So what is flushed is a run from
/// the head of the candidates, in admission order, and what stays held keeps
/// its order.
pub open spec fn flush_follows(
    before: TopicView,
    after: TopicView,
    candidates: Seq<HoldView>,
    newcomers: Set<EndpointAddr>,
) -> bool {
    &&& before.flushed.len() <= after.flushed.len()
    &&& after.flushed.take(before.flushed.len() as int) == before.flushed
    &&& holds_follow(
        candidates,
        after.flushed.skip(before.flushed.len() as int) + after.queue.holds,
        newcomers,
    )
}

/// Two steps of a message make one step.
pub proof fn lemma_hold_follows_trans(
    a: HoldView,
    b: HoldView,
    c: HoldView,
    newcomers: Set<EndpointAddr>,
)
    requires
        hold_follows(a, b, newcomers),
        hold_follows(b, c, newcomers),
    ensures
        hold_follows(a, c, newcomers),
{
    assert forall|ep: EndpointAddr| #[trigger] a.status.contains_key(ep)
        implies c.status.contains_key(ep)
        && a.status[ep].at_most(c.status[ep]) by {
        assert(b.status.contains_key(ep));
        assert(a.status[ep].at_most(b.status[ep]));
        assert(b.status[ep].at_most(c.status[ep]));
        lemma_status_order(a.status[ep], b.status[ep], c.status[ep]);
    }
    assert forall|ep: EndpointAddr| #[trigger]
        c.status.contains_key(ep) && !a.status.contains_key(ep) implies newcomers.contains(ep)
        && a.message.target_kind is Durable by {
        if b.status.contains_key(ep) {
        } else {
        }
    }
}

/// Two steps of a list of messages make one step.
pub proof fn lemma_holds_follow_trans(
    a: Seq<HoldView>,
    b: Seq<HoldView>,
    c: Seq<HoldView>,
    newcomers: Set<EndpointAddr>,
)
    requires
        holds_follow(a, b, newcomers),
        holds_follow(b, c, newcomers),
    ensures
        holds_follow(a, c, newcomers),
{
    assert forall|i: int| 0 <= i < a.len() implies hold_follows(#[trigger] a[i], c[i], newcomers) by {
        assert(hold_follows(a[i], b[i], newcomers));
        assert(hold_follows(b[i], c[i], newcomers));
        lemma_hold_follows_trans(a[i], b[i], c[i], newcomers);
    }
}

/// A list of reports moves no status of a held message down, and adds no
/// recipient.
pub proof fn lemma_acked_all_follows(
    queue: QueueView,
    id: MessageId,
    updates: Seq<(EndpointAddr, MessageStatusKind)>,
    newcomers: Set<EndpointAddr>,
)
    ensures
        holds_follow(queue.holds, acked_all(queue, id, updates).holds, newcomers),
    decreases updates.len(),
{
    if updates.len() > 0 {
        lemma_acked_all_follows(queue, id, updates.drop_last(), newcomers);
        let before = acked_all(queue, id, updates.drop_last());
        let after = before.acked(id, updates.last().0, updates.last().1);
        assert(holds_follow(before.holds, after.holds, newcomers)) by {
            if before.holds_message(id) {
                let at = before.index_of(id);
                lemma_acked_advances(before.holds[at].status, updates.last().0, updates.last().1);
                assert(0 <= at < before.ids().len());
                assert forall|i: int| 0 <= i < before.holds.len() implies hold_follows(
                    #[trigger] before.holds[i],
                    after.holds[i],
                    newcomers,
                ) by {
                    if i == at {
                        assert(after.holds[i]
                            == before.holds[at].acked(updates.last().0, updates.last().1));
                        assert(after.holds[i].status.dom() == before.holds[i].status.dom());
                    }
                }
            }
        }
        lemma_holds_follow_trans(queue.holds, before.holds, after.holds, newcomers);
    }
}

/// A poll moves no status of a held message down, and adds no recipient.
pub proof fn lemma_polled_holds_follow(
    topic: TopicView,
    id: MessageId,
    newcomers: Set<EndpointAddr>,
)
    ensures
        holds_follow(topic.queue.holds, topic.polled(id).queue.holds, newcomers),
{
    let queue = topic.queue;
    if queue.holds_message(id) {
        let at = queue.index_of(id);
        assert(0 <= at < queue.ids().len());
        let hold = queue.holds[at];
        if !hold.is_complete() {
            let sent = hold.sent_from(topic.routing, topic.host, topic.locals);
            let outcome = dispatch_outcome(
                topic.locals,
                local_targets(hold.unsent(), topic.routing, topic.host),
            );
            lemma_dispatched_advances(hold.status, outcome);
            assert(sent.status.dom() == hold.status.dom());
            assert forall|i: int| 0 <= i < queue.holds.len() implies hold_follows(
                #[trigger] queue.holds[i],
                topic.polled(id).queue.holds[i],
                newcomers,
            ) by {
                if i == at {
                    assert(topic.polled(id).queue.holds[i] == sent);
                }
            }
        }
    }
}

/// Applying reports, polling and flushing: the flushed messages followed by
/// the held ones are the messages that were held, in their order.
pub proof fn lemma_update_and_flush_is_fifo(
    topic: TopicView,
    id: MessageId,
    updates: Seq<(EndpointAddr, MessageStatusKind)>,
    newcomers: Set<EndpointAddr>,
)
    ensures
        flush_follows(topic, topic.update_and_flush(id, updates), topic.queue.holds, newcomers),
{
    let acked = TopicView { queue: acked_all(topic.queue, id, updates), ..topic };
    lemma_acked_all_follows(topic.queue, id, updates, newcomers);
    lemma_polled_holds_follow(acked, id, newcomers);
    let polled = acked.polled(id);
    lemma_holds_follow_trans(topic.queue.holds, acked.queue.holds, polled.queue.holds, newcomers);
    let after = topic.update_and_flush(id, updates);
    assert(after.flushed.take(topic.flushed.len() as int) =~= topic.flushed);
    if acked.queue.poll_outcome(id, acked.routing, acked.host, acked.locals) == Some(Polled::Ready) {
        lemma_flush_removes_prefix(polled.queue);
        let n = polled.queue.flush_count() as int;
        assert(after.flushed.skip(topic.flushed.len() as int) =~= polled.queue.holds.take(n));
        assert(polled.queue.holds.take(n) + polled.queue.holds.skip(n) =~= polled.queue.holds);
    } else {
        assert(after.flushed.skip(topic.flushed.len() as int) + after.queue.holds
            =~= polled.queue.holds);
    }
}

/// Two steps that follow the held messages make one step, when the second
/// starts from what the first has left held.
pub proof fn lemma_flush_follows_trans(
    a: TopicView,
    b: TopicView,
    c: TopicView,
    candidates: Seq<HoldView>,
    newcomers: Set<EndpointAddr>,
)
    requires
        flush_follows(a, b, candidates, newcomers),
        flush_follows(b, c, b.queue.holds, newcomers),
    ensures
        flush_follows(a, c, candidates, newcomers),
{
    let la = a.flushed.len() as int;
    let lb = b.flushed.len() as int;
    assert(c.flushed.take(la) =~= a.flushed) by {
        assert forall|k: int| 0 <= k < la implies c.flushed[k] == a.flushed[k] by {
            assert(c.flushed.take(lb)[k] == b.flushed[k]);
            assert(b.flushed.take(la)[k] == a.flushed[k]);
        }
    }
    let mid = b.flushed.skip(la) + b.queue.holds;
    let end = c.flushed.skip(la) + c.queue.holds;
    let step = c.flushed.skip(lb) + c.queue.holds;
    assert(holds_follow(mid, end, newcomers)) by {
        assert(end.len() == mid.len());
        assert forall|i: int| 0 <= i < mid.len()
            implies hold_follows(#[trigger] mid[i], end[i], newcomers) by {
            if i < lb - la {
                assert(c.flushed.take(lb)[la + i] == b.flushed[la + i]);
                assert(end[i] == mid[i]);
            } else {
                assert(mid[i] == b.queue.holds[i - (lb - la)]);
                assert(end[i] == step[i - (lb - la)]);
                assert(hold_follows(b.queue.holds[i - (lb - la)], step[i - (lb - la)], newcomers));
            }
        }
    }
    lemma_holds_follow_trans(candidates, mid, end, newcomers);
}

/// A topic that has not moved has followed its held messages.
pub proof fn lemma_flush_follows_refl(topic: TopicView, newcomers: Set<EndpointAddr>)
    ensures
        flush_follows(topic, topic, topic.queue.holds, newcomers),
{
    assert(topic.flushed.take(topic.flushed.len() as int) =~= topic.flushed);
    assert(topic.flushed.skip(topic.flushed.len() as int) + topic.queue.holds =~= topic.queue.holds);
}

/// Polling a list of messages: the flushed messages followed by the held
/// ones are the messages that were held, in their order.
pub proof fn lemma_repolled_is_fifo(
    topic: TopicView,
    ids: Seq<MessageId>,
    newcomers: Set<EndpointAddr>,
)
    ensures
        flush_follows(topic, topic.repolled(ids), topic.queue.holds, newcomers),
    decreases ids.len(),
{
    if ids.len() > 0 {
        lemma_update_and_flush_is_fifo(topic, ids[0], Seq::empty(), newcomers);
        let next = topic.update_and_flush(ids[0], Seq::empty());
        lemma_repolled_is_fifo(next, ids.drop_first(), newcomers);
        lemma_flush_follows_trans(topic, next, next.repolled(ids.drop_first()), topic.queue.holds,
            newcomers);
    } else {
        lemma_flush_follows_refl(topic, newcomers);
    }
}

/// The messages that are held when message `m` arrives or that arrive with
/// it: the held messages, less the head if it is evicted, and `m` itself if
/// it is admitted and was not held.
pub open spec fn candidates_on_arrival(topic: TopicView, m: MessageView) -> Seq<HoldView> {
    if topic.admission(m) is Ok && !topic.queue.holds_message(m.id) {
        topic.with_room().queue.holds.push(HoldView::admitted(m, topic.targets(m)))
    } else {
        topic.queue.holds
    }
}

/// The arrival of a message: the flushed messages followed by the held ones
/// are, in their order, the messages that were held, less an evicted head,
/// and the new message at the tail.
pub proof fn lemma_hold_new_message_is_fifo(topic: TopicView, m: MessageView)
    ensures
        flush_follows(topic, topic.hold_new_message(m), candidates_on_arrival(topic, m), Set::empty()),
{
    if topic.admission(m) is Ok && !topic.queue.holds_message(m.id) {
        let room = topic.with_room();
        assert(!room.queue.holds_message(m.id)) by {
            if room.queue.ids().contains(m.id) {
                let k = choose|k: int| 0 <= k < room.queue.ids().len() && room.queue.ids()[k] == m.id;
                if room.queue.holds.len() != topic.queue.holds.len() {
                    assert(topic.queue.ids()[k + 1] == m.id);
                } else {
                    assert(topic.queue.ids()[k] == m.id);
                }
            }
        }
        let held = TopicView {
            queue: room.queue.pushed(HoldView::admitted(m, topic.targets(m))),
            ..room
        };
        lemma_update_and_flush_is_fifo(held, m.id, Seq::empty(), Set::empty());
    } else {
        lemma_flush_follows_refl(topic, Set::empty());
        let after = topic.hold_new_message(m);
        assert(after.flushed == topic.flushed && after.queue.holds == topic.queue.holds);
    }
}

/// An endpoint that comes online joins durable messages only, and is the
/// only endpoint that joins: the flushed messages followed by the held ones
/// are the messages that were held, in their order, with no other recipient
/// added and no status moved down.
pub proof fn lemma_ep_online_is_fifo(
    topic: TopicView,
    ep: EndpointAddr,
    interests: Seq<Seq<Seq<u8>>>,
    host: NodeId,
    at: TimestampSec,
)
    ensures
        flush_follows(topic, topic.ep_online(ep, interests, host, at), topic.queue.holds, set![ep]),
{
    let index = online_interests(topic.interests, ep, interests);
    let joined = TopicView {
        active: topic.active.insert(ep, at),
        routing: topic.routing.insert(ep, host),
        interests: index,
        queue: QueueView { holds: joined_durable(topic.queue.holds, ep, index[ep]), ..topic.queue },
        ..topic
    };
    let ids = joined_ids(topic.queue.holds, ep, index[ep]);
    lemma_repolled_is_fifo(joined, ids, set![ep]);
    let after = joined.repolled(ids);
    assert(holds_follow(topic.queue.holds, joined.queue.holds, set![ep])) by {
        assert forall|i: int| 0 <= i < topic.queue.holds.len() implies hold_follows(
            #[trigger] topic.queue.holds[i],
            joined.queue.holds[i],
            set![ep],
        ) by {
            let hold = topic.queue.holds[i];
            if joins(hold, ep, index[ep]) {
                assert(joined.queue.holds[i] == hold.joined(ep));
            }
        }
    }
    lemma_holds_follow_trans(
        topic.queue.holds,
        joined.queue.holds,
        after.flushed.skip(joined.flushed.len() as int) + after.queue.holds,
        set![ep],
    );
}

/// The endpoint that a log entry may add to the recipients of held
/// messages: the one that it brings online, if it brings one online.
pub open spec fn newcomers_of(entry: LogEntry) -> Set<EndpointAddr> {
    match entry {
        LogEntry::EndpointOnline(online) => set![online.endpoint],
        _ => Set::empty(),
    }
}

/// The messages that are held when a log entry is applied or that arrive
/// with it.
pub open spec fn candidates_of(topic: TopicView, entry: LogEntry) -> Seq<HoldView> {
    match entry {
        LogEntry::DelegateMessage(delegate) => candidates_on_arrival(topic, delegate.message@),
        _ => topic.queue.holds,
    }
}

/// Held messages are flushed first in, first out, their recipients are
/// fixed at admission, and their statuses only move up.
///
/// Whatever log entry is applied to a topic: the messages that it flushes,
/// followed by the messages that are held after it, are one for one and in
/// the same order the messages that were held before it, less the head if
/// the entry evicts it, followed by the message that the entry brings, if
/// it brings one.  So messages leave from the head only, the flushed ones in
/// admission order.  Each of them is still the same message.  None of
/// its recipients is gone and none of their statuses has moved down.  The
/// one way in which a held message gets a recipient is an endpoint that
/// comes online, and then the message is durable.
pub proof fn lemma_held_messages_follow(topic: TopicView, entry: LogEntry)
    ensures
        flush_follows(topic, NodeView::moved(topic, entry), candidates_of(topic, entry),
            newcomers_of(entry)),
{
    match entry {
        LogEntry::EndpointOnline(online) => {
            lemma_ep_online_is_fifo(
                topic,
                online.endpoint,
                interests_of(online.interests@),
                online.host,
                online.at,
            );
        },
        LogEntry::DelegateMessage(delegate) => {
            lemma_hold_new_message_is_fifo(topic, delegate.message@);
        },
        LogEntry::SetState(state) => {
            lemma_seen_all_frame(topic, state.update.status@, state.at);
            let seen = topic.seen_all(state.update.status@, state.at);
            lemma_update_and_flush_is_fifo(
                seen,
                state.update.message_id,
                state.update.status@,
                Set::empty(),
            );
        },
        _ => {
            lemma_flush_follows_refl(topic, newcomers_of(entry));
        },
    }
}

/// The recipients of an arriving message are endpoints that are present:
/// each of them has a row in the interest index, with an interest that
/// accepts one of the subjects of the message.
pub proof fn lemma_targets_are_present(topic: TopicView, m: MessageView)
    requires
        topic.interests.dom().finite(),
    ensures
        topic.targets(m).subset_of(recipients(topic.interests, m.subjects)),
        recipients(topic.interests, m.subjects).subset_of(topic.interests.dom()),
        HoldView::admitted(m, topic.targets(m)).status.dom() == topic.targets(m),
{
    let all = recipients(topic.interests, m.subjects);
    assert(all.subset_of(topic.interests.dom()));
    vstd::set_lib::lemma_set_subset_finite(topic.interests.dom(), all);
    if m.target_kind is Push && all != Set::<EndpointAddr>::empty() {
        lemma_push_target_is_member(all, m.id);
    }
    assert(HoldView::admitted(m, topic.targets(m)).status.dom() =~= topic.targets(m));
}

} // verus!
