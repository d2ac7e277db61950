//! Every waiter is resolved exactly once.
use vstd::prelude::*;
use crate::TimestampSec;
use crate::protocol::endpoint::{EndpointAddr, MessageId, MessageStatusKind, MessageView};
use crate::protocol::interest::interests_of;
use crate::protocol::node::{LogEntry, NodeId, NodeView};
use crate::protocol::topic::hold_message::{
    lemma_index_of_unique,
    lemma_remove_keeps_unique,
    HoldView,
    QueueView,
};
use crate::protocol::topic::laws::replicas::{lemma_seen_all_alike, lemma_seen_all_frame};
use crate::protocol::topic::model::{
    acked_all,
    joined_durable,
    joined_ids,
    online_interests,
    TopicView,
};
use crate::protocol::topic::wait_ack::{ReportView, WaitAckErrorException};

verus! {

/// Reports for a message touch neither the waiters nor the filed reports.
pub proof fn lemma_acked_all_frame(
    queue: QueueView,
    id: MessageId,
    updates: Seq<(EndpointAddr, MessageStatusKind)>,
)
    ensures
        acked_all(queue, id, updates).waiting == queue.waiting,
        acked_all(queue, id, updates).reports == queue.reports,
        acked_all(queue, id, updates).ids() == queue.ids(),
    decreases updates.len(),
{
    if updates.len() > 0 {
        lemma_acked_all_frame(queue, id, updates.drop_last());
        let before = acked_all(queue, id, updates.drop_last());
        let after = before.acked(id, updates.last().0, updates.last().1);
        assert(after.ids() =~= before.ids());
    }
}

/// True when report number `k` of `after` was filed on the way from
/// `before` to `after`, for message `id`.
pub open spec fn filed_between(before: QueueView, after: QueueView, k: int, id: MessageId) -> bool {
    before.reports.len() <= k < after.reports.len() && after.reports[k].id == id
}

/// How the waiters of a queue fare on the way from `before` to `after`.
///
/// No report is taken back.  No waiter is added.  Each report that was filed
/// on the way is for a message whose sender was waiting before and is not
/// waiting after, and no two of them are for the same message: a waiter is
/// resolved at most once.  Each waiter that is gone was resolved by a report
/// filed on the way.  A message that has left the queue has no waiter after.
pub open spec fn waiters_follow(before: QueueView, after: QueueView) -> bool {
    &&& before.reports.len() <= after.reports.len()
    &&& after.reports.take(before.reports.len() as int) == before.reports
    &&& after.waiting.no_duplicates()
    &&& forall|id: MessageId| after.waiting.contains(id) ==> before.waiting.contains(id)
    &&& forall|k: int|
        before.reports.len() <= k < after.reports.len() ==> before.waiting.contains(
            (#[trigger] after.reports[k]).id,
        ) && !after.waiting.contains(after.reports[k].id)
    &&& forall|k: int, l: int|
        before.reports.len() <= k < l < after.reports.len() ==> (#[trigger] after.reports[k]).id != (
        #[trigger] after.reports[l]).id
    &&& forall|id: MessageId|
        before.waiting.contains(id) && !after.waiting.contains(id) ==> exists|k: int| #[trigger]
            filed_between(before, after, k, id)
    &&& forall|id: MessageId|
        before.holds_message(id) && !after.holds_message(id) ==> !after.waiting.contains(id)
}

/// A queue that has not moved has followed its waiters.
pub proof fn lemma_waiters_follow_refl(queue: QueueView)
    requires
        queue.waiting.no_duplicates(),
    ensures
        waiters_follow(queue, queue),
{
    assert(queue.reports.take(queue.reports.len() as int) =~= queue.reports);
}

/// Two steps that follow the waiters make one step that follows them.
pub proof fn lemma_waiters_follow_trans(a: QueueView, b: QueueView, c: QueueView)
    requires
        waiters_follow(a, b),
        waiters_follow(b, c),
    ensures
        waiters_follow(a, c),
{
    assert(c.reports.take(a.reports.len() as int) =~= a.reports) by {
        assert forall|k: int| 0 <= k < a.reports.len() implies c.reports[k] == a.reports[k] by {
            assert(c.reports.take(b.reports.len() as int)[k] == b.reports[k]);
            assert(b.reports.take(a.reports.len() as int)[k] == a.reports[k]);
        }
    }
    assert forall|k: int| a.reports.len() <= k < c.reports.len() implies a.waiting.contains(
        (#[trigger] c.reports[k]).id,
    ) && !c.waiting.contains(c.reports[k].id) by {
        if k < b.reports.len() {
            assert(c.reports.take(b.reports.len() as int)[k] == b.reports[k]);
            assert(a.waiting.contains(b.reports[k].id) && !b.waiting.contains(b.reports[k].id));
        }
    }
    assert forall|k: int, l: int| a.reports.len() <= k < l < c.reports.len() implies (
    #[trigger] c.reports[k]).id != (#[trigger] c.reports[l]).id by {
        if k < b.reports.len() {
            assert(c.reports.take(b.reports.len() as int)[k] == b.reports[k]);
            if l < b.reports.len() {
                assert(c.reports.take(b.reports.len() as int)[l] == b.reports[l]);
            } else {
                assert(!b.waiting.contains(b.reports[k].id));
                assert(b.waiting.contains(c.reports[l].id));
            }
        }
    }
    assert forall|id: MessageId| a.waiting.contains(id) && !c.waiting.contains(id) implies exists|
        k: int,
    | #[trigger] filed_between(a, c, k, id) by {
        if b.waiting.contains(id) {
            let k = choose|k: int| #[trigger] filed_between(b, c, k, id);
            assert(filed_between(a, c, k, id));
        } else {
            let k = choose|k: int| #[trigger] filed_between(a, b, k, id);
            assert(c.reports.take(b.reports.len() as int)[k] == b.reports[k]);
            assert(filed_between(a, c, k, id));
        }
    }
}

/// Resolving a waiter follows the waiters.
pub proof fn lemma_resolved_follows(queue: QueueView, report: ReportView)
    requires
        queue.waiting.no_duplicates(),
    ensures
        waiters_follow(queue, queue.resolved(report)),
        !queue.resolved(report).waiting.contains(report.id),
        queue.resolved(report).holds == queue.holds,
{
    let after = queue.resolved(report);
    if queue.waiting.contains(report.id) {
        let at = queue.waiting.index_of(report.id);
        lemma_remove_keeps_unique(queue.waiting, at);
        assert(after.reports.take(queue.reports.len() as int) =~= queue.reports);
        assert forall|id: MessageId| queue.waiting.contains(id)
            && !after.waiting.contains(id) implies exists|
            k: int,
        | #[trigger] filed_between(queue, after, k, id) by {
            assert(id == report.id);
            assert(filed_between(queue, after, queue.reports.len() as int, id));
        }
    } else {
        lemma_waiters_follow_refl(queue);
    }
}

/// A change of the held messages that removes none of them, and touches
/// neither waiters nor reports, follows the waiters.
pub proof fn lemma_holds_change_follows(before: QueueView, after: QueueView)
    requires
        before.waiting.no_duplicates(),
        after.waiting == before.waiting,
        after.reports == before.reports,
        forall|id: MessageId| before.holds_message(id) ==> after.holds_message(id),
    ensures
        waiters_follow(before, after),
{
    assert(after.reports.take(before.reports.len() as int) =~= before.reports);
}

/// Removing the head and resolving its waiter follows the waiters.
pub proof fn lemma_head_removed_follows(queue: QueueView, report: ReportView)
    requires
        queue.wf(),
        queue.holds.len() > 0,
        report.id == queue.holds[0].message.id,
    ensures
        waiters_follow(queue, queue.popped().resolved(report)),
        queue.popped().resolved(report).wf(),
{
    let popped = queue.popped();
    let after = popped.resolved(report);
    lemma_resolved_follows(popped, report);
    lemma_remove_keeps_unique(queue.ids(), 0);
    assert(popped.ids() =~= queue.ids().remove(0));
    assert(after.ids() == popped.ids());
    assert(after.reports.take(queue.reports.len() as int) =~= queue.reports);
    assert forall|id: MessageId| queue.holds_message(id) && !after.holds_message(id)
        implies !after.waiting.contains(
        id,
    ) by {
        if id != queue.ids()[0] {
            assert(popped.ids().contains(id));
        }
    }
    assert forall|id: MessageId| queue.waiting.contains(id) && !after.waiting.contains(id)
        implies exists|
        k: int,
    | #[trigger] filed_between(queue, after, k, id) by {
        let k = choose|k: int| #[trigger] filed_between(popped, after, k, id);
        assert(filed_between(queue, after, k, id));
    }
}

/// A flush follows the waiters: every message that it removes has its
/// waiter resolved, once.
pub proof fn lemma_flushed_follows(queue: QueueView)
    requires
        queue.wf(),
    ensures
        waiters_follow(queue, queue.flushed()),
        queue.flushed().wf(),
    decreases queue.holds.len(),
{
    if queue.holds.len() > 0 && queue.holds[0].is_complete() {
        let next = queue.popped().resolved(queue.holds[0].report());
        lemma_head_removed_follows(queue, queue.holds[0].report());
        lemma_flushed_follows(next);
        lemma_waiters_follow_trans(queue, next, next.flushed());
    } else {
        lemma_waiters_follow_refl(queue);
    }
}

/// A poll follows the waiters.
pub proof fn lemma_polled_follows(topic: TopicView, id: MessageId)
    requires
        topic.queue.wf(),
    ensures
        waiters_follow(topic.queue, topic.polled(id).queue),
        topic.polled(id).queue.wf(),
        topic.polled(id).queue.ids() == topic.queue.ids(),
{
    let queue = topic.queue;
    if queue.holds_message(id) {
        let i = queue.index_of(id);
        let hold = queue.holds[i];
        if hold.is_complete() {
            lemma_resolved_follows(queue, hold.report());
        } else {
            let sent = hold.sent_from(topic.routing, topic.host, topic.locals);
            let moved = QueueView { holds: queue.holds.update(i, sent), ..queue };
            assert(moved.ids() =~= queue.ids());
            lemma_holds_change_follows(queue, moved);
            if sent.is_complete() {
                lemma_resolved_follows(moved, sent.report());
                lemma_waiters_follow_trans(queue, moved, moved.resolved(sent.report()));
            }
        }
    } else {
        lemma_waiters_follow_refl(queue);
    }
}

/// Applying reports, polling and flushing follows the waiters.
pub proof fn lemma_update_and_flush_follows(
    topic: TopicView,
    id: MessageId,
    updates: Seq<(EndpointAddr, MessageStatusKind)>,
)
    requires
        topic.queue.wf(),
    ensures
        waiters_follow(topic.queue, topic.update_and_flush(id, updates).queue),
        topic.update_and_flush(id, updates).queue.wf(),
{
    lemma_acked_all_frame(topic.queue, id, updates);
    let acked = TopicView { queue: acked_all(topic.queue, id, updates), ..topic };
    lemma_holds_change_follows(topic.queue, acked.queue);
    lemma_polled_follows(acked, id);
    lemma_waiters_follow_trans(topic.queue, acked.queue, acked.polled(id).queue);
    lemma_flushed_follows(acked.polled(id).queue);
    lemma_waiters_follow_trans(topic.queue, acked.polled(id).queue, acked.polled(id).queue.flushed());
}

/// The arrival of a message follows the waiters, and the sender of the
/// message waits on only while the message is held: when the message is
/// refused, evicted or flushed, its waiter is resolved.
pub proof fn lemma_hold_new_message_follows(topic: TopicView, m: MessageView)
    requires
        topic.queue.wf(),
    ensures
        waiters_follow(topic.queue, topic.hold_new_message(m).queue),
        topic.hold_new_message(m).queue.wf(),
        topic.hold_new_message(m).queue.waiting.contains(m.id) ==> topic.hold_new_message(
            m,
        ).queue.holds_message(m.id),
{
    let queue = topic.queue;
    match topic.admission(m) {
        Err(exception) => {
            lemma_resolved_follows(queue, ReportView::failed(m.id, exception));
        },
        Ok(_) => {
            if queue.holds_message(m.id) {
                lemma_waiters_follow_refl(queue);
            } else {
                let room = topic.with_room();
                if topic.config.evicts_at(queue.holds.len()) && queue.holds.len() > 0 {
                    lemma_head_removed_follows(
                        queue,
                        ReportView::failed(queue.holds[0].message.id, WaitAckErrorException::Overflow),
                    );
                    assert(!room.queue.holds_message(m.id)) by {
                        if room.queue.ids().contains(m.id) {
                            let k = choose|k: int| 0 <= k < room.queue.ids().len()
                                && room.queue.ids()[k] == m.id;
                            assert(queue.ids()[k + 1] == m.id);
                        }
                    }
                } else {
                    lemma_waiters_follow_refl(queue);
                }
                let hold = HoldView::admitted(m, topic.targets(m));
                let held = TopicView { queue: room.queue.pushed(hold), ..room };
                assert(held.queue.ids() =~= room.queue.ids().push(m.id));
                assert forall|id: MessageId| room.queue.holds_message(id)
                    implies held.queue.holds_message(id) by {
                    let k = choose|k: int| 0 <= k < room.queue.ids().len() && room.queue.ids()[k] == id;
                    assert(held.queue.ids()[k] == id);
                }
                lemma_holds_change_follows(room.queue, held.queue);
                lemma_waiters_follow_trans(queue, room.queue, held.queue);
                lemma_update_and_flush_follows(held, m.id, Seq::empty());
                let after = held.update_and_flush(m.id, Seq::empty());
                lemma_waiters_follow_trans(queue, held.queue, after.queue);
                assert(held.queue.ids()[held.queue.ids().len() - 1] == m.id);
                assert(held.queue.holds_message(m.id));
            }
        },
    }
}

/// Polling a list of messages follows the waiters.
pub proof fn lemma_repolled_follows(topic: TopicView, ids: Seq<MessageId>)
    requires
        topic.queue.wf(),
    ensures
        waiters_follow(topic.queue, topic.repolled(ids).queue),
        topic.repolled(ids).queue.wf(),
    decreases ids.len(),
{
    if ids.len() > 0 {
        lemma_update_and_flush_follows(topic, ids[0], Seq::empty());
        let next = topic.update_and_flush(ids[0], Seq::empty());
        lemma_repolled_follows(next, ids.drop_first());
        lemma_waiters_follow_trans(topic.queue, next.queue, next.repolled(ids.drop_first()).queue);
    } else {
        lemma_waiters_follow_refl(topic.queue);
    }
}

/// An endpoint that comes online follows the waiters.
pub proof fn lemma_ep_online_follows(
    topic: TopicView,
    ep: EndpointAddr,
    interests: Seq<Seq<Seq<u8>>>,
    host: NodeId,
    at: TimestampSec,
)
    requires
        topic.queue.wf(),
    ensures
        waiters_follow(topic.queue, topic.ep_online(ep, interests, host, at).queue),
        topic.ep_online(ep, interests, host, at).queue.wf(),
{
    let index = online_interests(topic.interests, ep, interests);
    let joined = TopicView {
        active: topic.active.insert(ep, at),
        routing: topic.routing.insert(ep, host),
        interests: index,
        queue: QueueView { holds: joined_durable(topic.queue.holds, ep, index[ep]), ..topic.queue },
        ..topic
    };
    assert(joined.queue.ids() =~= topic.queue.ids());
    lemma_holds_change_follows(topic.queue, joined.queue);
    let ids = joined_ids(topic.queue.holds, ep, index[ep]);
    lemma_repolled_follows(joined, ids);
    lemma_waiters_follow_trans(topic.queue, joined.queue, joined.repolled(ids).queue);
}

/// Unloading a queue resolves every waiter, once, and leaves nobody
/// waiting.
pub proof fn lemma_dropped_follows(queue: QueueView, exception: WaitAckErrorException)
    requires
        queue.waiting.no_duplicates(),
    ensures
        waiters_follow(queue, queue.dropped(exception)),
        queue.dropped(exception).waiting.len() == 0,
        queue.dropped(exception).holds.len() == 0,
    decreases queue.waiting.len(),
{
    if queue.waiting.len() > 0 {
        let report = ReportView::failed(queue.waiting[0], exception);
        lemma_index_of_unique(queue.waiting, 0);
        lemma_resolved_follows(queue, report);
        let next = queue.resolved(report);
        lemma_dropped_follows(next, exception);
        lemma_waiters_follow_trans(queue, next, next.dropped(exception));
    } else {
        let after = QueueView { holds: Seq::empty(), ..queue };
        assert(after.reports.take(queue.reports.len() as int) =~= queue.reports);
        assert forall|id: MessageId| !after.waiting.contains(id) by {
            if after.waiting.contains(id) {
                let k = choose|k: int| 0 <= k < after.waiting.len() && after.waiting[k] == id;
            }
        }
    }
}

/// Every waiter is resolved exactly once.
///
/// Whatever log entry is applied to a topic, the reports that it files are
/// for senders that were waiting, one report for each, and those senders
/// wait no longer; nobody else stops waiting; and a message that has left
/// the queue, flushed or evicted, has no waiter left behind.
pub proof fn lemma_waiters_are_resolved_once(topic: TopicView, entry: LogEntry)
    requires
        topic.queue.wf(),
    ensures
        waiters_follow(topic.queue, NodeView::moved(topic, entry).queue),
        NodeView::moved(topic, entry).queue.wf(),
{
    match entry {
        LogEntry::EndpointOnline(online) => {
            lemma_ep_online_follows(
                topic,
                online.endpoint,
                interests_of(online.interests@),
                online.host,
                online.at,
            );
        },
        LogEntry::DelegateMessage(delegate) => {
            lemma_hold_new_message_follows(topic, delegate.message@);
        },
        LogEntry::SetState(state) => {
            lemma_seen_all_alike(topic, topic, state.update.status@, state.at);
            let seen = topic.seen_all(state.update.status@, state.at);
            lemma_seen_all_frame(topic, state.update.status@, state.at);
            lemma_update_and_flush_follows(seen, state.update.message_id, state.update.status@);
        },
        _ => {
            lemma_waiters_follow_refl(topic.queue);
        },
    }
}

} // verus!
