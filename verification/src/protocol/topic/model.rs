//! The mathematical value of a topic, and what each operation does to it.
//!
//! The executable operations of a topic promise that they move its value as
//! the functions of this module say.
use vstd::prelude::*;
use crate::TimestampSec;
use crate::protocol::endpoint::{
    delivered,
    local_targets,
    EndpointAddr,
    EpInfoView,
    Locals,
    LocalView,
    MessageId,
    MessageStatusKind,
    MessageTargetKind,
    MessageView,
    Routing,
};
use crate::protocol::interest::{any_subject_matches, recipients, with_interests, InterestIndex};
use crate::protocol::node::NodeId;
use crate::protocol::ring::push_target;
use crate::protocol::topic::config::ConfigView;
use crate::protocol::topic::hold_message::{HoldView, Polled, QueueView};
use crate::protocol::topic::wait_ack::{ReportView, WaitAckErrorException};

verus! {

/// The queue after a list of reports for message `id` is applied in order.
pub open spec fn acked_all(
    queue: QueueView,
    id: MessageId,
    updates: Seq<(EndpointAddr, MessageStatusKind)>,
) -> QueueView
    decreases updates.len(),
{
    if updates.len() == 0 {
        queue
    } else {
        acked_all(queue, id, updates.drop_last()).acked(id, updates.last().0, updates.last().1)
    }
}

/// The interest index after `ep` has come online with `interests`: it has a
/// row, and each of the interests is registered.
pub open spec fn online_interests(
    index: InterestIndex,
    ep: EndpointAddr,
    interests: Seq<Seq<Seq<u8>>>,
) -> InterestIndex {
    with_interests(
        if index.contains_key(ep) {
            index
        } else {
            index.insert(ep, Seq::empty())
        },
        interests,
        ep,
    )
}

/// True when endpoint `ep` with the given interests joins the held message:
/// the message is durable, does not have `ep` as a recipient, and one of the
/// interests accepts one of its subjects.
pub open spec fn joins(hold: HoldView, ep: EndpointAddr, interests: Seq<Seq<Seq<u8>>>) -> bool {
    &&& hold.message.target_kind is Durable
    &&& !hold.status.contains_key(ep)
    &&& any_subject_matches(interests, hold.message.subjects)
}

/// The held messages after `ep` has joined those that it joins.
pub open spec fn joined_durable(
    holds: Seq<HoldView>,
    ep: EndpointAddr,
    interests: Seq<Seq<Seq<u8>>>,
) -> Seq<HoldView> {
    holds.map_values(
        |hold: HoldView|
            if joins(hold, ep, interests) {
                hold.joined(ep)
            } else {
                hold
            },
    )
}

/// The identifiers of the held messages that `ep` joins, in admission order.
pub open spec fn joined_ids(
    holds: Seq<HoldView>,
    ep: EndpointAddr,
    interests: Seq<Seq<Seq<u8>>>,
) -> Seq<MessageId>
    decreases holds.len(),
{
    if holds.len() == 0 {
        Seq::empty()
    } else if joins(holds.last(), ep, interests) {
        joined_ids(holds.drop_last(), ep, interests).push(holds.last().message.id)
    } else {
        joined_ids(holds.drop_last(), ep, interests)
    }
}

/// The mathematical value of a snapshot of one topic.
pub struct SnapshotView {
    pub config: ConfigView,
    pub routing: Routing,
    pub interests: InterestIndex,
    pub active: Map<EndpointAddr, TimestampSec>,
    /// The held messages, in admission order.
    pub queue: Seq<HoldView>,
}

impl SnapshotView {
    /// The three endpoint tables have the same endpoints, and no message is
    /// held twice.
    pub open spec fn wf(self) -> bool {
        &&& self.routing.dom() == self.interests.dom()
        &&& self.routing.dom() == self.active.dom()
        &&& self.queue.map_values(|hold: HoldView| hold.message.id).no_duplicates()
    }
}

/// The mathematical value of the state of one topic on one node.
pub struct TopicView {
    pub config: ConfigView,
    /// The node that holds this copy of the topic.
    pub host: NodeId,
    /// The endpoints attached to `host`.  Local to the node.
    pub locals: Locals,
    /// Which node hosts which endpoint.  Replicated.
    pub routing: Routing,
    /// The interests of each endpoint.  Replicated.
    pub interests: InterestIndex,
    /// When each endpoint was last seen.  Replicated.
    pub active: Map<EndpointAddr, TimestampSec>,
    /// The held messages, which are replicated, and the waiters and their
    /// reports, which are local to the node.
    pub queue: QueueView,
    /// The messages that were flushed and not collected yet, oldest first.
    pub flushed: Seq<HoldView>,
}

impl TopicView {
    /// The three endpoint tables have the same endpoints, and the queue is
    /// well formed.
    pub open spec fn wf(self) -> bool {
        &&& self.routing.dom() == self.interests.dom()
        &&& self.routing.dom() == self.active.dom()
        &&& self.queue.wf()
    }

    /// The state of a new topic on `host`.
    pub open spec fn new(config: ConfigView, host: NodeId) -> TopicView {
        TopicView {
            config,
            host,
            locals: Map::empty(),
            routing: Map::empty(),
            interests: Map::empty(),
            active: Map::empty(),
            queue: QueueView::empty(),
            flushed: Seq::empty(),
        }
    }

    /// The endpoints that message `m` is held for.
    ///
    /// A durable or online message goes to every endpoint with an interest
    /// that accepts one of its subjects.  A pushed message goes to the one
    /// of them that it picks on the hash ring.
    pub open spec fn targets(self, m: MessageView) -> Set<EndpointAddr> {
        let all = recipients(self.interests, m.subjects);
        match m.target_kind {
            MessageTargetKind::Durable | MessageTargetKind::Online => all,
            MessageTargetKind::Push => if all == Set::<EndpointAddr>::empty() {
                Set::empty()
            } else {
                set![push_target(all, m.id)]
            },
            MessageTargetKind::Available => Set::empty(),
        }
    }

    /// Whether message `m` is admitted, and if not, why.
    ///
    /// A message of the reserved kind `Available` is unsupported.  A pushed
    /// or online message needs a recipient; a durable message may wait for
    /// one.  A message that is held already stays held.  A message that
    /// arrives at a full queue is refused under the policy `RejectNew`.
    pub open spec fn admission(self, m: MessageView) -> Result<(), WaitAckErrorException> {
        if m.target_kind is Available {
            Err(WaitAckErrorException::Unsupported)
        } else if !(m.target_kind is Durable) && recipients(self.interests, m.subjects) == Set::<
            EndpointAddr,
        >::empty() {
            Err(WaitAckErrorException::NoAvailableTarget)
        } else if self.queue.holds_message(m.id) {
            Ok(())
        } else if self.config.rejects_at(self.queue.holds.len()) {
            Err(WaitAckErrorException::Overflow)
        } else {
            Ok(())
        }
    }

    /// The state after the oldest message is evicted to make room, if the
    /// queue is full under the policy `DropOld`.
    pub open spec fn with_room(self) -> TopicView {
        if self.config.evicts_at(self.queue.holds.len()) && self.queue.holds.len() > 0 {
            TopicView {
                queue: self.queue.popped().resolved(
                    ReportView::failed(self.queue.holds[0].message.id, WaitAckErrorException::Overflow),
                ),
                ..self
            }
        } else {
            self
        }
    }

    /// The state after message `id` is polled.
    pub open spec fn polled(self, id: MessageId) -> TopicView {
        TopicView {
            queue: self.queue.polled(id, self.routing, self.host, self.locals),
            locals: self.queue.poll_delivers(id, self.routing, self.host, self.locals),
            ..self
        }
    }

    /// The state after a flush of the queue.
    pub open spec fn flushed_now(self) -> TopicView {
        TopicView {
            queue: self.queue.flushed(),
            flushed: self.flushed + self.queue.holds.take(self.queue.flush_count() as int),
            ..self
        }
    }

    /// The state after the reports `updates` for message `id` are applied,
    /// the message is polled, and, if it is complete then, the queue is
    /// flushed.
    pub open spec fn update_and_flush(
        self,
        id: MessageId,
        updates: Seq<(EndpointAddr, MessageStatusKind)>,
    ) -> TopicView {
        let acked = TopicView { queue: acked_all(self.queue, id, updates), ..self };
        if acked.queue.poll_outcome(id, acked.routing, acked.host, acked.locals) == Some(
            Polled::Ready,
        ) {
            acked.polled(id).flushed_now()
        } else {
            acked.polled(id)
        }
    }

    /// The state after message `m` has arrived.
    ///
    /// A message that is not admitted has its waiter resolved with the
    /// reason.  A message that is held already changes nothing.  Any other
    /// message is held at the tail for its targets, after the oldest message
    /// was evicted if the queue was full, and is then polled at once.
    pub open spec fn hold_new_message(self, m: MessageView) -> TopicView {
        match self.admission(m) {
            Err(exception) => TopicView {
                queue: self.queue.resolved(ReportView::failed(m.id, exception)),
                ..self
            },
            Ok(_) => if self.queue.holds_message(m.id) {
                self
            } else {
                let room = self.with_room();
                TopicView {
                    queue: room.queue.pushed(HoldView::admitted(m, self.targets(m))),
                    ..room
                }.update_and_flush(m.id, Seq::empty())
            },
        }
    }

    /// The state after each of the messages `ids` is polled in turn, each
    /// poll followed by a flush if the message is complete then.
    pub open spec fn repolled(self, ids: Seq<MessageId>) -> TopicView
        decreases ids.len(),
    {
        if ids.len() == 0 {
            self
        } else {
            self.update_and_flush(ids[0], Seq::empty()).repolled(ids.drop_first())
        }
    }

    /// The state after endpoint `ep` has come online on node `host` at time
    /// `at` with the given interests.
    ///
    /// The endpoint enters the three tables.  It joins, as `Unsent`, every
    /// held durable message that one of its interests accepts and that does
    /// not have it as a recipient; the messages that it has joined are then
    /// polled in admission order.
    pub open spec fn ep_online(
        self,
        ep: EndpointAddr,
        interests: Seq<Seq<Seq<u8>>>,
        host: NodeId,
        at: TimestampSec,
    ) -> TopicView {
        let index = online_interests(self.interests, ep, interests);
        TopicView {
            active: self.active.insert(ep, at),
            routing: self.routing.insert(ep, host),
            interests: index,
            queue: QueueView { holds: joined_durable(self.queue.holds, ep, index[ep]), ..self.queue },
            ..self
        }.repolled(joined_ids(self.queue.holds, ep, index[ep]))
    }

    /// The state after endpoint `ep` has gone offline: it leaves the three
    /// tables.  The held messages keep their status for it.
    pub open spec fn ep_offline(self, ep: EndpointAddr) -> TopicView {
        TopicView {
            active: self.active.remove(ep),
            routing: self.routing.remove(ep),
            interests: self.interests.remove(ep),
            ..self
        }
    }

    /// The state after the interests of endpoint `ep` are replaced.  An
    /// endpoint that is not online has no interests to replace.
    pub open spec fn update_ep_interest(
        self,
        ep: EndpointAddr,
        interests: Seq<Seq<Seq<u8>>>,
    ) -> TopicView {
        if self.routing.contains_key(ep) {
            TopicView {
                interests: with_interests(self.interests.insert(ep, Seq::empty()), interests, ep),
                ..self
            }
        } else {
            self
        }
    }

    /// The state after `message` is pushed to the local endpoint `ep`, if
    /// there is one.
    pub open spec fn pushed_to_local(self, ep: EndpointAddr, message: MessageView) -> TopicView {
        if self.locals.contains_key(ep) {
            TopicView { locals: self.locals.insert(ep, self.locals[ep].received(message)), ..self }
        } else {
            self
        }
    }

    /// The state after `message` is dispatched to the endpoints of `eps`
    /// that are hosted here.
    pub open spec fn dispatched(self, message: MessageView, eps: Set<EndpointAddr>) -> TopicView {
        TopicView {
            locals: delivered(self.locals, local_targets(eps, self.routing, self.host), message),
            ..self
        }
    }

    /// The state after one record of another node is merged in.  The record
    /// replaces the row of its endpoint if it is strictly later than what is
    /// known locally; with equal timestamps the local row stays.
    pub open spec fn ep_synced(self, info: EpInfoView) -> TopicView {
        if self.active.contains_key(info.addr) && self.active[info.addr].seconds
            >= info.latest_active.seconds {
            self
        } else {
            TopicView {
                active: self.active.insert(info.addr, info.latest_active),
                routing: self.routing.insert(info.addr, info.host),
                interests: with_interests(
                    self.interests.insert(info.addr, Seq::empty()),
                    info.interests,
                    info.addr,
                ),
                ..self
            }
        }
    }

    /// The state after the records of another node are merged in, one after
    /// the other.
    pub open spec fn load_ep_sync(self, infos: Seq<EpInfoView>) -> TopicView
        decreases infos.len(),
    {
        if infos.len() == 0 {
            self
        } else {
            self.load_ep_sync(infos.drop_last()).ep_synced(infos.last())
        }
    }

    /// The state after endpoint `ep` was seen at time `at`.  An endpoint
    /// that is not online is not recorded, and the record never moves back
    /// in time.
    pub open spec fn heartbeat(self, ep: EndpointAddr, at: TimestampSec) -> TopicView {
        if self.active.contains_key(ep) && self.active[ep].seconds < at.seconds {
            TopicView { active: self.active.insert(ep, at), ..self }
        } else {
            self
        }
    }

    /// What one node tells another about endpoint `ep`.
    pub open spec fn ep_info(self, ep: EndpointAddr) -> EpInfoView {
        EpInfoView {
            addr: ep,
            host: self.routing[ep],
            interests: self.interests[ep],
            latest_active: self.active[ep],
        }
    }

    /// What a snapshot of this state carries: the configuration, the three
    /// endpoint tables and the held messages in admission order.
    pub open spec fn snapshot(self) -> SnapshotView {
        SnapshotView {
            config: self.config,
            routing: self.routing,
            interests: self.interests,
            active: self.active,
            queue: self.queue.holds,
        }
    }

    /// The state of a topic that is rebuilt on `host` from a snapshot: the
    /// tables and the held messages are those of the snapshot, nothing is
    /// attached and nobody waits, and the queue has been flushed.
    pub open spec fn from_snapshot(snapshot: SnapshotView, host: NodeId) -> TopicView {
        TopicView {
            config: snapshot.config,
            host,
            locals: Map::empty(),
            routing: snapshot.routing,
            interests: snapshot.interests,
            active: snapshot.active,
            queue: QueueView { holds: snapshot.queue, waiting: Seq::empty(), reports: Seq::empty() },
            flushed: Seq::empty(),
        }.flushed_now()
    }

    /// The state after every held message is polled, in admission order.
    pub open spec fn polled_all(self) -> TopicView {
        TopicView {
            queue: self.queue.polled_from(0, self.routing, self.host, self.locals),
            locals: self.queue.poll_from_delivers(0, self.routing, self.host, self.locals),
            ..self
        }
    }

    /// The state after a snapshot is installed over this state: the tables
    /// and the held messages are those of the snapshot, the local endpoints
    /// and the waiters stay, every message is polled and the queue is
    /// flushed.
    pub open spec fn apply_snapshot(self, snapshot: SnapshotView) -> TopicView {
        TopicView {
            routing: snapshot.routing,
            interests: snapshot.interests,
            active: snapshot.active,
            queue: QueueView { holds: snapshot.queue, ..self.queue },
            ..self
        }.polled_all().flushed_now()
    }

    /// The state after the local endpoint `ep` is deleted: it is detached,
    /// and it leaves the three tables.
    pub open spec fn delete_endpoint(self, ep: EndpointAddr) -> TopicView {
        TopicView { locals: self.locals.remove(ep), ..self.ep_offline(ep) }
    }

    /// The state after a local endpoint with an empty mailbox is attached.
    pub open spec fn create_endpoint(
        self,
        ep: EndpointAddr,
        interests: Seq<Seq<Seq<u8>>>,
    ) -> TopicView {
        TopicView {
            locals: self.locals.insert(
                ep,
                LocalView { address: ep, interests, mailbox: Seq::empty() },
            ),
            ..self
        }
    }

    /// The state after the local endpoint `ep`, whose coming online was not
    /// committed, is detached again.  Nothing that is replicated changes.
    pub open spec fn create_endpoint_failed(self, ep: EndpointAddr) -> TopicView {
        TopicView { locals: self.locals.remove(ep), ..self }
    }

    /// The state after a sender has registered to wait for message `id`.
    pub open spec fn wait_ack(self, id: MessageId) -> TopicView {
        TopicView { queue: self.queue.registered(id), ..self }
    }

    /// The state after the waiter of message `id` is resolved with
    /// `exception`, if there is one.
    pub open spec fn give_up(self, id: MessageId, exception: WaitAckErrorException) -> TopicView {
        TopicView { queue: self.queue.resolved(ReportView::failed(id, exception)), ..self }
    }

    /// The state after the reporting endpoints of `updates` were seen at
    /// time `at`.
    pub open spec fn seen_all(
        self,
        updates: Seq<(EndpointAddr, MessageStatusKind)>,
        at: TimestampSec,
    ) -> TopicView
        decreases updates.len(),
    {
        if updates.len() == 0 {
            self
        } else {
            self.seen_all(updates.drop_last(), at).heartbeat(updates.last().0, at)
        }
    }

    /// The state after every waiter is resolved with `MessageDropped` and
    /// every held message is dropped.
    pub open spec fn unloaded(self) -> TopicView {
        TopicView { queue: self.queue.dropped(WaitAckErrorException::MessageDropped), ..self }
    }
}

} // verus!
