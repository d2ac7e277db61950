//! Topics: the state of one topic on one node and the operations on it.
use vstd::prelude::*;
use crate::TimestampSec;
use crate::protocol::endpoint::{
    dispatch_outcome,
    dispatch_to_local,
    group_by_host,
    hosted_by,
    hosts_of,
    infos_of,
    local_targets,
    locals_of,
    subjects_of,
    DelegateMessage,
    EndpointAddr,
    EndpointOffline,
    EndpointOnline,
    EpInfo,
    EpInfoView,
    LocalEndpoint,
    LocalView,
    Message,
    MessageId,
    MessageStateUpdate,
    MessageStatusKind,
    MessageTargetKind,
};
use crate::protocol::interest::{
    accepts_any_subject,
    ascending_addrs,
    clone_interests,
    interests_of,
    lemma_with_interests_frame,
    recipients,
    Interest,
    InterestMap,
    Subject,
};
use crate::protocol::node::{Node, NodeId};
use crate::protocol::ring::pick_push_target;
use crate::protocol::table::{
    lemma_entry_is_row,
    lemma_row_is_entry,
    row_index,
    rows_to_map,
    strictly_ascending,
    EpTable,
};
use crate::protocol::topic::config::{TopicConfig, TopicOverflowPolicy};
use crate::protocol::topic::hold_message::{
    holds_of,
    reports_of,
    HoldMessage,
    HoldView,
    MessageQueue,
    Polled,
    QueueView,
};
use crate::protocol::topic::model::{
    acked_all,
    joined_durable,
    joined_ids,
    joins,
    online_interests,
};
use crate::protocol::topic::snapshot::durables_of;
use crate::protocol::topic::wait_ack::{
    ReportView,
    WaitAckErrorException,
    WaitAckHandle,
    WaitAckReport,
};

pub mod code;
pub mod config;
pub mod durable_message;
pub mod hold_message;
pub mod laws;
pub mod model;
pub mod snapshot;
pub mod wait_ack;

pub use self::code::TopicCode;
pub use self::model::{SnapshotView, TopicView};
pub use self::snapshot::TopicSnapshot;

verus! {

/// The state of one topic on one node.
///
/// The three endpoint tables and the held messages are replicated: they
/// change only when a committed log entry is applied, and they are what a
/// snapshot carries.  The local endpoints, the waiters and the outboxes of
/// reports and flushed messages belong to this node alone.
#[derive(Debug)]
pub struct TopicData {
    pub(crate) config: TopicConfig,
    pub(crate) host: NodeId,
    pub(crate) local_endpoints: EpTable<LocalEndpoint>,
    pub(crate) ep_routing_table: EpTable<NodeId>,
    pub(crate) ep_interest_map: InterestMap,
    pub(crate) ep_latest_active: EpTable<TimestampSec>,
    pub(crate) queue: MessageQueue,
    pub(crate) flushed: Vec<HoldMessage>,
}

impl View for TopicData {
    type V = TopicView;

    closed spec fn view(&self) -> TopicView {
        TopicView {
            config: self.config@,
            host: self.host,
            locals: locals_of(self.local_endpoints@),
            routing: self.ep_routing_table@,
            interests: self.ep_interest_map@,
            active: self.ep_latest_active@,
            queue: self.queue@,
            flushed: holds_of(self.flushed@),
        }
    }
}

/// Room for this many messages is set aside in the queue of a topic without
/// a bound.
pub const DEFAULT_CAPACITY: usize = 128;

/// No more room than for this many messages is set aside in advance,
/// whatever the bound of the topic.
pub const MAX_INITIAL_CAPACITY: usize = 4096;

/// The room that is set aside in the queue of a new topic: the bound of the
/// topic if it has one, within [`MAX_INITIAL_CAPACITY`], and
/// [`DEFAULT_CAPACITY`] if it has none.
pub fn initial_capacity(config: &TopicConfig) -> (capacity: usize)
    ensures
        capacity == match config@.overflow {
            Some(overflow) => if overflow.size <= MAX_INITIAL_CAPACITY {
                overflow.size as usize
            } else {
                MAX_INITIAL_CAPACITY
            },
            None => DEFAULT_CAPACITY,
        },
{
    match &config.overflow_config {
        Some(overflow_config) => {
            let size = overflow_config.size();
            if size <= MAX_INITIAL_CAPACITY {
                size
            } else {
                MAX_INITIAL_CAPACITY
            }
        },
        None => DEFAULT_CAPACITY,
    }
}

impl TopicData {
    /// The tables are in order and agree on the endpoints, and the queue is
    /// well formed.
    pub closed spec fn wf(&self) -> bool {
        &&& self.local_endpoints.wf()
        &&& self.ep_routing_table.wf()
        &&& self.ep_interest_map.wf()
        &&& self.ep_latest_active.wf()
        &&& self.queue.wf()
        &&& forall|i: int| 0 <= i < self.flushed.len() ==> (#[trigger] self.flushed[i]).wf()
        &&& self@.wf()
    }

    /// A well-formed topic has a well-formed value.
    pub proof fn lemma_wf(&self)
        requires
            self.wf(),
        ensures
            self@.wf(),
    {
    }

    /// A new topic on `host`, without endpoints and without messages.
    pub fn new(config: TopicConfig, host: NodeId) -> (topic: Self)
        ensures
            topic.wf(),
            topic@ == TopicView::new(config@, host),
    {
        let queue = MessageQueue::new(initial_capacity(&config));
        let topic = TopicData {
            config,
            host,
            local_endpoints: EpTable::new(),
            ep_routing_table: EpTable::new(),
            ep_interest_map: InterestMap::new(),
            ep_latest_active: EpTable::new(),
            queue,
            flushed: Vec::new(),
        };
        proof {
            assert(topic@.locals =~= Map::<EndpointAddr, LocalView>::empty());
            assert(topic@.flushed =~= Seq::<HoldView>::empty());
            assert(topic@.routing.dom() =~= topic@.interests.dom());
            assert(topic@.routing.dom() =~= topic@.active.dom());
        }
        topic
    }

    /// The code of the topic.
    pub fn code(&self) -> (code: &TopicCode)
        ensures
            code@ == self@.config.code,
    {
        &self.config.code
    }

    /// The node that holds this copy of the topic.
    pub fn host(&self) -> (host: NodeId)
        ensures
            host == self@.host,
    {
        self.host
    }

    /// Number of held messages.
    pub fn queue_len(&self) -> (n: usize)
        ensures
            n == self@.queue.holds.len(),
    {
        self.queue.len()
    }

    /// The configuration of the topic.
    pub fn config(&self) -> (config: &TopicConfig)
        ensures
            config@ == self@.config,
    {
        &self.config
    }

    /// The queue of the topic.
    pub fn queue(&self) -> (queue: &MessageQueue)
        requires
            self.wf(),
        ensures
            queue.wf(),
            queue@ == self@.queue,
    {
        &self.queue
    }

    /// Which node hosts which endpoint.
    pub fn routing_table(&self) -> (table: &EpTable<NodeId>)
        requires
            self.wf(),
        ensures
            table.wf(),
            table@ == self@.routing,
    {
        &self.ep_routing_table
    }

    /// The interests of each endpoint.
    pub fn interest_map(&self) -> (index: &InterestMap)
        requires
            self.wf(),
        ensures
            index.wf(),
            index@ == self@.interests,
    {
        &self.ep_interest_map
    }

    /// When each endpoint was last seen.
    pub fn latest_active(&self) -> (table: &EpTable<TimestampSec>)
        requires
            self.wf(),
        ensures
            table.wf(),
            table@ == self@.active,
    {
        &self.ep_latest_active
    }

    /// Every endpoint with an interest that accepts one of the subjects, in
    /// address order.
    pub fn collect_addr_by_subjects(&self, subjects: &Vec<Subject>) -> (eps: Vec<EndpointAddr>)
        requires
            self.wf(),
        ensures
            ascending_addrs(eps@),
            eps@.to_set() == recipients(self@.interests, subjects_of(subjects@)),
    {
        self.ep_interest_map.find_any(subjects)
    }

    /// Applies the reports of `update` in their order, polls the message,
    /// and flushes the queue if the message is complete then.
    pub fn update_and_flush(&mut self, update: MessageStateUpdate)
        requires
            old(self).wf(),
        ensures
            final(self).wf(),
            final(self)@ == old(self)@.update_and_flush(update.message_id, update.status@),
    {
        let id = update.message_id;
        let mut i: usize = 0;
        proof {
            assert(update.status@.take(0) =~= Seq::<(EndpointAddr, MessageStatusKind)>::empty());
        }
        while i < update.status.len()
            invariant
                i <= update.status.len(),
                self.wf(),
                id == update.message_id,
                self@ == (TopicView {
                    queue: acked_all(old(self)@.queue, id, update.status@.take(i as int)),
                    ..old(self)@
                }),
            decreases update.status.len() - i,
        {
            let from = update.status[i].0;
            let next = update.status[i].1;
            self.queue.update_ack(id, from, next);
            i += 1;
            proof {
                assert(update.status@.take(i as int).drop_last() =~= update.status@.take(i - 1));
                self.queue.lemma_wf();
            }
        }
        proof {
            assert(update.status@.take(update.status.len() as int) =~= update.status@);
        }
        let outcome = self.queue.poll_message(
            id,
            &self.ep_routing_table,
            self.host,
            &mut self.local_endpoints,
        );
        proof {
            self.queue.lemma_wf();
        }
        match outcome {
            Some(Polled::Ready) => {
                let ghost before = self.flushed@;
                let mut done = self.queue.flush();
                let ghost removed = done@;
                self.flushed.append(&mut done);
                proof {
                    self.queue.lemma_wf();
                    assert(holds_of(self.flushed@) =~= holds_of(before) + holds_of(removed));
                }
            },
            _ => {},
        }
    }
}

/// A list of endpoints is empty exactly when it names no endpoint.
pub proof fn lemma_empty_list(eps: Seq<EndpointAddr>)
    ensures
        eps.len() == 0 <==> eps.to_set() == Set::<EndpointAddr>::empty(),
{
    if eps.len() == 0 {
        assert(eps.to_set() =~= Set::<EndpointAddr>::empty());
    } else {
        assert(eps.to_set().contains(eps[0]));
    }
}

impl TopicData {
    /// Admits message `message`, or refuses it and says why.
    ///
    /// The recipients are computed from the interest index as it is now.  A
    /// refused message never enters the queue, and the waiter of its sender
    /// is resolved with the reason.  An admitted message is held at the
    /// tail, after the oldest message was evicted if the queue was full
    /// under `DropOld`, and is polled at once, which dispatches it to the
    /// recipients attached to this node.
    pub fn hold_new_message(
        &mut self,
        message: Message,
    ) -> (admitted: Result<(), WaitAckErrorException>)
        requires
            old(self).wf(),
        ensures
            final(self).wf(),
            final(self)@ == old(self)@.hold_new_message(message@),
            admitted == old(self)@.admission(message@),
    {
        let id = message.id();
        let all = self.collect_addr_by_subjects(&message.header.subjects);
        proof {
            lemma_empty_list(all@);
        }
        let ep_collect: Vec<EndpointAddr> = match message.target_kind() {
            MessageTargetKind::Durable | MessageTargetKind::Online => all,
            MessageTargetKind::Available => {
                self.queue.resolve(WaitAckReport::failed(id, WaitAckErrorException::Unsupported));
                proof {
                    self.queue.lemma_wf();
                }
                return Err(WaitAckErrorException::Unsupported);
            },
            MessageTargetKind::Push => {
                let mut one: Vec<EndpointAddr> = Vec::new();
                match pick_push_target(&all, id) {
                    Some(ep) => {
                        one.push(ep);
                        proof {
                            assert(one@.to_set() =~= set![ep]) by {
                                assert(one@[0] == ep);
                            }
                        }
                    },
                    None => {
                        proof {
                            lemma_empty_list(one@);
                        }
                    },
                }
                one
            },
        };
        assert(ep_collect@.to_set() == old(self)@.targets(message@));
        let durable = match message.target_kind() {
            MessageTargetKind::Durable => true,
            _ => false,
        };
        if !durable && ep_collect.len() == 0 {
            proof {
                lemma_empty_list(ep_collect@);
            }
            self.queue.resolve(WaitAckReport::failed(id, WaitAckErrorException::NoAvailableTarget));
            proof {
                self.queue.lemma_wf();
            }
            return Err(WaitAckErrorException::NoAvailableTarget);
        }
        proof {
            lemma_empty_list(ep_collect@);
        }
        if self.queue.contains(id) {
            return Ok(());
        }
        match self.config.overflow_config {
            Some(overflow_config) => {
                if self.queue.len() >= overflow_config.size() {
                    match overflow_config.policy {
                        TopicOverflowPolicy::RejectNew => {
                            self.queue.resolve(
                                WaitAckReport::failed(id, WaitAckErrorException::Overflow),
                            );
                            proof {
                                self.queue.lemma_wf();
                            }
                            return Err(WaitAckErrorException::Overflow);
                        },
                        TopicOverflowPolicy::DropOld => {
                            match self.queue.pop() {
                                Some(evicted) => {
                                    self.queue.resolve(
                                        WaitAckReport::failed(
                                            evicted.id(),
                                            WaitAckErrorException::Overflow,
                                        ),
                                    );
                                },
                                None => {},
                            }
                        },
                    }
                }
            },
            None => {},
        }
        proof {
            self.queue.lemma_wf();
            assert(self@ == old(self)@.with_room());
        }
        let hold = HoldMessage::new(message, &ep_collect);
        self.queue.push(hold);
        proof {
            self.queue.lemma_wf();
        }
        self.update_and_flush(MessageStateUpdate::new_empty(id));
        Ok(())
    }
}

impl TopicData {
    /// Polls each of the messages `ids` in turn, and flushes the queue after
    /// each poll that finds its message complete.
    pub fn repoll(&mut self, ids: &Vec<MessageId>)
        requires
            old(self).wf(),
        ensures
            final(self).wf(),
            final(self)@ == old(self)@.repolled(ids@),
            final(self)@.host == old(self)@.host,
            final(self)@.config == old(self)@.config,
    {
        let mut k: usize = 0;
        proof {
            assert(ids@.skip(0) =~= ids@);
        }
        while k < ids.len()
            invariant
                k <= ids.len(),
                self.wf(),
                self@.repolled(ids@.skip(k as int)) == old(self)@.repolled(ids@),
                self@.host == old(self)@.host,
                self@.config == old(self)@.config,
            decreases ids.len() - k,
        {
            proof {
                assert(ids@.skip(k as int).drop_first() =~= ids@.skip(k + 1));
            }
            self.update_and_flush(MessageStateUpdate::new_empty(ids[k]));
            k += 1;
        }
    }

    /// Brings endpoint `endpoint` online on node `host`, seen at time `at`.
    ///
    /// The endpoint enters the routing, interest and activity tables.  It
    /// joins every held durable message that one of its interests accepts,
    /// and those messages are polled again, which dispatches them to the
    /// endpoint if it is attached to this node.
    pub fn ep_online(
        &mut self,
        endpoint: EndpointAddr,
        interests: Vec<Interest>,
        host: NodeId,
        at: TimestampSec,
    )
        requires
            old(self).wf(),
        ensures
            final(self).wf(),
            final(self)@ == old(self)@.ep_online(endpoint, interests_of(interests@), host, at),
            final(self)@.host == old(self)@.host,
            final(self)@.config == old(self)@.config,
    {
        let ghost list = interests_of(interests@);
        let ghost index = online_interests(old(self)@.interests, endpoint, list);
        self.ep_latest_active.insert(endpoint, at);
        self.ep_routing_table.insert(endpoint, host);
        self.ep_interest_map.touch(endpoint);
        proof {
            lemma_with_interests_frame(self.ep_interest_map@, list, endpoint);
        }
        self.ep_interest_map.insert_all(&interests, endpoint);
        proof {
            assert(self.ep_interest_map@ == index);
            assert(self@.routing.dom() =~= self@.interests.dom());
            assert(self@.routing.dom() =~= self@.active.dom());
        }
        let mut message_need_poll: Vec<MessageId> = Vec::new();
        let n = self.queue.len();
        let ghost before = old(self)@.queue.holds;
        let mut i: usize = 0;
        proof {
            self.queue.lemma_wf();
            assert(joined_durable(before.take(0), endpoint, index[endpoint]) + before.skip(0)
                =~= before);
            assert(before.take(0) =~= Seq::<HoldView>::empty());
        }
        while i < n
            invariant
                i <= n,
                n == before.len(),
                before == old(self)@.queue.holds,
                index == online_interests(old(self)@.interests, endpoint, list),
                self.wf(),
                self.ep_interest_map@ == index,
                index.contains_key(endpoint),
                self@ == (TopicView {
                    active: old(self)@.active.insert(endpoint, at),
                    routing: old(self)@.routing.insert(endpoint, host),
                    interests: index,
                    queue: QueueView {
                        holds: joined_durable(before.take(i as int), endpoint, index[endpoint])
                            + before.skip(i as int),
                        ..old(self)@.queue
                    },
                    ..old(self)@
                }),
                message_need_poll@ == joined_ids(before.take(i as int), endpoint, index[endpoint]),
            decreases n - i,
        {
            let hold = self.queue.hold_at(i);
            let durable = match hold.message.target_kind() {
                MessageTargetKind::Durable => true,
                _ => false,
            };
            let accepted = match self.ep_interest_map.interest_of(endpoint) {
                Some(own) => accepts_any_subject(own, &hold.message.header.subjects),
                None => false,
            };
            let join = durable && accepted && !hold.has_recipient(endpoint);
            let id = hold.id();
            proof {
                assert(hold@ == before[i as int]);
                assert(join == joins(before[i as int], endpoint, index[endpoint]));
                assert(before.take(i + 1).drop_last() =~= before.take(i as int));
                assert(before.take(i + 1).last() == before[i as int]);
            }
            if join {
                self.queue.join_at(i, endpoint);
                message_need_poll.push(id);
            }
            proof {
                self.queue.lemma_wf();
                assert(self@.queue.holds =~= joined_durable(
                    before.take(i + 1),
                    endpoint,
                    index[endpoint],
                ) + before.skip(i + 1));
            }
            i += 1;
        }
        proof {
            assert(before.take(n as int) =~= before);
            assert(joined_durable(before, endpoint, index[endpoint]) + before.skip(n as int)
                =~= joined_durable(before, endpoint, index[endpoint]));
        }
        self.repoll(&message_need_poll);
    }

    /// Takes endpoint `ep` offline: it leaves the routing, interest and
    /// activity tables.  Held messages keep their status for it.
    pub fn ep_offline(&mut self, ep: EndpointAddr)
        requires
            old(self).wf(),
        ensures
            final(self).wf(),
            final(self)@ == old(self)@.ep_offline(ep),
    {
        self.ep_latest_active.remove(ep);
        self.ep_routing_table.remove(ep);
        self.ep_interest_map.delete(ep);
        proof {
            assert(self@.routing.dom() =~= self@.interests.dom());
            assert(self@.routing.dom() =~= self@.active.dom());
        }
    }

    /// Replaces the interests of endpoint `ep`, if it is online.
    pub fn update_ep_interest(&mut self, ep: EndpointAddr, interests: Vec<Interest>)
        requires
            old(self).wf(),
        ensures
            final(self).wf(),
            final(self)@ == old(self)@.update_ep_interest(ep, interests_of(interests@)),
    {
        if self.ep_routing_table.contains_key(ep) {
            self.ep_interest_map.delete(ep);
            self.ep_interest_map.touch(ep);
            proof {
                assert(self.ep_interest_map@ =~= old(self)@.interests.insert(ep, Seq::empty()));
                lemma_with_interests_frame(self.ep_interest_map@, interests_of(interests@), ep);
            }
            self.ep_interest_map.insert_all(&interests, ep);
            proof {
                assert(self@.routing.dom() =~= self@.interests.dom());
            }
        }
    }
}

/// For each endpoint of a dispatch, whether it was reached.
pub open spec fn reached_of(
    results: Seq<(EndpointAddr, Result<(), ()>)>,
) -> Seq<(EndpointAddr, bool)> {
    results.map_values(|result: (EndpointAddr, Result<(), ()>)| (result.0, result.1 is Ok))
}

impl TopicData {
    /// The local endpoint with address `ep`, if one is attached.
    pub fn get_local_ep(&self, ep: EndpointAddr) -> (local: Option<&LocalEndpoint>)
        requires
            self.wf(),
        ensures
            local is Some <==> self@.locals.contains_key(ep),
            local matches Some(l) ==> l@ == self@.locals[ep],
    {
        self.local_endpoints.get(ep)
    }

    /// Attaches a local endpoint under its address.  An endpoint that was
    /// attached under that address before is replaced and returned.
    pub fn attach_local_ep(&mut self, local: LocalEndpoint) -> (replaced: Option<LocalEndpoint>)
        requires
            old(self).wf(),
        ensures
            final(self).wf(),
            final(self)@ == (TopicView {
                locals: old(self)@.locals.insert(local.address, local@),
                ..old(self)@
            }),
            replaced is Some <==> old(self)@.locals.contains_key(local.address),
            replaced matches Some(l) ==> l@ == old(self)@.locals[local.address],
    {
        let replaced = self.local_endpoints.insert(local.address, local);
        proof {
            assert(self@.locals =~= old(self)@.locals.insert(local.address, local@));
        }
        replaced
    }

    /// Detaches the local endpoint with address `ep`, and returns it.
    pub fn detach_local_ep(&mut self, ep: EndpointAddr) -> (detached: Option<LocalEndpoint>)
        requires
            old(self).wf(),
        ensures
            final(self).wf(),
            final(self)@ == (TopicView { locals: old(self)@.locals.remove(ep), ..old(self)@ }),
            detached is Some <==> old(self)@.locals.contains_key(ep),
            detached matches Some(l) ==> l@ == old(self)@.locals[ep],
    {
        let detached = self.local_endpoints.remove(ep);
        proof {
            assert(self@.locals =~= old(self)@.locals.remove(ep));
        }
        detached
    }

    /// Puts `message` into the mailbox of the local endpoint `ep`.  Hands
    /// the message back if no such endpoint is attached.
    pub fn push_message_to_local_ep(
        &mut self,
        ep: EndpointAddr,
        message: Message,
    ) -> (pushed: Result<(), Message>)
        requires
            old(self).wf(),
        ensures
            final(self).wf(),
            final(self)@ == old(self)@.pushed_to_local(ep, message@),
            pushed is Ok <==> old(self)@.locals.contains_key(ep),
            pushed matches Err(back) ==> back == message,
    {
        match self.local_endpoints.position(ep) {
            Some(at) => {
                let local = self.local_endpoints.value_at_mut(at);
                local.push_message(message);
                proof {
                    assert(self@.locals =~= old(self)@.locals.insert(
                        ep,
                        old(self)@.locals[ep].received(message@),
                    ));
                }
                Ok(())
            },
            None => Err(message),
        }
    }

    /// Takes the oldest message out of the mailbox of the local endpoint
    /// `ep`.
    pub fn next_message(&mut self, ep: EndpointAddr) -> (message: Option<Message>)
        requires
            old(self).wf(),
        ensures
            final(self).wf(),
            message is Some <==> old(self)@.locals.contains_key(ep)
                && old(self)@.locals[ep].mailbox.len()
                > 0,
            message matches Some(m) ==> m@ == old(self)@.locals[ep].mailbox[0] && final(self)@ == (
            TopicView {
                locals: old(self)@.locals.insert(
                    ep,
                    LocalView {
                        mailbox: old(self)@.locals[ep].mailbox.drop_first(),
                        ..old(self)@.locals[ep]
                    },
                ),
                ..old(self)@
            }),
            message is None ==> final(self)@ == old(self)@,
    {
        match self.local_endpoints.position(ep) {
            Some(at) => {
                let local = self.local_endpoints.value_at_mut(at);
                let message = local.next_message();
                proof {
                    if message is Some {
                        assert(self@.locals =~= old(self)@.locals.insert(
                            ep,
                            LocalView {
                                mailbox: old(self)@.locals[ep].mailbox.drop_first(),
                                ..old(self)@.locals[ep]
                            },
                        ));
                    } else {
                        assert(self@.locals =~= old(self)@.locals);
                    }
                }
                message
            },
            None => None,
        }
    }

    /// Groups the endpoints of `ep_list` by the node that hosts them.
    pub fn resolve_node_ep_map(
        &self,
        ep_list: &Vec<EndpointAddr>,
    ) -> (groups: Vec<(NodeId, Vec<EndpointAddr>)>)
        requires
            self.wf(),
        ensures
            groups@.len() == hosts_of(ep_list@, self@.routing).len(),
            forall|g: int|
                0 <= g < groups@.len()
                    ==> (#[trigger] groups@[g]).0 == hosts_of(ep_list@, self@.routing)[g]
                    && groups@[g].1@ == hosted_by(ep_list@, self@.routing, groups@[g].0),
    {
        group_by_host(&self.ep_routing_table, ep_list)
    }

    /// Delivers `message` to the endpoints of `ep_list` that are hosted on
    /// this node, and reports for each of them, in address order, whether it
    /// was reached.  Endpoints hosted elsewhere are left to their hosts.
    pub fn dispatch_message(
        &mut self,
        message: &Message,
        ep_list: &Vec<EndpointAddr>,
    ) -> (results: Vec<(EndpointAddr, Result<(), ()>)>)
        requires
            old(self).wf(),
        ensures
            final(self).wf(),
            final(self)@ == old(self)@.dispatched(message@, ep_list@.to_set()),
            strictly_ascending(reached_of(results@)),
            rows_to_map(reached_of(results@)) == dispatch_outcome(
                old(self)@.locals,
                local_targets(ep_list@.to_set(), old(self)@.routing, old(self)@.host),
            ),
    {
        let outcome = dispatch_to_local(
            &self.ep_routing_table,
            self.host,
            &mut self.local_endpoints,
            message,
            ep_list,
        );
        let mut results: Vec<(EndpointAddr, Result<(), ()>)> = Vec::new();
        let n = outcome.len();
        let mut i: usize = 0;
        while i < n
            invariant
                i <= n,
                n == outcome.rows().len(),
                reached_of(results@) == outcome.rows().take(i as int),
            decreases n - i,
        {
            let ep = outcome.key_at(i);
            let reached = *outcome.value_at(i);
            let ghost before = results@;
            if reached {
                results.push((ep, Ok(())));
            } else {
                results.push((ep, Err(())));
            }
            i += 1;
            proof {
                assert(reached_of(results@) =~= reached_of(before).push((ep, reached)));
                assert(outcome.rows().take(i as int) =~= outcome.rows().take(i - 1).push(
                    outcome.rows()[i - 1],
                ));
            }
        }
        proof {
            assert(outcome.rows().take(n as int) =~= outcome.rows());
        }
        results
    }

    /// Registers a sender that waits for the report of message `id`.
    pub fn wait_ack(&mut self, id: MessageId) -> (handle: WaitAckHandle)
        requires
            old(self).wf(),
        ensures
            final(self).wf(),
            final(self)@ == (TopicView { queue: old(self)@.queue.registered(id), ..old(self)@ }),
            handle.message_id == id,
    {
        let handle = self.queue.wait_ack(id);
        proof {
            self.queue.lemma_wf();
        }
        handle
    }

    /// Resolves the waiter of message `id` with `exception`, if it has one.
    pub fn give_up(
        &mut self,
        id: MessageId,
        exception: WaitAckErrorException,
    ) -> (was_waiting: bool)
        requires
            old(self).wf(),
        ensures
            final(self).wf(),
            final(self)@ == (TopicView {
                queue: old(self)@.queue.resolved(ReportView::failed(id, exception)),
                ..old(self)@
            }),
            was_waiting == old(self)@.queue.waiting.contains(id),
    {
        let was_waiting = self.queue.resolve(WaitAckReport::failed(id, exception));
        proof {
            self.queue.lemma_wf();
        }
        was_waiting
    }

    /// Takes the reports that have resolved waiters since the last call.
    pub fn take_reports(&mut self) -> (reports: Vec<WaitAckReport>)
        requires
            old(self).wf(),
        ensures
            final(self).wf(),
            reports_of(reports@) == old(self)@.queue.reports,
            final(self)@ == (TopicView {
                queue: QueueView { reports: Seq::empty(), ..old(self)@.queue },
                ..old(self)@
            }),
    {
        let reports = self.queue.take_reports();
        proof {
            self.queue.lemma_wf();
        }
        reports
    }

    /// Takes the messages that were flushed since the last call, oldest
    /// first.
    pub fn take_flushed(&mut self) -> (flushed: Vec<HoldMessage>)
        requires
            old(self).wf(),
        ensures
            final(self).wf(),
            holds_of(flushed@) == old(self)@.flushed,
            final(self)@ == (TopicView { flushed: Seq::empty(), ..old(self)@ }),
    {
        let mut flushed: Vec<HoldMessage> = Vec::new();
        std::mem::swap(&mut flushed, &mut self.flushed);
        proof {
            assert(self@.flushed =~= Seq::<HoldView>::empty());
        }
        flushed
    }

    /// Records that endpoint `ep` was seen at time `at`.
    pub fn heartbeat(&mut self, ep: EndpointAddr, at: TimestampSec)
        requires
            old(self).wf(),
        ensures
            final(self).wf(),
            final(self)@ == old(self)@.heartbeat(ep, at),
    {
        let later = match self.ep_latest_active.get(ep) {
            Some(seen) => seen.seconds < at.seconds,
            None => false,
        };
        if later {
            self.ep_latest_active.insert(ep, at);
            proof {
                assert(self@.active.dom() =~= old(self)@.active.dom());
            }
        }
    }

    /// What this node knows about each endpoint, in address order.
    pub fn get_ep_sync(&self) -> (eps: Vec<EpInfo>)
        requires
            self.wf(),
        ensures
            forall|i: int, j: int| 0 <= i < j < eps@.len() ==> eps@[i].addr.bits < eps@[j].addr.bits,
            forall|i: int|
                0 <= i < eps@.len() ==> self@.routing.contains_key((#[trigger] eps@[i]).addr) && eps@[i]@
                    == self@.ep_info(eps@[i].addr),
            forall|ep: EndpointAddr|
                self@.routing.contains_key(ep) ==> exists|i: int|
                    0 <= i < eps@.len() && (#[trigger] eps@[i]).addr == ep,
    {
        let mut eps: Vec<EpInfo> = Vec::new();
        let n = self.ep_routing_table.len();
        let ghost rows = self.ep_routing_table.rows();
        let mut i: usize = 0;
        while i < n
            invariant
                i <= n,
                n == rows.len(),
                rows == self.ep_routing_table.rows(),
                self.wf(),
                eps@.len() == i,
                forall|k: int| 0 <= k < i
                    ==> (#[trigger] eps@[k]).addr == rows[k].0 && eps@[k]@ == self@.ep_info(
                    rows[k].0,
                ),
            decreases n - i,
        {
            let ep = self.ep_routing_table.key_at(i);
            let host = *self.ep_routing_table.value_at(i);
            proof {
                lemma_row_is_entry(rows, i as int);
                assert(self@.routing.dom().contains(ep));
                assert(self@.active.dom().contains(ep));
                assert(self@.interests.dom().contains(ep));
            }
            let latest_active = match self.ep_latest_active.get(ep) {
                Some(seen) => *seen,
                None => TimestampSec { seconds: 0 },
            };
            let interests = match self.ep_interest_map.interest_of(ep) {
                Some(own) => clone_interests(own),
                None => Vec::new(),
            };
            eps.push(EpInfo { addr: ep, host, interests, latest_active });
            i += 1;
        }
        proof {
            assert forall|a: int, b: int| 0 <= a < b < eps@.len() implies eps@[a].addr.bits
                < eps@[b].addr.bits by {
                assert(eps@[a].addr == rows[a].0);
                assert(eps@[b].addr == rows[b].0);
            }
            assert forall|k: int| 0 <= k < eps@.len() implies self@.routing.contains_key(
                (#[trigger] eps@[k]).addr,
            ) && eps@[k]@ == self@.ep_info(eps@[k].addr) by {
                lemma_row_is_entry(rows, k);
            }
            assert forall|ep: EndpointAddr| self@.routing.contains_key(ep) implies exists|k: int|
                0 <= k < eps@.len() && (#[trigger] eps@[k]).addr == ep by {
                lemma_entry_is_row(rows, ep);
                let k = row_index(rows, ep);
                assert(eps@[k].addr == ep);
            }
        }
        eps
    }

    /// Merges what another node knows about endpoints into the tables.
    pub fn load_ep_sync(&mut self, infos: Vec<EpInfo>)
        requires
            old(self).wf(),
        ensures
            final(self).wf(),
            final(self)@ == old(self)@.load_ep_sync(infos_of(infos@)),
            final(self)@.host == old(self)@.host,
            final(self)@.config == old(self)@.config,
    {
        let ghost all = infos_of(infos@);
        let mut i: usize = 0;
        proof {
            assert(all.take(0) =~= Seq::<EpInfoView>::empty());
        }
        while i < infos.len()
            invariant
                i <= infos.len(),
                all == infos_of(infos@),
                self.wf(),
                self@ == old(self)@.load_ep_sync(all.take(i as int)),
                self@.host == old(self)@.host,
                self@.config == old(self)@.config,
            decreases infos.len() - i,
        {
            let info = &infos[i];
            let ghost before = self@;
            let known_later = match self.ep_latest_active.get(info.addr) {
                Some(seen) => seen.seconds >= info.latest_active.seconds,
                None => false,
            };
            if !known_later {
                self.ep_latest_active.insert(info.addr, info.latest_active);
                self.ep_routing_table.insert(info.addr, info.host);
                self.ep_interest_map.delete(info.addr);
                self.ep_interest_map.touch(info.addr);
                proof {
                    assert(self.ep_interest_map@ =~= before.interests.insert(info.addr, Seq::empty()));
                    lemma_with_interests_frame(
                        self.ep_interest_map@,
                        interests_of(info.interests@),
                        info.addr,
                    );
                }
                self.ep_interest_map.insert_all(&info.interests, info.addr);
                proof {
                    assert(self@.routing.dom() =~= self@.interests.dom());
                    assert(self@.routing.dom() =~= self@.active.dom());
                }
            }
            i += 1;
            proof {
                assert(all.take(i as int).drop_last() =~= all.take(i - 1));
                assert(all.take(i as int).last() == info@);
                assert(self@ == before.ep_synced(info@));
            }
        }
        proof {
            assert(all.take(infos.len() as int) =~= all);
        }
    }
}

impl TopicData {
    /// The replicated state of the topic: its configuration, its three
    /// endpoint tables and its held messages.  What is local to this node
    /// stays out.
    pub fn snapshot(&self) -> (snapshot: TopicSnapshot)
        requires
            self.wf(),
        ensures
            snapshot.wf(),
            snapshot@ == self@.snapshot(),
    {
        proof {
            self.queue.lemma_wf();
        }
        let ep_routing_table = self.ep_routing_table.duplicate();
        let ep_interest_map = self.ep_interest_map.duplicate();
        let ep_latest_active = self.ep_latest_active.duplicate();
        let queue = self.queue.durable();
        proof {
            assert(self@.queue.ids()
                == durables_of(queue@).map_values(|hold: HoldView| hold.message.id));
        }
        TopicSnapshot {
            config: self.config.duplicate(),
            ep_routing_table,
            ep_interest_map,
            ep_latest_active,
            queue,
        }
    }

    /// Rebuilds a topic on `host` from a snapshot.
    ///
    /// The held messages enter the queue in their order.  Nothing is
    /// attached to the new topic and nobody waits on it, so no message is
    /// dispatched and no waiter is resolved; complete messages at the head
    /// are flushed.
    pub fn from_snapshot(snapshot: TopicSnapshot, host: NodeId) -> (topic: Self)
        requires
            snapshot.wf(),
        ensures
            topic.wf(),
            topic@ == TopicView::from_snapshot(snapshot@, host),
    {
        let mut queue = MessageQueue::new(initial_capacity(&snapshot.config));
        queue.push_durable(snapshot.queue);
        let flushed = queue.flush();
        let topic = TopicData {
            config: snapshot.config,
            host,
            local_endpoints: EpTable::new(),
            ep_routing_table: snapshot.ep_routing_table,
            ep_interest_map: snapshot.ep_interest_map,
            ep_latest_active: snapshot.ep_latest_active,
            queue,
            flushed,
        };
        proof {
            topic.queue.lemma_wf();
            assert(topic@.locals =~= Map::<EndpointAddr, LocalView>::empty());
            assert(Seq::<HoldView>::empty() + holds_of(flushed@) =~= holds_of(flushed@));
        }
        topic
    }

    /// Installs a snapshot over this topic.
    ///
    /// The tables and the held messages are replaced by those of the
    /// snapshot.  The local endpoints and the waiters stay.  Every message is
    /// then polled, which dispatches it to the recipients attached here, and
    /// the queue is flushed.
    pub fn apply_snapshot(&mut self, snapshot: TopicSnapshot)
        requires
            old(self).wf(),
            snapshot.wf(),
        ensures
            final(self).wf(),
            final(self)@ == old(self)@.apply_snapshot(snapshot@),
    {
        self.ep_routing_table = snapshot.ep_routing_table;
        self.ep_interest_map = snapshot.ep_interest_map;
        self.ep_latest_active = snapshot.ep_latest_active;
        self.queue.clear();
        self.queue.push_durable(snapshot.queue);
        self.queue.poll_all(&self.ep_routing_table, self.host, &mut self.local_endpoints);
        let ghost before = self.flushed@;
        let mut done = self.queue.flush();
        let ghost removed = done@;
        self.flushed.append(&mut done);
        proof {
            self.queue.lemma_wf();
            assert(holds_of(self.flushed@) =~= holds_of(before) + holds_of(removed));
        }
    }
}

impl TopicData {
    /// Records that the reporting endpoints of `update` were seen at time
    /// `at`.
    pub fn seen_all(&mut self, update: &MessageStateUpdate, at: TimestampSec)
        requires
            old(self).wf(),
        ensures
            final(self).wf(),
            final(self)@ == old(self)@.seen_all(update.status@, at),
            final(self)@.host == old(self)@.host,
            final(self)@.config == old(self)@.config,
    {
        let mut i: usize = 0;
        proof {
            assert(update.status@.take(0) =~= Seq::<(EndpointAddr, MessageStatusKind)>::empty());
        }
        while i < update.status.len()
            invariant
                i <= update.status.len(),
                self.wf(),
                self@ == old(self)@.seen_all(update.status@.take(i as int), at),
                self@.host == old(self)@.host,
                self@.config == old(self)@.config,
            decreases update.status.len() - i,
        {
            self.heartbeat(update.status[i].0, at);
            i += 1;
            proof {
                assert(update.status@.take(i as int).drop_last() =~= update.status@.take(i - 1));
            }
        }
        proof {
            assert(update.status@.take(update.status.len() as int) =~= update.status@);
        }
    }

    /// Resolves every waiter with `MessageDropped` and drops every held
    /// message.
    pub fn unload(&mut self)
        requires
            old(self).wf(),
        ensures
            final(self).wf(),
            final(self)@ == old(self)@.unloaded(),
    {
        self.queue.drop_all(WaitAckErrorException::MessageDropped);
        proof {
            self.queue.lemma_wf();
        }
    }
}

/// A topic as the registry of a node holds it.
#[derive(Debug)]
pub struct Topic {
    /// The node that holds the topic.
    node: NodeId,
    inner: TopicData,
}

impl View for Topic {
    type V = TopicView;

    closed spec fn view(&self) -> TopicView {
        self.inner@
    }
}

impl Topic {
    /// The state is well formed, and it is the state of a topic on `node`.
    pub closed spec fn wf(&self) -> bool {
        &&& self.inner.wf()
        &&& self.inner.host == self.node
    }

    /// A well-formed topic has a well-formed value.
    pub proof fn lemma_wf(&self)
        requires
            self.wf(),
        ensures
            self@.wf(),
    {
    }

    /// Wraps the state of a topic for the registry of its node.
    pub fn new(inner: TopicData) -> (topic: Self)
        requires
            inner.wf(),
        ensures
            topic.wf(),
            topic@ == inner@,
    {
        Topic { node: inner.host, inner }
    }

    /// The node that holds the topic.
    pub fn node(&self) -> (node: NodeId)
        requires
            self.wf(),
        ensures
            node == self@.host,
    {
        self.node
    }

    /// The code of the topic.
    pub fn code(&self) -> (code: &TopicCode)
        ensures
            code@ == self@.config.code,
    {
        self.inner.code()
    }

    /// The state of the topic.
    pub fn data(&self) -> (data: &TopicData)
        requires
            self.wf(),
        ensures
            data.wf(),
            data@ == self@,
    {
        &self.inner
    }

    /// The state of the topic, to be worked on in place.
    ///
    /// The topic stays well formed if its state is well formed when the
    /// work is done; no operation on the state changes the node that holds
    /// it.
    pub fn data_mut(&mut self) -> (data: &mut TopicData)
        requires
            old(self).wf(),
        ensures
            data.wf(),
            data@ == old(self)@,
            final(self)@ == final(data)@,
            final(data).wf() && final(data)@.host == data@.host ==> final(self).wf(),
    {
        &mut self.inner
    }

    /// A reference to this topic that does not keep it alive: it names the
    /// topic, and is resolved through the registry of the node.
    pub fn reference(&self) -> (reference: TopicRef)
        requires
            self.wf(),
        ensures
            reference.node == self@.host,
            reference.code@ == self@.config.code,
    {
        TopicRef { node: self.node, code: self.inner.code().duplicate() }
    }

    /// Registers a sender that waits for the report of message
    /// `message_id`.
    pub fn wait_ack(&mut self, message_id: MessageId) -> (handle: WaitAckHandle)
        requires
            old(self).wf(),
        ensures
            final(self).wf(),
            final(self)@ == old(self)@.wait_ack(message_id),
            handle.message_id == message_id,
    {
        self.inner.wait_ack(message_id)
    }

    /// Prepares the sending of `message`: registers the waiter of its
    /// sender, and returns the ticket of the sender and the log entry that
    /// has to be proposed.  If the proposal fails, call
    /// [`Topic::commit_failed`].
    pub fn send_message(&mut self, message: Message) -> (sending: (WaitAckHandle, DelegateMessage))
        requires
            old(self).wf(),
        ensures
            final(self).wf(),
            final(self)@ == old(self)@.wait_ack(message@.id),
            sending.0.message_id == message@.id,
            sending.1.message == message,
            sending.1.topic@ == old(self)@.config.code,
    {
        let handle = self.inner.wait_ack(message.id());
        (handle, DelegateMessage { topic: self.inner.code().duplicate(), message })
    }

    /// Resolves the waiter of message `message_id` with `CommitFailed`,
    /// after the proposal of the message was turned down.
    pub fn commit_failed(&mut self, message_id: MessageId) -> (was_waiting: bool)
        requires
            old(self).wf(),
        ensures
            final(self).wf(),
            final(self)@ == old(self)@.give_up(message_id, WaitAckErrorException::CommitFailed),
            was_waiting == old(self)@.queue.waiting.contains(message_id),
    {
        self.inner.give_up(message_id, WaitAckErrorException::CommitFailed)
    }

    /// Attaches a new local endpoint with the given address and interests,
    /// and returns the log entry that brings it online when it is
    /// committed.
    pub fn create_endpoint(
        &mut self,
        address: EndpointAddr,
        interests: Vec<Interest>,
        at: TimestampSec,
    ) -> (online: EndpointOnline)
        requires
            old(self).wf(),
        ensures
            final(self).wf(),
            final(self)@ == old(self)@.create_endpoint(address, interests_of(interests@)),
            online.topic_code@ == old(self)@.config.code,
            online.endpoint == address,
            interests_of(online.interests@) == interests_of(interests@),
            online.host == old(self)@.host,
            online.at == at,
    {
        let copy = clone_interests(&interests);
        let local = LocalEndpoint::new(address, interests);
        self.inner.attach_local_ep(local);
        EndpointOnline {
            topic_code: self.inner.code().duplicate(),
            endpoint: address,
            interests: copy,
            host: self.node,
            at,
        }
    }

    /// Detaches the local endpoint `address` again, after the proposal that
    /// should have brought it online was turned down.  The three replicated
    /// tables are not touched: the endpoint never entered them.
    pub fn create_endpoint_failed(&mut self, address: EndpointAddr) -> (detached: Option<LocalEndpoint>)
        requires
            old(self).wf(),
        ensures
            final(self).wf(),
            final(self)@ == old(self)@.create_endpoint_failed(address),
            final(self)@ == (TopicView { locals: old(self)@.locals.remove(address), ..old(self)@ }),
            detached is Some <==> old(self)@.locals.contains_key(address),
            detached matches Some(local) ==> local@ == old(self)@.locals[address],
    {
        self.inner.detach_local_ep(address)
    }

    /// Deletes the local endpoint `addr`: detaches it, takes it out of the
    /// three tables, and returns the notice that tells the other nodes.
    pub fn delete_endpoint(&mut self, addr: EndpointAddr) -> (offline: EndpointOffline)
        requires
            old(self).wf(),
        ensures
            final(self).wf(),
            final(self)@ == old(self)@.delete_endpoint(addr),
            offline.endpoint == addr,
            offline.host == old(self)@.host,
            offline.topic_code@ == old(self)@.config.code,
    {
        self.inner.ep_offline(addr);
        self.inner.detach_local_ep(addr);
        EndpointOffline {
            endpoint: addr,
            host: self.node,
            topic_code: self.inner.code().duplicate(),
        }
    }

    /// See [`TopicData::dispatch_message`].
    pub fn dispatch_message(
        &mut self,
        message: &Message,
        ep_list: &Vec<EndpointAddr>,
    ) -> (results: Vec<(EndpointAddr, Result<(), ()>)>)
        requires
            old(self).wf(),
        ensures
            final(self).wf(),
            final(self)@ == old(self)@.dispatched(message@, ep_list@.to_set()),
            strictly_ascending(reached_of(results@)),
            rows_to_map(reached_of(results@)) == dispatch_outcome(
                old(self)@.locals,
                local_targets(ep_list@.to_set(), old(self)@.routing, old(self)@.host),
            ),
    {
        self.inner.dispatch_message(message, ep_list)
    }

    /// See [`TopicData::hold_new_message`].
    pub fn hold_new_message(
        &mut self,
        message: Message,
    ) -> (admitted: Result<(), WaitAckErrorException>)
        requires
            old(self).wf(),
        ensures
            final(self).wf(),
            final(self)@ == old(self)@.hold_new_message(message@),
            admitted == old(self)@.admission(message@),
    {
        self.inner.hold_new_message(message)
    }

    /// See [`TopicData::update_and_flush`].
    pub fn update_and_flush(&mut self, update: MessageStateUpdate)
        requires
            old(self).wf(),
        ensures
            final(self).wf(),
            final(self)@ == old(self)@.update_and_flush(update.message_id, update.status@),
    {
        self.inner.update_and_flush(update)
    }

    /// See [`TopicData::ep_online`].
    pub fn ep_online(
        &mut self,
        endpoint: EndpointAddr,
        interests: Vec<Interest>,
        host: NodeId,
        at: TimestampSec,
    )
        requires
            old(self).wf(),
        ensures
            final(self).wf(),
            final(self)@ == old(self)@.ep_online(endpoint, interests_of(interests@), host, at),
            final(self)@.host == old(self)@.host,
            final(self)@.config == old(self)@.config,
    {
        self.inner.ep_online(endpoint, interests, host, at)
    }

    /// See [`TopicData::seen_all`].
    pub fn seen_all(&mut self, update: &MessageStateUpdate, at: TimestampSec)
        requires
            old(self).wf(),
        ensures
            final(self).wf(),
            final(self)@ == old(self)@.seen_all(update.status@, at),
            final(self)@.host == old(self)@.host,
            final(self)@.config == old(self)@.config,
    {
        self.inner.seen_all(update, at)
    }

    /// See [`TopicData::ep_offline`].
    pub fn ep_offline(&mut self, ep: EndpointAddr)
        requires
            old(self).wf(),
        ensures
            final(self).wf(),
            final(self)@ == old(self)@.ep_offline(ep),
    {
        self.inner.ep_offline(ep)
    }

    /// See [`TopicData::update_ep_interest`].
    pub fn update_ep_interest(&mut self, ep: EndpointAddr, interests: Vec<Interest>)
        requires
            old(self).wf(),
        ensures
            final(self).wf(),
            final(self)@ == old(self)@.update_ep_interest(ep, interests_of(interests@)),
    {
        self.inner.update_ep_interest(ep, interests)
    }

    /// See [`TopicData::apply_snapshot`].
    pub fn apply_snapshot(&mut self, snapshot: TopicSnapshot)
        requires
            old(self).wf(),
            snapshot.wf(),
        ensures
            final(self).wf(),
            final(self)@ == old(self)@.apply_snapshot(snapshot@),
    {
        self.inner.apply_snapshot(snapshot)
    }

    /// Takes the oldest message out of the mailbox of the local endpoint
    /// `ep`.
    pub fn next_message(&mut self, ep: EndpointAddr) -> (message: Option<Message>)
        requires
            old(self).wf(),
        ensures
            final(self).wf(),
            message is Some <==> old(self)@.locals.contains_key(ep)
                && old(self)@.locals[ep].mailbox.len()
                > 0,
            message matches Some(m) ==> m@ == old(self)@.locals[ep].mailbox[0] && final(self)@ == (
            TopicView {
                locals: old(self)@.locals.insert(
                    ep,
                    LocalView {
                        mailbox: old(self)@.locals[ep].mailbox.drop_first(),
                        ..old(self)@.locals[ep]
                    },
                ),
                ..old(self)@
            }),
            message is None ==> final(self)@ == old(self)@,
    {
        self.inner.next_message(ep)
    }

    /// Takes the reports that have resolved waiters since the last call.
    pub fn take_reports(&mut self) -> (reports: Vec<WaitAckReport>)
        requires
            old(self).wf(),
        ensures
            final(self).wf(),
            reports_of(reports@) == old(self)@.queue.reports,
            final(self)@ == (TopicView {
                queue: QueueView { reports: Seq::empty(), ..old(self)@.queue },
                ..old(self)@
            }),
    {
        self.inner.take_reports()
    }

    /// Takes the messages that were flushed since the last call, oldest
    /// first.
    pub fn take_flushed(&mut self) -> (flushed: Vec<HoldMessage>)
        requires
            old(self).wf(),
        ensures
            final(self).wf(),
            holds_of(flushed@) == old(self)@.flushed,
            final(self)@ == (TopicView { flushed: Seq::empty(), ..old(self)@ }),
    {
        self.inner.take_flushed()
    }

    /// Resolves every waiter with `MessageDropped` and drops every held
    /// message.
    pub fn unload(&mut self)
        requires
            old(self).wf(),
        ensures
            final(self).wf(),
            final(self)@ == old(self)@.unloaded(),
    {
        self.inner.unload()
    }
}

/// A reference from a local endpoint to its topic that does not keep the
/// topic alive.
#[derive(Debug)]
pub struct TopicRef {
    pub node: NodeId,
    pub code: TopicCode,
}

impl TopicRef {
    /// The topic that this reference names, looked up in the registry of
    /// `node`.  There is none if the reference belongs to another node, or
    /// if the topic was unloaded: the endpoint that holds the reference is
    /// then orphaned.
    pub fn upgrade<'a>(&self, node: &'a Node) -> (topic: Option<&'a Topic>)
        requires
            node.wf(),
        ensures
            topic is Some <==> node@.id == self.node && node@.has_topic(self.code@),
            topic matches Some(t) ==> t.wf() && t@ == node@.topic(self.code@),
    {
        if node.is(self.node) {
            node.get_topic(&self.code)
        } else {
            None
        }
    }
}

} // verus!
