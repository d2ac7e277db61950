//! Endpoints, messages and the acknowledgement statuses that connect them.
use vstd::prelude::*;
use crate::TimestampSec;
use crate::protocol::interest::{interests_of, Interest, Subject};
use crate::protocol::node::NodeId;
use crate::protocol::table::EpTable;
use crate::protocol::topic::TopicCode;
use crate::util::bytes_to_vec;

verus! {

/// Globally unique address of one subscriber attachment.
#[derive(Clone, Copy, Debug, PartialEq, Eq, Structural, PartialOrd, Ord, Hash)]
pub struct EndpointAddr {
    pub bits: u128,
}

impl EndpointAddr {
    pub fn new(bits: u128) -> (addr: Self)
        ensures
            addr.bits == bits,
    {
        EndpointAddr { bits }
    }

    /// Position of this address on the hash ring.
    pub open spec fn spec_hash64(self) -> u64 {
        crate::util::fold64(self.bits)
    }

    #[verifier::when_used_as_spec(spec_hash64)]
    pub fn hash64(self) -> (h: u64)
        ensures
            h == self.spec_hash64(),
    {
        crate::util::hash64(self.bits)
    }
}

/// Unique identifier of a message.
#[derive(Clone, Copy, Debug, PartialEq, Eq, Structural, PartialOrd, Ord, Hash)]
pub struct MessageId {
    pub bits: u128,
}

impl MessageId {
    pub fn new(bits: u128) -> (id: Self)
        ensures
            id.bits == bits,
    {
        MessageId { bits }
    }

    /// Position of this identifier on the hash ring.
    pub open spec fn spec_hash64(self) -> u64 {
        crate::util::fold64(self.bits)
    }

    #[verifier::when_used_as_spec(spec_hash64)]
    pub fn hash64(self) -> (h: u64)
        ensures
            h == self.spec_hash64(),
    {
        crate::util::hash64(self.bits)
    }
}

/// How the recipients of a message are chosen.
#[derive(Clone, Copy, Debug, PartialEq, Eq, Structural, Hash)]
pub enum MessageTargetKind {
    /// Every matching endpoint, including those that come online while the
    /// message is held.
    Durable,
    /// Every endpoint that matches at admission.
    Online,
    /// Reserved; admission of such a message is refused.
    Available,
    /// One matching endpoint, picked on the hash ring.
    Push,
}

/// The status that one endpoint has to reach before the message counts as
/// delivered to it.
#[derive(Clone, Copy, Debug, PartialEq, Eq, Structural, Hash)]
pub enum MessageAckExpectKind {
    /// No acknowledgement is asked for.
    Unconfirmed,
    Sent,
    Received,
    Processed,
}

impl MessageAckExpectKind {
    /// The level that a status has to reach.
    pub open spec fn spec_level(self) -> nat {
        match self {
            MessageAckExpectKind::Unconfirmed => 0,
            MessageAckExpectKind::Sent => 1,
            MessageAckExpectKind::Received => 2,
            MessageAckExpectKind::Processed => 3,
        }
    }

    pub fn level(self) -> (l: u8)
        ensures
            l == self.spec_level(),
    {
        match self {
            MessageAckExpectKind::Unconfirmed => 0,
            MessageAckExpectKind::Sent => 1,
            MessageAckExpectKind::Received => 2,
            MessageAckExpectKind::Processed => 3,
        }
    }
}

/// Delivery status of one message at one endpoint.
///
/// The statuses of a successful delivery form the chain
/// `Unsent < Sent < Received < Processed`.  `Failed` and `Unreachable` end a
/// delivery that has not been processed.  A status only ever moves upwards.
#[derive(Clone, Copy, Debug, PartialEq, Eq, Structural, Hash)]
pub enum MessageStatusKind {
    Unsent,
    Sent,
    Received,
    Processed,
    Failed,
    Unreachable,
}

impl MessageStatusKind {
    /// True for the two statuses of a delivery that has failed for good.
    pub open spec fn spec_is_failure(self) -> bool {
        self is Failed || self is Unreachable
    }

    #[verifier::when_used_as_spec(spec_is_failure)]
    pub fn is_failure(self) -> (yes: bool)
        ensures
            yes == self.spec_is_failure(),
    {
        match self {
            MessageStatusKind::Failed | MessageStatusKind::Unreachable => true,
            _ => false,
        }
    }

    pub open spec fn spec_is_unsent(self) -> bool {
        self is Unsent
    }

    #[verifier::when_used_as_spec(spec_is_unsent)]
    pub fn is_unsent(self) -> (yes: bool)
        ensures
            yes == self.spec_is_unsent(),
    {
        match self {
            MessageStatusKind::Unsent => true,
            _ => false,
        }
    }

    /// How far the delivery has come; both failures stand above the chain.
    pub open spec fn spec_level(self) -> nat {
        match self {
            MessageStatusKind::Unsent => 0,
            MessageStatusKind::Sent => 1,
            MessageStatusKind::Received => 2,
            MessageStatusKind::Processed => 3,
            MessageStatusKind::Failed => 4,
            MessageStatusKind::Unreachable => 4,
        }
    }

    pub fn level(self) -> (l: u8)
        ensures
            l == self.spec_level(),
    {
        match self {
            MessageStatusKind::Unsent => 0,
            MessageStatusKind::Sent => 1,
            MessageStatusKind::Received => 2,
            MessageStatusKind::Processed => 3,
            MessageStatusKind::Failed => 4,
            MessageStatusKind::Unreachable => 4,
        }
    }

    /// True when `next` is strictly above this status: further along the
    /// chain, or a failure of a delivery that is not yet processed.
    pub open spec fn spec_precedes(self, next: MessageStatusKind) -> bool {
        self.spec_level() < next.spec_level() && !(self is Processed)
    }

    #[verifier::when_used_as_spec(spec_precedes)]
    pub fn precedes(self, next: MessageStatusKind) -> (yes: bool)
        ensures
            yes == self.spec_precedes(next),
    {
        let processed = match self {
            MessageStatusKind::Processed => true,
            _ => false,
        };
        self.level() < next.level() && !processed
    }

    /// The order of the statuses: equal, or strictly above.
    pub open spec fn at_most(self, other: MessageStatusKind) -> bool {
        self == other || self.spec_precedes(other)
    }

    /// True when this status settles a message that expects `expect`: the
    /// expected level is reached, or the delivery has failed.
    pub open spec fn spec_fulfills(self, expect: MessageAckExpectKind) -> bool {
        self.spec_is_failure() || self.spec_level() >= expect.spec_level()
    }

    #[verifier::when_used_as_spec(spec_fulfills)]
    pub fn fulfills(self, expect: MessageAckExpectKind) -> (yes: bool)
        ensures
            yes == self.spec_fulfills(expect),
    {
        self.is_failure() || self.level() >= expect.level()
    }
}

/// The order of the statuses is reflexive, antisymmetric and transitive.
pub proof fn lemma_status_order(a: MessageStatusKind, b: MessageStatusKind, c: MessageStatusKind)
    ensures
        a.at_most(a),
        a.at_most(b) && b.at_most(a) ==> a == b,
        a.at_most(b) && b.at_most(c) ==> a.at_most(c),
        MessageStatusKind::Unsent.at_most(a),
{
}

/// What a message says about itself.
#[derive(Debug)]
pub struct MessageHeader {
    pub message_id: MessageId,
    pub ack_kind: MessageAckExpectKind,
    pub target_kind: MessageTargetKind,
    pub subjects: Vec<Subject>,
}

/// A message: its header and its payload.
#[derive(Debug)]
pub struct Message {
    pub header: MessageHeader,
    pub payload: Vec<u8>,
}

/// The mathematical value of a message.
pub struct MessageView {
    pub id: MessageId,
    pub ack_kind: MessageAckExpectKind,
    pub target_kind: MessageTargetKind,
    pub subjects: Seq<Seq<Seq<u8>>>,
    pub payload: Seq<u8>,
}

/// The subjects held by a vector, each as its segments.
pub open spec fn subjects_of(subjects: Seq<Subject>) -> Seq<Seq<Seq<u8>>> {
    subjects.map_values(|subject: Subject| subject@)
}

/// A deep copy of a list of subjects.
pub fn clone_subjects(subjects: &Vec<Subject>) -> (copy: Vec<Subject>)
    ensures
        subjects_of(copy@) == subjects_of(subjects@),
{
    let mut copy: Vec<Subject> = Vec::new();
    let mut i: usize = 0;
    while i < subjects.len()
        invariant
            i <= subjects.len(),
            copy.len() == i,
            forall|k: int| 0 <= k < i ==> copy@[k]@ == subjects@[k]@,
        decreases subjects.len() - i,
    {
        copy.push(subjects[i].clone());
        i += 1;
    }
    assert(subjects_of(copy@) =~= subjects_of(subjects@));
    copy
}

impl View for Message {
    type V = MessageView;

    open spec fn view(&self) -> MessageView {
        MessageView {
            id: self.header.message_id,
            ack_kind: self.header.ack_kind,
            target_kind: self.header.target_kind,
            subjects: subjects_of(self.header.subjects@),
            payload: self.payload@,
        }
    }
}

impl Message {
    pub fn new(header: MessageHeader, payload: Vec<u8>) -> (message: Self)
        ensures
            message.header == header,
            message.payload == payload,
    {
        Message { header, payload }
    }

    pub fn id(&self) -> (id: MessageId)
        ensures
            id == self@.id,
    {
        self.header.message_id
    }

    pub fn ack_kind(&self) -> (kind: MessageAckExpectKind)
        ensures
            kind == self@.ack_kind,
    {
        self.header.ack_kind
    }

    pub fn target_kind(&self) -> (kind: MessageTargetKind)
        ensures
            kind == self@.target_kind,
    {
        self.header.target_kind
    }

    pub fn clone(&self) -> (copy: Self)
        ensures
            copy@ == self@,
    {
        Message {
            header: MessageHeader {
                message_id: self.header.message_id,
                ack_kind: self.header.ack_kind,
                target_kind: self.header.target_kind,
                subjects: clone_subjects(&self.header.subjects),
            },
            payload: bytes_to_vec(self.payload.as_slice()),
        }
    }
}

/// The messages held by a vector, each as its value.
pub open spec fn messages_of(messages: Seq<Message>) -> Seq<MessageView> {
    messages.map_values(|message: Message| message@)
}

/// An endpoint that is attached to this node: its interests and the mailbox
/// into which the topic delivers its messages.
#[derive(Debug)]
pub struct LocalEndpoint {
    pub address: EndpointAddr,
    pub interest: Vec<Interest>,
    pub mail_box: Vec<Message>,
}

/// The mathematical value of a local endpoint.
pub struct LocalView {
    pub address: EndpointAddr,
    pub interests: Seq<Seq<Seq<u8>>>,
    /// The delivered messages that the endpoint has not taken yet, oldest
    /// first.
    pub mailbox: Seq<MessageView>,
}

impl LocalView {
    /// The endpoint after `message` was delivered to it.
    pub open spec fn received(self, message: MessageView) -> LocalView {
        LocalView { mailbox: self.mailbox.push(message), ..self }
    }
}

impl View for LocalEndpoint {
    type V = LocalView;

    open spec fn view(&self) -> LocalView {
        LocalView {
            address: self.address,
            interests: interests_of(self.interest@),
            mailbox: messages_of(self.mail_box@),
        }
    }
}

impl LocalEndpoint {
    /// A local endpoint with an empty mailbox.
    pub fn new(address: EndpointAddr, interest: Vec<Interest>) -> (ep: Self)
        ensures
            ep@ == (LocalView {
                address,
                interests: interests_of(interest@),
                mailbox: Seq::<MessageView>::empty(),
            }),
    {
        let ep = LocalEndpoint { address, interest, mail_box: Vec::new() };
        assert(messages_of(ep.mail_box@) =~= Seq::<MessageView>::empty());
        ep
    }

    /// Delivers `message` to the mailbox.
    pub fn push_message(&mut self, message: Message)
        ensures
            final(self)@ == old(self)@.received(message@),
    {
        self.mail_box.push(message);
        assert(messages_of(self.mail_box@) =~= messages_of(old(self).mail_box@).push(message@));
    }

    /// Takes the oldest message out of the mailbox.
    pub fn next_message(&mut self) -> (message: Option<Message>)
        ensures
            old(self)@.mailbox.len() == 0 ==> message is None && final(self)@ == old(self)@,
            old(self)@.mailbox.len() > 0 ==> message is Some && message.unwrap()@ == old(
                self,
            )@.mailbox[0] && final(self)@ == (LocalView {
                mailbox: old(self)@.mailbox.drop_first(),
                ..old(self)@
            }),
    {
        if self.mail_box.len() == 0 {
            None
        } else {
            let message = self.mail_box.remove(0);
            assert(messages_of(self.mail_box@) =~= messages_of(old(self).mail_box@).drop_first());
            Some(message)
        }
    }

    /// Number of messages in the mailbox.
    pub fn pending(&self) -> (n: usize)
        ensures
            n == self@.mailbox.len(),
    {
        self.mail_box.len()
    }
}

/// Which node hosts which endpoint.
pub type Routing = Map<EndpointAddr, NodeId>;

/// The local endpoints of a node, by address.
pub type Locals = Map<EndpointAddr, LocalView>;

/// The values of the local endpoints of a table.
pub open spec fn locals_of(table: Map<EndpointAddr, LocalEndpoint>) -> Locals {
    Map::new(|ep: EndpointAddr| table.contains_key(ep), |ep: EndpointAddr| table[ep]@)
}

/// True when the routing table says that `ep` is hosted by `host`.
pub open spec fn hosted(routing: Routing, host: NodeId, ep: EndpointAddr) -> bool {
    routing.contains_key(ep) && routing[ep] == host
}

/// The endpoints among `eps` that are hosted by `host`.
pub open spec fn local_targets(
    eps: Set<EndpointAddr>,
    routing: Routing,
    host: NodeId,
) -> Set<EndpointAddr> {
    Set::new(|ep: EndpointAddr| eps.contains(ep) && hosted(routing, host, ep))
}

/// The local endpoints after `message` was delivered to each of `targets`
/// that is attached.
pub open spec fn delivered(
    locals: Locals,
    targets: Set<EndpointAddr>,
    message: MessageView,
) -> Locals {
    Map::new(
        |ep: EndpointAddr| locals.contains_key(ep),
        |ep: EndpointAddr|
            if targets.contains(ep) {
                locals[ep].received(message)
            } else {
                locals[ep]
            },
    )
}

/// What a dispatch to `targets` reports: for each target, whether it is
/// attached and so has got the message.
pub open spec fn dispatch_outcome(
    locals: Locals,
    targets: Set<EndpointAddr>,
) -> Map<EndpointAddr, bool> {
    Map::new(|ep: EndpointAddr| targets.contains(ep), |ep: EndpointAddr| locals.contains_key(ep))
}

/// Delivers `message` to each endpoint of `ep_list` that `routing` places on
/// `host`, and reports in address order which of them were reached.
///
/// An endpoint that the list names more than once is served once.  An
/// endpoint that is hosted here but not attached is reported as not reached.
pub fn dispatch_to_local(
    routing: &EpTable<NodeId>,
    host: NodeId,
    locals: &mut EpTable<LocalEndpoint>,
    message: &Message,
    ep_list: &Vec<EndpointAddr>,
) -> (results: EpTable<bool>)
    requires
        routing.wf(),
        old(locals).wf(),
    ensures
        final(locals).wf(),
        locals_of(final(locals)@) == delivered(
            locals_of(old(locals)@),
            local_targets(ep_list@.to_set(), routing@, host),
            message@,
        ),
        results.wf(),
        results@ == dispatch_outcome(
            locals_of(old(locals)@),
            local_targets(ep_list@.to_set(), routing@, host),
        ),
{
    let mut results: EpTable<bool> = EpTable::new();
    let ghost before = locals_of(locals@);
    let mut i: usize = 0;
    proof {
        assert(ep_list@.take(0).to_set() =~= Set::<EndpointAddr>::empty());
        assert(local_targets(Set::<EndpointAddr>::empty(), routing@, host) =~= Set::<
            EndpointAddr,
        >::empty());
        assert(results@ =~= dispatch_outcome(before, Set::<EndpointAddr>::empty()));
        assert(locals_of(locals@) =~= delivered(before, Set::<EndpointAddr>::empty(), message@));
    }
    while i < ep_list.len()
        invariant
            i <= ep_list.len(),
            routing.wf(),
            locals.wf(),
            results.wf(),
            before == locals_of(old(locals)@),
            locals_of(locals@) == delivered(
                before,
                local_targets(ep_list@.take(i as int).to_set(), routing@, host),
                message@,
            ),
            results@ == dispatch_outcome(
                before,
                local_targets(ep_list@.take(i as int).to_set(), routing@, host),
            ),
        decreases ep_list.len() - i,
    {
        let ep = ep_list[i];
        let ghost done = ep_list@.take(i as int).to_set();
        let ghost targets = local_targets(done, routing@, host);
        proof {
            assert(ep_list@.take(i + 1) =~= ep_list@.take(i as int).push(ep));
            ep_list@.take(i as int).lemma_push_to_set_commute(ep);
            assert(ep_list@.take(i + 1).to_set() =~= done.insert(ep));
        }
        let ghost next_targets = local_targets(done.insert(ep), routing@, host);
        let here = match routing.get(ep) {
            Some(node) => node.bits == host.bits,
            None => false,
        };
        if here && !results.contains_key(ep) {
            proof {
                assert(!targets.contains(ep));
                assert(next_targets =~= targets.insert(ep));
            }
            match locals.position(ep) {
                Some(at) => {
                    let ghost table_before = locals@;
                    let mailbox = locals.value_at_mut(at);
                    mailbox.push_message(message.clone());
                    results.insert(ep, true);
                    proof {
                        assert(locals_of(locals@) =~= delivered(before, next_targets, message@)) by {
                            assert forall|other: EndpointAddr|
                                locals_of(locals@).contains_key(other) implies #[trigger] locals_of(
                                locals@,
                            )[other] == delivered(before, next_targets, message@)[other] by {
                                if other != ep {
                                    assert(locals@[other] == table_before[other]);
                                    assert(locals_of(table_before)[other]
                                        == delivered(before, targets, message@)[other]);
                                } else {
                                    assert(locals_of(table_before)[ep] == before[ep]);
                                }
                            }
                            assert(locals_of(locals@).dom()
                                =~= delivered(before, next_targets, message@).dom()) by {
                                assert(locals_of(table_before).dom() =~= before.dom());
                                assert(locals@.dom() =~= table_before.dom());
                            }
                        }
                        assert(results@ =~= dispatch_outcome(before, next_targets)) by {
                            assert(locals_of(table_before).dom() =~= before.dom());
                        }
                    }
                },
                None => {
                    results.insert(ep, false);
                    proof {
                        assert(locals_of(locals@).dom() =~= before.dom());
                        assert(locals_of(locals@) =~= delivered(before, next_targets, message@));
                        assert(results@ =~= dispatch_outcome(before, next_targets));
                    }
                },
            }
        } else {
            proof {
                assert(next_targets =~= targets) by {
                    if here {
                        assert(results@.contains_key(ep));
                        assert(targets.contains(ep));
                    }
                }
            }
        }
        i += 1;
    }
    assert(ep_list@.take(ep_list.len() as int) =~= ep_list@);
    results
}

/// A report that endpoints have reached new statuses for one message.
#[derive(Debug)]
pub struct MessageStateUpdate {
    pub message_id: MessageId,
    /// The reporting endpoints with their new statuses, in the order in
    /// which they are applied.
    pub status: Vec<(EndpointAddr, MessageStatusKind)>,
}

impl MessageStateUpdate {
    pub fn new(
        message_id: MessageId,
        status: Vec<(EndpointAddr, MessageStatusKind)>,
    ) -> (update: Self)
        ensures
            update.message_id == message_id,
            update.status == status,
    {
        MessageStateUpdate { message_id, status }
    }

    /// An update that reports nothing; applying it polls the message.
    pub fn new_empty(message_id: MessageId) -> (update: Self)
        ensures
            update.message_id == message_id,
            update.status@ == Seq::<(EndpointAddr, MessageStatusKind)>::empty(),
    {
        MessageStateUpdate { message_id, status: Vec::new() }
    }
}

/// What one node tells another about an endpoint.
#[derive(Debug)]
pub struct EpInfo {
    pub addr: EndpointAddr,
    pub host: NodeId,
    pub interests: Vec<Interest>,
    pub latest_active: TimestampSec,
}

/// The mathematical value of an endpoint record.
pub struct EpInfoView {
    pub addr: EndpointAddr,
    pub host: NodeId,
    pub interests: Seq<Seq<Seq<u8>>>,
    pub latest_active: TimestampSec,
}

impl View for EpInfo {
    type V = EpInfoView;

    open spec fn view(&self) -> EpInfoView {
        EpInfoView {
            addr: self.addr,
            host: self.host,
            interests: interests_of(self.interests@),
            latest_active: self.latest_active,
        }
    }
}

/// The endpoint records of a vector, each as its value.
pub open spec fn infos_of(infos: Seq<EpInfo>) -> Seq<EpInfoView> {
    infos.map_values(|info: EpInfo| info@)
}

/// The endpoints of `ep_list` that `routing` places on `node`, in the order
/// of the list.
pub open spec fn hosted_by(
    ep_list: Seq<EndpointAddr>,
    routing: Routing,
    node: NodeId,
) -> Seq<EndpointAddr>
    decreases ep_list.len(),
{
    if ep_list.len() == 0 {
        Seq::empty()
    } else if hosted(routing, node, ep_list.last()) {
        hosted_by(ep_list.drop_last(), routing, node).push(ep_list.last())
    } else {
        hosted_by(ep_list.drop_last(), routing, node)
    }
}

/// The nodes that host an endpoint of `ep_list`, each once, in the order in
/// which the list first names one of their endpoints.
pub open spec fn hosts_of(ep_list: Seq<EndpointAddr>, routing: Routing) -> Seq<NodeId>
    decreases ep_list.len(),
{
    if ep_list.len() == 0 {
        Seq::empty()
    } else {
        let before = hosts_of(ep_list.drop_last(), routing);
        let ep = ep_list.last();
        if routing.contains_key(ep) && !before.contains(routing[ep]) {
            before.push(routing[ep])
        } else {
            before
        }
    }
}

/// Groups the endpoints of `ep_list` by the node that hosts them.
///
/// The groups stand in the order in which the list first names one of their
/// endpoints, and each group keeps the order of the list.  An endpoint
/// without a row in the routing table is in no group.
pub fn group_by_host(
    routing: &EpTable<NodeId>,
    ep_list: &Vec<EndpointAddr>,
) -> (groups: Vec<(NodeId, Vec<EndpointAddr>)>)
    requires
        routing.wf(),
    ensures
        groups@.len() == hosts_of(ep_list@, routing@).len(),
        forall|g: int|
            0 <= g < groups@.len() ==> (#[trigger] groups@[g]).0 == hosts_of(ep_list@, routing@)[g]
                && groups@[g].1@ == hosted_by(ep_list@, routing@, groups@[g].0),
{
    let mut groups: Vec<(NodeId, Vec<EndpointAddr>)> = Vec::new();
    let mut i: usize = 0;
    proof {
        assert(ep_list@.take(0) =~= Seq::<EndpointAddr>::empty());
    }
    while i < ep_list.len()
        invariant
            i <= ep_list.len(),
            routing.wf(),
            groups@.len() == hosts_of(ep_list@.take(i as int), routing@).len(),
            forall|a: int, b: int| 0 <= a < b < groups@.len()
                ==> (#[trigger] groups@[a]).0 != (#[trigger] groups@[b]).0,
            forall|g: int|
                0 <= g < groups@.len() ==> (#[trigger] groups@[g]).0 == hosts_of(
                    ep_list@.take(i as int),
                    routing@,
                )[g] && groups@[g].1@ == hosted_by(ep_list@.take(i as int), routing@, groups@[g].0),
        decreases ep_list.len() - i,
    {
        let ep = ep_list[i];
        let ghost done = ep_list@.take(i as int);
        let ghost next = ep_list@.take(i + 1);
        let ghost before = groups@;
        proof {
            assert(next.drop_last() =~= done);
            assert(next.last() == ep);
        }
        match routing.get(ep) {
            Some(node) => {
                let node = *node;
                let mut g: usize = 0;
                let mut found = false;
                while g < groups.len()
                    invariant_except_break
                        !found,
                        forall|k: int| 0 <= k < g ==> (#[trigger] before[k]).0 != node,
                    invariant
                        g <= groups.len(),
                        groups@ == before,
                    ensures
                        groups@ == before,
                        g <= groups.len(),
                        found ==> g < groups.len() && before[g as int].0 == node,
                        !found ==> forall|k: int| 0 <= k < before.len()
                            ==> (#[trigger] before[k]).0 != node,
                    decreases groups.len() - g,
                {
                    if groups[g].0.bits == node.bits {
                        found = true;
                        break;
                    }
                    g += 1;
                }
                if found {
                    groups[g].1.push(ep);
                    proof {
                        let hosts = hosts_of(done, routing@);
                        assert(groups@.len() == before.len());
                        assert(groups@[g as int].0 == before[g as int].0);
                        assert(groups@[g as int].1@ == before[g as int].1@.push(ep));
                        assert(forall|k: int| 0 <= k < before.len() && k != g
                            ==> groups@[k] == before[k]);
                        assert(hosts[g as int] == node);
                        assert(hosts.contains(node));
                        assert forall|a: int, b: int| 0 <= a < b < groups@.len()
                            implies (#[trigger] groups@[a]).0 != (#[trigger] groups@[b]).0 by {
                            assert(groups@[a].0 == before[a].0);
                            assert(groups@[b].0 == before[b].0);
                        }
                        assert forall|k: int| 0 <= k < groups@.len() implies (#[trigger] groups@[k]).0
                            == hosts_of(next, routing@)[k] && groups@[k].1@ == hosted_by(
                            next,
                            routing@,
                            groups@[k].0,
                        ) by {
                            assert(before[k].0 == hosts[k]);
                            if k != g {
                                assert(groups@[k] == before[k]);
                                if k < g {
                                    assert(before[k].0 != before[g as int].0);
                                } else {
                                    assert(before[g as int].0 != before[k].0);
                                }
                            }
                        }
                    }
                } else {
                    let mut group: Vec<EndpointAddr> = Vec::new();
                    group.push(ep);
                    proof {
                        let hosts = hosts_of(done, routing@);
                        assert(!hosts.contains(node)) by {
                            if hosts.contains(node) {
                                let k = choose|k: int| 0 <= k < hosts.len() && hosts[k] == node;
                                assert(before[k].0 == node);
                            }
                        }
                        lemma_hosted_by_unknown(done, routing@, node);
                        assert(group@ =~= hosted_by(next, routing@, node));
                    }
                    groups.push((node, group));
                    proof {
                        let hosts = hosts_of(done, routing@);
                        assert forall|k: int| 0 <= k < groups@.len() implies (#[trigger] groups@[k]).0
                            == hosts_of(next, routing@)[k] && groups@[k].1@ == hosted_by(
                            next,
                            routing@,
                            groups@[k].0,
                        ) by {
                            if k < before.len() {
                                assert(groups@[k] == before[k]);
                                assert(before[k].0 == hosts[k]);
                                assert(before[k].0 != node);
                            }
                        }
                    }
                }
            },
            None => {
                proof {
                    assert forall|k: int| 0 <= k < groups@.len() implies (#[trigger] groups@[k]).0
                        == hosts_of(next, routing@)[k] && groups@[k].1@ == hosted_by(
                        next,
                        routing@,
                        groups@[k].0,
                    ) by {
                        assert(before[k].0 == hosts_of(done, routing@)[k]);
                    }
                }
            },
        }
        i += 1;
    }
    proof {
        assert(ep_list@.take(ep_list.len() as int) =~= ep_list@);
    }
    groups
}

/// A node that hosts none of the listed endpoints has an empty group.
pub proof fn lemma_hosted_by_unknown(ep_list: Seq<EndpointAddr>, routing: Routing, node: NodeId)
    requires
        !hosts_of(ep_list, routing).contains(node),
    ensures
        hosted_by(ep_list, routing, node) == Seq::<EndpointAddr>::empty(),
    decreases ep_list.len(),
{
    if ep_list.len() > 0 {
        let before = hosts_of(ep_list.drop_last(), routing);
        let ep = ep_list.last();
        let all = hosts_of(ep_list, routing);
        assert(!before.contains(node)) by {
            if before.contains(node) {
                let k = choose|k: int| 0 <= k < before.len() && before[k] == node;
                assert(all[k] == node);
            }
        }
        lemma_hosted_by_unknown(ep_list.drop_last(), routing, node);
        if hosted(routing, node, ep) {
            if !before.contains(routing[ep]) {
                assert(all[all.len() - 1] == node);
            }
        }
    }
}

/// The entry that brings an endpoint online.
#[derive(Debug)]
pub struct EndpointOnline {
    pub topic_code: TopicCode,
    pub endpoint: EndpointAddr,
    pub interests: Vec<Interest>,
    /// The node that hosts the endpoint.
    pub host: NodeId,
    /// When the hosting node saw the endpoint come online.
    pub at: TimestampSec,
}

/// The entry that takes an endpoint offline.
#[derive(Debug)]
pub struct EndpointOffline {
    pub topic_code: TopicCode,
    pub endpoint: EndpointAddr,
    pub host: NodeId,
}

/// The entry that replaces the interests of an endpoint.
#[derive(Debug)]
pub struct SetEpInterest {
    pub topic_code: TopicCode,
    pub endpoint: EndpointAddr,
    pub interests: Vec<Interest>,
}

/// The entry that hands a message to a topic.
#[derive(Debug)]
pub struct DelegateMessage {
    pub topic: TopicCode,
    pub message: Message,
}

/// The entry that reports new statuses of a message.
#[derive(Debug)]
pub struct SetState {
    pub topic: TopicCode,
    pub update: MessageStateUpdate,
    /// When the reporting endpoints were seen.
    pub at: TimestampSec,
}

} // verus!
