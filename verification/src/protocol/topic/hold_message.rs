//! Held messages and the queue that keeps them in admission order.
use vstd::prelude::*;
use crate::protocol::endpoint::{
    delivered,
    dispatch_outcome,
    dispatch_to_local,
    local_targets,
    locals_of,
    EndpointAddr,
    LocalEndpoint,
    Locals,
    Message,
    MessageId,
    MessageStatusKind,
    MessageView,
    Routing,
};
use crate::protocol::interest::ascending_addrs;
use crate::protocol::node::NodeId;
use crate::protocol::table::{lemma_entry_is_row, lemma_row_is_entry, row_index, EpTable};
use crate::protocol::topic::wait_ack::{
    acked,
    all_unsent,
    settled,
    status_advanced,
    ReportView,
    StatusMap,
    WaitAck,
    WaitAckErrorException,
    WaitAckHandle,
    WaitAckReport,
};

verus! {

/// A message that has been admitted to the queue and is not yet flushed.
#[derive(Debug)]
pub struct HoldMessage {
    pub message: Message,
    pub wait_ack: WaitAck,
}

/// The mathematical value of a held message: the message and its status at
/// each recipient.
pub struct HoldView {
    pub message: MessageView,
    pub status: StatusMap,
}

impl HoldView {
    /// The held message right after admission for `recipients`.
    pub open spec fn admitted(message: MessageView, recipients: Set<EndpointAddr>) -> HoldView {
        HoldView { message, status: all_unsent(recipients) }
    }

    /// True when the message is complete and may be flushed.
    pub open spec fn is_complete(self) -> bool {
        settled(self.status, self.message.ack_kind)
    }

    /// The held message after endpoint `from` has reported `next`.
    pub open spec fn acked(self, from: EndpointAddr, next: MessageStatusKind) -> HoldView {
        HoldView { status: acked(self.status, from, next), ..self }
    }

    /// The held message after `ep` has joined its recipients.
    pub open spec fn joined(self, ep: EndpointAddr) -> HoldView {
        if self.status.contains_key(ep) {
            self
        } else {
            HoldView { status: self.status.insert(ep, MessageStatusKind::Unsent), ..self }
        }
    }

    /// The endpoints to which the message has not been sent yet.
    pub open spec fn unsent(self) -> Set<EndpointAddr> {
        Set::new(|ep: EndpointAddr| self.status.contains_key(ep) && self.status[ep] is Unsent)
    }

    /// What the sender learns when the message is complete.
    pub open spec fn report(self) -> ReportView {
        ReportView::completed(self.message.id, self.status)
    }

    /// The held message after a dispatch from `host`: each `Unsent` recipient
    /// that is hosted there becomes `Sent` if it is attached, and
    /// `Unreachable` if it is not.
    pub open spec fn sent_from(self, routing: Routing, host: NodeId, locals: Locals) -> HoldView {
        HoldView {
            status: dispatched(
                self.status,
                dispatch_outcome(locals, local_targets(self.unsent(), routing, host)),
            ),
            ..self
        }
    }
}

/// The status map after a dispatch with the given outcome: a recipient that
/// was reached is `Sent`, one that was not is `Unreachable`, and the others
/// are as before.
pub open spec fn dispatched(status: StatusMap, outcome: Map<EndpointAddr, bool>) -> StatusMap {
    Map::new(
        |ep: EndpointAddr| status.contains_key(ep),
        |ep: EndpointAddr|
            if outcome.contains_key(ep) {
                if outcome[ep] {
                    MessageStatusKind::Sent
                } else {
                    MessageStatusKind::Unreachable
                }
            } else {
                status[ep]
            },
    )
}

/// A dispatch to recipients that are `Unsent` moves no status down.
pub proof fn lemma_dispatched_advances(status: StatusMap, outcome: Map<EndpointAddr, bool>)
    requires
        forall|ep: EndpointAddr| outcome.contains_key(ep)
            ==> status.contains_key(ep) && status[ep] is Unsent,
    ensures
        status_advanced(status, dispatched(status, outcome)),
{
    assert(dispatched(status, outcome).dom() =~= status.dom());
}

impl View for HoldMessage {
    type V = HoldView;

    open spec fn view(&self) -> HoldView {
        HoldView { message: self.message@, status: self.wait_ack.status@ }
    }
}

impl HoldMessage {
    /// The status table is in order, and the expected acknowledgement is the
    /// one that the message asks for.
    pub open spec fn wf(&self) -> bool {
        &&& self.wait_ack.wf()
        &&& self.wait_ack.expect == self.message.header.ack_kind
    }

    /// Holds `message` for `recipients`, all of them `Unsent`.
    pub fn new(message: Message, recipients: &Vec<EndpointAddr>) -> (hold: Self)
        ensures
            hold.wf(),
            hold@ == HoldView::admitted(message@, recipients@.to_set()),
    {
        let wait_ack = WaitAck::new(message.ack_kind(), recipients);
        HoldMessage { message, wait_ack }
    }

    pub fn id(&self) -> (id: MessageId)
        ensures
            id == self@.message.id,
    {
        self.message.id()
    }

    /// True when the message is complete and may be flushed.
    pub fn is_complete(&self) -> (yes: bool)
        requires
            self.wf(),
        ensures
            yes == self@.is_complete(),
    {
        self.wait_ack.is_settled()
    }

    /// Records that endpoint `from` has reported `next`.
    pub fn update_ack(&mut self, from: EndpointAddr, next: MessageStatusKind)
        requires
            old(self).wf(),
        ensures
            final(self).wf(),
            final(self)@ == old(self)@.acked(from, next),
            status_advanced(old(self)@.status, final(self)@.status),
    {
        self.wait_ack.update_ack(from, next);
    }

    /// True when `ep` is a recipient of the message.
    pub fn has_recipient(&self, ep: EndpointAddr) -> (yes: bool)
        requires
            self.wf(),
        ensures
            yes == self@.status.contains_key(ep),
    {
        self.wait_ack.status.contains_key(ep)
    }

    /// Adds `ep` as an `Unsent` recipient, unless it is a recipient already.
    pub fn join(&mut self, ep: EndpointAddr)
        requires
            old(self).wf(),
        ensures
            final(self).wf(),
            final(self)@ == old(self)@.joined(ep),
    {
        self.wait_ack.add_recipient(ep);
    }

    /// The endpoints to which the message has not been sent yet, in address
    /// order.
    pub fn unsent(&self) -> (eps: Vec<EndpointAddr>)
        requires
            self.wf(),
        ensures
            ascending_addrs(eps@),
            eps@.to_set() == self@.unsent(),
    {
        let mut eps: Vec<EndpointAddr> = Vec::new();
        let n = self.wait_ack.status.len();
        let ghost rows = self.wait_ack.status.rows();
        let mut i: usize = 0;
        while i < n
            invariant
                i <= n,
                n == rows.len(),
                rows == self.wait_ack.status.rows(),
                self.wf(),
                ascending_addrs(eps@),
                forall|k: int| 0 <= k < eps.len() ==> unsent_before(rows, i as int, #[trigger] eps@[k]),
                forall|r: int|
                    0 <= r < i && (#[trigger] rows[r]).1 is Unsent ==> eps@.contains(rows[r].0),
            decreases n - i,
        {
            if self.wait_ack.status.value_at(i).is_unsent() {
                let addr = self.wait_ack.status.key_at(i);
                proof {
                    assert forall|k: int| 0 <= k < eps.len() implies eps@[k].bits < addr.bits by {
                        assert(unsent_before(rows, i as int, eps@[k]));
                        let r = choose|r: int|
                            0 <= r < i && (#[trigger] rows[r]).0 == eps@[k] && rows[r].1 is Unsent;
                        assert(rows[r].0.bits < rows[i as int].0.bits);
                    }
                }
                let ghost before = eps@;
                eps.push(addr);
                proof {
                    assert forall|k: int| 0 <= k < eps.len() implies unsent_before(
                        rows,
                        i + 1,
                        #[trigger] eps@[k],
                    ) by {
                        if k < before.len() {
                            assert(unsent_before(rows, i as int, before[k]));
                            let r = choose|r: int|
                                0 <= r < i && (#[trigger] rows[r]).0 == before[k] && rows[r].1 is Unsent;
                            assert(rows[r].0 == eps@[k]);
                        } else {
                            assert(rows[i as int].0 == eps@[k]);
                        }
                    }
                    assert forall|r: int|
                        0 <= r < i + 1 && (#[trigger] rows[r]).1 is Unsent implies eps@.contains(
                        rows[r].0,
                    ) by {
                        if r < i {
                            let k = choose|k: int| 0 <= k < before.len() && before[k] == rows[r].0;
                            assert(eps@[k] == rows[r].0);
                        } else {
                            assert(eps@[eps.len() - 1] == rows[r].0);
                        }
                    }
                }
            } else {
                proof {
                    assert forall|k: int| 0 <= k < eps.len() implies unsent_before(
                        rows,
                        i + 1,
                        #[trigger] eps@[k],
                    ) by {
                        assert(unsent_before(rows, i as int, eps@[k]));
                        let r = choose|r: int|
                            0 <= r < i && (#[trigger] rows[r]).0 == eps@[k] && rows[r].1 is Unsent;
                        assert(0 <= r < i + 1);
                    }
                }
            }
            i += 1;
        }
        proof {
            assert(eps@.to_set() =~= self@.unsent()) by {
                assert forall|ep: EndpointAddr|
                    eps@.to_set().contains(ep) == self@.unsent().contains(ep) by {
                    if eps@.contains(ep) {
                        let k = choose|k: int| 0 <= k < eps.len() && eps@[k] == ep;
                        assert(unsent_before(rows, n as int, eps@[k]));
                        let r = choose|r: int|
                            0 <= r < n && (#[trigger] rows[r]).0 == eps@[k] && rows[r].1 is Unsent;
                        lemma_row_is_entry(rows, r);
                    }
                    if self@.unsent().contains(ep) {
                        lemma_entry_is_row(rows, ep);
                        let r = row_index(rows, ep);
                        assert(rows[r].1 is Unsent);
                    }
                }
            }
        }
        eps
    }

    /// Records the outcome of a dispatch to recipients that were `Unsent`.
    pub fn record_dispatch(&mut self, results: &EpTable<bool>)
        requires
            old(self).wf(),
            results.wf(),
            forall|ep: EndpointAddr| #[trigger] results@.contains_key(ep)
                ==> old(self)@.unsent().contains(ep),
        ensures
            final(self).wf(),
            final(self)@ == (HoldView { status: dispatched(old(self)@.status, results@), ..old(self)@ }),
    {
        let n = results.len();
        let ghost rows = results.rows();
        let ghost before = self@.status;
        let mut k: usize = 0;
        assert(self@.status =~= recorded(before, rows, 0));
        while k < n
            invariant
                k <= n,
                n == rows.len(),
                rows == results.rows(),
                results.wf(),
                self.wf(),
                self.message == old(self).message,
                before == old(self)@.status,
                forall|ep: EndpointAddr| #[trigger] results@.contains_key(ep)
                    ==> old(self)@.unsent().contains(ep),
                self@.status == recorded(before, rows, k as int),
            decreases n - k,
        {
            let ep = results.key_at(k);
            let reached = *results.value_at(k);
            let next = if reached {
                MessageStatusKind::Sent
            } else {
                MessageStatusKind::Unreachable
            };
            proof {
                lemma_row_is_entry(rows, k as int);
                assert(results@.contains_key(ep));
                assert(old(self)@.unsent().contains(ep));
                assert(!reached_before(rows, k as int, ep)) by {
                    if reached_before(rows, k as int, ep) {
                        let r = choose|r: int| 0 <= r < k && (#[trigger] rows[r]).0 == ep;
                        assert(rows[r].0.bits < rows[k as int].0.bits);
                    }
                }
                assert(self@.status[ep] == before[ep]);
            }
            self.wait_ack.update_ack(ep, next);
            proof {
                assert(self@.status =~= recorded(before, rows, k + 1)) by {
                    assert forall|other: EndpointAddr| before.contains_key(other)
                        implies #[trigger] self@.status[other]
                            == recorded(before, rows, k + 1)[other] by {
                        if other == ep {
                            assert(rows[k as int].0 == ep);
                            assert(reached_before(rows, k + 1, ep));
                            let r = choose|r: int| 0 <= r < k + 1 && (#[trigger] rows[r]).0 == ep;
                            if r < k {
                                assert(rows[r].0.bits < rows[k as int].0.bits);
                            }
                        } else {
                            if reached_before(rows, k as int, other) {
                                let r = choose|r: int| 0 <= r < k && (#[trigger] rows[r]).0 == other;
                                assert(0 <= r < k + 1 && rows[r].0 == other);
                                let r2 = choose|r: int| 0 <= r < k + 1
                                    && (#[trigger] rows[r]).0 == other;
                                if r < r2 {
                                    assert(rows[r].0.bits < rows[r2].0.bits);
                                }
                                if r2 < r {
                                    assert(rows[r2].0.bits < rows[r].0.bits);
                                }
                            }
                            if reached_before(rows, k + 1, other) {
                                let r = choose|r: int| 0 <= r < k + 1 && (#[trigger] rows[r]).0 == other;
                                assert(r < k);
                            }
                        }
                    }
                }
            }
            k += 1;
        }
        proof {
            assert(self@.status =~= dispatched(before, results@)) by {
                assert forall|ep: EndpointAddr| before.contains_key(ep)
                    implies #[trigger] self@.status[ep] == dispatched(before, results@)[ep] by {
                    if reached_before(rows, n as int, ep) {
                        let r = choose|r: int| 0 <= r < n && (#[trigger] rows[r]).0 == ep;
                        lemma_row_is_entry(rows, r);
                    }
                    if results@.contains_key(ep) {
                        lemma_entry_is_row(rows, ep);
                        let r = row_index(rows, ep);
                        assert(rows[r].0 == ep);
                    }
                }
            }
        }
    }

    /// What the sender learns when the message is complete.
    pub fn report(&self) -> (report: WaitAckReport)
        requires
            self.wf(),
        ensures
            report.wf(),
            report@ == self@.report(),
    {
        WaitAckReport::completed(self.message.id(), &self.wait_ack)
    }

    pub fn duplicate(&self) -> (copy: Self)
        requires
            self.wf(),
        ensures
            copy.wf(),
            copy@ == self@,
    {
        HoldMessage { message: self.message.clone(), wait_ack: self.wait_ack.duplicate() }
    }
}

/// True when one of the first `upto` rows belongs to `ep` and is `Unsent`.
pub open spec fn unsent_before(
    rows: Seq<(EndpointAddr, MessageStatusKind)>,
    upto: int,
    ep: EndpointAddr,
) -> bool {
    exists|r: int| 0 <= r < upto && (#[trigger] rows[r]).0 == ep && rows[r].1 is Unsent
}

/// True when one of the first `upto` rows belongs to `ep`.
pub open spec fn reached_before(
    rows: Seq<(EndpointAddr, bool)>,
    upto: int,
    ep: EndpointAddr,
) -> bool {
    exists|r: int| 0 <= r < upto && (#[trigger] rows[r]).0 == ep
}

/// The status map after the first `upto` rows of an outcome are recorded.
pub open spec fn recorded(
    status: StatusMap,
    rows: Seq<(EndpointAddr, bool)>,
    upto: int,
) -> StatusMap {
    Map::new(
        |ep: EndpointAddr| status.contains_key(ep),
        |ep: EndpointAddr|
            if reached_before(rows, upto, ep) {
                if rows[choose|r: int| 0 <= r < upto && (#[trigger] rows[r]).0 == ep].1 {
                    MessageStatusKind::Sent
                } else {
                    MessageStatusKind::Unreachable
                }
            } else {
                status[ep]
            },
    )
}

/// The mathematical value of a message queue.
pub struct QueueView {
    /// The held messages, in admission order.
    pub holds: Seq<HoldView>,
    /// The messages whose senders wait for a report, in the order in which
    /// they registered.
    pub waiting: Seq<MessageId>,
    /// The reports that have resolved waiters and were not collected yet.
    pub reports: Seq<ReportView>,
}

impl QueueView {
    pub open spec fn empty() -> QueueView {
        QueueView { holds: Seq::empty(), waiting: Seq::empty(), reports: Seq::empty() }
    }

    /// The identifiers of the held messages, in admission order.
    pub open spec fn ids(self) -> Seq<MessageId> {
        self.holds.map_values(|hold: HoldView| hold.message.id)
    }

    /// No message is held twice, and no waiter is registered twice.
    pub open spec fn wf(self) -> bool {
        &&& self.ids().no_duplicates()
        &&& self.waiting.no_duplicates()
    }

    /// True when a message with this identifier is held.
    pub open spec fn holds_message(self, id: MessageId) -> bool {
        self.ids().contains(id)
    }

    /// Place in the queue of the message with this identifier.
    pub open spec fn index_of(self, id: MessageId) -> int {
        self.ids().index_of(id)
    }

    /// The queue after a sender has registered to wait for `id`.
    pub open spec fn registered(self, id: MessageId) -> QueueView {
        if self.waiting.contains(id) {
            self
        } else {
            QueueView { waiting: self.waiting.push(id), ..self }
        }
    }

    /// The queue after an attempt to resolve the waiter of `report.id`: if
    /// there is one, it leaves the registry and the report is filed.
    pub open spec fn resolved(self, report: ReportView) -> QueueView {
        if self.waiting.contains(report.id) {
            QueueView {
                waiting: self.waiting.remove(self.waiting.index_of(report.id)),
                reports: self.reports.push(report),
                ..self
            }
        } else {
            self
        }
    }

    /// The queue after `hold` is admitted at the tail.  A message that is
    /// held already is not admitted again.
    pub open spec fn pushed(self, hold: HoldView) -> QueueView {
        if self.holds_message(hold.message.id) {
            self
        } else {
            QueueView { holds: self.holds.push(hold), ..self }
        }
    }

    /// The queue without its head.
    pub open spec fn popped(self) -> QueueView {
        if self.holds.len() > 0 {
            QueueView { holds: self.holds.drop_first(), ..self }
        } else {
            self
        }
    }

    /// The queue after endpoint `from` has reported `next` for message `id`.
    pub open spec fn acked(
        self,
        id: MessageId,
        from: EndpointAddr,
        next: MessageStatusKind,
    ) -> QueueView {
        if self.holds_message(id) {
            let i = self.index_of(id);
            QueueView { holds: self.holds.update(i, self.holds[i].acked(from, next)), ..self }
        } else {
            self
        }
    }

    /// The queue after message `id` is polled from `host`.
    ///
    /// A message that is complete has its waiter resolved.  One that is not
    /// is dispatched to its `Unsent` recipients on `host`, and has its waiter
    /// resolved if that completes it.  Polling a message that is not held
    /// changes nothing.
    pub open spec fn polled(
        self,
        id: MessageId,
        routing: Routing,
        host: NodeId,
        locals: Locals,
    ) -> QueueView {
        if !self.holds_message(id) {
            self
        } else {
            let i = self.index_of(id);
            let hold = self.holds[i];
            if hold.is_complete() {
                self.resolved(hold.report())
            } else {
                let sent = hold.sent_from(routing, host, locals);
                let queue = QueueView { holds: self.holds.update(i, sent), ..self };
                if sent.is_complete() {
                    queue.resolved(sent.report())
                } else {
                    queue
                }
            }
        }
    }

    /// The local endpoints after message `id` is polled from `host`.
    pub open spec fn poll_delivers(
        self,
        id: MessageId,
        routing: Routing,
        host: NodeId,
        locals: Locals,
    ) -> Locals {
        if self.holds_message(id) && !self.holds[self.index_of(id)].is_complete() {
            let hold = self.holds[self.index_of(id)];
            delivered(locals, local_targets(hold.unsent(), routing, host), hold.message)
        } else {
            locals
        }
    }

    /// What a poll of message `id` reports: nothing if the message is not
    /// held, else whether it is complete after the poll.
    pub open spec fn poll_outcome(
        self,
        id: MessageId,
        routing: Routing,
        host: NodeId,
        locals: Locals,
    ) -> Option<Polled> {
        if !self.holds_message(id) {
            None
        } else if self.polled(id, routing, host, locals).holds[self.index_of(id)].is_complete() {
            Some(Polled::Ready)
        } else {
            Some(Polled::Pending)
        }
    }

    /// The queue after each held message is polled from `host`, in admission
    /// order, starting with the message at place `from`.
    pub open spec fn polled_from(
        self,
        from: int,
        routing: Routing,
        host: NodeId,
        locals: Locals,
    ) -> QueueView
        decreases self.holds.len() - from,
    {
        if 0 <= from < self.holds.len() {
            let id = self.holds[from].message.id;
            self.polled(id, routing, host, locals).polled_from(
                from + 1,
                routing,
                host,
                self.poll_delivers(id, routing, host, locals),
            )
        } else {
            self
        }
    }

    /// The local endpoints after each held message is polled from `host`, in
    /// admission order, starting with the message at place `from`.
    pub open spec fn poll_from_delivers(
        self,
        from: int,
        routing: Routing,
        host: NodeId,
        locals: Locals,
    ) -> Locals
        decreases self.holds.len() - from,
    {
        if 0 <= from < self.holds.len() {
            let id = self.holds[from].message.id;
            self.polled(id, routing, host, locals).poll_from_delivers(
                from + 1,
                routing,
                host,
                self.poll_delivers(id, routing, host, locals),
            )
        } else {
            locals
        }
    }

    /// The queue after every waiter is resolved with `exception` and every
    /// held message is dropped.
    pub open spec fn dropped(self, exception: WaitAckErrorException) -> QueueView
        decreases self.waiting.len(),
    {
        if self.waiting.len() > 0 {
            self.resolved(ReportView::failed(self.waiting[0], exception)).dropped(exception)
        } else {
            QueueView { holds: Seq::empty(), ..self }
        }
    }

    /// How many messages a flush removes: the length of the longest run of
    /// complete messages at the head.
    pub open spec fn flush_count(self) -> nat
        decreases self.holds.len(),
    {
        if self.holds.len() > 0 && self.holds[0].is_complete() {
            1 + self.popped().flush_count()
        } else {
            0
        }
    }

    /// The queue after a flush: while the head is complete it is removed,
    /// and its waiter, if it still has one, is resolved with its report.
    pub open spec fn flushed(self) -> QueueView
        decreases self.holds.len(),
    {
        if self.holds.len() > 0 && self.holds[0].is_complete() {
            self.popped().resolved(self.holds[0].report()).flushed()
        } else {
            self
        }
    }
}

/// A flush removes a run of complete messages from the head and nothing
/// else: what it removes is a prefix of the queue, the message that follows
/// the prefix is not complete, and the rest keeps its order.
pub proof fn lemma_flush_removes_prefix(queue: QueueView)
    ensures
        queue.flush_count() <= queue.holds.len(),
        queue.flushed().holds == queue.holds.skip(queue.flush_count() as int),
        forall|i: int| 0 <= i < queue.flush_count() ==> (#[trigger] queue.holds[i]).is_complete(),
        queue.flush_count() < queue.holds.len()
            ==> !queue.holds[queue.flush_count() as int].is_complete(),
    decreases queue.holds.len(),
{
    if queue.holds.len() > 0 && queue.holds[0].is_complete() {
        let rest = queue.popped();
        let next = rest.resolved(queue.holds[0].report());
        lemma_flush_removes_prefix(rest);
        lemma_flush_ignores_waiters(rest, next);
        assert(rest.holds.skip(rest.flush_count() as int) =~= queue.holds.skip(
            queue.flush_count() as int,
        ));
        assert forall|i: int| 0 <= i < queue.flush_count()
            implies (#[trigger] queue.holds[i]).is_complete() by {
            if i > 0 {
                assert(queue.holds[i] == rest.holds[i - 1]);
            }
        }
    } else {
        assert(queue.holds.skip(0) =~= queue.holds);
    }
}

/// Which messages a flush removes does not depend on who waits for them.
pub proof fn lemma_flush_ignores_waiters(a: QueueView, b: QueueView)
    requires
        a.holds == b.holds,
    ensures
        a.flush_count() == b.flush_count(),
        a.flushed().holds == b.flushed().holds,
    decreases a.holds.len(),
{
    if a.holds.len() > 0 && a.holds[0].is_complete() {
        lemma_flush_ignores_waiters(
            a.popped().resolved(a.holds[0].report()),
            b.popped().resolved(b.holds[0].report()),
        );
        lemma_flush_ignores_waiters(a.popped().resolved(a.holds[0].report()), a.popped());
        lemma_flush_ignores_waiters(b.popped().resolved(b.holds[0].report()), b.popped());
    }
}

/// What a poll of a held message reports.
#[derive(Clone, Copy, Debug, PartialEq, Eq, Structural, Hash)]
pub enum Polled {
    /// The message is complete.
    Ready,
    /// The message still waits for acknowledgements.
    Pending,
}

/// The held messages of a vector, each as its value.
pub open spec fn holds_of(holds: Seq<HoldMessage>) -> Seq<HoldView> {
    holds.map_values(|hold: HoldMessage| hold@)
}

/// The reports of a vector, each as its value.
pub open spec fn reports_of(reports: Seq<WaitAckReport>) -> Seq<ReportView> {
    reports.map_values(|report: WaitAckReport| report@)
}

/// In a sequence without duplicates, an element is found at its place.
pub proof fn lemma_index_of_unique<A>(s: Seq<A>, i: int)
    requires
        s.no_duplicates(),
        0 <= i < s.len(),
    ensures
        s.index_of(s[i]) == i,
        s.contains(s[i]),
{
    let j = s.index_of(s[i]);
    assert(0 <= j < s.len() && s[j] == s[i]);
}

/// Taking an element out of a sequence without duplicates leaves a sequence
/// without duplicates, which holds the other elements and not that one.
pub proof fn lemma_remove_keeps_unique<A>(s: Seq<A>, i: int)
    requires
        s.no_duplicates(),
        0 <= i < s.len(),
    ensures
        s.remove(i).no_duplicates(),
        !s.remove(i).contains(s[i]),
        forall|x: A| x != s[i] ==> (s.remove(i).contains(x) <==> s.contains(x)),
{
    let t = s.remove(i);
    assert forall|a: int, b: int| 0 <= a < t.len() && 0 <= b < t.len() && a != b
        implies t[a] != t[b] by {
        let oa = if a < i { a } else { a + 1 };
        let ob = if b < i { b } else { b + 1 };
        assert(t[a] == s[oa] && t[b] == s[ob]);
    }
    if t.contains(s[i]) {
        let a = choose|a: int| 0 <= a < t.len() && t[a] == s[i];
        let oa = if a < i { a } else { a + 1 };
        assert(t[a] == s[oa]);
    }
    assert forall|x: A| x != s[i] implies (t.contains(x) <==> s.contains(x)) by {
        if t.contains(x) {
            let a = choose|a: int| 0 <= a < t.len() && t[a] == x;
            let oa = if a < i { a } else { a + 1 };
            assert(s[oa] == x);
        }
        if s.contains(x) {
            let a = choose|a: int| 0 <= a < s.len() && s[a] == x;
            let na = if a < i { a } else { a - 1 };
            assert(t[na] == x);
        }
    }
}

/// The queue of one topic: the held messages in admission order, the
/// registry of waiters and the reports that have resolved waiters.
///
/// The held messages are replicated.  The registry and the reports are local
/// to the node: they never enter a snapshot.
#[derive(Debug)]
pub struct MessageQueue {
    holds: Vec<HoldMessage>,
    waiting: Vec<MessageId>,
    reports: Vec<WaitAckReport>,
}

impl View for MessageQueue {
    type V = QueueView;

    closed spec fn view(&self) -> QueueView {
        QueueView {
            holds: holds_of(self.holds@),
            waiting: self.waiting@,
            reports: reports_of(self.reports@),
        }
    }
}

impl MessageQueue {
    /// Every held message and every report is well formed, no message is
    /// held twice and no waiter is registered twice.
    pub closed spec fn wf(&self) -> bool {
        &&& forall|i: int| 0 <= i < self.holds.len() ==> (#[trigger] self.holds[i]).wf()
        &&& forall|i: int| 0 <= i < self.reports.len() ==> (#[trigger] self.reports[i]).wf()
        &&& self@.wf()
    }

    /// A well-formed queue has a well-formed value.
    pub proof fn lemma_wf(&self)
        requires
            self.wf(),
        ensures
            self@.wf(),
    {
    }

    /// An empty queue with room for `capacity` messages.
    pub fn new(capacity: usize) -> (queue: Self)
        ensures
            queue.wf(),
            queue@ == QueueView::empty(),
    {
        let queue = MessageQueue {
            holds: Vec::with_capacity(capacity),
            waiting: Vec::new(),
            reports: Vec::new(),
        };
        assert(queue@.holds =~= Seq::<HoldView>::empty());
        assert(queue@.reports =~= Seq::<ReportView>::empty());
        assert(queue@.waiting =~= Seq::<MessageId>::empty());
        assert(queue@.ids() =~= Seq::<MessageId>::empty());
        queue
    }

    /// Number of held messages.
    pub fn len(&self) -> (n: usize)
        ensures
            n == self@.holds.len(),
    {
        self.holds.len()
    }

    /// Place in the queue of the message with this identifier.
    pub fn position(&self, id: MessageId) -> (at: Option<usize>)
        requires
            self.wf(),
        ensures
            at is Some <==> self@.holds_message(id),
            at matches Some(i) ==> i == self@.index_of(id) && i < self@.holds.len()
                && self@.holds[i as int].message.id == id,
    {
        let mut i: usize = 0;
        while i < self.holds.len()
            invariant
                i <= self.holds.len(),
                self.wf(),
                forall|k: int| 0 <= k < i ==> self@.ids()[k] != id,
            decreases self.holds.len() - i,
        {
            if self.holds[i].id().bits == id.bits {
                proof {
                    assert(self@.ids()[i as int] == id);
                    lemma_index_of_unique(self@.ids(), i as int);
                }
                return Some(i);
            }
            i += 1;
        }
        None
    }

    /// True when a message with this identifier is held.
    pub fn contains(&self, id: MessageId) -> (yes: bool)
        requires
            self.wf(),
        ensures
            yes == self@.holds_message(id),
    {
        self.position(id).is_some()
    }

    /// The held message at place `i`.
    pub fn hold_at(&self, i: usize) -> (hold: &HoldMessage)
        requires
            self.wf(),
            i < self@.holds.len(),
        ensures
            hold.wf(),
            hold@ == self@.holds[i as int],
    {
        &self.holds[i]
    }

    /// The held message with this identifier.
    pub fn get(&self, id: MessageId) -> (hold: Option<&HoldMessage>)
        requires
            self.wf(),
        ensures
            hold is Some <==> self@.holds_message(id),
            hold matches Some(h) ==> h.wf() && h@ == self@.holds[self@.index_of(id)],
    {
        match self.position(id) {
            Some(i) => Some(&self.holds[i]),
            None => None,
        }
    }

    /// True when a sender waits for the report of this message.
    pub fn is_waiting(&self, id: MessageId) -> (yes: bool)
        ensures
            yes == self@.waiting.contains(id),
    {
        self.waiter_position(id).is_some()
    }

    fn waiter_position(&self, id: MessageId) -> (at: Option<usize>)
        ensures
            at is Some <==> self@.waiting.contains(id),
            at matches Some(i) ==> i < self@.waiting.len() && self@.waiting[i as int] == id,
    {
        let mut i: usize = 0;
        while i < self.waiting.len()
            invariant
                i <= self.waiting.len(),
                forall|k: int| 0 <= k < i ==> self.waiting@[k] != id,
            decreases self.waiting.len() - i,
        {
            if self.waiting[i].bits == id.bits {
                return Some(i);
            }
            i += 1;
        }
        None
    }

    /// Registers a sender that waits for the report of message `id`.
    ///
    /// A message has at most one waiter: registering twice changes nothing.
    pub fn wait_ack(&mut self, id: MessageId) -> (handle: WaitAckHandle)
        requires
            old(self).wf(),
        ensures
            final(self).wf(),
            final(self)@ == old(self)@.registered(id),
            handle.message_id == id,
    {
        if !self.is_waiting(id) {
            self.waiting.push(id);
            assert(self@.waiting =~= old(self)@.waiting.push(id));
        }
        WaitAckHandle { message_id: id }
    }

    /// Resolves the waiter of the reported message, if it has one, and
    /// returns whether it had one.
    pub fn resolve(&mut self, report: WaitAckReport) -> (was_waiting: bool)
        requires
            old(self).wf(),
            report.wf(),
        ensures
            final(self).wf(),
            final(self)@ == old(self)@.resolved(report@),
            was_waiting == old(self)@.waiting.contains(report@.id),
    {
        match self.waiter_position(report.message_id) {
            Some(i) => {
                proof {
                    lemma_index_of_unique(self@.waiting, i as int);
                    lemma_remove_keeps_unique(self@.waiting, i as int);
                }
                self.waiting.remove(i);
                self.reports.push(report);
                assert(self@.reports =~= old(self)@.reports.push(report@));
                true
            },
            None => false,
        }
    }

    /// Takes the reports that were filed since the last call.
    pub fn take_reports(&mut self) -> (reports: Vec<WaitAckReport>)
        requires
            old(self).wf(),
        ensures
            final(self).wf(),
            reports_of(reports@) == old(self)@.reports,
            forall|i: int| 0 <= i < reports.len() ==> (#[trigger] reports[i]).wf(),
            final(self)@ == (QueueView { reports: Seq::empty(), ..old(self)@ }),
    {
        let mut reports: Vec<WaitAckReport> = Vec::new();
        std::mem::swap(&mut reports, &mut self.reports);
        assert(self@.reports =~= Seq::<ReportView>::empty());
        reports
    }

    /// Admits `hold` at the tail, unless a message with its identifier is
    /// held already.  Returns whether it was admitted.
    pub fn push(&mut self, hold: HoldMessage) -> (admitted: bool)
        requires
            old(self).wf(),
            hold.wf(),
        ensures
            final(self).wf(),
            final(self)@ == old(self)@.pushed(hold@),
            admitted == !old(self)@.holds_message(hold@.message.id),
    {
        if self.contains(hold.id()) {
            false
        } else {
            self.holds.push(hold);
            proof {
                assert(self@.holds =~= old(self)@.holds.push(hold@));
                assert(self@.ids() =~= old(self)@.ids().push(hold@.message.id));
            }
            true
        }
    }

    /// Removes the head of the queue.
    pub fn pop(&mut self) -> (head: Option<HoldMessage>)
        requires
            old(self).wf(),
        ensures
            final(self).wf(),
            final(self)@ == old(self)@.popped(),
            head is Some <==> old(self)@.holds.len() > 0,
            head matches Some(hold) ==> hold.wf() && hold@ == old(self)@.holds[0],
    {
        if self.holds.len() == 0 {
            None
        } else {
            proof {
                lemma_remove_keeps_unique(self@.ids(), 0);
            }
            let hold = self.holds.remove(0);
            proof {
                assert(self@.holds =~= old(self)@.holds.drop_first());
                assert(self@.ids() =~= old(self)@.ids().remove(0));
            }
            Some(hold)
        }
    }

    /// Records that endpoint `from` has reported `next` for message `id`.
    /// Returns whether the message is held and complete after that.
    pub fn update_ack(
        &mut self,
        id: MessageId,
        from: EndpointAddr,
        next: MessageStatusKind,
    ) -> (complete: bool)
        requires
            old(self).wf(),
        ensures
            final(self).wf(),
            final(self)@ == old(self)@.acked(id, from, next),
            complete == (old(self)@.holds_message(id) && final(self)@.holds[old(self)@.index_of(
                id,
            )].is_complete()),
            final(self)@.holds.len() == old(self)@.holds.len(),
            forall|i: int|
                0 <= i < old(self)@.holds.len() ==> status_advanced(
                    (#[trigger] old(self)@.holds[i]).status,
                    final(self)@.holds[i].status,
                ),
    {
        match self.position(id) {
            Some(i) => {
                self.holds[i].update_ack(from, next);
                proof {
                    assert(self@.holds =~= old(self)@.holds.update(
                        i as int,
                        old(self)@.holds[i as int].acked(from, next),
                    ));
                    assert(self@.ids() =~= old(self)@.ids());
                }
                self.holds[i].is_complete()
            },
            None => false,
        }
    }

    /// Adds `ep` as an `Unsent` recipient of the message at place `i`.
    pub fn join_at(&mut self, i: usize, ep: EndpointAddr)
        requires
            old(self).wf(),
            i < old(self)@.holds.len(),
        ensures
            final(self).wf(),
            final(self)@ == (QueueView {
                holds: old(self)@.holds.update(i as int, old(self)@.holds[i as int].joined(ep)),
                ..old(self)@
            }),
    {
        self.holds[i].join(ep);
        proof {
            assert(self@.holds =~= old(self)@.holds.update(
                i as int,
                old(self)@.holds[i as int].joined(ep),
            ));
            assert(self@.ids() =~= old(self)@.ids());
        }
    }

    /// Polls message `id` from `host`: resolves its waiter if it is
    /// complete, else dispatches it to its `Unsent` recipients on `host` and
    /// resolves its waiter if that completes it.
    pub fn poll_message(
        &mut self,
        id: MessageId,
        routing: &EpTable<NodeId>,
        host: NodeId,
        locals: &mut EpTable<LocalEndpoint>,
    ) -> (outcome: Option<Polled>)
        requires
            old(self).wf(),
            routing.wf(),
            old(locals).wf(),
        ensures
            final(self).wf(),
            final(locals).wf(),
            final(self)@ == old(self)@.polled(id, routing@, host, locals_of(old(locals)@)),
            locals_of(final(locals)@) == old(self)@.poll_delivers(
                id,
                routing@,
                host,
                locals_of(old(locals)@),
            ),
            outcome == old(self)@.poll_outcome(id, routing@, host, locals_of(old(locals)@)),
    {
        let at = self.position(id);
        match at {
            None => None,
            Some(i) => {
                if self.holds[i].is_complete() {
                    let report = self.holds[i].report();
                    self.resolve(report);
                    Some(Polled::Ready)
                } else {
                    let unsent = self.holds[i].unsent();
                    let results = dispatch_to_local(
                        routing,
                        host,
                        locals,
                        &self.holds[i].message,
                        &unsent,
                    );
                    self.holds[i].record_dispatch(&results);
                    proof {
                        let sent = old(self)@.holds[i as int].sent_from(
                            routing@,
                            host,
                            locals_of(old(locals)@),
                        );
                        assert(self@.holds =~= old(self)@.holds.update(i as int, sent));
                        assert(self@.ids() =~= old(self)@.ids());
                    }
                    if self.holds[i].is_complete() {
                        let report = self.holds[i].report();
                        self.resolve(report);
                        Some(Polled::Ready)
                    } else {
                        Some(Polled::Pending)
                    }
                }
            },
        }
    }

    /// Polls every held message from `host`, in admission order.
    pub fn poll_all(
        &mut self,
        routing: &EpTable<NodeId>,
        host: NodeId,
        locals: &mut EpTable<LocalEndpoint>,
    )
        requires
            old(self).wf(),
            routing.wf(),
            old(locals).wf(),
        ensures
            final(self).wf(),
            final(locals).wf(),
            final(self)@ == old(self)@.polled_from(0, routing@, host, locals_of(old(locals)@)),
            locals_of(final(locals)@) == old(self)@.poll_from_delivers(
                0,
                routing@,
                host,
                locals_of(old(locals)@),
            ),
    {
        let n = self.holds.len();
        let mut i: usize = 0;
        while i < n
            invariant
                i <= n,
                n == self@.holds.len(),
                self.wf(),
                routing.wf(),
                locals.wf(),
                self@.polled_from(i as int, routing@, host, locals_of(locals@)) == old(
                    self,
                )@.polled_from(0, routing@, host, locals_of(old(locals)@)),
                self@.poll_from_delivers(i as int, routing@, host, locals_of(locals@)) == old(
                    self,
                )@.poll_from_delivers(0, routing@, host, locals_of(old(locals)@)),
            decreases n - i,
        {
            let id = self.holds[i].id();
            let ghost before = self@;
            let ghost locals_before = locals_of(locals@);
            self.poll_message(id, routing, host, locals);
            proof {
                assert(self@.holds.len() == before.holds.len()) by {
                    lemma_index_of_unique(before.ids(), i as int);
                }
            }
            i += 1;
        }
    }

    /// Removes the head while it is complete, resolves the waiters of the
    /// removed messages that still have one, and returns the removed
    /// messages in the order in which they were admitted.
    pub fn flush(&mut self) -> (flushed: Vec<HoldMessage>)
        requires
            old(self).wf(),
        ensures
            final(self).wf(),
            final(self)@ == old(self)@.flushed(),
            holds_of(flushed@) == old(self)@.holds.take(old(self)@.flush_count() as int),
            final(self)@.holds == old(self)@.holds.skip(old(self)@.flush_count() as int),
            forall|i: int| 0 <= i < flushed.len() ==> (#[trigger] flushed[i]).wf(),
            forall|i: int| 0 <= i < flushed.len() ==> (#[trigger] flushed[i])@.is_complete(),
            final(self)@.holds.len() > 0 ==> !final(self)@.holds[0].is_complete(),
    {
        proof {
            lemma_flush_removes_prefix(old(self)@);
        }
        let mut flushed: Vec<HoldMessage> = Vec::new();
        proof {
            assert(holds_of(flushed@) =~= old(self)@.holds.take(0));
        }
        let ghost mut count: int = 0;
        while self.holds.len() > 0 && self.holds[0].is_complete()
            invariant
                self.wf(),
                0 <= count <= old(self)@.holds.len(),
                count + self@.flush_count() == old(self)@.flush_count(),
                self@.flushed() == old(self)@.flushed(),
                self@.holds == old(self)@.holds.skip(count),
                holds_of(flushed@) == old(self)@.holds.take(count),
                forall|i: int| 0 <= i < flushed.len() ==> (#[trigger] flushed[i]).wf(),
                forall|i: int| 0 <= i < flushed.len() ==> (#[trigger] flushed[i])@.is_complete(),
            decreases self.holds.len(),
        {
            let ghost before = self@;
            let head = self.pop().unwrap();
            let report = head.report();
            self.resolve(report);
            proof {
                lemma_flush_ignores_waiters(before.popped(), self@);
                assert(self@.holds =~= old(self)@.holds.skip(count + 1));
                assert(old(self)@.holds.take(count + 1) =~= old(self)@.holds.take(count).push(
                    head@,
                ));
            }
            let ghost flushed_before = flushed@;
            flushed.push(head);
            proof {
                assert(holds_of(flushed@) =~= holds_of(flushed_before).push(head@));
                count = count + 1;
            }
        }
        flushed
    }

    /// Drops every held message.  The waiters stay registered.
    pub fn clear(&mut self)
        requires
            old(self).wf(),
        ensures
            final(self).wf(),
            final(self)@ == (QueueView { holds: Seq::empty(), ..old(self)@ }),
    {
        self.holds.clear();
        proof {
            assert(self@.holds =~= Seq::<HoldView>::empty());
            assert(self@.ids() =~= Seq::<MessageId>::empty());
        }
    }

    /// Resolves every waiter with `exception` and drops every held message.
    pub fn drop_all(&mut self, exception: WaitAckErrorException)
        requires
            old(self).wf(),
        ensures
            final(self).wf(),
            final(self)@ == old(self)@.dropped(exception),
    {
        while self.waiting.len() > 0
            invariant
                self.wf(),
                self@.dropped(exception) == old(self)@.dropped(exception),
            decreases self.waiting.len(),
        {
            let id = self.waiting[0];
            proof {
                lemma_index_of_unique(self@.waiting, 0);
            }
            self.resolve(WaitAckReport::failed(id, exception));
        }
        self.clear();
    }
}

} // verus!
