//! Acknowledgement bookkeeping of one held message, and the reports that
//! resolve the waiters of its sender.
use vstd::prelude::*;
use crate::protocol::endpoint::{EndpointAddr, MessageAckExpectKind, MessageId, MessageStatusKind};
use crate::protocol::table::{lemma_entry_is_row, lemma_row_is_entry, lemma_rows_empty, EpTable};

verus! {

/// The status of a message at each of its recipients.
pub type StatusMap = Map<EndpointAddr, MessageStatusKind>;

/// The status map in which each of `recipients` is `Unsent`.
pub open spec fn all_unsent(recipients: Set<EndpointAddr>) -> StatusMap {
    Map::new(|ep: EndpointAddr| recipients.contains(ep), |ep: EndpointAddr| MessageStatusKind::Unsent)
}

/// The status map after endpoint `from` has reported `next`.
///
/// The report counts only if `from` is a recipient and `next` is strictly
/// above its status so far; otherwise the map stays as it is.
pub open spec fn acked(
    status: StatusMap,
    from: EndpointAddr,
    next: MessageStatusKind,
) -> StatusMap {
    if status.contains_key(from) && status[from].spec_precedes(next) {
        status.insert(from, next)
    } else {
        status
    }
}

/// True when the message is complete: it has a recipient, and the status of
/// every recipient has reached the expected level or is a failure.
///
/// A message without any recipient is never complete; a durable message is in
/// that state until a first matching endpoint comes online.
pub open spec fn settled(status: StatusMap, expect: MessageAckExpectKind) -> bool {
    &&& exists|ep: EndpointAddr| status.contains_key(ep)
    &&& forall|ep: EndpointAddr| status.contains_key(ep)
        ==> (#[trigger] status[ep]).spec_fulfills(expect)
}

/// True when the delivery to some recipient has failed.
pub open spec fn has_failure(status: StatusMap) -> bool {
    exists|ep: EndpointAddr| status.contains_key(ep) && (#[trigger] status[ep]).spec_is_failure()
}

/// No recipient is added or dropped, and no status has moved down.
pub open spec fn status_advanced(before: StatusMap, after: StatusMap) -> bool {
    &&& before.dom() == after.dom()
    &&& forall|ep: EndpointAddr| before.contains_key(ep) ==> (#[trigger] before[ep]).at_most(after[ep])
}

/// A report of an endpoint never moves a status down, and adds no recipient.
pub proof fn lemma_acked_advances(status: StatusMap, from: EndpointAddr, next: MessageStatusKind)
    ensures
        status_advanced(status, acked(status, from, next)),
{
    assert(acked(status, from, next).dom() =~= status.dom());
}

/// A complete message stays complete when statuses move up.
pub proof fn lemma_settled_is_stable(
    before: StatusMap,
    after: StatusMap,
    expect: MessageAckExpectKind,
)
    requires
        status_advanced(before, after),
        settled(before, expect),
    ensures
        settled(after, expect),
{
    let ep = choose|ep: EndpointAddr| before.contains_key(ep);
    assert(after.dom().contains(ep));
    assert forall|ep: EndpointAddr| after.contains_key(ep) implies (#[trigger] after[ep]).spec_fulfills(
        expect,
    ) by {
        assert(before.dom().contains(ep));
        assert(before[ep].spec_fulfills(expect));
        assert(before[ep].at_most(after[ep]));
    }
}

/// The acknowledgements that a held message waits for.
#[derive(Debug)]
pub struct WaitAck {
    pub expect: MessageAckExpectKind,
    pub status: EpTable<MessageStatusKind>,
}

impl WaitAck {
    pub open spec fn wf(&self) -> bool {
        self.status.wf()
    }

    /// Waits for `expect` from each of `recipients`, all of them `Unsent`.
    pub fn new(expect: MessageAckExpectKind, recipients: &Vec<EndpointAddr>) -> (wait: Self)
        ensures
            wait.wf(),
            wait.expect == expect,
            wait.status@ == all_unsent(recipients@.to_set()),
    {
        let mut status: EpTable<MessageStatusKind> = EpTable::new();
        let mut i: usize = 0;
        while i < recipients.len()
            invariant
                i <= recipients.len(),
                status.wf(),
                status@ == all_unsent(recipients@.take(i as int).to_set()),
            decreases recipients.len() - i,
        {
            status.insert(recipients[i], MessageStatusKind::Unsent);
            i += 1;
            assert(recipients@.take(i as int) =~= recipients@.take(i - 1).push(recipients@[i - 1]));
            assert(recipients@.take(i as int).to_set() =~= recipients@.take(i - 1).to_set().insert(
                recipients@[i - 1],
            )) by {
                let shorter = recipients@.take(i - 1);
                let longer = recipients@.take(i as int);
                assert forall|ep: EndpointAddr|
                    longer.to_set().contains(ep) == shorter.to_set().insert(
                        recipients@[i - 1],
                    ).contains(ep) by {
                    if longer.contains(ep) {
                        let k = choose|k: int| 0 <= k < longer.len() && longer[k] == ep;
                        if k < i - 1 {
                            assert(shorter[k] == ep);
                        }
                    }
                    if shorter.contains(ep) {
                        let k = choose|k: int| 0 <= k < shorter.len() && shorter[k] == ep;
                        assert(longer[k] == ep);
                    }
                    if ep == recipients@[i - 1] {
                        assert(longer[i - 1] == ep);
                    }
                }
            }
            assert(status@ =~= all_unsent(recipients@.take(i as int).to_set()));
        }
        assert(recipients@.take(recipients.len() as int) =~= recipients@);
        WaitAck { expect, status }
    }

    pub fn duplicate(&self) -> (copy: Self)
        ensures
            copy.expect == self.expect,
            copy.status@ == self.status@,
            copy.status.rows() == self.status.rows(),
    {
        WaitAck { expect: self.expect, status: self.status.duplicate() }
    }

    /// Records that endpoint `from` has reported `next`.  Returns whether
    /// the status of `from` has changed.
    pub fn update_ack(&mut self, from: EndpointAddr, next: MessageStatusKind) -> (changed: bool)
        requires
            old(self).wf(),
        ensures
            final(self).wf(),
            final(self).expect == old(self).expect,
            final(self).status@ == acked(old(self).status@, from, next),
            changed == (old(self).status@.contains_key(from) && old(self).status@[from].spec_precedes(
                next,
            )),
            status_advanced(old(self).status@, final(self).status@),
    {
        proof {
            lemma_acked_advances(self.status@, from, next);
        }
        match self.status.position(from) {
            Some(i) => {
                let current = *self.status.value_at(i);
                if current.precedes(next) {
                    self.status.set_value_at(i, next);
                    true
                } else {
                    false
                }
            },
            None => false,
        }
    }

    /// Adds `ep` as an `Unsent` recipient, unless it is a recipient already.
    /// Returns whether it was added.
    pub fn add_recipient(&mut self, ep: EndpointAddr) -> (added: bool)
        requires
            old(self).wf(),
        ensures
            final(self).wf(),
            final(self).expect == old(self).expect,
            added == !old(self).status@.contains_key(ep),
            added ==> final(self).status@ == old(self).status@.insert(ep, MessageStatusKind::Unsent),
            !added ==> final(self).status@ == old(self).status@,
    {
        if self.status.contains_key(ep) {
            false
        } else {
            self.status.insert(ep, MessageStatusKind::Unsent);
            true
        }
    }

    /// True when the message is complete.
    pub fn is_settled(&self) -> (yes: bool)
        requires
            self.wf(),
        ensures
            yes == settled(self.status@, self.expect),
    {
        let n = self.status.len();
        proof {
            lemma_rows_empty(self.status.rows());
        }
        if n == 0 {
            return false;
        }
        let mut i: usize = 0;
        while i < n
            invariant
                i <= n,
                n == self.status.rows().len(),
                self.wf(),
                forall|k: int| 0 <= k < i
                    ==> (#[trigger] self.status.rows()[k]).1.spec_fulfills(self.expect),
            decreases n - i,
        {
            if !self.status.value_at(i).fulfills(self.expect) {
                proof {
                    lemma_row_is_entry(self.status.rows(), i as int);
                }
                return false;
            }
            i += 1;
        }
        proof {
            assert forall|ep: EndpointAddr| self.status@.contains_key(ep) implies (
            #[trigger] self.status@[ep]).spec_fulfills(self.expect) by {
                lemma_entry_is_row(self.status.rows(), ep);
            }
        }
        true
    }

    /// True when the delivery to some recipient has failed.
    pub fn has_failure(&self) -> (yes: bool)
        requires
            self.wf(),
        ensures
            yes == has_failure(self.status@),
    {
        let n = self.status.len();
        let mut i: usize = 0;
        while i < n
            invariant
                i <= n,
                n == self.status.rows().len(),
                self.wf(),
                forall|k: int| 0 <= k < i ==> !(#[trigger] self.status.rows()[k]).1.spec_is_failure(),
            decreases n - i,
        {
            if self.status.value_at(i).is_failure() {
                proof {
                    lemma_row_is_entry(self.status.rows(), i as int);
                }
                return true;
            }
            i += 1;
        }
        proof {
            assert forall|ep: EndpointAddr| self.status@.contains_key(ep) implies !(
            #[trigger] self.status@[ep]).spec_is_failure() by {
                lemma_entry_is_row(self.status.rows(), ep);
            }
        }
        false
    }
}

/// The reasons for which a message is given up as a whole.
#[derive(Clone, Copy, Debug, PartialEq, Eq, Structural, Hash)]
pub enum WaitAckErrorException {
    /// The topic was unloaded before the message was complete.
    MessageDropped,
    /// The queue was full: the message was refused, or evicted by a later one.
    Overflow,
    /// No endpoint matches the subjects of the message.
    NoAvailableTarget,
    /// The proposal of the message was not committed.
    CommitFailed,
    /// The message asks for something that is not supported.
    Unsupported,
}

/// What the sender of a message learns when its waiter is resolved.
///
/// Without an exception the message is complete and `status` is its final
/// status at each recipient.  With one, the message was given up for the
/// stated reason and `status` is empty.
#[derive(Debug)]
pub struct WaitAckReport {
    pub message_id: MessageId,
    pub status: EpTable<MessageStatusKind>,
    pub exception: Option<WaitAckErrorException>,
}

/// The mathematical value of a report.
pub struct ReportView {
    pub id: MessageId,
    pub status: StatusMap,
    pub exception: Option<WaitAckErrorException>,
}

impl ReportView {
    /// The report of a complete message.
    pub open spec fn completed(id: MessageId, status: StatusMap) -> ReportView {
        ReportView { id, status, exception: None }
    }

    /// The report of a message that was given up.
    pub open spec fn failed(id: MessageId, exception: WaitAckErrorException) -> ReportView {
        ReportView { id, status: Map::empty(), exception: Some(exception) }
    }

    /// True when the report says that every recipient was served.
    pub open spec fn is_success(self) -> bool {
        self.exception is None && !has_failure(self.status)
    }
}

impl View for WaitAckReport {
    type V = ReportView;

    open spec fn view(&self) -> ReportView {
        ReportView { id: self.message_id, status: self.status@, exception: self.exception }
    }
}

impl WaitAckReport {
    pub open spec fn wf(&self) -> bool {
        self.status.wf()
    }

    /// The report of a complete message.
    pub fn completed(message_id: MessageId, wait: &WaitAck) -> (report: Self)
        requires
            wait.wf(),
        ensures
            report.wf(),
            report@ == ReportView::completed(message_id, wait.status@),
    {
        WaitAckReport { message_id, status: wait.status.duplicate(), exception: None }
    }

    /// The report of a message that was given up.
    pub fn failed(message_id: MessageId, exception: WaitAckErrorException) -> (report: Self)
        ensures
            report.wf(),
            report@ == ReportView::failed(message_id, exception),
    {
        WaitAckReport { message_id, status: EpTable::new(), exception: Some(exception) }
    }

    /// True when the report says that every recipient was served.
    pub fn is_success(&self) -> (yes: bool)
        requires
            self.wf(),
        ensures
            yes == self@.is_success(),
    {
        if self.exception.is_some() {
            return false;
        }
        let n = self.status.len();
        let mut i: usize = 0;
        while i < n
            invariant
                i <= n,
                n == self.status.rows().len(),
                self.wf(),
                forall|k: int| 0 <= k < i ==> !(#[trigger] self.status.rows()[k]).1.spec_is_failure(),
            decreases n - i,
        {
            if self.status.value_at(i).is_failure() {
                proof {
                    lemma_row_is_entry(self.status.rows(), i as int);
                }
                return false;
            }
            i += 1;
        }
        proof {
            assert forall|ep: EndpointAddr| self.status@.contains_key(ep) implies !(
            #[trigger] self.status@[ep]).spec_is_failure() by {
                lemma_entry_is_row(self.status.rows(), ep);
            }
        }
        true
    }
}

/// The ticket that a sender holds while it waits for the report of a message.
#[derive(Clone, Copy, Debug, PartialEq, Eq, Structural, Hash)]
pub struct WaitAckHandle {
    pub message_id: MessageId,
}

} // verus!
