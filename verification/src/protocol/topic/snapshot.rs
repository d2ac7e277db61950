//! Snapshots: the replicated state of a topic as it is handed from replica
//! to replica.
use vstd::prelude::*;
use crate::TimestampSec;
use crate::protocol::interest::InterestMap;
use crate::protocol::node::NodeId;
use crate::protocol::table::EpTable;
use crate::protocol::topic::config::TopicConfig;
use crate::protocol::topic::durable_message::DurableMessage;
use crate::protocol::topic::hold_message::{HoldMessage, HoldView, MessageQueue, QueueView};
use crate::protocol::topic::model::SnapshotView;

verus! {

/// The durable messages of a vector, each as its value.
pub open spec fn durables_of(queue: Seq<DurableMessage>) -> Seq<HoldView> {
    queue.map_values(|durable: DurableMessage| durable@)
}

/// The replicated state of one topic, as it is handed from replica to
/// replica.
#[derive(Debug)]
pub struct TopicSnapshot {
    pub config: TopicConfig,
    pub ep_routing_table: EpTable<NodeId>,
    pub ep_interest_map: InterestMap,
    pub ep_latest_active: EpTable<TimestampSec>,
    /// The held messages, in admission order.
    pub queue: Vec<DurableMessage>,
}

impl View for TopicSnapshot {
    type V = SnapshotView;

    open spec fn view(&self) -> SnapshotView {
        SnapshotView {
            config: self.config@,
            routing: self.ep_routing_table@,
            interests: self.ep_interest_map@,
            active: self.ep_latest_active@,
            queue: durables_of(self.queue@),
        }
    }
}

impl TopicSnapshot {
    /// The tables are in order and agree on the endpoints, and no message is
    /// held twice.
    pub open spec fn wf(&self) -> bool {
        &&& self.ep_routing_table.wf()
        &&& self.ep_interest_map.wf()
        &&& self.ep_latest_active.wf()
        &&& forall|i: int| 0 <= i < self.queue@.len() ==> (#[trigger] self.queue@[i]).wf()
        &&& self@.wf()
    }
}

/// True when each of the durable messages is well formed and no message is
/// carried twice.
pub open spec fn durables_wf(queue: Seq<DurableMessage>) -> bool {
    &&& forall|i: int| 0 <= i < queue.len() ==> (#[trigger] queue[i]).wf()
    &&& durables_of(queue).map_values(|hold: HoldView| hold.message.id).no_duplicates()
}

/// True when each of the durable messages is well formed and no message is
/// carried twice.
pub fn durables_are_valid(queue: &Vec<DurableMessage>) -> (yes: bool)
    ensures
        yes == durables_wf(queue@),
{
    let ghost ids = durables_of(queue@).map_values(|hold: HoldView| hold.message.id);
    let mut i: usize = 0;
    while i < queue.len()
        invariant
            i <= queue.len(),
            ids == durables_of(queue@).map_values(|hold: HoldView| hold.message.id),
            forall|k: int| 0 <= k < i ==> (#[trigger] queue@[k]).wf(),
            forall|a: int, b: int| 0 <= a < b < i ==> ids[a] != ids[b],
        decreases queue.len() - i,
    {
        if !queue[i].status.is_ordered() {
            return false;
        }
        let id = queue[i].message.id();
        let mut j: usize = 0;
        while j < i
            invariant
                j <= i < queue.len(),
                ids == durables_of(queue@).map_values(|hold: HoldView| hold.message.id),
                id == ids[i as int],
                forall|a: int| 0 <= a < j ==> ids[a] != ids[i as int],
            decreases i - j,
        {
            if queue[j].message.id().bits == id.bits {
                assert(ids[j as int] == ids[i as int]);
                return false;
            }
            j += 1;
        }
        i += 1;
    }
    true
}

impl TopicSnapshot {
    /// True when the snapshot is well formed, and so may be installed.
    pub fn is_valid(&self) -> (yes: bool)
        ensures
            yes == self.wf(),
    {
        if !(self.ep_routing_table.is_ordered() && self.ep_interest_map.is_valid()
            && self.ep_latest_active.is_ordered() && durables_are_valid(&self.queue)) {
            return false;
        }
        proof {
            assert(self@.interests.dom() =~= self.ep_interest_map.raw@.dom());
        }
        self.ep_routing_table.same_keys(&self.ep_interest_map.raw) && self.ep_routing_table.same_keys(
            &self.ep_latest_active,
        )
    }
}

impl MessageQueue {
    /// The held messages in their durable form, in admission order.
    pub fn durable(&self) -> (queue: Vec<DurableMessage>)
        requires
            self.wf(),
        ensures
            durables_of(queue@) == self@.holds,
            forall|i: int| 0 <= i < queue@.len() ==> (#[trigger] queue@[i]).wf(),
    {
        let mut queue: Vec<DurableMessage> = Vec::new();
        let n = self.len();
        let mut i: usize = 0;
        while i < n
            invariant
                i <= n,
                n == self@.holds.len(),
                self.wf(),
                durables_of(queue@) == self@.holds.take(i as int),
                forall|k: int| 0 <= k < queue@.len() ==> (#[trigger] queue@[k]).wf(),
            decreases n - i,
        {
            let ghost before = queue@;
            let durable = self.hold_at(i).as_durable();
            queue.push(durable);
            i += 1;
            proof {
                assert(durables_of(queue@) =~= durables_of(before).push(durable@));
                assert(self@.holds.take(i as int) =~= self@.holds.take(i - 1).push(self@.holds[i - 1]));
            }
        }
        proof {
            assert(self@.holds.take(n as int) =~= self@.holds);
        }
        queue
    }

    /// Admits the held messages that the durable forms stand for, in their
    /// order.
    pub fn push_durable(&mut self, queue: Vec<DurableMessage>)
        requires
            old(self).wf(),
            old(self)@.holds.len() == 0,
            forall|i: int| 0 <= i < queue@.len() ==> (#[trigger] queue@[i]).wf(),
            durables_of(queue@).map_values(|hold: HoldView| hold.message.id).no_duplicates(),
        ensures
            final(self).wf(),
            final(self)@ == (QueueView { holds: durables_of(queue@), ..old(self)@ }),
    {
        let ghost all = durables_of(queue@);
        let ghost ids = all.map_values(|hold: HoldView| hold.message.id);
        let ghost given = queue@;
        proof {
            assert(old(self)@.holds =~= all.take(0));
        }
        for durable in it: queue
            invariant
                it.seq() == given,
                all == durables_of(given),
                ids == all.map_values(|hold: HoldView| hold.message.id),
                ids.no_duplicates(),
                forall|i: int| 0 <= i < given.len() ==> (#[trigger] given[i]).wf(),
                self.wf(),
                self@ == (QueueView { holds: all.take(it.index() as int), ..old(self)@ }),
        {
            let ghost at = it.index() as int;
            proof {
                assert(all[at] == durable@);
                self.lemma_wf();
                assert(!self@.holds_message(durable@.message.id)) by {
                    if self@.ids().contains(durable@.message.id) {
                        let k = choose|k: int| 0 <= k < self@.ids().len()
                            && self@.ids()[k] == durable@.message.id;
                        assert(ids[k] == all[k].message.id);
                        assert(ids[at] == all[at].message.id);
                    }
                }
            }
            self.push(HoldMessage::from_durable(durable));
            proof {
                assert(self@.holds =~= all.take(at + 1));
            }
        }
        proof {
            assert(all.take(all.len() as int) =~= all);
        }
    }
}

} // verus!
