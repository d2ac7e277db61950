//! Broker nodes: the registry of topics and the application of committed
//! log entries.
use vstd::prelude::*;
use crate::protocol::endpoint::{
    DelegateMessage,
    EndpointOffline,
    EndpointOnline,
    SetEpInterest,
    SetState,
};
use crate::protocol::interest::{interests_of, InterestMap};
use crate::protocol::table::EpTable;
use crate::protocol::topic::{SnapshotView, Topic, TopicCode, TopicData, TopicSnapshot, TopicView};
use crate::protocol::topic::config::TopicConfig;
use crate::protocol::topic::durable_message::{LoadTopic, UnloadTopic};
use crate::protocol::topic::hold_message::{
    lemma_index_of_unique,
    lemma_remove_keeps_unique,
    HoldView,
};
use crate::protocol::topic::snapshot::{durables_are_valid, durables_of};
use crate::protocol::topic::wait_ack::WaitAckErrorException;

verus! {

/// Cluster-unique identifier of a broker instance.
#[derive(Clone, Copy, Debug, PartialEq, Eq, Structural, PartialOrd, Ord, Hash)]
pub struct NodeId {
    pub bits: u128,
}

impl NodeId {
    pub fn new(bits: u128) -> (id: Self)
        ensures
            id.bits == bits,
    {
        NodeId { bits }
    }

    /// The identifier of the `index`-th node of a cluster that numbers its
    /// nodes.
    pub fn new_indexed(index: u64) -> (id: Self)
        ensures
            id.bits == index,
    {
        NodeId { bits: index as u128 }
    }
}

/// A committed entry of the replicated log.
#[derive(Debug)]
pub enum LogEntry {
    LoadTopic(LoadTopic),
    UnloadTopic(UnloadTopic),
    EndpointOnline(EndpointOnline),
    EndpointOffline(EndpointOffline),
    SetEpInterest(SetEpInterest),
    DelegateMessage(DelegateMessage),
    SetState(SetState),
}

impl LogEntry {
    /// The held messages that a `LoadTopic` entry carries are well formed,
    /// and none of them is carried twice.
    pub open spec fn wf(&self) -> bool {
        self matches LogEntry::LoadTopic(load) ==> {
            &&& forall|i: int| 0 <= i < load.queue@.len() ==> (#[trigger] load.queue@[i]).wf()
            &&& durables_of(load.queue@).map_values(|hold: HoldView| hold.message.id).no_duplicates()
        }
    }

    /// True when the entry is well formed, and so may be applied.
    pub fn is_valid(&self) -> (yes: bool)
        ensures
            yes == self.wf(),
    {
        match self {
            LogEntry::LoadTopic(load) => durables_are_valid(&load.queue),
            _ => true,
        }
    }

    pub fn load_topic(load: LoadTopic) -> (entry: Self)
        ensures
            entry == LogEntry::LoadTopic(load),
    {
        LogEntry::LoadTopic(load)
    }

    pub fn unload_topic(unload: UnloadTopic) -> (entry: Self)
        ensures
            entry == LogEntry::UnloadTopic(unload),
    {
        LogEntry::UnloadTopic(unload)
    }

    pub fn ep_online(online: EndpointOnline) -> (entry: Self)
        ensures
            entry == LogEntry::EndpointOnline(online),
    {
        LogEntry::EndpointOnline(online)
    }

    pub fn ep_offline(offline: EndpointOffline) -> (entry: Self)
        ensures
            entry == LogEntry::EndpointOffline(offline),
    {
        LogEntry::EndpointOffline(offline)
    }

    pub fn ep_interest(interest: SetEpInterest) -> (entry: Self)
        ensures
            entry == LogEntry::SetEpInterest(interest),
    {
        LogEntry::SetEpInterest(interest)
    }

    pub fn delegate_message(delegate: DelegateMessage) -> (entry: Self)
        ensures
            entry == LogEntry::DelegateMessage(delegate),
    {
        LogEntry::DelegateMessage(delegate)
    }

    pub fn set_state(state: SetState) -> (entry: Self)
        ensures
            entry == LogEntry::SetState(state),
    {
        LogEntry::SetState(state)
    }
}

/// What a caller who wants a topic loaded does next.
#[derive(Debug)]
pub enum LoadStep {
    /// This node leads: propose the entry.  Once it is committed and
    /// applied, the topic is in the registry.
    Propose(LogEntry),
    /// Another node leads, and the topic is loaded here: fetch it from the
    /// registry.
    Loaded,
    /// Another node leads, and the topic is not loaded here: ask again
    /// later with what is handed back, until the entry of the leader has
    /// been applied here.
    Wait(LoadTopic),
}

/// What the application of a log entry has come to.
#[derive(Clone, Copy, Debug, PartialEq, Eq, Structural, Hash)]
pub enum Applied {
    /// The entry has taken effect.
    Done,
    /// The entry names a topic that is not loaded; nothing has changed.
    NoSuchTopic,
    /// The entry loads a topic that is loaded already; nothing has changed.
    AlreadyLoaded,
    /// The message of the entry was not admitted, for this reason.
    Refused(WaitAckErrorException),
}

/// The mathematical value of a node: its identifier and its topics, in the
/// order in which they were loaded.
pub struct NodeView {
    pub id: NodeId,
    pub topics: Seq<TopicView>,
    /// The topics that were unloaded and not collected yet.
    pub unloaded: Seq<TopicView>,
}

impl NodeView {
    /// The codes of the topics, in the order of the registry.
    pub open spec fn codes(self) -> Seq<Seq<u8>> {
        self.topics.map_values(|topic: TopicView| topic.config.code)
    }

    /// Every topic is well formed and held by this node, and no code names
    /// two topics.
    pub open spec fn wf(self) -> bool {
        &&& forall|i: int| 0 <= i < self.topics.len() ==> (#[trigger] self.topics[i]).wf()
        &&& forall|i: int| 0 <= i < self.topics.len() ==> (#[trigger] self.topics[i]).host == self.id
        &&& self.codes().no_duplicates()
    }

    /// True when a topic with this code is loaded.
    pub open spec fn has_topic(self, code: Seq<u8>) -> bool {
        self.codes().contains(code)
    }

    /// Place in the registry of the topic with this code.
    pub open spec fn index_of(self, code: Seq<u8>) -> int {
        self.codes().index_of(code)
    }

    /// The topic with this code.
    pub open spec fn topic(self, code: Seq<u8>) -> TopicView {
        self.topics[self.index_of(code)]
    }

    /// The node after the topic with this code has moved to the state
    /// `next`.
    pub open spec fn with_topic(self, code: Seq<u8>, next: TopicView) -> NodeView {
        NodeView { topics: self.topics.update(self.index_of(code), next), ..self }
    }

    /// The topic that a `LoadTopic` entry creates on this node.
    pub open spec fn loaded(self, load: LoadTopic) -> TopicView {
        TopicView::from_snapshot(
            SnapshotView {
                config: load.config@,
                routing: Map::empty(),
                interests: Map::empty(),
                active: Map::empty(),
                queue: durables_of(load.queue@),
            },
            self.id,
        )
    }

    /// The node after the topic with this code is removed from the
    /// registry: its waiters are resolved with `MessageDropped`, its held
    /// messages are dropped, and what is left of it waits to be collected.
    pub open spec fn remove_topic(self, code: Seq<u8>) -> NodeView {
        if self.has_topic(code) {
            NodeView {
                topics: self.topics.remove(self.index_of(code)),
                unloaded: self.unloaded.push(self.topic(code).unloaded()),
                ..self
            }
        } else {
            self
        }
    }

    /// The snapshot of the node: the snapshots of its topics, in the order
    /// of the registry.
    pub open spec fn snapshot(self) -> Seq<SnapshotView> {
        self.topics.map_values(|topic: TopicView| topic.snapshot())
    }

    /// The node after the snapshot of a node is installed.
    ///
    /// The registry holds the topics of the snapshot, in its order.  A
    /// topic that was loaded keeps its local endpoints and its waiters, and
    /// has the snapshot installed over it; a topic that was not loaded is
    /// rebuilt from the snapshot.  The loaded topics that the snapshot does
    /// not name are unloaded.
    pub open spec fn installed(self, snapshots: Seq<SnapshotView>) -> NodeView {
        let end = install_all(self.topics, Seq::empty(), snapshots, self.id);
        NodeView {
            topics: end.1,
            unloaded: self.unloaded + end.0.map_values(|topic: TopicView| topic.unloaded()),
            ..self
        }
    }

    /// The code of the topic that an entry is about.
    pub open spec fn code_of(entry: LogEntry) -> Seq<u8> {
        match entry {
            LogEntry::LoadTopic(load) => load.config@.code,
            LogEntry::UnloadTopic(unload) => unload.code@,
            LogEntry::EndpointOnline(online) => online.topic_code@,
            LogEntry::EndpointOffline(offline) => offline.topic_code@,
            LogEntry::SetEpInterest(interest) => interest.topic_code@,
            LogEntry::DelegateMessage(delegate) => delegate.topic@,
            LogEntry::SetState(state) => state.topic@,
        }
    }

    /// The state to which an entry moves the topic `topic` that it is
    /// about.
    pub open spec fn moved(topic: TopicView, entry: LogEntry) -> TopicView {
        match entry {
            LogEntry::LoadTopic(load) => topic,
            LogEntry::UnloadTopic(unload) => topic,
            LogEntry::EndpointOnline(online) => topic.ep_online(
                online.endpoint,
                interests_of(online.interests@),
                online.host,
                online.at,
            ),
            LogEntry::EndpointOffline(offline) => topic.ep_offline(offline.endpoint),
            LogEntry::SetEpInterest(interest) => topic.update_ep_interest(
                interest.endpoint,
                interests_of(interest.interests@),
            ),
            LogEntry::DelegateMessage(delegate) => topic.hold_new_message(delegate.message@),
            LogEntry::SetState(state) => topic.seen_all(state.update.status@, state.at).update_and_flush(
                state.update.message_id,
                state.update.status@,
            ),
        }
    }

    /// The node after a committed entry is applied.
    ///
    /// `LoadTopic` creates the topic unless it is loaded.  `UnloadTopic`
    /// removes it.  Every other entry moves the topic that it names, and
    /// changes nothing if that topic is not loaded.
    pub open spec fn applied(self, entry: LogEntry) -> NodeView {
        let code = Self::code_of(entry);
        match entry {
            LogEntry::LoadTopic(load) => if self.has_topic(code) {
                self
            } else {
                NodeView { topics: self.topics.push(self.loaded(load)), ..self }
            },
            LogEntry::UnloadTopic(unload) => self.remove_topic(code),
            _ => if self.has_topic(code) {
                self.with_topic(code, Self::moved(self.topic(code), entry))
            } else {
                self
            },
        }
    }

    /// What the application of an entry reports.
    pub open spec fn outcome(self, entry: LogEntry) -> Applied {
        let code = Self::code_of(entry);
        match entry {
            LogEntry::LoadTopic(load) => if self.has_topic(code) {
                Applied::AlreadyLoaded
            } else {
                Applied::Done
            },
            LogEntry::DelegateMessage(delegate) => if !self.has_topic(code) {
                Applied::NoSuchTopic
            } else {
                match self.topic(code).admission(delegate.message@) {
                    Ok(_) => Applied::Done,
                    Err(exception) => Applied::Refused(exception),
                }
            },
            _ => if self.has_topic(code) {
                Applied::Done
            } else {
                Applied::NoSuchTopic
            },
        }
    }
}

/// One step of the installation of a snapshot: of the topics that were
/// loaded and are not yet named, and the topics that are built so far, the
/// snapshot `snapshot` takes its topic from the first, if it is there, and
/// adds it to the second.
pub open spec fn install_one(
    remaining: Seq<TopicView>,
    built: Seq<TopicView>,
    snapshot: SnapshotView,
    id: NodeId,
) -> (Seq<TopicView>, Seq<TopicView>) {
    let codes = remaining.map_values(|topic: TopicView| topic.config.code);
    if codes.contains(snapshot.config.code) {
        let at = codes.index_of(snapshot.config.code);
        (remaining.remove(at), built.push(remaining[at].apply_snapshot(snapshot)))
    } else {
        (remaining, built.push(TopicView::from_snapshot(snapshot, id)))
    }
}

/// The installation of the snapshots of a list, one after the other.
pub open spec fn install_all(
    remaining: Seq<TopicView>,
    built: Seq<TopicView>,
    snapshots: Seq<SnapshotView>,
    id: NodeId,
) -> (Seq<TopicView>, Seq<TopicView>)
    decreases snapshots.len(),
{
    if snapshots.len() == 0 {
        (remaining, built)
    } else {
        let next = install_one(remaining, built, snapshots[0], id);
        install_all(next.0, next.1, snapshots.drop_first(), id)
    }
}

/// The snapshots of a vector, each as its value.
pub open spec fn snapshots_of(snapshots: Seq<TopicSnapshot>) -> Seq<SnapshotView> {
    snapshots.map_values(|snapshot: TopicSnapshot| snapshot@)
}

/// True when each of the snapshots is well formed and no two of them are of
/// the same topic.
pub open spec fn snapshots_wf(snapshots: Seq<TopicSnapshot>) -> bool {
    &&& forall|i: int| 0 <= i < snapshots.len() ==> (#[trigger] snapshots[i]).wf()
    &&& snapshots_of(snapshots).map_values(|snapshot: SnapshotView| snapshot.config.code).no_duplicates()
}

/// Once a `LoadTopic` entry is applied, the registry holds a topic with its
/// code: the one that was there, or the one that the entry has created.
pub proof fn lemma_load_topic_loads(node: NodeView, load: LoadTopic)
    ensures
        node.applied(LogEntry::LoadTopic(load)).has_topic(load.config@.code),
        node.has_topic(load.config@.code) ==> node.applied(LogEntry::LoadTopic(load)) == node,
        !node.has_topic(load.config@.code) ==> node.applied(LogEntry::LoadTopic(load)).topic(
            load.config@.code,
        ) == node.loaded(load),
{
    let code = load.config@.code;
    if !node.has_topic(code) {
        let after = node.applied(LogEntry::LoadTopic(load));
        assert(after.codes() =~= node.codes().push(node.loaded(load).config.code));
        assert(node.loaded(load).config.code == code);
        let last = after.codes().len() - 1;
        assert(after.codes()[last] == code);
        let at = after.codes().index_of(code);
        assert(0 <= at < after.codes().len() && after.codes()[at] == code);
        if at < last {
            assert(node.codes()[at] == code);
        }
    }
}

/// The topics of a vector, each as its value.
pub open spec fn topics_of(topics: Seq<Topic>) -> Seq<TopicView> {
    topics.map_values(|topic: Topic| topic@)
}

/// A broker node: the owner of the registry of topics, and the one writer of
/// their state.
#[derive(Debug)]
pub struct Node {
    id: NodeId,
    topics: Vec<Topic>,
    unloaded: Vec<Topic>,
}

impl View for Node {
    type V = NodeView;

    closed spec fn view(&self) -> NodeView {
        NodeView {
            id: self.id,
            topics: topics_of(self.topics@),
            unloaded: topics_of(self.unloaded@),
        }
    }
}

impl Node {
    /// Every topic of the registry is well formed and held by this node, and
    /// no code names two topics.
    pub closed spec fn wf(&self) -> bool {
        &&& forall|i: int| 0 <= i < self.topics@.len() ==> (#[trigger] self.topics@[i]).wf()
        &&& forall|i: int| 0 <= i < self.unloaded@.len() ==> (#[trigger] self.unloaded@[i]).wf()
        &&& self@.wf()
    }

    /// A well-formed node has a well-formed value.
    pub proof fn lemma_wf(&self)
        requires
            self.wf(),
        ensures
            self@.wf(),
    {
    }

    /// A node without topics.
    pub fn new(id: NodeId) -> (node: Self)
        ensures
            node.wf(),
            node@ == (NodeView { id, topics: Seq::empty(), unloaded: Seq::empty() }),
    {
        let node = Node { id, topics: Vec::new(), unloaded: Vec::new() };
        proof {
            assert(node@.topics =~= Seq::<TopicView>::empty());
            assert(node@.unloaded =~= Seq::<TopicView>::empty());
            assert(node@.codes() =~= Seq::<Seq<u8>>::empty());
        }
        node
    }

    pub fn id(&self) -> (id: NodeId)
        ensures
            id == self@.id,
    {
        self.id
    }

    /// True when `id` is the identifier of this node.
    pub fn is(&self, id: NodeId) -> (yes: bool)
        ensures
            yes == (id == self@.id),
    {
        self.id.bits == id.bits
    }

    /// Number of loaded topics.
    pub fn topic_count(&self) -> (n: usize)
        ensures
            n == self@.topics.len(),
    {
        self.topics.len()
    }

    /// Place in the registry of the topic with this code.
    pub fn position(&self, code: &TopicCode) -> (at: Option<usize>)
        requires
            self.wf(),
        ensures
            at is Some <==> self@.has_topic(code@),
            at matches Some(i) ==> i == self@.index_of(code@) && i < self@.topics.len()
                && self@.topics[i as int].config.code == code@,
    {
        let mut i: usize = 0;
        while i < self.topics.len()
            invariant
                i <= self.topics.len(),
                self.wf(),
                forall|k: int| 0 <= k < i ==> self@.codes()[k] != code@,
            decreases self.topics.len() - i,
        {
            if self.topics[i].code().same_as(code) {
                proof {
                    assert(self@.codes()[i as int] == code@);
                    lemma_index_of_unique(
                        self@.codes(),
                        i as int,
                    );
                }
                return Some(i);
            }
            i += 1;
        }
        None
    }

    /// The topic with this code, if it is loaded.
    pub fn get_topic(&self, code: &TopicCode) -> (topic: Option<&Topic>)
        requires
            self.wf(),
        ensures
            topic is Some <==> self@.has_topic(code@),
            topic matches Some(t) ==> t.wf() && t@ == self@.topic(code@),
    {
        match self.position(code) {
            Some(i) => Some(&self.topics[i]),
            None => None,
        }
    }

    /// The topic at place `i` of the registry.
    pub fn topic_at(&self, i: usize) -> (topic: &Topic)
        requires
            self.wf(),
            i < self@.topics.len(),
        ensures
            topic.wf(),
            topic@ == self@.topics[i as int],
    {
        &self.topics[i]
    }

    /// Wraps the state of a topic of this node for the registry.
    pub fn wrap_topic(&self, topic_inner: TopicData) -> (topic: Topic)
        requires
            topic_inner.wf(),
        ensures
            topic.wf(),
            topic@ == topic_inner@,
    {
        Topic::new(topic_inner)
    }

    /// Removes the topic with this code from the registry.  Its waiters are
    /// resolved with `MessageDropped` and its held messages are dropped.
    /// Returns whether there was such a topic.
    pub fn remove_topic(&mut self, code: &TopicCode) -> (removed: bool)
        requires
            old(self).wf(),
        ensures
            final(self).wf(),
            final(self)@ == old(self)@.remove_topic(code@),
            removed == old(self)@.has_topic(code@),
    {
        match self.position(code) {
            Some(i) => {
                proof {
                    lemma_remove_keeps_unique(
                        self@.codes(),
                        i as int,
                    );
                }
                let mut topic = self.topics.remove(i);
                proof {
                    assert(self@.topics =~= old(self)@.topics.remove(i as int));
                    assert(self@.codes() =~= old(self)@.codes().remove(i as int));
                }
                topic.unload();
                let ghost before = self.unloaded@;
                self.unloaded.push(topic);
                proof {
                    assert(topics_of(self.unloaded@) =~= topics_of(before).push(topic@));
                }
                true
            },
            None => false,
        }
    }

    /// Takes what is left of the topics that were unloaded since the last
    /// call, for their reports to be delivered.
    pub fn take_unloaded(&mut self) -> (unloaded: Vec<Topic>)
        requires
            old(self).wf(),
        ensures
            final(self).wf(),
            topics_of(unloaded@) == old(self)@.unloaded,
            forall|i: int| 0 <= i < unloaded@.len() ==> (#[trigger] unloaded@[i]).wf(),
            final(self)@ == (NodeView { unloaded: Seq::empty(), ..old(self)@ }),
    {
        let mut unloaded: Vec<Topic> = Vec::new();
        std::mem::swap(&mut unloaded, &mut self.unloaded);
        proof {
            assert(self@.unloaded =~= Seq::<TopicView>::empty());
        }
        unloaded
    }

    /// Decides the next step of a caller who wants the topic of
    /// `load_topic` loaded.
    ///
    /// The leader proposes the entry that loads the topic, whether or not
    /// its registry holds the topic already; an entry for a topic that is
    /// loaded changes nothing when it is applied.  Any other node proposes
    /// nothing: it reads the topic if its registry holds it, and waits for
    /// the entry of the leader otherwise.
    pub fn load_topic(&self, load_topic: LoadTopic, is_leader: bool) -> (step: LoadStep)
        requires
            self.wf(),
        ensures
            is_leader ==> step == LoadStep::Propose(LogEntry::LoadTopic(load_topic)),
            !is_leader && self@.has_topic(load_topic.config@.code) ==> step == LoadStep::Loaded,
            !is_leader && !self@.has_topic(load_topic.config@.code) ==> step == LoadStep::Wait(
                load_topic,
            ),
    {
        if is_leader {
            LoadStep::Propose(LogEntry::LoadTopic(load_topic))
        } else if self.position(&load_topic.config.code).is_some() {
            LoadStep::Loaded
        } else {
            LoadStep::Wait(load_topic)
        }
    }

    /// Decides the next step of a caller who wants a new, empty topic with
    /// the given configuration: the step of [`Node::load_topic`] for the
    /// entry that creates the empty topic.
    pub fn new_topic(&self, config: TopicConfig, is_leader: bool) -> (step: LoadStep)
        requires
            self.wf(),
        ensures
            is_leader ==> (step matches LoadStep::Propose(LogEntry::LoadTopic(load)) && load.config
                == config && load.queue@.len() == 0),
            !is_leader && self@.has_topic(config@.code) ==> step == LoadStep::Loaded,
            !is_leader && !self@.has_topic(config@.code) ==> (step matches LoadStep::Wait(back)
                && back.config == config && back.queue@.len() == 0),
    {
        self.load_topic(LoadTopic::from_config(config), is_leader)
    }

    /// The entry that a caller who wants the topic `code` deleted has to
    /// propose: the leader proposes its unloading, any other node nothing.
    pub fn delete_topic(&self, code: TopicCode, is_leader: bool) -> (entry: Option<LogEntry>)
        ensures
            is_leader ==> entry == Some(LogEntry::UnloadTopic(UnloadTopic { code })),
            !is_leader ==> entry is None,
    {
        if is_leader {
            Some(LogEntry::UnloadTopic(UnloadTopic::new(code)))
        } else {
            None
        }
    }

    /// The topic at place `i` of the registry, to be worked on in place.
    ///
    /// The registry stays well formed if the topic is well formed when the
    /// work is done and still has its code and its node.
    pub fn topic_at_mut(&mut self, i: usize) -> (topic: &mut Topic)
        requires
            old(self).wf(),
            i < old(self)@.topics.len(),
        ensures
            topic.wf(),
            topic@ == old(self)@.topics[i as int],
            final(self)@ == (NodeView {
                topics: old(self)@.topics.update(i as int, final(topic)@),
                ..old(self)@
            }),
            final(topic).wf() && final(topic)@.host == topic@.host
                && final(topic)@.config == topic@.config
                ==> final(self).wf(),
    {
        proof {
            let before = self@;
            let topics = self.topics@;
            assert forall|next: Topic|
                next.wf() && next@.host == topics[i as int]@.host
                    && next@.config == topics[i as int]@.config
                    implies (NodeView {
                    topics: #[trigger] topics_of(topics.update(i as int, next)),
                    ..before
                }).wf() by {
                let after = NodeView { topics: topics_of(topics.update(i as int, next)), ..before };
                next.lemma_wf();
                assert(after.codes() =~= before.codes());
                assert forall|k: int| 0 <= k < after.topics.len()
                    implies (#[trigger] after.topics[k]).wf()
                    && after.topics[k].host == after.id by {
                    if k != i {
                        assert(after.topics[k] == before.topics[k]);
                    } else {
                        assert(before.topics[i as int].host == before.id);
                    }
                }
            }
            assert forall|next: Topic|
                #[trigger] topics_of(topics.update(i as int, next)) == topics_of(topics).update(
                    i as int,
                    next@,
                ) by {
                assert(topics_of(topics.update(i as int, next)) =~= topics_of(topics).update(
                    i as int,
                    next@,
                ));
            }
        }
        &mut self.topics[i]
    }

    /// Applies a committed entry of the log.
    ///
    /// This is the one way in which the replicated state of the topics
    /// changes.  The effect depends on the state and the entry alone.
    pub fn apply(&mut self, entry: LogEntry) -> (outcome: Applied)
        requires
            old(self).wf(),
            entry.wf(),
        ensures
            final(self).wf(),
            final(self)@ == old(self)@.applied(entry),
            outcome == old(self)@.outcome(entry),
    {
        match entry {
            LogEntry::LoadTopic(load) => {
                if self.position(&load.config.code).is_some() {
                    Applied::AlreadyLoaded
                } else {
                    let ghost code = load.config@.code;
                    let snapshot = TopicSnapshot {
                        config: load.config,
                        ep_routing_table: EpTable::new(),
                        ep_interest_map: InterestMap::new(),
                        ep_latest_active: EpTable::new(),
                        queue: load.queue,
                    };
                    proof {
                        assert(snapshot@.routing.dom() =~= snapshot@.interests.dom());
                        assert(snapshot@.routing.dom() =~= snapshot@.active.dom());
                    }
                    let topic = Topic::new(TopicData::from_snapshot(snapshot, self.id));
                    proof {
                        topic.lemma_wf();
                    }
                    self.topics.push(topic);
                    proof {
                        assert(self@.topics =~= old(self)@.topics.push(topic@));
                        assert(self@.codes() =~= old(self)@.codes().push(code));
                    }
                    Applied::Done
                }
            },
            LogEntry::UnloadTopic(unload) => {
                if self.remove_topic(&unload.code) {
                    Applied::Done
                } else {
                    Applied::NoSuchTopic
                }
            },
            LogEntry::EndpointOnline(online) => {
                match self.position(&online.topic_code) {
                    Some(i) => {
                        let topic = self.topic_at_mut(i);
                        topic.ep_online(online.endpoint, online.interests, online.host, online.at);
                        Applied::Done
                    },
                    None => Applied::NoSuchTopic,
                }
            },
            LogEntry::EndpointOffline(offline) => {
                match self.position(&offline.topic_code) {
                    Some(i) => {
                        let topic = self.topic_at_mut(i);
                        topic.ep_offline(offline.endpoint);
                        Applied::Done
                    },
                    None => Applied::NoSuchTopic,
                }
            },
            LogEntry::SetEpInterest(interest) => {
                match self.position(&interest.topic_code) {
                    Some(i) => {
                        let topic = self.topic_at_mut(i);
                        topic.update_ep_interest(interest.endpoint, interest.interests);
                        Applied::Done
                    },
                    None => Applied::NoSuchTopic,
                }
            },
            LogEntry::DelegateMessage(delegate) => {
                match self.position(&delegate.topic) {
                    Some(i) => {
                        let topic = self.topic_at_mut(i);
                        match topic.hold_new_message(delegate.message) {
                            Ok(_) => Applied::Done,
                            Err(exception) => Applied::Refused(exception),
                        }
                    },
                    None => Applied::NoSuchTopic,
                }
            },
            LogEntry::SetState(state) => {
                match self.position(&state.topic) {
                    Some(i) => {
                        let topic = self.topic_at_mut(i);
                        topic.seen_all(&state.update, state.at);
                        topic.update_and_flush(state.update);
                        Applied::Done
                    },
                    None => Applied::NoSuchTopic,
                }
            },
        }
    }
}

/// Place of the topic with code `code` in a list of topics.
fn position_in(topics: &Vec<Topic>, code: &TopicCode) -> (at: Option<usize>)
    ensures
        at is Some <==> topics_of(topics@).map_values(|topic: TopicView| topic.config.code).contains(code@),
        at matches Some(i) ==> i < topics@.len() && topics@[i as int]@.config.code == code@
            && forall|k: int|
            0 <= k < i ==> topics@[k]@.config.code != code@,
{
    let ghost codes = topics_of(topics@).map_values(|topic: TopicView| topic.config.code);
    let mut i: usize = 0;
    while i < topics.len()
        invariant
            i <= topics.len(),
            codes == topics_of(topics@).map_values(|topic: TopicView| topic.config.code),
            forall|k: int| 0 <= k < i ==> codes[k] != code@,
        decreases topics.len() - i,
    {
        if topics[i].code().same_as(code) {
            proof {
                assert(codes[i as int] == code@);
                assert forall|k: int| 0 <= k < i implies topics@[k]@.config.code != code@ by {
                    assert(codes[k] == topics@[k]@.config.code);
                }
            }
            return Some(i);
        }
        i += 1;
    }
    None
}

/// True when each of the snapshots is well formed and no two of them are of
/// the same topic.
pub fn snapshots_are_valid(snapshots: &Vec<TopicSnapshot>) -> (yes: bool)
    ensures
        yes == snapshots_wf(snapshots@),
{
    let ghost codes = snapshots_of(snapshots@).map_values(|snapshot: SnapshotView| snapshot.config.code);
    let mut i: usize = 0;
    while i < snapshots.len()
        invariant
            i <= snapshots.len(),
            codes == snapshots_of(snapshots@).map_values(|snapshot: SnapshotView| snapshot.config.code),
            forall|k: int| 0 <= k < i ==> (#[trigger] snapshots@[k]).wf(),
            forall|a: int, b: int| 0 <= a < b < i ==> codes[a] != codes[b],
        decreases snapshots.len() - i,
    {
        if !snapshots[i].is_valid() {
            return false;
        }
        let mut j: usize = 0;
        while j < i
            invariant
                j <= i < snapshots.len(),
                codes == snapshots_of(snapshots@).map_values(|snapshot: SnapshotView| snapshot.config.code),
                forall|a: int| 0 <= a < j ==> codes[a] != codes[i as int],
            decreases i - j,
        {
            if snapshots[j].config.code.same_as(&snapshots[i].config.code) {
                assert(codes[j as int] == codes[i as int]);
                return false;
            }
            j += 1;
        }
        i += 1;
    }
    true
}

impl Node {
    /// The snapshot of the node: the snapshots of its topics, in the order
    /// of the registry.
    pub fn export_snapshot(&self) -> (snapshots: Vec<TopicSnapshot>)
        requires
            self.wf(),
        ensures
            snapshots_wf(snapshots@),
            snapshots_of(snapshots@) == self@.snapshot(),
    {
        let mut snapshots: Vec<TopicSnapshot> = Vec::new();
        let n = self.topics.len();
        let ghost codes = self@.codes();
        let mut i: usize = 0;
        while i < n
            invariant
                i <= n,
                n == self@.topics.len(),
                self.wf(),
                snapshots@.len() == i,
                forall|k: int| 0 <= k < i ==> (#[trigger] snapshots@[k]).wf() && snapshots@[k]@
                    == self@.topics[k].snapshot(),
            decreases n - i,
        {
            let snapshot = self.topics[i].data().snapshot();
            snapshots.push(snapshot);
            i += 1;
        }
        proof {
            assert(snapshots_of(snapshots@) =~= self@.snapshot());
            assert(snapshots_of(snapshots@).map_values(|snapshot: SnapshotView| snapshot.config.code)
                =~= self@.codes());
        }
        snapshots
    }

    /// Installs the snapshot of a node.
    ///
    /// A topic of the snapshot that is loaded here has the snapshot
    /// installed over it and keeps its local endpoints and its waiters; one
    /// that is not loaded is rebuilt.  The loaded topics that the snapshot
    /// does not name are unloaded, which resolves their waiters with
    /// `MessageDropped`.
    pub fn install_snapshot(&mut self, snapshots: Vec<TopicSnapshot>)
        requires
            old(self).wf(),
            snapshots_wf(snapshots@),
        ensures
            final(self).wf(),
            final(self)@ == old(self)@.installed(snapshots_of(snapshots@)),
    {
        let ghost all = snapshots_of(snapshots@);
        let ghost all_codes = all.map_values(|snapshot: SnapshotView| snapshot.config.code);
        let id = self.id;
        let mut remaining: Vec<Topic> = Vec::new();
        std::mem::swap(&mut remaining, &mut self.topics);
        let mut built: Vec<Topic> = Vec::new();
        let ghost given = snapshots@;
        proof {
            assert(remaining@ == old(self).topics@);
            assert(topics_of(remaining@) == old(self)@.topics);
            assert forall|i: int| 0 <= i < remaining@.len()
                implies (#[trigger] remaining@[i])@.host == id by {
                assert(old(self)@.topics[i].host == id);
            }
            assert(all.skip(0) =~= all);
            assert(topics_of(built@) =~= Seq::<TopicView>::empty());
        }
        for snapshot in it: snapshots
            invariant
                it.seq() == given,
                id == old(self)@.id,
                self.id == id,
                self.unloaded == old(self).unloaded,
                all == snapshots_of(given),
                all_codes == all.map_values(|snapshot: SnapshotView| snapshot.config.code),
                all_codes.no_duplicates(),
                forall|i: int| 0 <= i < given.len() ==> (#[trigger] given[i]).wf(),
                forall|i: int| 0 <= i < remaining@.len() ==> (#[trigger] remaining@[i]).wf(),
                forall|i: int| 0 <= i < remaining@.len() ==> (#[trigger] remaining@[i])@.host == id,
                topics_of(remaining@).map_values(|topic: TopicView| topic.config.code).no_duplicates(),
                forall|i: int| 0 <= i < built@.len() ==> (#[trigger] built@[i]).wf(),
                forall|i: int| 0 <= i < built@.len() ==> (#[trigger] built@[i])@.host == id,
                built@.len() == it.index(),
                forall|i: int| 0 <= i < built@.len()
                    ==> (#[trigger] built@[i])@.config.code == all_codes[i],
                install_all(topics_of(remaining@), topics_of(built@), all.skip(it.index() as int), id)
                    == install_all(old(self)@.topics, Seq::empty(), all, id),
        {
            let ghost at = it.index() as int;
            let ghost before_remaining = topics_of(remaining@);
            let ghost before_built = topics_of(built@);
            proof {
                assert(all.skip(at)[0] == snapshot@);
                assert(all.skip(at).drop_first() =~= all.skip(at + 1));
                assert(all_codes[at] == snapshot@.config.code);
            }
            let found = position_in(&remaining, &snapshot.config.code);
            match found {
                Some(i) => {
                    proof {
                        let codes = before_remaining.map_values(|topic: TopicView| topic.config.code);
                        assert(codes[i as int] == snapshot@.config.code);
                        lemma_index_of_unique(codes, i as int);
                        lemma_remove_keeps_unique(codes, i as int);
                    }
                    let mut topic = remaining.remove(i);
                    proof {
                        assert(topics_of(remaining@) =~= before_remaining.remove(i as int));
                        assert(topics_of(remaining@).map_values(|topic: TopicView| topic.config.code)
                            =~= before_remaining.map_values(|topic: TopicView| topic.config.code).remove(
                            i as int,
                        ));
                    }
                    topic.apply_snapshot(snapshot);
                    built.push(topic);
                    proof {
                        assert(topics_of(built@) =~= before_built.push(topic@));
                    }
                },
                None => {
                    let topic = Topic::new(TopicData::from_snapshot(snapshot, id));
                    proof {
                        topic.lemma_wf();
                    }
                    built.push(topic);
                    proof {
                        assert(topics_of(built@) =~= before_built.push(topic@));
                    }
                },
            }
        }
        let ghost left_topics = remaining@;
        let ghost left = topics_of(left_topics);
        let ghost unloaded_before = topics_of(self.unloaded@);
        proof {
            assert(all.skip(all.len() as int) =~= Seq::<SnapshotView>::empty());
            assert(left.take(0).map_values(|topic: TopicView| topic.unloaded())
                =~= Seq::<TopicView>::empty());
            assert(unloaded_before + Seq::<TopicView>::empty() =~= unloaded_before);
        }
        for topic in it: remaining
            invariant
                it.seq() == left_topics,
                left == topics_of(left_topics),
                self.id == id,
                forall|i: int| 0 <= i < left_topics.len() ==> (#[trigger] left_topics[i]).wf(),
                forall|i: int| 0 <= i < self.unloaded@.len() ==> (#[trigger] self.unloaded@[i]).wf(),
                topics_of(self.unloaded@) == unloaded_before + left.take(it.index() as int).map_values(
                    |topic: TopicView| topic.unloaded(),
                ),
        {
            let ghost done = it.index() as int;
            let ghost before = topics_of(self.unloaded@);
            let mut topic = topic;
            proof {
                assert(left[done] == topic@);
            }
            topic.unload();
            self.unloaded.push(topic);
            proof {
                assert(topics_of(self.unloaded@) =~= before.push(topic@));
                assert(left.take(done + 1) =~= left.take(done).push(left[done]));
                assert(left.take(done + 1).map_values(|topic: TopicView| topic.unloaded()) =~= left.take(
                    done,
                ).map_values(|topic: TopicView| topic.unloaded()).push(left[done].unloaded()));
            }
        }
        self.topics = built;
        proof {
            assert(left.take(left.len() as int) =~= left);
            assert(self@.codes() =~= all_codes) by {
                assert(self@.codes().len() == all_codes.len());
                assert forall|i: int| 0 <= i < all_codes.len()
                    implies self@.codes()[i] == all_codes[i] by {
                    assert(built@[i]@.config.code == all_codes[i]);
                }
            }
            assert forall|i: int| 0 <= i < self@.topics.len() implies (#[trigger] self@.topics[i]).wf()
                && self@.topics[i].host == self@.id by {
                built@[i].lemma_wf();
                assert(built@[i]@.host == id);
            }
        }
    }
}

} // verus!
