//! The durable form of held messages, and the log entries that load and
//! unload a topic.
use vstd::prelude::*;
use crate::protocol::endpoint::{Message, MessageStatusKind};
use crate::protocol::table::EpTable;
use crate::protocol::topic::TopicCode;
use crate::protocol::topic::config::TopicConfig;
use crate::protocol::topic::hold_message::{HoldMessage, HoldView};
use crate::protocol::topic::wait_ack::WaitAck;

verus! {

/// A held message as a snapshot carries it: the message and its status at
/// each recipient.
#[derive(Debug)]
pub struct DurableMessage {
    pub message: Message,
    pub status: EpTable<MessageStatusKind>,
}

impl View for DurableMessage {
    type V = HoldView;

    open spec fn view(&self) -> HoldView {
        HoldView { message: self.message@, status: self.status@ }
    }
}

impl DurableMessage {
    pub open spec fn wf(&self) -> bool {
        self.status.wf()
    }

    pub fn duplicate(&self) -> (copy: Self)
        requires
            self.wf(),
        ensures
            copy.wf(),
            copy@ == self@,
    {
        DurableMessage { message: self.message.clone(), status: self.status.duplicate() }
    }
}

impl HoldMessage {
    /// The durable form of this held message.
    pub fn as_durable(&self) -> (durable: DurableMessage)
        requires
            self.wf(),
        ensures
            durable.wf(),
            durable@ == self@,
    {
        DurableMessage { message: self.message.clone(), status: self.wait_ack.status.duplicate() }
    }

    /// The held message that a durable form stands for.
    pub fn from_durable(durable: DurableMessage) -> (hold: Self)
        requires
            durable.wf(),
        ensures
            hold.wf(),
            hold@ == durable@,
    {
        let expect = durable.message.ack_kind();
        HoldMessage { message: durable.message, wait_ack: WaitAck { expect, status: durable.status } }
    }
}

/// The entry that creates a topic, empty or from the queue of a snapshot.
#[derive(Debug)]
pub struct LoadTopic {
    pub config: TopicConfig,
    pub queue: Vec<DurableMessage>,
}

impl LoadTopic {
    /// The entry that creates an empty topic.
    pub fn from_config(config: TopicConfig) -> (load: Self)
        ensures
            load.config == config,
            load.queue@.len() == 0,
    {
        LoadTopic { config, queue: Vec::new() }
    }
}

/// The entry that destroys a topic.
#[derive(Debug, Clone)]
pub struct UnloadTopic {
    pub code: TopicCode,
}

impl UnloadTopic {
    pub fn new(code: TopicCode) -> (unload: Self)
        ensures
            unload.code == code,
    {
        UnloadTopic { code }
    }
}

} // verus!
