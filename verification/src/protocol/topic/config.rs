//! Configuration of a topic.
use vstd::prelude::*;
use crate::protocol::topic::TopicCode;

verus! {

/// What happens to a message that arrives at a full queue.
#[derive(Clone, Copy, Debug, PartialEq, Eq, Structural, Hash)]
pub enum TopicOverflowPolicy {
    /// The arriving message is refused.
    RejectNew,
    /// The oldest held message is evicted, and the arriving one is admitted.
    DropOld,
}

/// The bound on the queue of a topic.
#[derive(Clone, Copy, Debug, PartialEq, Eq, Structural, Hash)]
pub struct TopicOverflowConfig {
    pub policy: TopicOverflowPolicy,
    /// The queue is full when it holds this many messages.
    pub size: u32,
}

impl TopicOverflowConfig {
    pub fn new(policy: TopicOverflowPolicy, size: u32) -> (config: Self)
        ensures
            config.policy == policy,
            config.size == size,
    {
        TopicOverflowConfig { policy, size }
    }

    /// The bound as a number of messages.
    pub fn size(&self) -> (size: usize)
        ensures
            size == self.size,
    {
        self.size as usize
    }
}

/// Configuration of a topic.
#[derive(Debug, Clone)]
pub struct TopicConfig {
    pub code: TopicCode,
    /// Carried with the topic for its clients.  The queue flushes head-first
    /// whatever this says.
    pub blocking: bool,
    /// The bound on the queue; a queue without one is never full.
    pub overflow_config: Option<TopicOverflowConfig>,
}

/// The mathematical value of a topic configuration.
pub struct ConfigView {
    pub code: Seq<u8>,
    pub blocking: bool,
    pub overflow: Option<TopicOverflowConfig>,
}

impl ConfigView {
    /// True when a message that arrives at a queue of `len` messages is
    /// refused.
    pub open spec fn rejects_at(self, len: nat) -> bool {
        self.overflow matches Some(overflow) && len >= overflow.size && overflow.policy
            == TopicOverflowPolicy::RejectNew
    }

    /// True when a message that arrives at a queue of `len` messages evicts
    /// the oldest one.
    pub open spec fn evicts_at(self, len: nat) -> bool {
        self.overflow matches Some(overflow) && len >= overflow.size && overflow.policy
            == TopicOverflowPolicy::DropOld
    }
}

impl View for TopicConfig {
    type V = ConfigView;

    open spec fn view(&self) -> ConfigView {
        ConfigView { code: self.code@, blocking: self.blocking, overflow: self.overflow_config }
    }
}

impl TopicConfig {
    /// The configuration of an unbounded topic.
    pub fn new(code: TopicCode) -> (config: Self)
        ensures
            config@ == (ConfigView { code: code@, blocking: false, overflow: None }),
    {
        TopicConfig { code, blocking: false, overflow_config: None }
    }

    pub fn duplicate(&self) -> (copy: Self)
        ensures
            copy@ == self@,
    {
        TopicConfig {
            code: self.code.duplicate(),
            blocking: self.blocking,
            overflow_config: self.overflow_config,
        }
    }
}

} // verus!
