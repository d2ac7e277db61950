//! The broker protocol: identifiers, messages, interests and topics.
pub mod codec;
pub mod endpoint;
pub mod interest;
pub mod node;
pub mod ring;
pub mod table;
pub mod topic;
