//! What holds of a topic whatever happens to it.
//!
//! The statements here are about the values of topics, and are proved from
//! the definitions of the operations alone.  Each executable operation
//! ensures that it moves the value of the topic as its definition says, so
//! the statements hold of the running topic as well.
pub mod order;
pub mod replicas;
pub mod waiters;
