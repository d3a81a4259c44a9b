//! A Raft node: log replication, leader election, the framing of messages, and a key-value
//! store as the replicated state machine.
//!
//! Nothing here performs input or output. A node is a value; each event (a message, an elapsed
//! timer) is a call, and what the node wants to have sent is left in its outbox.

pub mod admission;
pub mod buffer;
pub mod candidate;
pub mod codec;
pub mod config;
pub mod driver;
pub mod effects;
pub mod follower;
pub mod laws;
pub mod leader;
pub mod log;
pub mod message_pipeline;
pub mod model;
pub mod network;
pub mod server;
pub mod state_machine;
pub mod timing;
