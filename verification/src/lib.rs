//! Nodes for a simulated network that exchanges line-delimited JSON messages:
//! the message protocol, a key-value store client and the workloads built on
//! them, as verified state machines without input or output of their own.
pub mod text;
pub mod strmap;
pub mod json;
pub mod wire;
pub mod node;
pub mod policy;
pub mod broadcast;
pub mod echo;
pub mod unique_ids;
pub mod txn;
pub mod txn_c;
pub mod kv;
pub mod offsets;
pub mod kv_log;
pub mod kafka_b;
pub mod kafka_c;
pub mod kafka;
pub mod counter;
