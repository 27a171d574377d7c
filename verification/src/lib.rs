//! A change-data-capture agent for MySQL row-based binary logs, as a
//! library: the wire codec, the packets of the protocol, the decoder of the
//! binary-log events, the records that are published, and the bookkeeping
//! around them, each with its contract.
//!
//! The library computes and decides; it opens no socket and no file. What
//! it needs from outside it takes as plain values, and what is to be done
//! outside it hands back as plain values.

pub mod text;
pub mod buffer;
pub mod value;
pub mod mysql;
pub mod protocal;
pub mod binlog;
pub mod config;
pub mod executor;
pub mod message_queue;
pub mod position_manager;
pub mod statistics;
pub mod session;
pub mod worker;
pub mod ingest;
