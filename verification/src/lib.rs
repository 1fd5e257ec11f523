//! A Redis-compatible in-memory key-value store: RESP wire codec, RDB
//! persistence codec, a keyspace with absolute-deadline expiry, the command
//! set, and the master/replica replication state machine.

pub mod ascii;
pub mod commands;
pub mod db;
pub mod num;
pub mod rdb;
pub mod replication;
pub mod resp;
pub mod server;
