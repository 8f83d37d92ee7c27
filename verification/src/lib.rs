//! Core of a peer-to-peer overlay node: identities, local peer discovery,
//! topic gossip and a distributed hash table, written as state machines
//! that take events and the current time and give back the actions to
//! perform.

pub mod cli;
pub mod closest;
pub mod config;
pub mod connection;
pub mod crypto;
pub mod discovery;
pub mod dispatch;
pub mod event;
pub mod files;
pub mod gossip;
pub mod handshake;
pub mod id;
pub mod message;
pub mod network;
pub mod node;
pub mod peers;
pub mod query;
pub mod record;
pub mod routing;
pub mod seqs;
pub mod session;
pub mod wire;
