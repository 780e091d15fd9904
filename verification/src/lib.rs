//! Gossip of approval-voting assignments and votes between the nodes of a validator network.
//!
//! A node that takes part in approval voting announces which candidates of a relay chain block it
//! has been assigned to check, and later the votes that follow from its checks.  This crate decides
//! who gets to see those messages: it remembers what every peer is known to have, routes new
//! messages along a two-dimensional grid plus a few randomly chosen peers, repeats them when
//! finality stalls, and scores the peers that send them.
#![allow(unused_imports)]

pub mod actions;
pub mod addressees;
pub mod aggression;
pub mod awareness;
pub mod batching;
pub mod bitfield;
pub mod block;
pub mod chain;
pub mod choices;
pub mod circulation;
pub mod delivery;
pub mod dict;
pub mod dispatch;
pub mod fixtures;
pub mod history;
pub mod import;
pub mod invariants;
pub mod knowledge;
pub mod lag;
pub mod laws;
pub mod lists;
pub mod messages;
pub mod neighborhoods;
pub mod offers;
pub mod outbox;
pub mod packing;
pub mod peers;
pub mod primitives;
pub mod propagation;
pub mod queries;
pub mod random;
pub mod reception;
pub mod reputation;
pub mod routes;
pub mod routine;
pub mod state;
pub mod stories;
pub mod subsystem;
pub mod topology;
pub mod votes;
pub mod welcome;
