//! Dynamic storage-arc sizing for gossiping peers, with the in-process
//! transport and the gossip round hand-shake it runs on.
//!
//! The sharding module decides a target storage arc for each local agent from
//! the observed per-sector redundancy, and coordinates shrinking with a
//! two-phase polite handoff so that concurrent shrinks cannot orphan a sector.
//! Arcs are quantised: an agent claims an aligned power-of-two block of sectors
//! that contains its home sector ([`blocks`]). Growing doubles the block,
//! shrinking halves it.
//!
//! 1. A shrink is announced, and the announcement waits long enough to
//!    propagate.
//! 2. It is then re-checked that the vacated range keeps the redundancy target
//!    with this agent gone, counting announced intenders with a lower agent id
//!    as already gone. The lowest conflicting intender proceeds; the others
//!    observe the conflict and stand down.
//!
//! Growers treat announced vacates as already gone, so that a grower moves to
//! fill a hole before it exists.
//!
//! [`decide`] holds the rules for one agent, [`controller`] one tick over all of
//! them, [`decisions`], [`sightings`], [`handoff`], [`rules`] and [`network`]
//! what follows from the two.
//! [`mem_transport`] and [`gossip`] decide step by step; performing what they
//! decide is up to the caller.

pub mod blocks;
pub mod config;
pub mod controller;
pub mod counting;
pub mod coverage;
pub mod decide;
pub mod decimal;
pub mod decisions;
pub mod dht_arc;
pub mod gossip;
pub mod handoff;
pub mod ids;
pub mod instances;
pub mod intents;
pub mod mem_transport;
pub mod network;
pub mod protocol;
pub mod rules;
pub mod sightings;
pub mod snapshot;
pub mod tables;
pub mod text;
pub mod url;
pub mod varint;
