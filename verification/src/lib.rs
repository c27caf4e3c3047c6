//! A verified index over an append-only, content-addressed chat log.
//!
//! Channels and messages live in a graph store as immutable, agent-signed
//! records connected by tagged, timestamped link edges. This crate holds the
//! logic that any conforming backend must run: the hierarchical path index,
//! the latest-wins metadata resolution, the chunked message log with frontier
//! discovery, the admission and content validation, and the presence
//! registry with its signal fanout. The storage engine itself (replication,
//! signing, transport) is an external collaborator; its observable state is
//! modeled by [`store::Store`].

#![verifier::loop_isolation(false)]

use vstd::prelude::*;
use crate::channel::{category_children, channel_stats, stats_total};
use crate::presence::{PresenceRegistry, SignalPayload};
use crate::store::{wf, Store};
use crate::types::{ChatError, Timestamp};

pub mod types;
pub mod channel;
pub mod message;
pub mod presence;
pub mod seq_util;
pub mod store;
pub mod validation;

verus! {

/// Combined directory statistics: registry counts plus channel/message totals.
pub struct Stats {
    pub agents: usize,
    pub active: usize,
    pub channels: usize,
    pub messages: usize,
}

/// Presence statistics alone: identities ever observed, and currently active.
pub struct AgentStats {
    pub agents: usize,
    pub active: usize,
}

/// Directory and presence statistics in one view.
pub fn stats(
    store: &Store,
    reg: &PresenceRegistry,
    category: &Vec<u8>,
    now: Timestamp,
    window: Timestamp,
) -> (r: Stats)
    requires
        wf(store@),
        store@.links.len() < u32::MAX as nat,
        reg.wf(),
    ensures
        r.agents == reg.entries@.len(),
        r.active == reg.entries@.filter(
            |e: crate::presence::PresenceEntry| e.last_refreshed + window >= now,
        ).len(),
        r.channels == category_children(store@, category@).len(),
        r.messages == stats_total(store@, category_children(store@, category@)),
{
    let (agents, active) = reg.agent_stats(now, window);
    let (channels, messages) = channel_stats(store, category);
    Stats { agents, active, channels, messages }
}

/// Presence statistics alone.
pub fn agent_stats(reg: &PresenceRegistry, now: Timestamp, window: Timestamp) -> (r: AgentStats)
    requires
        reg.wf(),
    ensures
        r.agents == reg.entries@.len(),
        r.active == reg.entries@.filter(
            |e: crate::presence::PresenceEntry| e.last_refreshed + window >= now,
        ).len(),
{
    let (agents, active) = reg.agent_stats(now, window);
    AgentStats { agents, active }
}

/// Handle an inbound pushed signal: the payload, decoded by the transport
/// into the tagged union, is forwarded unmodified as a local event; a
/// payload that failed to decode is rejected without crashing the handler.
pub fn recv_remote_signal(decoded: Option<SignalPayload>) -> (r: Result<SignalPayload, ChatError>)
    ensures
        match decoded {
            Option::Some(sig) => r == Result::<SignalPayload, ChatError>::Ok(sig),
            Option::None => r == Result::<SignalPayload, ChatError>::Err(ChatError::DecodeError),
        },
{
    match decoded {
        Option::Some(sig) => Result::Ok(sig),
        Option::None => Result::Err(ChatError::DecodeError),
    }
}

/// The capability configuration fixed once at process start.
pub struct AccessPolicy {
    /// Any remote identity may invoke the inbound-notification entry point
    /// without a prior handshake, so fanout works between identities that
    /// have never interacted.
    pub recv_remote_signal_unrestricted: bool,
}

/// The startup configuration step: grant unrestricted access to the single
/// inbound-notification entry point and nothing else.
pub fn startup_access_policy() -> (r: AccessPolicy)
    ensures
        r.recv_remote_signal_unrestricted,
{
    AccessPolicy { recv_remote_signal_unrestricted: true }
}

} // verus!
