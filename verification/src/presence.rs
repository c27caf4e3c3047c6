//! Presence registry and signal fanout.
//!
//! The registry tracks `(identity, last_refreshed)` pairs, ephemeral and
//! process-local: safely lost on restart. An identity is active while its
//! last refresh lies within a configured freshness window of now. Fanout is
//! best-effort fire-and-forget: this module decides who is notified with
//! what; the unreliable transport performs the sends and reports attempts,
//! not acknowledgments.

use vstd::prelude::*;
use crate::seq_util::{lemma_filter_sub, lemma_filter_take_step};
use crate::types::{Channel, ChannelData, IdentityKey, MessageData, Timestamp};

verus! {

/// One observed participant and the local time of its latest refresh.
#[derive(PartialEq, Eq, Structural, Clone, Copy, Debug)]
pub struct PresenceEntry {
    pub agent: IdentityKey,
    pub last_refreshed: Timestamp,
}

/// Ephemeral last-seen tracker for every identity ever observed.
pub struct PresenceRegistry {
    pub entries: Vec<PresenceEntry>,
}

/// A message together with the channel it landed in, as pushed to chatters.
pub struct SignalMessageData {
    pub message: MessageData,
    pub channel: Channel,
}

/// The tagged union a pushed notification carries.
pub enum SignalPayload {
    Message(SignalMessageData),
    Channel(ChannelData),
}

/// Per-recipient delivery attempts of one broadcast: how many sends were
/// attempted and to whom. An attempt is not an end-to-end acknowledgment.
pub struct SigResults {
    pub total: usize,
    pub sent: Vec<IdentityKey>,
}

/// Currently active identities, as handed to the caller.
pub struct ActiveChatters {
    pub chatters: Vec<IdentityKey>,
}

impl PresenceRegistry {
    /// Each identity is registered at most once.
    pub open spec fn wf(self) -> bool {
        forall|i: int, j: int|
            0 <= i < j < self.entries@.len() ==> self.entries@[i].agent != self.entries@[j].agent
    }

    /// When this identity was last seen, if ever.
    pub open spec fn last_seen(self, agent: IdentityKey) -> Option<Timestamp> {
        if exists|i: int| 0 <= i < self.entries@.len() && self.entries@[i].agent == agent {
            let i = choose|i: int| 0 <= i < self.entries@.len() && self.entries@[i].agent == agent;
            Option::Some(self.entries@[i].last_refreshed)
        } else {
            Option::None
        }
    }

    /// Active means refreshed within the freshness window of now.
    pub open spec fn is_active(self, agent: IdentityKey, now: Timestamp, window: Timestamp)
        -> bool {
        match self.last_seen(agent) {
            Option::Some(t) => t + window >= now,
            Option::None => false,
        }
    }

    pub fn new() -> (r: PresenceRegistry)
        ensures
            r.wf(),
            r.entries@.len() == 0,
    {
        PresenceRegistry { entries: Vec::new() }
    }

    fn find(&self, agent: IdentityKey) -> (r: Option<usize>)
        ensures
            match r {
                Option::Some(i) => i < self.entries@.len() && self.entries@[i as int].agent
                    == agent,
                Option::None => forall|i: int|
                    0 <= i < self.entries@.len() ==> self.entries@[i].agent != agent,
            },
    {
        let mut i: usize = 0;
        while i < self.entries.len()
            invariant
                i <= self.entries@.len(),
                forall|j: int| 0 <= j < i ==> self.entries@[j].agent != agent,
            decreases self.entries@.len() - i,
        {
            if self.entries[i].agent == agent {
                return Option::Some(i);
            }
            i += 1;
        }
        Option::None
    }

    /// The calling identity upserts its last refresh to now.
    ///
    /// Afterwards the caller is recorded as seen at `now`; every other
    /// identity's record is untouched, and an identity already known does not
    /// grow the registry.
    pub fn refresh_chatter(&mut self, me: IdentityKey, now: Timestamp)
        requires
            old(self).wf(),
        ensures
            final(self).wf(),
            final(self).last_seen(me) == Option::Some(now),
            forall|a: IdentityKey| a != me ==> final(self).last_seen(a) == old(self).last_seen(a),
            final(self).entries@.len() == if old(self).last_seen(me) is Some {
                old(self).entries@.len()
            } else {
                old(self).entries@.len() + 1
            },
    {
        let found = self.find(me);
        match found {
            Option::Some(i) => {
                self.entries[i] = PresenceEntry { agent: me, last_refreshed: now };
                proof {
                    lemma_last_seen_at(*self, me, i as int);
                    lemma_last_seen_at(*old(self), me, i as int);
                    assert forall|a: IdentityKey| a != me implies final(self).last_seen(a) == old(
                        self,
                    ).last_seen(a) by {
                        lemma_last_seen_update(*old(self), *self, i as int, me, a);
                    }
                }
            },
            Option::None => {
                self.entries.push(PresenceEntry { agent: me, last_refreshed: now });
                proof {
                    lemma_last_seen_at(*self, me, old(self).entries@.len() as int);
                    assert(old(self).last_seen(me) is None);
                    assert forall|a: IdentityKey| a != me implies final(self).last_seen(a) == old(
                        self,
                    ).last_seen(a) by {
                        lemma_last_seen_push(*old(self), *self, me, a);
                    }
                }
            },
        }
    }

    /// The identities whose last refresh lies within the window, in registry
    /// order.
    pub fn get_active_chatters(&self, now: Timestamp, window: Timestamp) -> (r: ActiveChatters)
        requires
            self.wf(),
        ensures
            r.chatters@ == self.entries@.filter(
                |e: PresenceEntry| e.last_refreshed + window >= now,
            ).map_values(|e: PresenceEntry| e.agent),
            forall|a: IdentityKey| r.chatters@.contains(a) == self.is_active(a, now, window),
    {
        let mut out: Vec<IdentityKey> = Vec::new();
        let mut i: usize = 0;
        let ghost active_pred = |e: PresenceEntry| e.last_refreshed + window >= now;
        while i < self.entries.len()
            invariant
                i <= self.entries@.len(),
                out@ == self.entries@.take(i as int).filter(active_pred).map_values(
                    |e: PresenceEntry| e.agent,
                ),
            decreases self.entries@.len() - i,
        {
            let e = self.entries[i];
            proof {
                lemma_filter_take_step(self.entries@, active_pred, i as int);
            }
            let ghost prev = self.entries@.take(i as int).filter(active_pred);
            if e.last_refreshed >= now || now - e.last_refreshed <= window {
                out.push(e.agent);
                proof {
                    assert(active_pred(self.entries@[i as int]));
                    assert(self.entries@.take(i + 1).filter(active_pred) == prev.push(e));
                    assert(prev.push(e).map_values(|e: PresenceEntry| e.agent) =~= prev.map_values(
                        |e: PresenceEntry| e.agent,
                    ).push(e.agent));
                }
            } else {
                proof {
                    assert(!active_pred(self.entries@[i as int]));
                    assert(self.entries@.take(i + 1).filter(active_pred) == prev);
                }
            }
            i += 1;
        }
        proof {
            assert(self.entries@.take(self.entries@.len() as int) =~= self.entries@);
            assert forall|a: IdentityKey|
                out@.contains(a) == self.is_active(a, now, window) by {
                lemma_active_membership(*self, now, window, a);
            }
        }
        ActiveChatters { chatters: out }
    }

    /// Total identities ever observed, and how many are currently active.
    pub fn agent_stats(&self, now: Timestamp, window: Timestamp) -> (r: (usize, usize))
        requires
            self.wf(),
        ensures
            r.0 == self.entries@.len(),
            r.1 == self.entries@.filter(|e: PresenceEntry| e.last_refreshed + window >= now).len(),
    {
        let active = self.get_active_chatters(now, window);
        (self.entries.len(), active.chatters.len())
    }
}

/// An entry for this identity pins down what `last_seen` returns.
proof fn lemma_last_seen_at(reg: PresenceRegistry, agent: IdentityKey, i: int)
    requires
        reg.wf(),
        0 <= i < reg.entries@.len(),
        reg.entries@[i].agent == agent,
    ensures
        reg.last_seen(agent) == Option::Some(reg.entries@[i].last_refreshed),
{
    let j = choose|j: int| 0 <= j < reg.entries@.len() && reg.entries@[j].agent == agent;
    if i != j {
        assert(reg.entries@[i].agent != reg.entries@[j].agent);
    }
}

/// Replacing one identity's entry leaves every other identity's last-seen
/// time unchanged.
proof fn lemma_last_seen_update(
    a: PresenceRegistry,
    b: PresenceRegistry,
    i: int,
    me: IdentityKey,
    agent: IdentityKey,
)
    requires
        a.wf(),
        b.wf(),
        0 <= i < a.entries@.len(),
        a.entries@[i].agent == me,
        b.entries@[i].agent == me,
        b.entries@.len() == a.entries@.len(),
        forall|j: int| 0 <= j < a.entries@.len() && j != i ==> a.entries@[j] == b.entries@[j],
        agent != me,
    ensures
        a.last_seen(agent) == b.last_seen(agent),
{
    if exists|j: int| 0 <= j < a.entries@.len() && a.entries@[j].agent == agent {
        let j = choose|j: int| 0 <= j < a.entries@.len() && a.entries@[j].agent == agent;
        assert(j != i);
        assert(b.entries@[j].agent == agent);
        lemma_last_seen_at(a, agent, j);
        lemma_last_seen_at(b, agent, j);
    } else {
        assert(a.last_seen(agent) is None);
        if exists|j: int| 0 <= j < b.entries@.len() && b.entries@[j].agent == agent {
            let j = choose|j: int| 0 <= j < b.entries@.len() && b.entries@[j].agent == agent;
            assert(j != i);
            assert(a.entries@[j].agent == agent);
        }
    }
}

/// Appending a new identity's entry leaves every other identity's last-seen
/// time unchanged.
proof fn lemma_last_seen_push(
    a: PresenceRegistry,
    b: PresenceRegistry,
    me: IdentityKey,
    agent: IdentityKey,
)
    requires
        a.wf(),
        b.wf(),
        b.entries@.len() == a.entries@.len() + 1,
        b.entries@[a.entries@.len() as int].agent == me,
        forall|j: int| 0 <= j < a.entries@.len() ==> a.entries@[j] == b.entries@[j],
        agent != me,
    ensures
        a.last_seen(agent) == b.last_seen(agent),
{
    if exists|j: int| 0 <= j < a.entries@.len() && a.entries@[j].agent == agent {
        let j = choose|j: int| 0 <= j < a.entries@.len() && a.entries@[j].agent == agent;
        assert(b.entries@[j].agent == agent);
        lemma_last_seen_at(a, agent, j);
        lemma_last_seen_at(b, agent, j);
    } else {
        assert(a.last_seen(agent) is None);
        if exists|j: int| 0 <= j < b.entries@.len() && b.entries@[j].agent == agent {
            let j = choose|j: int| 0 <= j < b.entries@.len() && b.entries@[j].agent == agent;
            assert(j < a.entries@.len());
            assert(a.entries@[j].agent == agent);
        }
    }
}

/// Membership in the filtered agent list coincides with being active.
proof fn lemma_active_membership(
    reg: PresenceRegistry,
    now: Timestamp,
    window: Timestamp,
    a: IdentityKey,
)
    requires
        reg.wf(),
    ensures
        reg.entries@.filter(|e: PresenceEntry| e.last_refreshed + window >= now).map_values(
            |e: PresenceEntry| e.agent,
        ).contains(a) == reg.is_active(a, now, window),
{
    let pred = |e: PresenceEntry| e.last_refreshed + window >= now;
    let filtered = reg.entries@.filter(pred);
    let agents = filtered.map_values(|e: PresenceEntry| e.agent);
    if agents.contains(a) {
        let k = choose|k: int| 0 <= k < agents.len() && agents[k] == a;
        assert(filtered[k].agent == a);
        assert(pred(filtered[k])) by {
            Seq::<PresenceEntry>::lemma_filter_pred(reg.entries@, pred, k);
        }
        assert(reg.entries@.contains(filtered[k])) by {
            lemma_filter_sub(reg.entries@, pred, k);
        }
        let i = choose|i: int| 0 <= i < reg.entries@.len() && reg.entries@[i] == filtered[k];
        lemma_last_seen_at(reg, a, i);
        assert(reg.is_active(a, now, window));
    }
    if reg.is_active(a, now, window) {
        let i = choose|i: int| 0 <= i < reg.entries@.len() && reg.entries@[i].agent == a;
        lemma_last_seen_at(reg, a, i);
        assert(pred(reg.entries@[i]));
        assert(filtered.contains(reg.entries@[i])) by {
            Seq::<PresenceEntry>::lemma_filter_contains(reg.entries@, pred, i);
        }
        let k = choose|k: int| 0 <= k < filtered.len() && filtered[k] == reg.entries@[i];
        assert(agents[k] == a);
    }
}

/// The broadcast plan for a new message: every currently active identity
/// except the author, each attempted once.
pub fn signal_chatters(
    reg: &PresenceRegistry,
    author: IdentityKey,
    now: Timestamp,
    window: Timestamp,
) -> (r: SigResults)
    requires
        reg.wf(),
    ensures
        r.sent@ == reg.entries@.filter(
            |e: PresenceEntry| e.last_refreshed + window >= now && e.agent != author,
        ).map_values(|e: PresenceEntry| e.agent),
        r.total == r.sent@.len(),
        !r.sent@.contains(author),
        forall|a: IdentityKey|
            a != author ==> r.sent@.contains(a) == reg.is_active(a, now, window),
{
    let mut out: Vec<IdentityKey> = Vec::new();
    let mut i: usize = 0;
    let ghost pred = |e: PresenceEntry| e.last_refreshed + window >= now && e.agent != author;
    while i < reg.entries.len()
        invariant
            i <= reg.entries@.len(),
            out@ == reg.entries@.take(i as int).filter(pred).map_values(
                |e: PresenceEntry| e.agent,
            ),
        decreases reg.entries@.len() - i,
    {
        let e = reg.entries[i];
        proof {
            lemma_filter_take_step(reg.entries@, pred, i as int);
        }
        let ghost prev = reg.entries@.take(i as int).filter(pred);
        if (e.last_refreshed >= now || now - e.last_refreshed <= window) && e.agent != author {
            out.push(e.agent);
            proof {
                assert(pred(reg.entries@[i as int]));
                assert(reg.entries@.take(i + 1).filter(pred) == prev.push(e));
                assert(prev.push(e).map_values(|e: PresenceEntry| e.agent) =~= prev.map_values(
                    |e: PresenceEntry| e.agent,
                ).push(e.agent));
            }
        } else {
            proof {
                assert(!pred(reg.entries@[i as int]));
                assert(reg.entries@.take(i + 1).filter(pred) == prev);
            }
        }
        i += 1;
    }
    proof {
        assert(reg.entries@.take(reg.entries@.len() as int) =~= reg.entries@);
        assert forall|a: IdentityKey| a != author implies out@.contains(a) == reg.is_active(
            a,
            now,
            window,
        ) by {
            lemma_restricted_membership(*reg, now, window, author, a);
        }
        if out@.contains(author) {
            let k = choose|k: int| 0 <= k < out@.len() && out@[k] == author;
            assert(pred(reg.entries@.filter(pred)[k])) by {
                Seq::<PresenceEntry>::lemma_filter_pred(reg.entries@, pred, k);
            }
        }
    }
    let total = out.len();
    SigResults { total, sent: out }
}

/// Membership in the author-excluding broadcast list coincides with being
/// active, for everyone but the author.
proof fn lemma_restricted_membership(
    reg: PresenceRegistry,
    now: Timestamp,
    window: Timestamp,
    author: IdentityKey,
    a: IdentityKey,
)
    requires
        reg.wf(),
        a != author,
    ensures
        reg.entries@.filter(
            |e: PresenceEntry| e.last_refreshed + window >= now && e.agent != author,
        ).map_values(|e: PresenceEntry| e.agent).contains(a) == reg.is_active(a, now, window),
{
    let pred = |e: PresenceEntry| e.last_refreshed + window >= now && e.agent != author;
    let filtered = reg.entries@.filter(pred);
    let agents = filtered.map_values(|e: PresenceEntry| e.agent);
    if agents.contains(a) {
        let k = choose|k: int| 0 <= k < agents.len() && agents[k] == a;
        assert(filtered[k].agent == a);
        assert(pred(filtered[k])) by {
            Seq::<PresenceEntry>::lemma_filter_pred(reg.entries@, pred, k);
        }
        assert(reg.entries@.contains(filtered[k])) by {
            lemma_filter_sub(reg.entries@, pred, k);
        }
        let i = choose|i: int| 0 <= i < reg.entries@.len() && reg.entries@[i] == filtered[k];
        lemma_last_seen_at(reg, a, i);
    }
    if reg.is_active(a, now, window) {
        let i = choose|i: int| 0 <= i < reg.entries@.len() && reg.entries@[i].agent == a;
        lemma_last_seen_at(reg, a, i);
        assert(pred(reg.entries@[i]));
        assert(filtered.contains(reg.entries@[i])) by {
            Seq::<PresenceEntry>::lemma_filter_contains(reg.entries@, pred, i);
        }
        let k = choose|k: int| 0 <= k < filtered.len() && filtered[k] == reg.entries@[i];
        assert(agents[k] == a);
    }
}

/// The targeted plan: the same delivery mechanism restricted to an explicit
/// identity set, each member attempted once with the payload unchanged.
pub fn signal_specific_chatters(chatters: &Vec<IdentityKey>) -> (r: SigResults)
    ensures
        r.sent@ == chatters@,
        r.total == chatters@.len(),
{
    let mut out: Vec<IdentityKey> = Vec::new();
    let mut i: usize = 0;
    while i < chatters.len()
        invariant
            i <= chatters@.len(),
            out@ =~= chatters@.take(i as int),
        decreases chatters@.len() - i,
    {
        out.push(chatters[i]);
        i += 1;
    }
    proof {
        assert(out@ =~= chatters@);
    }
    let total = out.len();
    SigResults { total, sent: out }
}

/// An identity that refreshes is active right away, stays active while the
/// window has not elapsed, and is inactive again once it has (with no further
/// refresh in between).
pub proof fn lemma_refresh_governs_activity(
    reg: PresenceRegistry,
    me: IdentityKey,
    at: Timestamp,
    later: Timestamp,
    window: Timestamp,
)
    requires
        reg.wf(),
        reg.last_seen(me) == Option::Some(at),
    ensures
        reg.is_active(me, at, window),
        at + window >= later ==> reg.is_active(me, later, window),
        at + window < later ==> !reg.is_active(me, later, window),
{
}

} // verus!
