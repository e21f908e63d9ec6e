//! The demo node's one decision of its own: once it has been leader without
//! a break for a full second, it proposes a greeting, and only once.
//!
//! The host loop keeps a [`Greeting`], reports role changes to it and asks
//! it on every turn whether to propose now; times are milliseconds on a
//! clock that never goes back.

use vstd::prelude::*;

verus! {

/// How long a node must have been leader before it proposes the greeting.
pub const GREETING_DELAY_MS: u64 = 1000;

/// What the loop remembers about the greeting.
#[derive(Clone, Copy, Debug, PartialEq, Eq, Structural)]
pub struct Greeting {
    /// Since when the node has been leader without a break, once the loop has seen it so.
    pub leader_since: Option<u64>,
    /// The greeting has been proposed.
    pub proposed: bool,
}

/// The state before the loop has seen anything.
pub fn greeting_start() -> (g: Greeting)
    ensures
        g == (Greeting { leader_since: None, proposed: false }),
{
    Greeting { leader_since: None, proposed: false }
}

/// A role change that leaves the node anything but leader breaks its run as leader.
pub fn greeting_role_changed(g: Greeting, is_leader: bool) -> (r: Greeting)
    ensures
        r == (if is_leader {
            g
        } else {
            Greeting { leader_since: None, ..g }
        }),
{
    if is_leader {
        g
    } else {
        Greeting { leader_since: None, ..g }
    }
}

/// The greeting is due: the node has been leader since `since` and a full
/// delay has passed by `now`.
pub open spec fn greeting_due(since: u64, now: u64) -> bool {
    now >= since && now - since >= GREETING_DELAY_MS
}

/// One turn of the loop at `now`: while the greeting is enabled, not yet
/// proposed and the node is leader, the first turn notes the time, and the
/// first turn a full delay later proposes (and marks the greeting proposed).
/// Otherwise nothing changes. The second component says whether to propose now.
pub fn greeting_turn(g: Greeting, enabled: bool, is_leader: bool, now: u64) -> (r: (Greeting, bool))
    ensures
        !(enabled && !g.proposed && is_leader) ==> r == (g, false),
        enabled && !g.proposed && is_leader ==> r == (match g.leader_since {
            None => (Greeting { leader_since: Some(now), proposed: false }, false),
            Some(since) => if greeting_due(since, now) {
                (Greeting { leader_since: Some(since), proposed: true }, true)
            } else {
                (g, false)
            },
        }),
{
    if !(enabled && !g.proposed && is_leader) {
        return (g, false);
    }
    match g.leader_since {
        None => (Greeting { leader_since: Some(now), proposed: false }, false),
        Some(since) => if now >= since && now - since >= GREETING_DELAY_MS {
            (Greeting { leader_since: Some(since), proposed: true }, true)
        } else {
            (g, false)
        },
    }
}

} // verus!
