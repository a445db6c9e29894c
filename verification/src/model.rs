//! Core data model shared across the engine.

use crate::clock::Nanos;
use crate::number::Real;
use vstd::prelude::*;

verus! {

/// Players per team.
pub const TEAM_SIZE: usize = 5;

/// Players per match: two teams.
pub const MATCH_SIZE: usize = 10;

/// Nanoseconds per millisecond.
pub const NANOS_PER_MILLI: i128 = 1_000_000;

/// A player waiting in, or pulled from, the matchmaking pool.
#[derive(Debug)]
pub struct Player {
    /// The player's UUID, as the number that its bytes spell.
    pub id: u128,
    /// Normalised skill rating, clamped to 0.0-100.0.
    pub skill: Real,
    /// Geographic region, e.g. "us-east".
    pub region: String,
    /// The moment of entering the pool, stamped by the pool.
    pub queued_at: Option<Nanos>,
}

/// Whole milliseconds from `since` to `now`; zero if `now` is not later.
pub open spec fn millis_between(since: Nanos, now: Nanos) -> int {
    if now > since {
        (now - since) / 1_000_000
    } else {
        0
    }
}

impl Player {
    /// Milliseconds waited at `now`; zero for a player who was never queued.
    pub open spec fn waited(self, now: Nanos) -> int {
        match self.queued_at {
            Some(t) => millis_between(t, now),
            None => 0,
        }
    }

    /// Milliseconds this player has waited since entering the pool.
    /// Returns 0 if `queued_at` was never set.
    pub fn wait_ms(&self, now: Nanos) -> (r: u64)
        ensures
            r == self.waited(now),
            self.queued_at is None ==> r == 0,
            self.queued_at matches Some(t) ==> now >= t ==> r * 1_000_000 <= now - t < (r + 1)
                * 1_000_000,
            self.queued_at matches Some(t) ==> now < t ==> r == 0,
    {
        match self.queued_at {
            Some(t) => {
                if now > t {
                    ((now as i128 - t as i128) / NANOS_PER_MILLI) as u64
                } else {
                    0
                }
            },
            None => 0,
        }
    }
}

/// A wait is the time since the player was queued in whole milliseconds: that many
/// million nanoseconds have passed, and no million more.
pub proof fn law_wait_is_elapsed_time(p: Player, now: Nanos)
    ensures
        match p.queued_at {
            Some(t) => {
                &&& now >= t ==> p.waited(now) * 1_000_000 <= now - t
                &&& now >= t ==> now - t < (p.waited(now) + 1) * 1_000_000
                &&& now <= t ==> p.waited(now) == 0
            },
            None => p.waited(now) == 0,
        },
{
}

impl Clone for Player {
    fn clone(&self) -> (r: Player)
        ensures
            r == *self,
    {
        Player {
            id: self.id,
            skill: self.skill,
            region: self.region.clone(),
            queued_at: self.queued_at,
        }
    }
}

/// A completed match: two balanced teams of 5.
#[derive(Debug, Clone)]
pub struct Match {
    /// The match's UUID, as the number that its bytes spell.
    pub id: u128,
    pub team_a: Vec<Player>,
    pub team_b: Vec<Player>,
    /// Match quality in 0.0-1.0; higher is better.
    pub quality: Real,
    /// Longest wait (ms) among the 10 players: the starvation-relevant figure.
    pub wait_ms: u64,
    /// Absolute skill difference between the two teams' totals.
    pub skill_gap: Real,
    /// Whether this match mixed players from more than one region.
    pub cross_region: bool,
}

/// Inbound queue request.
#[derive(Debug)]
pub struct QueueRequest {
    /// Client may omit; the server assigns a fresh UUID.
    pub player_id: Option<u128>,
    pub skill: Real,
    pub region: String,
}

/// Answer to a queue request.
#[derive(Debug, PartialEq, Eq, Structural)]
pub struct QueueResponse {
    pub player_id: u128,
    pub queue_depth: i64,
}

} // verus!
