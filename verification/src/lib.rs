//! A matchmaking engine for repeated game sessions.
//!
//! Given a pool of players, each with an integer skill rating and a count of
//! games already played this session, the engine
//!
//! * selects which players are active for the next round, favouring those who
//!   have played the fewest games and, at the boundary, those whose rating is
//!   closest to the average of the players already chosen
//!   ([`active::select_active`]), and
//! * partitions the active players into disjoint two-team matches by weighted
//!   random sampling biased toward rating similarity
//!   ([`matchmaking::generate_matches`]).
//!
//! Ratings are fixed-point integers, and the sampling weights are computed in
//! exact integer arithmetic: the cumulative weight tables scale the usual
//! normalized distribution `((total - d_i) / total)^stability / Σ ...` by a
//! common positive denominator, so the induced distribution is identical.

use vstd::prelude::*;

pub mod active;
pub mod matchmaking;
pub mod rng;
pub mod weights;

verus! {

/// Largest rating magnitude the engine accepts.  Together with [`POOL_LIMIT`],
/// [`TEAM_LIMIT`] and [`STABILITY_LIMIT`] it keeps every distance, sum and
/// sampling weight within exact 128-bit integer arithmetic.
pub const RATING_LIMIT: i64 = 65536;

/// Average rating used while no player has been selected yet: an out-of-range
/// anchor, so that with zero prior selections the players closest to this
/// high value (that is, the highest rated) are picked first.
pub const DEFAULT_AVG: i64 = 10000;

/// Largest player pool the engine accepts.
pub const POOL_LIMIT: usize = 1024;

/// Largest `players_per_team` the engine accepts.
pub const TEAM_LIMIT: usize = 64;

/// Largest stability exponent the engine accepts.
pub const STABILITY_LIMIT: u32 = 3;

/// A player as the engine sees it: an identifier and a skill rating.
#[derive(Clone, Copy, Debug, PartialEq, Eq, Structural)]
pub struct PlayerInfo {
    pub id: u16,
    pub rating: i64,
}

/// The shape of one round of games: how many simultaneous matches to build,
/// how many players on each side, and how sharply the weighted sampling
/// favours the closest-matching candidate (`stability`; `0` draws uniformly,
/// larger values approach always picking the nearest candidate).
#[derive(Clone, Copy, Debug, PartialEq, Eq, Structural)]
pub struct GameInfo {
    pub games: usize,
    pub players_per_team: usize,
    pub stability: u32,
}

/// One generated match: two disjoint teams of equal size, listed by player id.
#[derive(Clone, Debug, PartialEq, Eq)]
pub struct Match {
    pub id: u16,
    pub team1: Vec<u16>,
    pub team2: Vec<u16>,
}

/// A pool member had no entry in the rating store: the pool and the store are
/// inconsistent, and the whole matchmaking request must fail.
#[derive(Clone, Copy, Debug, PartialEq, Eq, Structural)]
pub struct MissingRatingError {
    pub id: u16,
}

/// The rating lies within [`RATING_LIMIT`].
pub open spec fn rating_ok(p: PlayerInfo) -> bool {
    -RATING_LIMIT <= p.rating <= RATING_LIMIT
}

/// Every player in the sequence has a rating within [`RATING_LIMIT`].
pub open spec fn ratings_ok(s: Seq<PlayerInfo>) -> bool {
    forall|i: int| 0 <= i < s.len() ==> rating_ok(#[trigger] s[i])
}

/// The ids of a sequence of players, in order.
pub open spec fn ids_of(s: Seq<PlayerInfo>) -> Seq<u16> {
    s.map_values(|p: PlayerInfo| p.id)
}

/// The ratings of a sequence of players, in order.
pub open spec fn ratings_of(s: Seq<PlayerInfo>) -> Seq<i64> {
    s.map_values(|p: PlayerInfo| p.rating)
}

/// Sum of the ratings of a sequence of players.
pub open spec fn rating_sum(s: Seq<PlayerInfo>) -> int
    decreases s.len(),
{
    if s.len() == 0 {
        0
    } else {
        rating_sum(s.drop_last()) + s.last().rating
    }
}

/// Integer division truncated toward zero (for positive divisors), as the
/// engine computes running averages.
pub open spec fn div_trunc(a: int, b: int) -> int {
    if a >= 0 {
        a / b
    } else {
        -((-a) / b)
    }
}

/// The truncated quotient lies between zero and the dividend.
pub proof fn lemma_div_trunc_bound(a: int, b: int)
    requires
        b >= 1,
    ensures
        a >= 0 ==> 0 <= div_trunc(a, b) <= a,
        a < 0 ==> a <= div_trunc(a, b) <= 0,
{
    if a >= 0 {
        vstd::arithmetic::div_mod::lemma_div_pos_is_pos(a, b);
        vstd::arithmetic::div_mod::lemma_div_nonincreasing(a, b);
    } else {
        vstd::arithmetic::div_mod::lemma_div_pos_is_pos(-a, b);
        vstd::arithmetic::div_mod::lemma_div_nonincreasing(-a, b);
    }
}

/// Division truncated toward zero, as the engine computes running averages.
pub fn div_trunc_i64(a: i64, b: i64) -> (q: i64)
    requires
        b >= 1,
        a > i64::MIN,
    ensures
        q as int == div_trunc(a as int, b as int),
{
    proof {
        lemma_div_trunc_bound(a as int, b as int);
    }
    if a >= 0 {
        ((a as u64) / (b as u64)) as i64
    } else {
        -((((-a) as u64) / (b as u64)) as i64)
    }
}

} // verus!
