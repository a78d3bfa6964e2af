//! The team balancer.
//!
//! The active players, rating-descending, are split into `games` matches of
//! two teams each.  For every match the top remaining player anchors team
//! one; a weighted draw biased toward rating closeness picks his opponent;
//! and the match is then filled pairwise, each pair chosen so that the
//! running rating difference between the teams keeps its sign and the
//! running average stays balanced.  One raw draw from the injected
//! [`RandomSource`] is consumed per weighted pick, in a fixed order, so a
//! fixed source reproduces matches exactly.

use crate::rng::RandomSource;
use crate::weights::dist;
use crate::weights::pick_index;
use crate::weights::raw_weights;
use crate::weights::sum;
use crate::weights::weighted_pick;
use crate::GameInfo;
use crate::Match;
use crate::PlayerInfo;
use vstd::multiset::Multiset;
use vstd::prelude::*;

verus! {

/// What the balancer requires of its inputs: ratings, pool size, team size
/// and stability within the engine limits.
pub open spec fn shape_ok(active: Seq<PlayerInfo>, game_info: GameInfo) -> bool {
    &&& crate::ratings_ok(active)
    &&& active.len() <= crate::POOL_LIMIT
    &&& game_info.players_per_team <= crate::TEAM_LIMIT
    &&& game_info.stability <= crate::STABILITY_LIMIT
}

/// Each remaining player's distance to the first pick of a pairing step:
/// the candidate values for the second pick.
pub open spec fn diffs_to(rem: Seq<PlayerInfo>, c: PlayerInfo) -> Seq<i64> {
    rem.map_values(|p: PlayerInfo| dist(p.rating as int, c.rating as int) as i64)
}

/// One pairing step: a first candidate `c` drawn toward the current average
/// rating of the match, a second candidate `d` drawn so that their rating
/// gap is close to the current inter-team gap, assigned to sides so that
/// the sign of the gap is preserved.  Returns the grown teams, the updated
/// gap and score, and the remaining players.
pub open spec fn spec_pair_step(
    team1: Seq<PlayerInfo>,
    team2: Seq<PlayerInfo>,
    diff: int,
    score: int,
    rem: Seq<PlayerInfo>,
    stability: nat,
    d1: u128,
    d2: u128,
) -> (Seq<PlayerInfo>, Seq<PlayerInfo>, int, int, Seq<PlayerInfo>) {
    let target = crate::div_trunc(score, (team1.len() + team2.len()) as int);
    let i = pick_index(target, crate::ratings_of(rem), stability, d1);
    let c = rem[i];
    let rem1 = rem.remove(i);
    let target2 = if diff >= 0 {
        diff
    } else {
        -diff
    };
    let j = pick_index(target2, diffs_to(rem1, c), stability, d2);
    let d = rem1[j];
    let rem2 = rem1.remove(j);
    if (c.rating >= d.rating) == (diff >= 0) {
        (team1.push(d), team2.push(c), diff + d.rating - c.rating, score + c.rating + d.rating, rem2)
    } else {
        (team1.push(c), team2.push(d), diff + c.rating - d.rating, score + c.rating + d.rating, rem2)
    }
}

/// Pairing steps until `pairs_left` pairs have been added, consuming two
/// draws per step from `ds` starting at `di`.
pub open spec fn spec_fill(
    team1: Seq<PlayerInfo>,
    team2: Seq<PlayerInfo>,
    diff: int,
    score: int,
    rem: Seq<PlayerInfo>,
    pairs_left: nat,
    stability: nat,
    ds: Seq<u128>,
    di: int,
) -> (Seq<PlayerInfo>, Seq<PlayerInfo>, Seq<PlayerInfo>)
    decreases pairs_left,
{
    if pairs_left == 0 {
        (team1, team2, rem)
    } else {
        let (t1, t2, df, sc, r2) = spec_pair_step(
            team1,
            team2,
            diff,
            score,
            rem,
            stability,
            ds[di],
            ds[di + 1],
        );
        spec_fill(t1, t2, df, sc, r2, (pairs_left - 1) as nat, stability, ds, di + 2)
    }
}

/// One whole match: the top remaining player anchors team one, a weighted
/// draw toward his rating picks team two's anchor, and pairing steps fill
/// the rest.  Returns both teams and the remaining players.
pub open spec fn spec_one_match(
    active: Seq<PlayerInfo>,
    ppt: nat,
    stability: nat,
    ds: Seq<u128>,
    di: int,
) -> (Seq<PlayerInfo>, Seq<PlayerInfo>, Seq<PlayerInfo>) {
    let top = active[0];
    let rem = active.drop_first();
    let i = pick_index(top.rating as int, crate::ratings_of(rem), stability, ds[di]);
    let p2 = rem[i];
    let rem1 = rem.remove(i);
    spec_fill(
        seq![top],
        seq![p2],
        top.rating - p2.rating,
        top.rating + p2.rating,
        rem1,
        (ppt - 1) as nat,
        stability,
        ds,
        di + 1,
    )
}

/// Raw draws one match consumes: one for team two's anchor and two per
/// pairing step.
pub open spec fn draws_per_match(ppt: nat) -> int {
    2 * ppt - 1
}

/// Matches built so far and matches still to build: each game takes the
/// teams of [`spec_one_match`] and passes the remaining players on.
pub open spec fn spec_games(
    ms: Seq<(Seq<u16>, Seq<u16>)>,
    active: Seq<PlayerInfo>,
    games_left: nat,
    ppt: nat,
    stability: nat,
    ds: Seq<u128>,
    di: int,
) -> (Seq<(Seq<u16>, Seq<u16>)>, Seq<PlayerInfo>)
    decreases games_left,
{
    if games_left == 0 {
        (ms, active)
    } else {
        let (t1, t2, rem) = spec_one_match(active, ppt, stability, ds, di);
        spec_games(
            ms.push((crate::ids_of(t1), crate::ids_of(t2))),
            rem,
            (games_left - 1) as nat,
            ppt,
            stability,
            ds,
            di + draws_per_match(ppt),
        )
    }
}

/// How many matches one call builds: as many as the active players allow,
/// clamped to the configured number.
pub open spec fn spec_num_games(n: int, game_info: GameInfo) -> int {
    let per_game = 2 * game_info.players_per_team as int;
    let g = n / per_game;
    if g < game_info.games as int {
        g
    } else {
        game_info.games as int
    }
}

/// Raw draws one call consumes.
pub open spec fn spec_draws_needed(n: int, game_info: GameInfo) -> int {
    if game_info.players_per_team == 0 || game_info.games == 0 {
        0
    } else {
        spec_num_games(n, game_info) * draws_per_match(game_info.players_per_team as nat)
    }
}

/// The teams of the matches one call builds, consuming the active players
/// front-to-back and the raw draws in order.  Empty when the shape asks for
/// no games or empty teams.
pub open spec fn spec_generate(active: Seq<PlayerInfo>, game_info: GameInfo, ds: Seq<u128>) -> Seq<
    (Seq<u16>, Seq<u16>),
> {
    if game_info.players_per_team == 0 || game_info.games == 0 {
        Seq::empty()
    } else {
        spec_games(
            Seq::empty(),
            active,
            spec_num_games(active.len() as int, game_info) as nat,
            game_info.players_per_team as nat,
            game_info.stability as nat,
            ds,
            0,
        ).0
    }
}

/// The teams of a built match list, for holding it against the model.
pub open spec fn match_pairs(ms: Seq<Match>) -> Seq<(Seq<u16>, Seq<u16>)> {
    ms.map_values(|m: Match| (m.team1@, m.team2@))
}

/// Removes and returns one remaining player by weighted draw: the player
/// whose entry in `other_scores` lies closest to `target` wins with the
/// highest probability, sharpened by `stability`.  Exactly the player at
/// [`pick_index`] leaves the pool.
pub fn find_player(
    target: i64,
    other_scores: &Vec<i64>,
    stability: u32,
    active: &mut Vec<PlayerInfo>,
    draw: u128,
) -> (p: PlayerInfo)
    requires
        old(active)@.len() >= 1,
        other_scores@.len() == old(active)@.len(),
        sum(raw_weights(target as int, other_scores@, stability as nat)) <= u128::MAX,
    ensures
        ({
            let i = pick_index(target as int, other_scores@, stability as nat, draw);
            &&& p == old(active)@[i]
            &&& final (active)@ == old(active)@.remove(i)
        }),
{
    let i = weighted_pick(target, other_scores, stability, draw);
    active.remove(i)
}

/// The ratings of the remaining players, in order: the candidate values
/// for a draw toward a rating target.
fn ratings_vec(active: &Vec<PlayerInfo>) -> (r: Vec<i64>)
    ensures
        r@ == crate::ratings_of(active@),
{
    let mut r: Vec<i64> = Vec::new();
    let mut k: usize = 0;
    while k < active.len()
        invariant
            k <= active@.len(),
            r@ == crate::ratings_of(active@).take(k as int),
        decreases active@.len() - k,
    {
        proof {
            assert(crate::ratings_of(active@).take(k + 1) =~= crate::ratings_of(active@).take(
                k as int,
            ).push(active@[k as int].rating));
        }
        r.push(active[k].rating);
        k = k + 1;
    }
    proof {
        assert(crate::ratings_of(active@).take(active@.len() as int) =~= crate::ratings_of(
            active@,
        ));
    }
    r
}

/// Each remaining player's rating distance to the first pick, in order:
/// the candidate values for the second draw of a pairing step.
fn diffs_vec(active: &Vec<PlayerInfo>, c: PlayerInfo) -> (r: Vec<i64>)
    requires
        crate::ratings_ok(active@),
        crate::rating_ok(c),
    ensures
        r@ == diffs_to(active@, c),
{
    let mut r: Vec<i64> = Vec::new();
    let mut k: usize = 0;
    while k < active.len()
        invariant
            crate::ratings_ok(active@),
            crate::rating_ok(c),
            k <= active@.len(),
            r@ == diffs_to(active@, c).take(k as int),
        decreases active@.len() - k,
    {
        let p = active[k];
        proof {
            assert(crate::rating_ok(p));
            assert(diffs_to(active@, c).take(k + 1) =~= diffs_to(active@, c).take(k as int).push(
                dist(p.rating as int, c.rating as int) as i64,
            ));
        }
        let d = crate::weights::abs_dist(p.rating, c.rating);
        r.push(d as i64);
        k = k + 1;
    }
    proof {
        assert(diffs_to(active@, c).take(active@.len() as int) =~= diffs_to(active@, c));
    }
    r
}

/// Removing a player keeps the others' ratings bounded.
proof fn lemma_ratings_ok_remove(s: Seq<PlayerInfo>, i: int)
    requires
        crate::ratings_ok(s),
        0 <= i < s.len(),
    ensures
        crate::ratings_ok(s.remove(i)),
{
    assert forall|k: int| 0 <= k < s.remove(i).len() implies crate::rating_ok(
        #[trigger] s.remove(i)[k],
    ) by {
        if k < i {
            assert(s.remove(i)[k] == s[k]);
        } else {
            assert(s.remove(i)[k] == s[k + 1]);
        }
    }
}

/// Builds the matches from an explicit sequence of raw draws, one per
/// weighted pick, in order: exactly the teams of [`spec_generate`], with
/// match ids numbered from zero.
pub fn generate_matches_from(active: Vec<PlayerInfo>, game_info: GameInfo, draws: &Vec<u128>) -> (ms:
    Vec<Match>)
    requires
        shape_ok(active@, game_info),
        draws@.len() == spec_draws_needed(active@.len() as int, game_info),
    ensures
        match_pairs(ms@) == spec_generate(active@, game_info, draws@),
        forall|g: int| 0 <= g < ms@.len() ==> (#[trigger] ms@[g]).id == g,
{
    let ghost active0 = active@;
    let mut remaining = active;
    let mut ms: Vec<Match> = Vec::new();
    let ppt = game_info.players_per_team;
    let stability = game_info.stability;
    if ppt == 0 || game_info.games == 0 {
        proof {
            assert(match_pairs(ms@) =~= spec_generate(active0, game_info, draws@));
        }
        return ms;
    }
    let per_game = 2 * ppt;
    let quot = remaining.len() / per_game;
    let games = if quot < game_info.games {
        quot
    } else {
        game_info.games
    };
    let dpm = 2 * ppt - 1;
    proof {
        assert(games == spec_num_games(active0.len() as int, game_info));
        vstd::arithmetic::div_mod::lemma_fundamental_div_mod(
            active0.len() as int,
            per_game as int,
        );
        vstd::arithmetic::div_mod::lemma_mod_bound(active0.len() as int, per_game as int);
        assert(games * per_game <= quot * per_game) by (nonlinear_arith)
            requires
                games <= quot,
                per_game >= 0,
        ;
        assert(games * per_game <= active0.len());
        assert(games < 0x10000);  // ids fit u16: at most POOL_LIMIT / 2 games
    }
    let ghost full = spec_games(
        Seq::empty(),
        active0,
        games as nat,
        ppt as nat,
        stability as nat,
        draws@,
        0,
    );
    proof {
        assert(match_pairs(ms@) =~= Seq::<(Seq<u16>, Seq<u16>)>::empty());
    }
    let mut gi: usize = 0;
    let mut di: usize = 0;
    while gi < games
        invariant
            shape_ok(active0, game_info),
            ppt == game_info.players_per_team,
            stability == game_info.stability,
            1 <= ppt,
            per_game == 2 * ppt,
            dpm == 2 * ppt - 1,
            games * per_game <= active0.len(),
            games < 0x10000,
            draws@.len() == games * dpm,
            gi <= games,
            di == gi * dpm,
            ms@.len() == gi,
            forall|g: int| 0 <= g < ms@.len() ==> (#[trigger] ms@[g]).id == g,
            remaining@.len() == active0.len() - gi * per_game,
            crate::ratings_ok(remaining@),
            full == spec_games(
                Seq::empty(),
                active0,
                games as nat,
                ppt as nat,
                stability as nat,
                draws@,
                0,
            ),
            spec_games(
                match_pairs(ms@),
                remaining@,
                (games - gi) as nat,
                ppt as nat,
                stability as nat,
                draws@,
                di as int,
            ) == full,
        decreases games - gi,
    {
        proof {
            assert((games - gi) * per_game <= active0.len() - gi * per_game) by (nonlinear_arith)
                requires
                    games * per_game <= active0.len(),
                    per_game >= 0,
                    gi <= games,
            ;
            assert(per_game <= (games - gi) * per_game) by (nonlinear_arith)
                requires
                    gi < games,
                    per_game >= 0,
            ;
            assert((gi + 1) * dpm <= games * dpm) by (nonlinear_arith)
                requires
                    gi + 1 <= games,
                    dpm >= 0,
            ;
            assert((gi + 1) * dpm == gi * dpm + dpm) by (nonlinear_arith);
        }
        let ghost pre_active = remaining@;
        let ghost pre_ms = ms@;
        proof {
            assert(draws.len() == draws@.len());
        }

        let mut team1: Vec<u16> = Vec::new();
        let mut team2: Vec<u16> = Vec::new();

        // the anchor: the top remaining player
        let top_player = remaining.remove(0);
        team1.push(top_player.id);
        proof {
            assert(remaining@ =~= pre_active.drop_first());
            lemma_ratings_ok_remove(pre_active, 0);
            assert(crate::rating_ok(top_player));
        }

        // team two's anchor: drawn toward the top player's rating
        let scores = ratings_vec(&remaining);
        proof {
            assert forall|k: int| 0 <= k < scores@.len() implies -0x400_0000
                <= #[trigger] scores@[k] <= 0x400_0000 by {
                assert(scores@[k] == remaining@[k].rating);
            }
            crate::weights::lemma_weights_fit(
                top_player.rating as int,
                scores@,
                stability as nat,
            );
        }
        let ghost rem0 = remaining@;
        let top2 = find_player(top_player.rating, &scores, stability, &mut remaining, draws[di]);
        team2.push(top2.id);
        proof {
            let i = pick_index(
                top_player.rating as int,
                crate::ratings_of(rem0),
                stability as nat,
                draws@[di as int],
            );
            crate::weights::lemma_total_weight_pos(
                top_player.rating as int,
                crate::ratings_of(rem0),
                stability as nat,
            );
            crate::weights::lemma_pick_from_range(
                top_player.rating as int,
                crate::ratings_of(rem0),
                stability as nat,
                (draws@[di as int] as nat) % crate::weights::total_weight(
                    top_player.rating as int,
                    crate::ratings_of(rem0),
                    stability as nat,
                ),
                0,
            );
            lemma_ratings_ok_remove(rem0, i);
        }

        let mut overall_diff: i64 = top_player.rating - top2.rating;
        let mut overall_score: i64 = top_player.rating + top2.rating;
        let ghost mut t1p: Seq<PlayerInfo> = seq![top_player];
        let ghost mut t2p: Seq<PlayerInfo> = seq![top2];
        let ghost fill_target = spec_fill(
            t1p,
            t2p,
            overall_diff as int,
            overall_score as int,
            remaining@,
            (ppt - 1) as nat,
            stability as nat,
            draws@,
            di + 1,
        );
        proof {
            let i = pick_index(
                top_player.rating as int,
                crate::ratings_of(rem0),
                stability as nat,
                draws@[di as int],
            );
            assert(pre_active[0] == top_player);
            assert(pre_active.drop_first() == rem0);
            assert(rem0[i] == top2);
            assert(rem0.remove(i) == remaining@);
            assert(spec_one_match(pre_active, ppt as nat, stability as nat, draws@, di as int)
                == fill_target);
            assert(crate::ids_of(t1p) =~= team1@);
            assert(crate::ids_of(t2p) =~= team2@);
            assert(crate::rating_sum(Seq::<PlayerInfo>::empty()) == 0);
            assert(crate::rating_sum(t1p) == top_player.rating as int) by {
                assert(crate::rating_sum(Seq::<PlayerInfo>::empty()) == 0);
                assert(t1p.drop_last() =~= Seq::<PlayerInfo>::empty());
                assert(t1p.last() == top_player);
            }
            assert(crate::rating_sum(t2p) == top2.rating as int) by {
                assert(crate::rating_sum(Seq::<PlayerInfo>::empty()) == 0);
                assert(t2p.drop_last() =~= Seq::<PlayerInfo>::empty());
                assert(t2p.last() == top2);
            }
        }

        let mut pr: usize = 0;
        while pr < ppt - 1
            invariant
                shape_ok(active0, game_info),
                ppt == game_info.players_per_team,
                stability == game_info.stability,
                1 <= ppt <= crate::TEAM_LIMIT,
                pr <= ppt - 1,
                di + 1 + 2 * (ppt - 1) <= draws@.len(),
                team1@ == crate::ids_of(t1p),
                team2@ == crate::ids_of(t2p),
                pre_active.len() <= crate::POOL_LIMIT,
                draws@.len() <= usize::MAX,
                t1p.len() == pr + 1,
                t2p.len() == pr + 1,
                crate::ratings_ok(t1p),
                crate::ratings_ok(t2p),
                crate::ratings_ok(remaining@),
                remaining@.len() >= 2 * (ppt - 1 - pr),
                remaining@.len() == pre_active.len() - 2 - 2 * pr,
                overall_diff == crate::rating_sum(t1p) - crate::rating_sum(t2p),
                overall_score == crate::rating_sum(t1p) + crate::rating_sum(t2p),
                fill_target == spec_fill(
                    t1p,
                    t2p,
                    overall_diff as int,
                    overall_score as int,
                    remaining@,
                    (ppt - 1 - pr) as nat,
                    stability as nat,
                    draws@,
                    di + 1 + 2 * pr,
                ),
            decreases ppt - 1 - pr,
        {
            let ghost t1o = t1p;
            let ghost t2o = t2p;
            let ghost diffo = overall_diff as int;
            let ghost scoreo = overall_score as int;
            let ghost remo = remaining@;
            let ghost dio = di + 1 + 2 * pr;
            proof {
                lemma_rating_sum_bounds_teams(t1p, t2p);
            }

            let size = team1.len() + team2.len();
            let target = crate::div_trunc_i64(overall_score, size as i64);
            proof {
                crate::lemma_div_trunc_bound(overall_score as int, size as int);
            }

            // first pick: toward the current average rating of the match
            let scores = ratings_vec(&remaining);
            proof {
                assert forall|k: int| 0 <= k < scores@.len() implies -0x400_0000
                    <= #[trigger] scores@[k] <= 0x400_0000 by {
                    assert(scores@[k] == remaining@[k].rating);
                }
                crate::weights::lemma_weights_fit(target as int, scores@, stability as nat);
            }
            let next_player = find_player(
                target,
                &scores,
                stability,
                &mut remaining,
                draws[di + 1 + 2 * pr],
            );
            proof {
                let i = pick_index(
                    target as int,
                    crate::ratings_of(remo),
                    stability as nat,
                    draws@[dio as int],
                );
                crate::weights::lemma_total_weight_pos(
                    target as int,
                    crate::ratings_of(remo),
                    stability as nat,
                );
                crate::weights::lemma_pick_from_range(
                    target as int,
                    crate::ratings_of(remo),
                    stability as nat,
                    (draws@[dio as int] as nat) % crate::weights::total_weight(
                        target as int,
                        crate::ratings_of(remo),
                        stability as nat,
                    ),
                    0,
                );
                lemma_ratings_ok_remove(remo, i);
                assert(crate::rating_ok(next_player));
            }
            let ghost rem1 = remaining@;

            // second pick: a rating gap close to the current inter-team gap
            let diffs = diffs_vec(&remaining, next_player);
            let target2 = if overall_diff >= 0 {
                overall_diff
            } else {
                -overall_diff
            };
            proof {
                assert forall|k: int| 0 <= k < diffs@.len() implies -0x400_0000
                    <= #[trigger] diffs@[k] <= 0x400_0000 by {
                    assert(diffs@[k] == dist(
                        remaining@[k].rating as int,
                        next_player.rating as int,
                    ) as i64);
                }
                crate::weights::lemma_weights_fit(target2 as int, diffs@, stability as nat);
            }
            let next_player2 = find_player(
                target2,
                &diffs,
                stability,
                &mut remaining,
                draws[di + 2 + 2 * pr],
            );
            proof {
                let j = pick_index(
                    target2 as int,
                    diffs_to(rem1, next_player),
                    stability as nat,
                    draws@[dio + 1],
                );
                crate::weights::lemma_total_weight_pos(
                    target2 as int,
                    diffs_to(rem1, next_player),
                    stability as nat,
                );
                crate::weights::lemma_pick_from_range(
                    target2 as int,
                    diffs_to(rem1, next_player),
                    stability as nat,
                    (draws@[dio + 1] as nat) % crate::weights::total_weight(
                        target2 as int,
                        diffs_to(rem1, next_player),
                        stability as nat,
                    ),
                    0,
                );
                lemma_ratings_ok_remove(rem1, j);
                assert(crate::rating_ok(next_player2));
            }

            if (next_player.rating >= next_player2.rating) == (overall_diff >= 0) {
                team1.push(next_player2.id);
                team2.push(next_player.id);
                proof {
                    t1p = t1p.push(next_player2);
                    t2p = t2p.push(next_player);
                    crate::active::lemma_rating_sum_push(t1o, next_player2);
                    crate::active::lemma_rating_sum_push(t2o, next_player);
                    assert(team1@ =~= crate::ids_of(t1p));
                    assert(team2@ =~= crate::ids_of(t2p));
                }
                overall_diff = overall_diff + next_player2.rating - next_player.rating;
            } else {
                team1.push(next_player.id);
                team2.push(next_player2.id);
                proof {
                    t1p = t1p.push(next_player);
                    t2p = t2p.push(next_player2);
                    crate::active::lemma_rating_sum_push(t1o, next_player);
                    crate::active::lemma_rating_sum_push(t2o, next_player2);
                    assert(team1@ =~= crate::ids_of(t1p));
                    assert(team2@ =~= crate::ids_of(t2p));
                }
                overall_diff = overall_diff + next_player.rating - next_player2.rating;
            }
            overall_score = overall_score + next_player.rating + next_player2.rating;
            proof {
                let stepped = spec_pair_step(
                    t1o,
                    t2o,
                    diffo,
                    scoreo,
                    remo,
                    stability as nat,
                    draws@[dio as int],
                    draws@[dio + 1],
                );
                assert(stepped.0 == t1p);
                assert(stepped.1 == t2p);
                assert(stepped.2 == overall_diff as int);
                assert(stepped.3 == overall_score as int);
                assert(stepped.4 == remaining@);
                assert(spec_fill(
                    t1o,
                    t2o,
                    diffo,
                    scoreo,
                    remo,
                    (ppt - 1 - pr) as nat,
                    stability as nat,
                    draws@,
                    dio as int,
                ) == spec_fill(
                    t1p,
                    t2p,
                    overall_diff as int,
                    overall_score as int,
                    remaining@,
                    (ppt - 1 - pr - 1) as nat,
                    stability as nat,
                    draws@,
                    dio + 2,
                ));
            }
            pr = pr + 1;
        }

        proof {
            assert(fill_target == (t1p, t2p, remaining@));
            assert(spec_one_match(pre_active, ppt as nat, stability as nat, draws@, di as int)
                == (t1p, t2p, remaining@));
        }
        let m = Match { id: gi as u16, team1, team2 };
        ms.push(m);
        proof {
            assert(match_pairs(ms@) =~= match_pairs(pre_ms).push(
                (crate::ids_of(t1p), crate::ids_of(t2p)),
            ));
            assert(spec_games(
                match_pairs(pre_ms),
                pre_active,
                (games - gi) as nat,
                ppt as nat,
                stability as nat,
                draws@,
                di as int,
            ) == spec_games(
                match_pairs(ms@),
                remaining@,
                (games - gi - 1) as nat,
                ppt as nat,
                stability as nat,
                draws@,
                di + dpm,
            )) by {
                assert(match_pairs(pre_ms).len() == gi);
            }
        }
        proof {
            assert((gi + 1) * per_game == gi * per_game + per_game) by (nonlinear_arith);
        }
        gi = gi + 1;
        di = di + dpm;
    }
    proof {
        assert(spec_games(
            match_pairs(ms@),
            remaining@,
            0nat,
            ppt as nat,
            stability as nat,
            draws@,
            di as int,
        ) == (match_pairs(ms@), remaining@));
        assert(match_pairs(ms@) == spec_generate(active0, game_info, draws@));
    }
    ms
}

/// Partitions the active players (rating-descending, as
/// [`crate::active::select_active`] returns them) into `games` disjoint
/// two-team matches by weighted random sampling, consuming one raw draw of
/// `rng` per weighted pick.  Whatever the draws, the result is the model
/// [`spec_generate`] run on some draw sequence of the documented length;
/// for a fixed source it is the model run on exactly the source's next
/// draws, and the source advances by that many.
pub fn generate_matches(active: Vec<PlayerInfo>, game_info: GameInfo, rng: &mut RandomSource) -> (ms:
    Vec<Match>)
    requires
        shape_ok(active@, game_info),
        old(rng).wf(),
    ensures
        final (rng).wf(),
        !old(rng).is_fixed() ==> *final (rng) == *old(rng),
        old(rng).is_fixed() ==> *final (rng) == old(rng).advanced(
            spec_draws_needed(active@.len() as int, game_info) as nat,
        ),
        exists|ds: Seq<u128>|
            ds.len() == spec_draws_needed(active@.len() as int, game_info) && match_pairs(ms@)
                == #[trigger] spec_generate(active@, game_info, ds),
        old(rng).is_fixed() ==> match_pairs(ms@) == spec_generate(
            active@,
            game_info,
            old(rng).upcoming(spec_draws_needed(active@.len() as int, game_info) as nat),
        ),
        forall|g: int| 0 <= g < ms@.len() ==> (#[trigger] ms@[g]).id == g,
{
    let ghost rng0 = *rng;
    let ppt = game_info.players_per_team;
    let needed: usize = if ppt == 0 || game_info.games == 0 {
        0
    } else {
        let quot = active.len() / (2 * ppt);
        let games = if quot < game_info.games {
            quot
        } else {
            game_info.games
        };
        proof {
            assert(games * (2 * ppt - 1) <= games * (2 * crate::TEAM_LIMIT)) by (nonlinear_arith)
                requires
                    0 <= games,
                    0 < ppt <= crate::TEAM_LIMIT,
            ;
            assert(games <= active@.len());
            vstd::arithmetic::div_mod::lemma_div_nonincreasing(
                active@.len() as int,
                2 * ppt as int,
            );
            assert(games * (2 * crate::TEAM_LIMIT) <= crate::POOL_LIMIT * (2
                * crate::TEAM_LIMIT)) by (nonlinear_arith)
                requires
                    0 <= games <= crate::POOL_LIMIT,
            ;
        }
        games * (2 * ppt - 1)
    };
    proof {
        assert(needed == spec_draws_needed(active@.len() as int, game_info));
    }

    proof {
        if rng0.is_fixed() {
            crate::rng::lemma_advanced_zero(rng0);
        }
    }
    let mut draws: Vec<u128> = Vec::new();
    let mut k: usize = 0;
    while k < needed
        invariant
            rng.wf(),
            rng0.wf(),
            draws@.len() == k,
            k <= needed,
            !rng0.is_fixed() ==> *rng == rng0,
            rng0.is_fixed() ==> *rng == rng0.advanced(k as nat),
            rng0.is_fixed() ==> forall|j: int|
                0 <= j < k ==> #[trigger] draws@[j] == rng0.draw_at(j),
        decreases needed - k,
    {
        proof {
            if rng0.is_fixed() {
                crate::rng::lemma_advanced_compose(rng0, k as nat, 0);
                crate::rng::lemma_advanced_compose(rng0, k as nat, 1);
                crate::rng::lemma_advanced_compose(rng0, (k + 1) as nat, 0);
            }
        }
        let d = rng.next_draw();
        draws.push(d);
        k = k + 1;
    }
    proof {
        if rng0.is_fixed() {
            assert(draws@ =~= rng0.upcoming(needed as nat));
        } else {
            assert(*rng == rng0);
        }
    }
    let ms = generate_matches_from(active, game_info, &draws);
    proof {
        assert(match_pairs(ms@) == spec_generate(active@, game_info, draws@));
    }
    ms
}

/// The multiset of ids of a team or pool.
pub open spec fn id_multiset(s: Seq<PlayerInfo>) -> Multiset<u16> {
    crate::ids_of(s).to_multiset()
}

/// Every id placed on any team of a built match list, in order.
pub open spec fn all_ids(ms: Seq<(Seq<u16>, Seq<u16>)>) -> Seq<u16>
    decreases ms.len(),
{
    if ms.len() == 0 {
        Seq::empty()
    } else {
        all_ids(ms.drop_last()) + ms.last().0 + ms.last().1
    }
}

/// Removing a player removes exactly his id.
proof fn lemma_ids_remove(s: Seq<PlayerInfo>, i: int)
    requires
        0 <= i < s.len(),
    ensures
        crate::ids_of(s.remove(i)) =~= crate::ids_of(s).remove(i),
        id_multiset(s.remove(i)) =~= id_multiset(s).remove(s[i].id),
{
    broadcast use vstd::seq_lib::group_to_multiset_ensures;

    assert(crate::ids_of(s.remove(i)) =~= crate::ids_of(s).remove(i));
    assert(crate::ids_of(s).remove(i).to_multiset() =~= crate::ids_of(s).to_multiset().remove(
        crate::ids_of(s)[i],
    ));
}

/// Adding a player adds exactly his id.
proof fn lemma_ids_push(s: Seq<PlayerInfo>, p: PlayerInfo)
    ensures
        crate::ids_of(s.push(p)) =~= crate::ids_of(s).push(p.id),
        id_multiset(s.push(p)) =~= id_multiset(s).insert(p.id),
{
    broadcast use vstd::seq_lib::group_to_multiset_ensures;

    assert(crate::ids_of(s.push(p)) =~= crate::ids_of(s).push(p.id));
    assert(crate::ids_of(s).push(p.id).to_multiset() =~= crate::ids_of(s).to_multiset().insert(
        p.id,
    ));
}

/// LAW (sign preservation): one pairing step keeps the tracked inter-team
/// rating gap and the tracked score equal to the values recomputed from the
/// teams themselves: if `diff` is team one's rating sum minus team two's
/// and `score` their sum before the step, the same holds of the updated
/// values and the grown teams after it — so at every step the sign of the
/// tracked gap is the sign of the recomputed one.  Each team grows by one
/// player and the pool shrinks by the two of them.
pub proof fn lemma_pair_step_balance(
    team1: Seq<PlayerInfo>,
    team2: Seq<PlayerInfo>,
    diff: int,
    score: int,
    rem: Seq<PlayerInfo>,
    stability: nat,
    d1: u128,
    d2: u128,
)
    requires
        rem.len() >= 2,
        diff == crate::rating_sum(team1) - crate::rating_sum(team2),
        score == crate::rating_sum(team1) + crate::rating_sum(team2),
    ensures
        ({
            let (t1, t2, df, sc, r2) = spec_pair_step(
                team1,
                team2,
                diff,
                score,
                rem,
                stability,
                d1,
                d2,
            );
            &&& df == crate::rating_sum(t1) - crate::rating_sum(t2)
            &&& sc == crate::rating_sum(t1) + crate::rating_sum(t2)
            &&& t1.len() == team1.len() + 1
            &&& t2.len() == team2.len() + 1
            &&& r2.len() == rem.len() - 2
            &&& id_multiset(t1).add(id_multiset(t2)).add(id_multiset(r2)) =~= id_multiset(
                team1,
            ).add(id_multiset(team2)).add(id_multiset(rem))
        }),
{
    broadcast use vstd::multiset::group_multiset_axioms;
    broadcast use vstd::seq_lib::group_to_multiset_ensures;

    let target = crate::div_trunc(score, (team1.len() + team2.len()) as int);
    let i = pick_index(target, crate::ratings_of(rem), stability, d1);
    crate::weights::lemma_total_weight_pos(target, crate::ratings_of(rem), stability);
    crate::weights::lemma_pick_from_range(
        target,
        crate::ratings_of(rem),
        stability,
        (d1 as nat) % crate::weights::total_weight(target, crate::ratings_of(rem), stability),
        0,
    );
    let c = rem[i];
    let rem1 = rem.remove(i);
    let target2 = if diff >= 0 {
        diff
    } else {
        -diff
    };
    let j = pick_index(target2, diffs_to(rem1, c), stability, d2);
    crate::weights::lemma_total_weight_pos(target2, diffs_to(rem1, c), stability);
    crate::weights::lemma_pick_from_range(
        target2,
        diffs_to(rem1, c),
        stability,
        (d2 as nat) % crate::weights::total_weight(target2, diffs_to(rem1, c), stability),
        0,
    );
    let d = rem1[j];
    crate::active::lemma_rating_sum_push(team1, c);
    crate::active::lemma_rating_sum_push(team1, d);
    crate::active::lemma_rating_sum_push(team2, c);
    crate::active::lemma_rating_sum_push(team2, d);
    lemma_ids_remove(rem, i);
    lemma_ids_remove(rem1, j);
    lemma_ids_push(team1, c);
    lemma_ids_push(team1, d);
    lemma_ids_push(team2, c);
    lemma_ids_push(team2, d);
    assert(id_multiset(rem).contains(c.id)) by {
        assert(crate::ids_of(rem)[i] == c.id);
        assert(crate::ids_of(rem).contains(c.id));
    }
    assert(id_multiset(rem1).contains(d.id)) by {
        assert(crate::ids_of(rem1)[j] == d.id);
        assert(crate::ids_of(rem1).contains(d.id));
    }
}

/// Filling a match moves players from the pool onto the teams, two per
/// pairing step, and nothing else: ids are conserved.
proof fn lemma_fill_partition(
    team1: Seq<PlayerInfo>,
    team2: Seq<PlayerInfo>,
    diff: int,
    score: int,
    rem: Seq<PlayerInfo>,
    pairs_left: nat,
    stability: nat,
    ds: Seq<u128>,
    di: int,
)
    requires
        rem.len() >= 2 * pairs_left,
        diff == crate::rating_sum(team1) - crate::rating_sum(team2),
        score == crate::rating_sum(team1) + crate::rating_sum(team2),
    ensures
        ({
            let (t1, t2, r2) = spec_fill(
                team1,
                team2,
                diff,
                score,
                rem,
                pairs_left,
                stability,
                ds,
                di,
            );
            &&& t1.len() == team1.len() + pairs_left
            &&& t2.len() == team2.len() + pairs_left
            &&& r2.len() == rem.len() - 2 * pairs_left
            &&& id_multiset(t1).add(id_multiset(t2)).add(id_multiset(r2)) =~= id_multiset(
                team1,
            ).add(id_multiset(team2)).add(id_multiset(rem))
        }),
    decreases pairs_left,
{
    broadcast use vstd::multiset::group_multiset_axioms;

    if pairs_left > 0 {
        lemma_pair_step_balance(team1, team2, diff, score, rem, stability, ds[di], ds[di + 1]);
        let (t1, t2, df, sc, r2) = spec_pair_step(
            team1,
            team2,
            diff,
            score,
            rem,
            stability,
            ds[di],
            ds[di + 1],
        );
        lemma_fill_partition(
            t1,
            t2,
            df,
            sc,
            r2,
            (pairs_left - 1) as nat,
            stability,
            ds,
            di + 2,
        );
    }
}

/// Building matches moves players from the pool onto teams and nothing
/// else: every game fields two teams of `ppt` players each, consumes
/// `2 * ppt` players, and ids are conserved.
proof fn lemma_games_partition(
    ms: Seq<(Seq<u16>, Seq<u16>)>,
    active: Seq<PlayerInfo>,
    games_left: nat,
    ppt: nat,
    stability: nat,
    ds: Seq<u128>,
    di: int,
)
    requires
        ppt >= 1,
        active.len() as int >= 2 * (ppt as int) * (games_left as int),
    ensures
        ({
            let (out, rem) = spec_games(ms, active, games_left, ppt, stability, ds, di);
            &&& out.len() == ms.len() + games_left
            &&& forall|g: int| 0 <= g < ms.len() ==> out[g] == ms[g]
            &&& forall|g: int|
                ms.len() <= g < out.len() ==> (#[trigger] out[g]).0.len() == ppt && out[g].1.len()
                    == ppt
            &&& rem.len() as int == active.len() as int - 2 * (ppt as int) * (games_left as int)
            &&& all_ids(out).to_multiset().add(crate::ids_of(rem).to_multiset()) =~= all_ids(
                ms,
            ).to_multiset().add(crate::ids_of(active).to_multiset())
        }),
    decreases games_left,
{
    broadcast use vstd::multiset::group_multiset_axioms;
    broadcast use vstd::seq_lib::group_to_multiset_ensures;
    broadcast use vstd::seq_lib::lemma_multiset_commutative;

    if games_left > 0 {
        assert(2 * ppt * games_left == 2 * ppt + 2 * ppt * (games_left - 1)) by (nonlinear_arith);
        let top = active[0];
        let rem0 = active.drop_first();
        let i = pick_index(top.rating as int, crate::ratings_of(rem0), stability, ds[di]);
        crate::weights::lemma_total_weight_pos(
            top.rating as int,
            crate::ratings_of(rem0),
            stability,
        );
        crate::weights::lemma_pick_from_range(
            top.rating as int,
            crate::ratings_of(rem0),
            stability,
            (ds[di] as nat) % crate::weights::total_weight(
                top.rating as int,
                crate::ratings_of(rem0),
                stability,
            ),
            0,
        );
        let p2 = rem0[i];
        let rem1 = rem0.remove(i);
        assert(crate::rating_sum(seq![top]) == top.rating as int) by {
            assert(crate::rating_sum(Seq::<PlayerInfo>::empty()) == 0);
            assert(seq![top].drop_last() =~= Seq::<PlayerInfo>::empty());
        }
        assert(crate::rating_sum(seq![p2]) == p2.rating as int) by {
            assert(crate::rating_sum(Seq::<PlayerInfo>::empty()) == 0);
            assert(seq![p2].drop_last() =~= Seq::<PlayerInfo>::empty());
        }
        lemma_fill_partition(
            seq![top],
            seq![p2],
            top.rating - p2.rating,
            top.rating + p2.rating,
            rem1,
            (ppt - 1) as nat,
            stability,
            ds,
            di + 1,
        );
        let (t1, t2, rem2) = spec_fill(
            seq![top],
            seq![p2],
            top.rating - p2.rating,
            top.rating + p2.rating,
            rem1,
            (ppt - 1) as nat,
            stability,
            ds,
            di + 1,
        );
        assert(spec_one_match(active, ppt, stability, ds, di) == (t1, t2, rem2));
        let ms1 = ms.push((crate::ids_of(t1), crate::ids_of(t2)));
        assert(spec_games(ms, active, games_left, ppt, stability, ds, di) == spec_games(
            ms1,
            rem2,
            (games_left - 1) as nat,
            ppt,
            stability,
            ds,
            di + draws_per_match(ppt),
        ));
        lemma_games_partition(
            ms1,
            rem2,
            (games_left - 1) as nat,
            ppt,
            stability,
            ds,
            di + draws_per_match(ppt),
        );
        // ids conserved across this one game
        assert(active =~= seq![top] + rem0);
        lemma_ids_remove(rem0, i);
        assert(id_multiset(rem0).contains(p2.id)) by {
            assert(crate::ids_of(rem0)[i] == p2.id);
            assert(crate::ids_of(rem0).contains(p2.id));
        }
        assert(id_multiset(active) =~= id_multiset(rem0).insert(top.id)) by {
            assert(crate::ids_of(active) =~= crate::ids_of(seq![top] + rem0));
            assert((crate::ids_of(seq![top] + rem0)).to_multiset() =~= crate::ids_of(
                seq![top],
            ).to_multiset().add(crate::ids_of(rem0).to_multiset())) by {
                assert(crate::ids_of(seq![top] + rem0) =~= crate::ids_of(seq![top])
                    + crate::ids_of(rem0));
            }
            assert(crate::ids_of(seq![top]).to_multiset() =~= Multiset::<u16>::empty().insert(
                top.id,
            )) by {
                assert(crate::ids_of(seq![top]) =~= Seq::<u16>::empty().push(top.id));
                assert(Seq::<u16>::empty().to_multiset() =~= Multiset::<u16>::empty());
            }
        }
        assert(crate::ids_of(active) =~= crate::ids_of(seq![top]) + crate::ids_of(rem0)) by {
            assert(crate::ids_of(active) =~= crate::ids_of(seq![top] + rem0));
        }
        assert(id_multiset(seq![top]) =~= Multiset::<u16>::empty().insert(top.id)) by {
            assert(crate::ids_of(seq![top]) =~= Seq::<u16>::empty().push(top.id));
            assert(Seq::<u16>::empty().to_multiset() =~= Multiset::<u16>::empty());
        }
        assert(id_multiset(seq![p2]) =~= Multiset::<u16>::empty().insert(p2.id)) by {
            assert(crate::ids_of(seq![p2]) =~= Seq::<u16>::empty().push(p2.id));
            assert(Seq::<u16>::empty().to_multiset() =~= Multiset::<u16>::empty());
        }
        assert(id_multiset(rem0).contains(p2.id));
        assert(all_ids(ms1) =~= all_ids(ms) + crate::ids_of(t1) + crate::ids_of(t2)) by {
            assert(ms1.drop_last() =~= ms);
        }
        assert(all_ids(ms1).to_multiset() =~= all_ids(ms).to_multiset().add(
            crate::ids_of(t1).to_multiset(),
        ).add(crate::ids_of(t2).to_multiset())) by {
            assert((all_ids(ms) + crate::ids_of(t1) + crate::ids_of(t2)).to_multiset()
                =~= (all_ids(ms) + crate::ids_of(t1)).to_multiset().add(
                crate::ids_of(t2).to_multiset(),
            ));
        }
        let g0 = spec_games(ms, active, games_left, ppt, stability, ds, di);
        let g1 = spec_games(
            ms1,
            rem2,
            (games_left - 1) as nat,
            ppt,
            stability,
            ds,
            di + draws_per_match(ppt),
        );
        assert(g0 == g1);
        // the one consumed game conserves ids
        assert(id_multiset(t1).add(id_multiset(t2)).add(id_multiset(rem2)) == id_multiset(
            seq![top],
        ).add(id_multiset(seq![p2])).add(id_multiset(rem1)));
        assert(id_multiset(seq![top]) == Multiset::<u16>::empty().insert(top.id));
        assert(id_multiset(seq![p2]) == Multiset::<u16>::empty().insert(p2.id));
        assert(id_multiset(rem1) == id_multiset(rem0).remove(p2.id));
        assert(id_multiset(t1).add(id_multiset(t2)).add(id_multiset(rem2))
            =~= Multiset::<u16>::empty().insert(top.id).add(
            Multiset::<u16>::empty().insert(p2.id),
        ).add(id_multiset(rem0).remove(p2.id)));
        assert forall|x: u16|
            #[trigger] (all_ids(ms1).to_multiset().add(crate::ids_of(rem2).to_multiset())).count(
                x,
            ) == (all_ids(ms).to_multiset().add(crate::ids_of(active).to_multiset())).count(
                x,
            ) by {
            assert(id_multiset(t1).add(id_multiset(t2)).add(id_multiset(rem2)).count(x)
                == Multiset::<u16>::empty().insert(top.id).add(
                Multiset::<u16>::empty().insert(p2.id),
            ).add(id_multiset(rem0).remove(p2.id)).count(x));
            assert(id_multiset(active).count(x) == id_multiset(rem0).insert(top.id).count(x));
        }
        assert(all_ids(ms1).to_multiset().add(crate::ids_of(rem2).to_multiset()) =~= all_ids(
            ms,
        ).to_multiset().add(crate::ids_of(active).to_multiset()));
        assert(all_ids(g0.0).to_multiset().add(crate::ids_of(g0.1).to_multiset()) =~= all_ids(
            ms,
        ).to_multiset().add(crate::ids_of(active).to_multiset()));
        // lengths
        assert(rem1.len() == active.len() - 2);
        assert(rem2.len() == active.len() - 2 * ppt);
        assert(g1.1.len() == rem2.len() - 2 * ppt * ((games_left - 1) as nat));
        assert(g0.1.len() == active.len() - 2 * ppt * games_left);
        // positions and sizes
        assert forall|g: int| 0 <= g < ms.len() implies g0.0[g] == ms[g] by {
            assert(g1.0[g] == ms1[g]);
            assert(ms1[g] == ms[g]);
        }
        assert forall|g: int|
            ms.len() <= g < g0.0.len() implies (#[trigger] g0.0[g]).0.len() == ppt
                && g0.0[g].1.len() == ppt by {
            if g == ms.len() {
                assert(g1.0[g] == ms1[g]);
                assert(ms1[ms.len() as int] == (crate::ids_of(t1), crate::ids_of(t2)));
            } else {
                assert(ms1.len() <= g < g1.0.len());
            }
        }
    } else {
        assert(2 * (ppt as int) * (games_left as int) == 0) by (nonlinear_arith)
            requires
                games_left == 0,
        ;
    }
}

/// LAW (disjointness): when the active players' ids are distinct, no id is
/// placed on two teams across all matches of one generation, and every id
/// placed comes from the active players.
pub proof fn lemma_matches_disjoint(active: Seq<PlayerInfo>, game_info: GameInfo, ds: Seq<u128>)
    requires
        crate::ids_of(active).no_duplicates(),
        game_info.players_per_team >= 1,
    ensures
        all_ids(spec_generate(active, game_info, ds)).no_duplicates(),
        forall|x: u16|
            all_ids(spec_generate(active, game_info, ds)).contains(x) ==> crate::ids_of(
                active,
            ).contains(x),
{
    broadcast use vstd::multiset::group_multiset_axioms;
    broadcast use vstd::seq_lib::group_to_multiset_ensures;

    let out = spec_generate(active, game_info, ds);
    if game_info.games == 0 {
        assert(out =~= Seq::<(Seq<u16>, Seq<u16>)>::empty());
        assert(all_ids(out).no_duplicates());
        assert(forall|x: u16| !all_ids(out).contains(x));
    } else {
        let ppt = game_info.players_per_team as nat;
        let games = spec_num_games(active.len() as int, game_info);
        vstd::arithmetic::div_mod::lemma_fundamental_div_mod(
            active.len() as int,
            2 * ppt as int,
        );
        vstd::arithmetic::div_mod::lemma_mod_bound(active.len() as int, 2 * ppt as int);
        vstd::arithmetic::div_mod::lemma_div_pos_is_pos(active.len() as int, 2 * ppt as int);
        assert(active.len() >= 2 * ppt * (games as nat)) by (nonlinear_arith)
            requires
                active.len() as int == (2 * ppt as int) * (active.len() as int / (2
                    * ppt as int)) + active.len() as int % (2 * ppt as int),
                active.len() as int % (2 * ppt as int) >= 0,
                0 <= games <= active.len() as int / (2 * ppt as int),
                ppt >= 1,
        ;
        lemma_games_partition(
            Seq::empty(),
            active,
            games as nat,
            ppt,
            game_info.stability as nat,
            ds,
            0,
        );
        assert(all_ids(Seq::<(Seq<u16>, Seq<u16>)>::empty()).to_multiset()
            =~= Multiset::<u16>::empty());
        crate::ids_of(active).lemma_multiset_has_no_duplicates();
        let gout = spec_games(
            Seq::empty(),
            active,
            games as nat,
            ppt,
            game_info.stability as nat,
            ds,
            0,
        );
        assert(out == gout.0);
        let outms = all_ids(out).to_multiset();
        assert forall|x: u16| outms.contains(x) implies outms.count(x) == 1 && crate::ids_of(
            active,
        ).contains(x) by {
            assert(all_ids(gout.0).to_multiset().add(crate::ids_of(gout.1).to_multiset()).count(
                x,
            ) == all_ids(Seq::<(Seq<u16>, Seq<u16>)>::empty()).to_multiset().add(
                crate::ids_of(active).to_multiset(),
            ).count(x));
            assert(crate::ids_of(active).to_multiset().count(x) >= outms.count(x));
        }
        all_ids(out).lemma_multiset_has_no_duplicates_conv();
        assert forall|x: u16| all_ids(out).contains(x) implies crate::ids_of(active).contains(
            x,
        ) by {
            assert(outms.count(x) > 0);
        }
    }
}

/// Every match of one generation fields two disjoint teams of exactly
/// `players_per_team` players, and the number of matches is the configured
/// number clamped to what the pool allows.
pub proof fn lemma_match_shape(active: Seq<PlayerInfo>, game_info: GameInfo, ds: Seq<u128>)
    requires
        game_info.players_per_team >= 1,
        game_info.games >= 1,
    ensures
        spec_generate(active, game_info, ds).len() == spec_num_games(
            active.len() as int,
            game_info,
        ),
        forall|g: int|
            0 <= g < spec_generate(active, game_info, ds).len() ==> (#[trigger] spec_generate(
                active,
                game_info,
                ds,
            )[g]).0.len() == game_info.players_per_team && spec_generate(
                active,
                game_info,
                ds,
            )[g].1.len() == game_info.players_per_team,
{
    let ppt = game_info.players_per_team as nat;
    let games = spec_num_games(active.len() as int, game_info);
    vstd::arithmetic::div_mod::lemma_fundamental_div_mod(active.len() as int, 2 * ppt as int);
    vstd::arithmetic::div_mod::lemma_mod_bound(active.len() as int, 2 * ppt as int);
    vstd::arithmetic::div_mod::lemma_div_pos_is_pos(active.len() as int, 2 * ppt as int);
    assert(active.len() >= 2 * ppt * (games as nat)) by (nonlinear_arith)
        requires
            active.len() as int == (2 * ppt as int) * (active.len() as int / (2 * ppt as int))
                + active.len() as int % (2 * ppt as int),
            active.len() as int % (2 * ppt as int) >= 0,
            0 <= games <= active.len() as int / (2 * ppt as int),
            ppt >= 1,
    ;
    lemma_games_partition(
        Seq::empty(),
        active,
        games as nat,
        ppt,
        game_info.stability as nat,
        ds,
        0,
    );
}

/// The rating sums of part-built teams stay well within the engine's
/// arithmetic range.
proof fn lemma_rating_sum_bounds_teams(t1: Seq<PlayerInfo>, t2: Seq<PlayerInfo>)
    requires
        crate::ratings_ok(t1),
        crate::ratings_ok(t2),
        t1.len() <= crate::TEAM_LIMIT,
        t2.len() <= crate::TEAM_LIMIT,
    ensures
        -0x100_0000 <= crate::rating_sum(t1) - crate::rating_sum(t2) <= 0x100_0000,
        -0x100_0000 <= crate::rating_sum(t1) + crate::rating_sum(t2) <= 0x100_0000,
{
    crate::active::lemma_rating_sum_bound(t1);
    crate::active::lemma_rating_sum_bound(t2);
    assert((t1.len() as int) * crate::RATING_LIMIT <= crate::TEAM_LIMIT
        * crate::RATING_LIMIT) by (nonlinear_arith)
        requires
            t1.len() <= crate::TEAM_LIMIT,
    ;
    assert((t2.len() as int) * crate::RATING_LIMIT <= crate::TEAM_LIMIT
        * crate::RATING_LIMIT) by (nonlinear_arith)
        requires
            t2.len() <= crate::TEAM_LIMIT,
    ;
    assert(-(t1.len() as int) * crate::RATING_LIMIT >= -(crate::TEAM_LIMIT as int)
        * crate::RATING_LIMIT) by (nonlinear_arith)
        requires
            t1.len() <= crate::TEAM_LIMIT,
    ;
    assert(-(t2.len() as int) * crate::RATING_LIMIT >= -(crate::TEAM_LIMIT as int)
        * crate::RATING_LIMIT) by (nonlinear_arith)
        requires
            t2.len() <= crate::TEAM_LIMIT,
    ;
}

} // verus!
