//! Active player selection.
//!
//! Pool members are bucketed by how many games they have played this
//! session.  Whole buckets are consumed in ascending play-count order while
//! they fit; the first bucket that does not fit is the boundary bucket, from
//! which the players closest to the average rating of those already chosen
//! (or to [`crate::DEFAULT_AVG`] when none are) fill the remaining places.
//! The result is returned sorted by descending rating.

use crate::weights::dist;
use crate::DEFAULT_AVG;
use crate::MissingRatingError;
use crate::PlayerInfo;
use crate::RATING_LIMIT;
use std::collections::HashMap;
use vstd::prelude::*;

verus! {

broadcast use vstd::std_specs::hash::group_hash_axioms;

/// How many games a pool member has played: the stored count, or zero for a
/// player the session has not seen.
pub open spec fn times_of(counts: Map<u16, u16>, id: u16) -> u16 {
    if counts.contains_key(id) {
        counts[id]
    } else {
        0
    }
}

/// The players of the pool who have played exactly `t` games, in pool
/// order, paired with their ratings.
pub open spec fn bucket_of(
    pool: Seq<u16>,
    ratings: Map<u16, i64>,
    counts: Map<u16, u16>,
    t: int,
) -> Seq<PlayerInfo>
    decreases pool.len(),
{
    if pool.len() == 0 {
        Seq::empty()
    } else {
        let rest = bucket_of(pool.drop_last(), ratings, counts, t);
        if times_of(counts, pool.last()) == t {
            rest.push(PlayerInfo { id: pool.last(), rating: ratings[pool.last()] })
        } else {
            rest
        }
    }
}

/// A keyed player: the sort key, and the player it belongs to.
pub type Keyed = (i64, PlayerInfo);

/// Stable insertion into a sorted run: `x` goes after every entry whose key
/// is at most its own.
pub open spec fn insert_stable(s: Seq<Keyed>, x: Keyed) -> Seq<Keyed>
    decreases s.len(),
{
    if s.len() == 0 {
        seq![x]
    } else if s.last().0 <= x.0 {
        s.push(x)
    } else {
        insert_stable(s.drop_last(), x).push(s.last())
    }
}

/// Stable sort by key, ascending: entries with equal keys keep their
/// original relative order.
pub open spec fn sort_stable(s: Seq<Keyed>) -> Seq<Keyed>
    decreases s.len(),
{
    if s.len() == 0 {
        Seq::empty()
    } else {
        insert_stable(sort_stable(s.drop_last()), s.last())
    }
}

/// Keys appear in ascending order.
pub open spec fn sorted_by_key(s: Seq<Keyed>) -> bool {
    forall|i: int, j: int| 0 <= i <= j < s.len() ==> (#[trigger] s[i]).0 <= (#[trigger] s[j]).0
}

/// The entries with key `v`, in order.
pub open spec fn key_filter(s: Seq<Keyed>, v: i64) -> Seq<Keyed>
    decreases s.len(),
{
    if s.len() == 0 {
        Seq::empty()
    } else if s.last().0 == v {
        key_filter(s.drop_last(), v).push(s.last())
    } else {
        key_filter(s.drop_last(), v)
    }
}

/// Stable insertion keeps the length, the contents, sortedness, and the
/// order of entries with any given key.
pub proof fn lemma_insert_stable_props(s: Seq<Keyed>, x: Keyed)
    ensures
        insert_stable(s, x).len() == s.len() + 1,
        insert_stable(s, x).to_multiset() == s.to_multiset().insert(x),
        sorted_by_key(s) ==> sorted_by_key(insert_stable(s, x)),
        forall|v: i64| #[trigger] key_filter(insert_stable(s, x), v) == if x.0 == v {
            key_filter(s, v).push(x)
        } else {
            key_filter(s, v)
        },
    decreases s.len(),
{
    broadcast use vstd::seq_lib::group_to_multiset_ensures;

    if s.len() == 0 {
        assert(seq![x].drop_last() =~= Seq::<Keyed>::empty());
        assert(seq![x].to_multiset() == Seq::<Keyed>::empty().to_multiset().insert(x));
        assert(Seq::<Keyed>::empty().push(x) =~= seq![x]);
        assert forall|v: i64| #[trigger] key_filter(insert_stable(s, x), v) == if x.0 == v {
            key_filter(s, v).push(x)
        } else {
            key_filter(s, v)
        } by {
            assert(key_filter(Seq::<Keyed>::empty(), v) == Seq::<Keyed>::empty());
            assert(seq![x].last() == x);
        }
    } else if s.last().0 <= x.0 {
        assert(s.push(x).drop_last() =~= s);
        assert forall|v: i64| #[trigger] key_filter(insert_stable(s, x), v) == if x.0 == v {
            key_filter(s, v).push(x)
        } else {
            key_filter(s, v)
        } by {
            assert(s.push(x).last() == x);
        }
    } else {
        let s1 = s.drop_last();
        let y = s.last();
        lemma_insert_stable_props(s1, x);
        let t = insert_stable(s1, x);
        assert(insert_stable(s, x) == t.push(y));
        assert(t.push(y).drop_last() =~= t);
        // contents
        assert(s =~= s1.push(y));
        assert(s1.push(y).to_multiset() == s1.to_multiset().insert(y));
        assert(t.push(y).to_multiset() == t.to_multiset().insert(y));
        assert(t.to_multiset() == s1.to_multiset().insert(x));
        assert(s1.to_multiset().insert(x).insert(y) =~= s1.to_multiset().insert(y).insert(x));
        // sortedness
        if sorted_by_key(s) {
            assert(sorted_by_key(s1));
            assert forall|i: int, j: int|
                0 <= i <= j < t.push(y).len() implies (#[trigger] t.push(y)[i]).0 <= (#[trigger] t.push(
                y,
            )[j]).0 by {
                if i < t.len() {
                    lemma_insert_stable_members(s1, x, i);
                }
                if j < t.len() {
                    lemma_insert_stable_members(s1, x, j);
                }
            }
        }
        // key order
        assert forall|v: i64| #[trigger] key_filter(insert_stable(s, x), v) == if x.0 == v {
            key_filter(s, v).push(x)
        } else {
            key_filter(s, v)
        } by {
            assert(t.push(y).last() == y);
            assert(key_filter(t, v) == if x.0 == v {
                key_filter(s1, v).push(x)
            } else {
                key_filter(s1, v)
            });
            if y.0 == v {
                // y's key is strictly greater than x's, so x is not filtered here
                assert(x.0 != v);
                assert(key_filter(insert_stable(s, x), v) == key_filter(t, v).push(y));
                assert(key_filter(s, v) == key_filter(s1, v).push(y));
            } else {
                assert(key_filter(insert_stable(s, x), v) == key_filter(t, v));
                assert(key_filter(s, v) == key_filter(s1, v));
            }
        }
    }
}

/// Every entry of a stable insertion is the inserted entry or one of the
/// run's own.
proof fn lemma_insert_stable_members(s: Seq<Keyed>, x: Keyed, i: int)
    requires
        0 <= i < insert_stable(s, x).len(),
    ensures
        insert_stable(s, x)[i] == x || s.contains(insert_stable(s, x)[i]),
    decreases s.len(),
{
    if s.len() == 0 {
    } else if s.last().0 <= x.0 {
    } else {
        let t = insert_stable(s.drop_last(), x);
        if i < t.len() {
            lemma_insert_stable_members(s.drop_last(), x, i);
        }
    }
}

/// Stable sorting keeps the length and the contents, sorts by key, and
/// keeps the order of entries with any given key.
pub proof fn lemma_sort_stable_props(s: Seq<Keyed>)
    ensures
        sort_stable(s).len() == s.len(),
        sort_stable(s).to_multiset() == s.to_multiset(),
        sorted_by_key(sort_stable(s)),
        forall|v: i64| #[trigger] key_filter(sort_stable(s), v) == key_filter(s, v),
    decreases s.len(),
{
    broadcast use vstd::seq_lib::group_to_multiset_ensures;

    if s.len() == 0 {
    } else {
        let s1 = s.drop_last();
        lemma_sort_stable_props(s1);
        lemma_insert_stable_props(sort_stable(s1), s.last());
        assert(s =~= s1.push(s.last()));
        assert(s1.push(s.last()).to_multiset() == s1.to_multiset().insert(s.last()));
        assert forall|v: i64| #[trigger] key_filter(sort_stable(s), v) == key_filter(s, v) by {
            assert(key_filter(sort_stable(s), v) == if s.last().0 == v {
                key_filter(sort_stable(s1), v).push(s.last())
            } else {
                key_filter(sort_stable(s1), v)
            });
        }
    }
}

/// Where a stable insertion lands when scanning keys from the right: before
/// position `j` every key is at most the new one, from `j` on strictly
/// greater, and the insertion splits the run exactly there.
proof fn lemma_insert_stable_at(s: Seq<Keyed>, x: Keyed, j: int)
    requires
        sorted_by_key(s),
        0 <= j <= s.len(),
        forall|k: int| j <= k < s.len() ==> (#[trigger] s[k]).0 > x.0,
        j > 0 ==> s[j - 1].0 <= x.0,
    ensures
        insert_stable(s, x) == s.take(j) + seq![x] + s.skip(j),
    decreases s.len(),
{
    if s.len() == 0 {
        assert(insert_stable(s, x) =~= s.take(0) + seq![x] + s.skip(0));
    } else if s.last().0 <= x.0 {
        assert(j == s.len());
        assert(insert_stable(s, x) =~= s.take(j) + seq![x] + s.skip(j));
    } else {
        assert(j < s.len());
        let s1 = s.drop_last();
        lemma_insert_stable_at(s1, x, j);
        assert(insert_stable(s, x) == insert_stable(s1, x).push(s.last()));
        assert(s1.take(j) =~= s.take(j));
        assert((s1.take(j) + seq![x] + s1.skip(j)).push(s.last()) =~= s.take(j) + seq![x] + s.skip(
            j,
        ));
    }
}

/// Stable sort of keyed players, ascending by key (insertion sort).
pub fn sort_pairs(v: &Vec<Keyed>) -> (r: Vec<Keyed>)
    ensures
        r@ == sort_stable(v@),
{
    let mut out: Vec<Keyed> = Vec::new();
    let mut i: usize = 0;
    while i < v.len()
        invariant
            i <= v@.len(),
            out@ == sort_stable(v@.take(i as int)),
        decreases v@.len() - i,
    {
        proof {
            lemma_sort_stable_props(v@.take(i as int));
        }
        let x = v[i];
        let mut j: usize = out.len();
        while j > 0 && out[j - 1].0 > x.0
            invariant
                j <= out@.len(),
                sorted_by_key(out@),
                forall|k: int| j <= k < out@.len() ==> (#[trigger] out@[k]).0 > x.0,
            decreases j,
        {
            j = j - 1;
        }
        proof {
            lemma_insert_stable_at(out@, x, j as int);
            assert(v@.take(i + 1).drop_last() =~= v@.take(i as int));
            assert(v@.take(i + 1).last() == v@[i as int]);
        }
        out.insert(j, x);
        proof {
            assert(out@ =~= sort_stable(v@.take(i as int)).take(j as int) + seq![x] + sort_stable(
                v@.take(i as int),
            ).skip(j as int));
        }
        i = i + 1;
    }
    proof {
        assert(v@.take(v@.len() as int) =~= v@);
    }
    out
}

/// Buckets the pool by games played: entry `t` of the result holds the
/// players who have played exactly `t` games, in pool order, each with the
/// rating the store gives.  Fails with the first pool member missing from
/// the rating store, if any.
pub fn setup_player_info(
    players: &Vec<u16>,
    ratings: &HashMap<u16, i64>,
    play_counts: &HashMap<u16, u16>,
    max_times_played: u16,
) -> (r: Result<Vec<Vec<PlayerInfo>>, MissingRatingError>)
    requires
        forall|i: int|
            0 <= i < players@.len() ==> times_of(play_counts@, #[trigger] players@[i])
                <= max_times_played,
    ensures
        match r {
            Ok(buckets) => {
                &&& buckets@.len() == max_times_played + 1
                &&& forall|t: int|
                    0 <= t < buckets@.len() ==> #[trigger] buckets@[t]@ == bucket_of(
                        players@,
                        ratings@,
                        play_counts@,
                        t,
                    )
                &&& forall|i: int|
                    0 <= i < players@.len() ==> ratings@.contains_key(#[trigger] players@[i])
            },
            Err(e) => exists|i: int|
                {
                    &&& 0 <= i < players@.len()
                    &&& !ratings@.contains_key(#[trigger] players@[i])
                    &&& e.id == players@[i]
                    &&& forall|j: int|
                        0 <= j < i ==> ratings@.contains_key(#[trigger] players@[j])
                },
        },
{
    let mut buckets: Vec<Vec<PlayerInfo>> = Vec::new();
    let mut t: usize = 0;
    let bucket_count = max_times_played as usize + 1;
    while t < bucket_count
        invariant
            bucket_count == max_times_played + 1,
            t <= bucket_count,
            buckets@.len() == t,
            forall|u: int| 0 <= u < t ==> #[trigger] buckets@[u]@ == Seq::<PlayerInfo>::empty(),
        decreases bucket_count - t,
    {
        buckets.push(Vec::new());
        t = t + 1;
    }

    let mut i: usize = 0;
    while i < players.len()
        invariant
            forall|k: int|
                0 <= k < players@.len() ==> times_of(play_counts@, #[trigger] players@[k])
                    <= max_times_played,
            buckets@.len() == max_times_played + 1,
            i <= players@.len(),
            forall|t: int|
                0 <= t < buckets@.len() ==> #[trigger] buckets@[t]@ == bucket_of(
                    players@.take(i as int),
                    ratings@,
                    play_counts@,
                    t,
                ),
            forall|j: int| 0 <= j < i ==> ratings@.contains_key(#[trigger] players@[j]),
        decreases players@.len() - i,
    {
        let id = players[i];
        let times = match play_counts.get(&id) {
            Some(t) => *t,
            None => 0,
        };
        let rating = match ratings.get(&id) {
            Some(r) => *r,
            None => {
                return Err(MissingRatingError { id });
            },
        };
        proof {
            assert(times == times_of(play_counts@, id));
            assert(players@.take(i + 1).drop_last() =~= players@.take(i as int));
            assert(players@.take(i + 1).last() == id);
        }
        let mut bucket = buckets.remove(times as usize);
        bucket.push(PlayerInfo { id, rating });
        buckets.insert(times as usize, bucket);
        proof {
            assert forall|t: int| 0 <= t < buckets@.len() implies #[trigger] buckets@[t]@
                == bucket_of(players@.take(i + 1), ratings@, play_counts@, t) by {
                assert(buckets@[t]@ == if t == times as int {
                    bucket_of(players@.take(i as int), ratings@, play_counts@, t).push(
                        PlayerInfo { id, rating },
                    )
                } else {
                    bucket_of(players@.take(i as int), ratings@, play_counts@, t)
                });
            }
        }
        i = i + 1;
    }
    proof {
        assert(players@.take(players@.len() as int) =~= players@);
    }
    Ok(buckets)
}

/// The concatenation of the first `b` buckets, in bucket order.
pub open spec fn taken(buckets: Seq<Seq<PlayerInfo>>, b: int) -> Seq<PlayerInfo>
    decreases b,
{
    if b <= 0 {
        Seq::empty()
    } else {
        taken(buckets, b - 1) + buckets[b - 1]
    }
}

/// The boundary bucket: walking up from bucket `b`, the first bucket at
/// which the need is already met or whose members no longer all fit.
pub open spec fn boundary(buckets: Seq<Seq<PlayerInfo>>, total: int, b: int) -> int
    decreases buckets.len() - b,
{
    if b >= buckets.len() {
        b
    } else if taken(buckets, b).len() >= total {
        b
    } else if taken(buckets, b).len() + buckets[b].len() <= total {
        boundary(buckets, total, b + 1)
    } else {
        b
    }
}

/// The average rating of the already-selected players, truncated toward
/// zero — or [`DEFAULT_AVG`] when none have been selected yet.
pub open spec fn spec_avg(whole: Seq<PlayerInfo>) -> int {
    if whole.len() == 0 {
        DEFAULT_AVG as int
    } else {
        crate::div_trunc(crate::rating_sum(whole), whole.len() as int)
    }
}

/// Bucket members keyed by their distance to the average.
pub open spec fn keyed_by_closeness(bucket: Seq<PlayerInfo>, avg: int) -> Seq<Keyed> {
    bucket.map_values(|p: PlayerInfo| (dist(p.rating as int, avg) as i64, p))
}

/// Players keyed for a descending rating sort.
pub open spec fn desc_keyed(s: Seq<PlayerInfo>) -> Seq<Keyed> {
    s.map_values(|p: PlayerInfo| ((-(p.rating as int)) as i64, p))
}

/// The players of a keyed sequence, keys dropped.
pub open spec fn strip(s: Seq<Keyed>) -> Seq<PlayerInfo> {
    s.map_values(|k: Keyed| k.1)
}

/// The views of a vector of buckets.
pub open spec fn views_of(buckets: Seq<Vec<PlayerInfo>>) -> Seq<Seq<PlayerInfo>> {
    buckets.map_values(|v: Vec<PlayerInfo>| v@)
}

/// Every bucket member's rating lies within the engine limit.
pub open spec fn buckets_ok(buckets: Seq<Seq<PlayerInfo>>) -> bool {
    forall|t: int| 0 <= t < buckets.len() ==> crate::ratings_ok(#[trigger] buckets[t])
}

/// What the selector picks, in selection order: whole buckets in ascending
/// play-count order, then the members of the boundary bucket closest to the
/// running average (ties in bucket order).
pub open spec fn spec_find_active(buckets: Seq<Seq<PlayerInfo>>, total: int) -> Seq<PlayerInfo> {
    let b = boundary(buckets, total, 0);
    let whole = taken(buckets, b);
    if b >= buckets.len() || whole.len() >= total {
        whole
    } else {
        let pairs = keyed_by_closeness(buckets[b], spec_avg(whole));
        whole + strip(sort_stable(pairs).take(total - whole.len()))
    }
}

/// Appending one player extends the rating sum.
pub proof fn lemma_rating_sum_push(s: Seq<PlayerInfo>, p: PlayerInfo)
    ensures
        crate::rating_sum(s.push(p)) == crate::rating_sum(s) + p.rating,
{
    assert(s.push(p).drop_last() =~= s);
    assert(s.push(p).last() == p);
}

/// The rating sum of bounded players is itself bounded.
pub proof fn lemma_rating_sum_bound(s: Seq<PlayerInfo>)
    requires
        crate::ratings_ok(s),
    ensures
        -(s.len() as int) * RATING_LIMIT <= crate::rating_sum(s) <= (s.len() as int)
            * RATING_LIMIT,
    decreases s.len(),
{
    if s.len() > 0 {
        assert(crate::ratings_ok(s.drop_last()));
        lemma_rating_sum_bound(s.drop_last());
        assert((s.len() - 1) as int * RATING_LIMIT + RATING_LIMIT == (s.len() as int)
            * RATING_LIMIT) by (nonlinear_arith);
    }
}

/// Selects `total_players` players from the buckets: whole buckets in
/// ascending play-count order while they fit, then the members of the first
/// bucket that does not fit that lie closest to the average rating of those
/// already taken (or to [`DEFAULT_AVG`] when none are), ties in bucket
/// order.  Exactly [`spec_find_active`]; the result is in selection order.
pub fn find_active_players(buckets: Vec<Vec<PlayerInfo>>, total_players: usize) -> (r: Vec<
    PlayerInfo,
>)
    requires
        taken(views_of(buckets@), buckets@.len() as int).len() >= total_players,
        total_players <= crate::POOL_LIMIT,
        buckets_ok(views_of(buckets@)),
    ensures
        r@ == spec_find_active(views_of(buckets@), total_players as int),
        r@.len() == total_players,
        crate::ratings_ok(r@),
{
    let ghost bs = views_of(buckets@);
    let total = total_players;
    let mut players: Vec<PlayerInfo> = Vec::new();
    let mut ti: usize = 0;
    let mut total_score: i64 = 0;

    while players.len() < total && buckets[ti].len() <= total - players.len()
        invariant
            bs == views_of(buckets@),
            taken(bs, bs.len() as int).len() >= total,
            total <= crate::POOL_LIMIT,
            buckets_ok(bs),
            ti <= bs.len(),
            players@ == taken(bs, ti as int),
            players@.len() <= total,
            crate::ratings_ok(players@),
            total_score == crate::rating_sum(players@),
            boundary(bs, total as int, 0) == boundary(bs, total as int, ti as int),
        decreases bs.len() - ti,
    {
        let ghost players0 = players@;
        let bucket = &buckets[ti];
        let b_len = bucket.len();
        let mut k: usize = 0;
        while k < b_len
            invariant
                bs == views_of(buckets@),
                ti < bs.len(),
                bucket@ == bs[ti as int],
                b_len == bucket@.len(),
                k <= b_len,
                players0 == taken(bs, ti as int),
                players0.len() + b_len <= total,
                total <= crate::POOL_LIMIT,
                buckets_ok(bs),
                players@ == players0 + bucket@.take(k as int),
                crate::ratings_ok(players@),
                total_score == crate::rating_sum(players@),
            decreases b_len - k,
        {
            let p = bucket[k];
            proof {
                assert(crate::rating_ok(p));
                lemma_rating_sum_bound(players@);
                lemma_rating_sum_push(players@, p);
                assert((players@.len() as int) * RATING_LIMIT <= crate::POOL_LIMIT
                    * RATING_LIMIT) by (nonlinear_arith)
                    requires
                        players@.len() <= crate::POOL_LIMIT,
                ;
                assert(-(players@.len() as int) * RATING_LIMIT >= -(crate::POOL_LIMIT as int)
                    * RATING_LIMIT) by (nonlinear_arith)
                    requires
                        players@.len() <= crate::POOL_LIMIT,
                ;
                assert(players0 + bucket@.take(k + 1) =~= (players0 + bucket@.take(
                    k as int,
                )).push(p));
            }
            total_score = total_score + p.rating;
            players.push(p);
            k = k + 1;
        }
        proof {
            assert(players@ =~= taken(bs, ti + 1)) by {
                assert(bucket@.take(b_len as int) =~= bucket@);
                assert(taken(bs, ti + 1) == taken(bs, ti as int) + bs[ti as int]);
            }
            assert(boundary(bs, total as int, ti as int) == boundary(bs, total as int, ti + 1));
            assert(buckets.len() == buckets@.len());
        }
        ti = ti + 1;
    }

    proof {
        assert(boundary(bs, total as int, ti as int) == ti as int);
        if ti >= bs.len() {
            assert(players@.len() == total);
        }
    }
    if players.len() == total {
        proof {
            assert(spec_find_active(bs, total as int) == players@);
        }
        return players;
    }

    // the boundary bucket: sort by closeness to the running average and take
    // what is still needed
    let remaining = total - players.len();
    let avg: i64 = if players.len() == 0 {
        DEFAULT_AVG
    } else {
        proof {
            lemma_rating_sum_bound(players@);
            assert((players@.len() as int) * RATING_LIMIT <= crate::POOL_LIMIT * RATING_LIMIT)
                by (nonlinear_arith)
                requires
                    players@.len() <= crate::POOL_LIMIT,
            ;
            assert(-(players@.len() as int) * RATING_LIMIT >= -(crate::POOL_LIMIT as int)
                * RATING_LIMIT) by (nonlinear_arith)
                requires
                    players@.len() <= crate::POOL_LIMIT,
            ;
        }
        crate::div_trunc_i64(total_score, players.len() as i64)
    };
    proof {
        assert(avg as int == spec_avg(players@));
        if players@.len() > 0 {
            crate::lemma_div_trunc_bound(crate::rating_sum(players@), players@.len() as int);
            lemma_rating_sum_bound(players@);
            assert((players@.len() as int) * RATING_LIMIT <= crate::POOL_LIMIT * RATING_LIMIT)
                by (nonlinear_arith)
                requires
                    players@.len() <= crate::POOL_LIMIT,
            ;
            assert(-(players@.len() as int) * RATING_LIMIT >= -(crate::POOL_LIMIT as int)
                * RATING_LIMIT) by (nonlinear_arith)
                requires
                    players@.len() <= crate::POOL_LIMIT,
            ;
        }
        assert(-0x400_0000 <= avg <= 0x400_0000);
    }

    let bucket = &buckets[ti];
    let mut pairs: Vec<Keyed> = Vec::new();
    let mut k: usize = 0;
    while k < bucket.len()
        invariant
            bs == views_of(buckets@),
            ti < bs.len(),
            bucket@ == bs[ti as int],
            buckets_ok(bs),
            -0x400_0000 <= avg <= 0x400_0000,
            k <= bucket@.len(),
            pairs@ == keyed_by_closeness(bucket@, avg as int).take(k as int),
        decreases bucket@.len() - k,
    {
        let p = bucket[k];
        proof {
            assert(crate::rating_ok(p));
            assert(keyed_by_closeness(bucket@, avg as int).take(k + 1) =~= keyed_by_closeness(
                bucket@,
                avg as int,
            ).take(k as int).push((dist(p.rating as int, avg as int) as i64, p)));
        }
        let d = crate::weights::abs_dist(p.rating, avg);
        pairs.push((d as i64, p));
        k = k + 1;
    }
    proof {
        assert(pairs@ =~= keyed_by_closeness(bs[ti as int], avg as int));
        lemma_sort_stable_props(pairs@);
    }
    let sorted = sort_pairs(&pairs);

    let ghost players1 = players@;
    let mut k: usize = 0;
    while k < remaining
        invariant
            bs == views_of(buckets@),
            ti < bs.len(),
            buckets_ok(bs),
            k <= remaining,
            sorted@ == sort_stable(keyed_by_closeness(bs[ti as int], spec_avg(players1))),
            remaining < sorted@.len(),
            players1 == taken(bs, ti as int),
            crate::ratings_ok(players1),
            players@ == players1 + strip(sorted@.take(k as int)),
            crate::ratings_ok(players@),
            players@.len() == players1.len() + k,
        decreases remaining - k,
    {
        let p = sorted[k].1;
        proof {
            let kb = keyed_by_closeness(bs[ti as int], spec_avg(players1));
            lemma_sort_stable_props(kb);
            assert forall|i: int| 0 <= i < kb.len() implies crate::rating_ok(
                (#[trigger] kb[i]).1,
            ) by {
                assert(kb[i].1 == bs[ti as int][i]);
                assert(crate::ratings_ok(bs[ti as int]));
            }
            assert(players1 + strip(sorted@.take(k + 1)) =~= players@.push(p));
            lemma_sorted_entry_ok(kb, k as int);
        }
        players.push(p);
        k = k + 1;
    }
    proof {
        assert(players@ == spec_find_active(bs, total as int));
    }
    players
}

/// An entry of the sorted boundary bucket is a keyed member of the bucket,
/// so its rating is bounded like the bucket's.
proof fn lemma_sorted_entry_ok(pairs: Seq<Keyed>, k: int)
    requires
        0 <= k < pairs.len(),
        forall|i: int| 0 <= i < pairs.len() ==> crate::rating_ok((#[trigger] pairs[i]).1),
    ensures
        crate::rating_ok(sort_stable(pairs)[k].1),
{
    broadcast use vstd::seq_lib::group_to_multiset_ensures;

    lemma_sort_stable_props(pairs);
    let x = sort_stable(pairs)[k];
    assert(sort_stable(pairs).contains(x));
    assert(sort_stable(pairs).to_multiset().count(x) > 0);
    assert(pairs.to_multiset().count(x) > 0);
    assert(pairs.contains(x));
}

/// A family of empty buckets holds nobody.
proof fn lemma_taken_empty(fam: Seq<Seq<PlayerInfo>>, b: int)
    requires
        forall|t: int| 0 <= t < b ==> (#[trigger] fam[t]).len() == 0,
    ensures
        taken(fam, b).len() == 0,
    decreases b,
{
    if b > 0 {
        lemma_taken_empty(fam, b - 1);
    }
}

/// Growing one bucket by one player grows the total of the first `b`
/// buckets by one exactly when that bucket lies among them.
proof fn lemma_taken_step(fam: Seq<Seq<PlayerInfo>>, fam1: Seq<Seq<PlayerInfo>>, b: int, t0: int)
    requires
        0 <= t0,
        forall|t: int| 0 <= t < b && t != t0 ==> #[trigger] fam[t] == fam1[t],
        t0 < b ==> fam[t0].len() == fam1[t0].len() + 1,
    ensures
        taken(fam, b).len() == taken(fam1, b).len() + if t0 < b {
            1int
        } else {
            0int
        },
    decreases b,
{
    if b > 0 {
        lemma_taken_step(fam, fam1, b - 1, t0);
    }
}

/// The family of all buckets of the pool, by games played.
pub open spec fn bucket_family(
    pool: Seq<u16>,
    ratings: Map<u16, i64>,
    counts: Map<u16, u16>,
    maxt: u16,
) -> Seq<Seq<PlayerInfo>> {
    Seq::new((maxt + 1) as nat, |t: int| bucket_of(pool, ratings, counts, t))
}

/// The buckets partition the pool: their sizes add up to the pool's.
pub proof fn lemma_bucket_partition(
    pool: Seq<u16>,
    ratings: Map<u16, i64>,
    counts: Map<u16, u16>,
    maxt: u16,
)
    requires
        forall|i: int| 0 <= i < pool.len() ==> times_of(counts, #[trigger] pool[i]) <= maxt,
    ensures
        taken(bucket_family(pool, ratings, counts, maxt), maxt + 1).len() == pool.len(),
    decreases pool.len(),
{
    let fam = bucket_family(pool, ratings, counts, maxt);
    if pool.len() == 0 {
        assert forall|t: int| 0 <= t < maxt + 1 implies (#[trigger] fam[t]).len() == 0 by {}
        lemma_taken_empty(fam, maxt + 1);
    } else {
        let pool1 = pool.drop_last();
        assert forall|i: int| 0 <= i < pool1.len() implies times_of(
            counts,
            #[trigger] pool1[i],
        ) <= maxt by {
            assert(pool1[i] == pool[i]);
        }
        lemma_bucket_partition(pool1, ratings, counts, maxt);
        let fam1 = bucket_family(pool1, ratings, counts, maxt);
        let t0 = times_of(counts, pool.last()) as int;
        assert(times_of(counts, pool[pool.len() - 1]) <= maxt);
        assert forall|t: int| 0 <= t < maxt + 1 && t != t0 implies #[trigger] fam[t]
            == fam1[t] by {}
        assert(fam[t0].len() == fam1[t0].len() + 1);
        lemma_taken_step(fam, fam1, maxt + 1, t0);
    }
}

/// Every bucket member comes from the pool, carries the store's rating for
/// its id, and has played exactly `t` games.
pub proof fn lemma_bucket_members(
    pool: Seq<u16>,
    ratings: Map<u16, i64>,
    counts: Map<u16, u16>,
    t: int,
)
    ensures
        forall|k: int|
            0 <= k < bucket_of(pool, ratings, counts, t).len() ==> {
                let p = #[trigger] bucket_of(pool, ratings, counts, t)[k];
                &&& pool.contains(p.id)
                &&& p.rating == ratings[p.id]
                &&& times_of(counts, p.id) == t
            },
    decreases pool.len(),
{
    if pool.len() > 0 {
        let pool1 = pool.drop_last();
        lemma_bucket_members(pool1, ratings, counts, t);
        assert(pool.contains(pool.last())) by {
            assert(pool[pool.len() - 1] == pool.last());
        }
        assert forall|x: u16| pool1.contains(x) implies pool.contains(x) by {
            let i = choose|i: int| 0 <= i < pool1.len() && pool1[i] == x;
            assert(pool[i] == x);
        }
        let b = bucket_of(pool, ratings, counts, t);
        let b1 = bucket_of(pool1, ratings, counts, t);
        assert forall|k: int|
            0 <= k < b.len() implies {
                let p = #[trigger] b[k];
                &&& pool.contains(p.id)
                &&& p.rating == ratings[p.id]
                &&& times_of(counts, p.id) == t
            } by {
            if times_of(counts, pool.last()) == t {
                let newp = PlayerInfo { id: pool.last(), rating: ratings[pool.last()] };
                assert(b == b1.push(newp));
                if k < b1.len() {
                    assert(b[k] == b1[k]);
                } else {
                    assert(b[k] == newp);
                }
            } else {
                assert(b == b1);
            }
        }
    }
}

/// The selector's full result: the chosen players sorted by descending
/// rating, ties in selection order.
pub open spec fn spec_select_active(
    pool: Seq<u16>,
    ratings: Map<u16, i64>,
    counts: Map<u16, u16>,
    maxt: u16,
    total: int,
) -> Seq<PlayerInfo> {
    strip(
        sort_stable(
            desc_keyed(spec_find_active(bucket_family(pool, ratings, counts, maxt), total)),
        ),
    )
}

/// Selects exactly `total_needed` active players for the next round:
/// players who have played the fewest games first, closeness to the running
/// average rating as the tiebreak within the boundary bucket, and the
/// result sorted by descending rating.  Fails with the first pool member
/// missing from the rating store, if any.
pub fn select_active(
    pool: &Vec<u16>,
    ratings: &HashMap<u16, i64>,
    play_counts: &HashMap<u16, u16>,
    max_times_played: u16,
    total_needed: usize,
) -> (r: Result<Vec<PlayerInfo>, MissingRatingError>)
    requires
        total_needed <= pool@.len(),
        pool@.len() <= crate::POOL_LIMIT,
        forall|i: int|
            0 <= i < pool@.len() ==> times_of(play_counts@, #[trigger] pool@[i])
                <= max_times_played,
        forall|i: int|
            0 <= i < pool@.len() ==> (ratings@.contains_key(#[trigger] pool@[i])
                ==> -RATING_LIMIT <= ratings@[pool@[i]] <= RATING_LIMIT),
    ensures
        match r {
            Ok(active) => {
                &&& active@ == spec_select_active(
                    pool@,
                    ratings@,
                    play_counts@,
                    max_times_played,
                    total_needed as int,
                )
                &&& active@.len() == total_needed
                &&& crate::ratings_ok(active@)
            },
            Err(e) => exists|i: int|
                {
                    &&& 0 <= i < pool@.len()
                    &&& !ratings@.contains_key(#[trigger] pool@[i])
                    &&& e.id == pool@[i]
                    &&& forall|j: int|
                        0 <= j < i ==> ratings@.contains_key(#[trigger] pool@[j])
                },
        },
{
    let buckets = match setup_player_info(pool, ratings, play_counts, max_times_played) {
        Ok(b) => b,
        Err(e) => {
            return Err(e);
        },
    };
    let ghost fam = bucket_family(pool@, ratings@, play_counts@, max_times_played);
    proof {
        assert(views_of(buckets@) =~= fam);
        lemma_bucket_partition(pool@, ratings@, play_counts@, max_times_played);
        assert forall|t: int| 0 <= t < fam.len() implies crate::ratings_ok(#[trigger] fam[t]) by {
            lemma_bucket_members(pool@, ratings@, play_counts@, t);
            assert forall|k: int| 0 <= k < fam[t].len() implies crate::rating_ok(
                #[trigger] fam[t][k],
            ) by {
                let p = fam[t][k];
                let i = choose|i: int| 0 <= i < pool@.len() && pool@[i] == p.id;
                assert(ratings@.contains_key(pool@[i]));
            }
        }
    }
    let active = find_active_players(buckets, total_needed);

    // final order: descending rating, ties in selection order
    let mut pairs: Vec<Keyed> = Vec::new();
    let mut k: usize = 0;
    while k < active.len()
        invariant
            k <= active@.len(),
            crate::ratings_ok(active@),
            pairs@ == desc_keyed(active@).take(k as int),
        decreases active@.len() - k,
    {
        let p = active[k];
        proof {
            assert(crate::rating_ok(p));
            assert(desc_keyed(active@).take(k + 1) =~= desc_keyed(active@).take(k as int).push(
                ((-(p.rating as int)) as i64, p),
            ));
        }
        pairs.push((-p.rating, p));
        k = k + 1;
    }
    proof {
        assert(pairs@ =~= desc_keyed(active@));
        lemma_sort_stable_props(pairs@);
    }
    let sorted = sort_pairs(&pairs);

    let mut out: Vec<PlayerInfo> = Vec::new();
    let mut k: usize = 0;
    while k < sorted.len()
        invariant
            k <= sorted@.len(),
            sorted@ == sort_stable(desc_keyed(active@)),
            sorted@.len() == active@.len(),
            crate::ratings_ok(active@),
            out@ == strip(sorted@.take(k as int)),
            crate::ratings_ok(out@),
        decreases sorted@.len() - k,
    {
        let p = sorted[k].1;
        proof {
            let dk = desc_keyed(active@);
            lemma_sort_stable_props(dk);
            assert forall|i: int| 0 <= i < dk.len() implies crate::rating_ok(
                (#[trigger] dk[i]).1,
            ) by {
                assert(dk[i].1 == active@[i]);
            }
            lemma_sorted_entry_ok(dk, k as int);
            assert(strip(sorted@.take(k + 1)) =~= strip(sorted@.take(k as int)).push(p));
        }
        out.push(p);
        k = k + 1;
    }
    proof {
        assert(sorted@.take(sorted@.len() as int) =~= sorted@);
        assert(out@ == spec_select_active(
            pool@,
            ratings@,
            play_counts@,
            max_times_played,
            total_needed as int,
        ));
    }
    Ok(out)
}

/// The filtered entries of a prefix are a prefix of the filtered entries.
proof fn lemma_key_filter_take(s: Seq<Keyed>, n: int, v: i64)
    requires
        0 <= n <= s.len(),
    ensures
        key_filter(s.take(n), v).is_prefix_of(key_filter(s, v)),
    decreases s.len() - n,
{
    if n == s.len() {
        assert(s.take(n) =~= s);
        assert(key_filter(s, v) =~= key_filter(s, v).subrange(0, key_filter(s, v).len() as int));
    } else {
        lemma_key_filter_take(s, n + 1, v);
        let a = key_filter(s.take(n), v);
        let b = key_filter(s.take(n + 1), v);
        let c = key_filter(s, v);
        assert(s.take(n + 1).drop_last() =~= s.take(n));
        assert(s.take(n + 1).last() == s[n]);
        assert(b == if s[n].0 == v {
            a.push(s[n])
        } else {
            a
        });
        assert(a.is_prefix_of(b)) by {
            if s[n].0 == v {
                assert(a =~= a.push(s[n]).subrange(0, a.len() as int));
            } else {
                assert(a =~= a.subrange(0, a.len() as int));
            }
        }
        assert(a =~= c.subrange(0, a.len() as int)) by {
            assert(a =~= b.subrange(0, a.len() as int));
            assert(b =~= c.subrange(0, b.len() as int));
        }
    }
}

/// LAW (boundary tiebreak): a selected prefix of the boundary bucket\'s
/// stable sort holds exactly the entries with the smallest keys — no
/// selected key exceeds a rejected one — and, for each key value, the
/// selected entries with that key are the first of the bucket\'s entries
/// with that key, in bucket order.
pub proof fn lemma_boundary_tiebreak(pairs: Seq<Keyed>, rem: int)
    requires
        0 <= rem <= pairs.len(),
    ensures
        forall|i: int, j: int|
            0 <= i < rem <= j < pairs.len() ==> (#[trigger] sort_stable(pairs)[i]).0
                <= (#[trigger] sort_stable(pairs)[j]).0,
        forall|v: i64|
            (#[trigger] key_filter(sort_stable(pairs).take(rem), v)).is_prefix_of(
                key_filter(pairs, v),
            ),
{
    lemma_sort_stable_props(pairs);
    assert forall|v: i64|
        (#[trigger] key_filter(sort_stable(pairs).take(rem), v)).is_prefix_of(
            key_filter(pairs, v),
        ) by {
        lemma_key_filter_take(sort_stable(pairs), rem, v);
    }
}

/// Members of any earlier bucket appear among the taken players.
proof fn lemma_taken_contains(fam: Seq<Seq<PlayerInfo>>, b: int, t: int, e: PlayerInfo)
    requires
        0 <= t < b,
        fam[t].contains(e),
    ensures
        taken(fam, b).contains(e),
    decreases b,
{
    if t == b - 1 {
        let idx = choose|k: int| 0 <= k < fam[t].len() && #[trigger] fam[t][k] == e;
        assert(taken(fam, b)[taken(fam, b - 1).len() + idx] == e);
    } else {
        lemma_taken_contains(fam, b - 1, t, e);
        let idx = choose|k: int|
            0 <= k < taken(fam, b - 1).len() && #[trigger] taken(fam, b - 1)[k] == e;
        assert(taken(fam, b)[idx] == e);
    }
}

/// Every taken player comes from one of the earlier buckets.
proof fn lemma_taken_members(fam: Seq<Seq<PlayerInfo>>, b: int, e: PlayerInfo)
    requires
        taken(fam, b).contains(e),
    ensures
        exists|t: int| 0 <= t < b && (#[trigger] fam[t]).contains(e),
    decreases b,
{
    if b <= 0 {
        assert(false);
    } else {
        let idx = choose|k: int| 0 <= k < taken(fam, b).len() && taken(fam, b)[k] == e;
        if idx < taken(fam, b - 1).len() {
            assert(taken(fam, b - 1)[idx] == e);
            assert(taken(fam, b - 1).contains(e));
            lemma_taken_members(fam, b - 1, e);
            let t = choose|t: int| 0 <= t < b - 1 && (#[trigger] fam[t]).contains(e);
            assert(0 <= t < b && fam[t].contains(e));
        } else {
            assert(fam[b - 1][idx - taken(fam, b - 1).len()] == e);
            assert(fam[b - 1].contains(e));
        }
    }
}

/// A pool member stands in the bucket of his play count.
proof fn lemma_bucket_complete(pool: Seq<u16>, ratings: Map<u16, i64>, counts: Map<u16, u16>, i: int)
    requires
        0 <= i < pool.len(),
    ensures
        bucket_of(pool, ratings, counts, times_of(counts, pool[i]) as int).contains(
            PlayerInfo { id: pool[i], rating: ratings[pool[i]] },
        ),
    decreases pool.len(),
{
    let t = times_of(counts, pool[i]) as int;
    let e = PlayerInfo { id: pool[i], rating: ratings[pool[i]] };
    let b = bucket_of(pool, ratings, counts, t);
    if i == pool.len() - 1 {
        assert(b[b.len() - 1] == e);
    } else {
        lemma_bucket_complete(pool.drop_last(), ratings, counts, i);
        assert(pool.drop_last()[i] == pool[i]);
        let b1 = bucket_of(pool.drop_last(), ratings, counts, t);
        let k = choose|k: int| 0 <= k < b1.len() && b1[k] == e;
        assert(b[k] == e);
    }
}

/// The boundary lies between the start and the bucket count, and stops
/// either past the last bucket, or with the need met, or at a bucket that
/// does not fit whole.
proof fn lemma_boundary_range(fam: Seq<Seq<PlayerInfo>>, total: int, b: int)
    requires
        0 <= b <= fam.len(),
    ensures
        b <= boundary(fam, total, b) <= fam.len(),
        ({
            let r = boundary(fam, total, b);
            ||| r == fam.len()
            ||| taken(fam, r).len() >= total
            ||| taken(fam, r).len() + fam[r].len() > total
        }),
    decreases fam.len() - b,
{
    if b < fam.len() && taken(fam, b).len() < total && taken(fam, b).len() + fam[b].len()
        <= total {
        lemma_boundary_range(fam, total, b + 1);
    }
}

/// Every selected member of the sorted boundary prefix is a bucket member.
proof fn lemma_sorted_prefix_members(bucket: Seq<PlayerInfo>, avg: int, n: int, e: PlayerInfo)
    requires
        0 <= n <= bucket.len(),
        strip(sort_stable(keyed_by_closeness(bucket, avg)).take(n)).contains(e),
    ensures
        bucket.contains(e),
{
    broadcast use vstd::seq_lib::group_to_multiset_ensures;

    let kb = keyed_by_closeness(bucket, avg);
    lemma_sort_stable_props(kb);
    let part = sort_stable(kb).take(n);
    let k = choose|k: int| 0 <= k < strip(part).len() && strip(part)[k] == e;
    assert(part[k].1 == e);
    assert(sort_stable(kb)[k] == part[k]);
    assert(sort_stable(kb).contains(part[k]));
    assert(kb.to_multiset().count(part[k]) > 0);
    assert(kb.contains(part[k]));
    let i = choose|i: int| 0 <= i < kb.len() && kb[i] == part[k];
    assert(bucket[i] == e);
}

/// The final descending sort neither adds nor loses players.
proof fn lemma_desc_sort_ids(s: Seq<PlayerInfo>, x: u16)
    ensures
        crate::ids_of(strip(sort_stable(desc_keyed(s)))).contains(x) <==> crate::ids_of(
            s,
        ).contains(x),
{
    broadcast use vstd::seq_lib::group_to_multiset_ensures;

    let dk = desc_keyed(s);
    lemma_sort_stable_props(dk);
    let out = strip(sort_stable(dk));
    if crate::ids_of(out).contains(x) {
        let k = choose|k: int| 0 <= k < crate::ids_of(out).len() && crate::ids_of(out)[k] == x;
        assert(sort_stable(dk).contains(sort_stable(dk)[k]));
        assert(dk.to_multiset().count(sort_stable(dk)[k]) > 0);
        assert(dk.contains(sort_stable(dk)[k]));
        let i = choose|i: int| 0 <= i < dk.len() && dk[i] == sort_stable(dk)[k];
        assert(crate::ids_of(s)[i] == x);
        assert(crate::ids_of(s).contains(x));
    }
    if crate::ids_of(s).contains(x) {
        let i = choose|i: int| 0 <= i < crate::ids_of(s).len() && crate::ids_of(s)[i] == x;
        assert(dk[i].1 == s[i]);
        assert(dk.contains(dk[i]));
        assert(sort_stable(dk).to_multiset().count(dk[i]) > 0);
        assert(sort_stable(dk).contains(dk[i]));
        let k = choose|k: int| 0 <= k < sort_stable(dk).len() && sort_stable(dk)[k] == dk[i];
        assert(crate::ids_of(out)[k] == x);
        assert(crate::ids_of(out).contains(x));
    }
}

/// LAW (fewest-games priority): whenever a player is selected, every pool
/// member who has played strictly fewer games is selected too.  The
/// closeness tiebreak only ever decides among members of the boundary
/// bucket, who have all played equally often.
pub proof fn lemma_fewest_games_priority(
    pool: Seq<u16>,
    ratings: Map<u16, i64>,
    counts: Map<u16, u16>,
    maxt: u16,
    total: int,
    p: u16,
    q: u16,
)
    requires
        forall|i: int| 0 <= i < pool.len() ==> times_of(counts, #[trigger] pool[i]) <= maxt,
        pool.contains(p),
        pool.contains(q),
        times_of(counts, p) < times_of(counts, q),
        crate::ids_of(spec_select_active(pool, ratings, counts, maxt, total)).contains(q),
    ensures
        crate::ids_of(spec_select_active(pool, ratings, counts, maxt, total)).contains(p),
{
    let fam = bucket_family(pool, ratings, counts, maxt);
    let fa = spec_find_active(fam, total);
    let b = boundary(fam, total, 0);
    lemma_boundary_range(fam, total, 0);
    lemma_desc_sort_ids(fa, q);
    lemma_desc_sort_ids(fa, p);
    let whole = taken(fam, b);

    // locate q: he was taken whole, or chosen from the boundary bucket
    let kq = choose|k: int| 0 <= k < crate::ids_of(fa).len() && crate::ids_of(fa)[k] == q;
    let eq = fa[kq];
    assert(eq.id == q);
    let tq_b: int;
    if b >= fam.len() || whole.len() >= total {
        assert(fa == whole);
        assert(whole.contains(eq)) by {
            assert(whole[kq] == eq);
        }
        lemma_taken_members(fam, b, eq);
        let t = choose|t: int| 0 <= t < b && (#[trigger] fam[t]).contains(eq);
        lemma_bucket_members(pool, ratings, counts, t);
        let kb = choose|k: int| 0 <= k < fam[t].len() && fam[t][k] == eq;
        assert(times_of(counts, eq.id) == t);
        tq_b = t;
        assert(tq_b < b);
    } else {
        if kq < whole.len() {
            assert(whole.contains(eq)) by {
                assert(whole[kq] == eq);
            }
            lemma_taken_members(fam, b, eq);
            let t = choose|t: int| 0 <= t < b && (#[trigger] fam[t]).contains(eq);
            lemma_bucket_members(pool, ratings, counts, t);
            let kb = choose|k: int| 0 <= k < fam[t].len() && fam[t][k] == eq;
            assert(times_of(counts, eq.id) == t);
            tq_b = t;
            assert(tq_b < b);
        } else {
            let part = strip(
                sort_stable(keyed_by_closeness(fam[b], spec_avg(whole))).take(
                    total - whole.len(),
                ),
            );
            assert(fa[kq] == part[kq - whole.len()]);
            assert(part.contains(eq)) by {
                assert(part[kq - whole.len()] == eq);
            }
            lemma_sorted_prefix_members(fam[b], spec_avg(whole), total - whole.len(), eq);
            lemma_bucket_members(pool, ratings, counts, b);
            let kb = choose|k: int| 0 <= k < fam[b].len() && fam[b][k] == eq;
            assert(times_of(counts, eq.id) == b);
            tq_b = b;
        }
    }
    assert(tq_b <= b);
    assert(times_of(counts, q) == tq_b);

    // p has played strictly fewer games, so his whole bucket was taken
    let tp = times_of(counts, p) as int;
    assert(tp < tq_b <= b);
    let ip = choose|i: int| 0 <= i < pool.len() && pool[i] == p;
    lemma_bucket_complete(pool, ratings, counts, ip);
    let ep = PlayerInfo { id: p, rating: ratings[p] };
    assert(fam[tp] == bucket_of(pool, ratings, counts, tp)) by {
        assert(tp <= maxt);
    }
    assert(fam[tp].contains(ep));
    lemma_taken_contains(fam, b, tp, ep);
    let kp = choose|k: int| 0 <= k < whole.len() && whole[k] == ep;
    if b >= fam.len() || whole.len() >= total {
        assert(fa[kp] == ep);
    } else {
        assert(fa[kp] == ep);
    }
    assert(crate::ids_of(fa)[kp] == p);
    assert(crate::ids_of(fa).contains(p));
}

} // verus!\n