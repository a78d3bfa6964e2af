use matchmaker::active::find_active_players;
use matchmaker::active::select_active;
use matchmaker::active::setup_player_info;
use matchmaker::MissingRatingError;
use matchmaker::PlayerInfo;
use std::collections::HashMap;

fn p(id: u16, rating: i64) -> PlayerInfo {
    PlayerInfo { id, rating }
}

#[test]
fn test_find_active_players() {
    let player_infos: Vec<Vec<PlayerInfo>> = vec![
        vec![p(1, 2000), p(2, 2100), p(3, 1900)],
        vec![p(4, 1000), p(5, 2100), p(6, 2600)],
    ];

    let active_players = find_active_players(player_infos, 4);
    assert_eq!(
        active_players,
        vec![p(1, 2000), p(2, 2100), p(3, 1900), p(5, 2100)]
    );
}

#[test]
fn test_find_active_players_no_games() {
    let player_infos: Vec<Vec<PlayerInfo>> = vec![vec![
        p(1, 2000),
        p(2, 2150),
        p(3, 1900),
        p(4, 1000),
        p(5, 2100),
        p(6, 2600),
    ]];

    let active_players = find_active_players(player_infos, 4);
    assert_eq!(
        active_players,
        vec![p(6, 2600), p(2, 2150), p(5, 2100), p(1, 2000)]
    );
}

#[test]
fn test_setup_player_info() {
    let players: Vec<u16> = vec![0, 1, 2, 3, 4, 5];
    let mut ranks: HashMap<u16, i64> = HashMap::new();
    for id in 0..6u16 {
        ranks.insert(id, 2000);
    }

    let mut session_players: HashMap<u16, u16> = HashMap::new();
    session_players.insert(0, 0);
    session_players.insert(1, 0);
    session_players.insert(2, 0);
    session_players.insert(3, 0);
    session_players.insert(4, 0);
    session_players.insert(5, 1);

    let player_infos = setup_player_info(&players, &ranks, &session_players, 1).unwrap();
    let expected: Vec<Vec<PlayerInfo>> = vec![
        vec![p(0, 2000), p(1, 2000), p(2, 2000), p(3, 2000), p(4, 2000)],
        vec![p(5, 2000)],
    ];
    assert_eq!(player_infos, expected);
}

#[test]
fn select_active_whole_bucket_then_boundary() {
    // pool A:2000 B:2100 C:1900 D:1000 E:2100 F:2600, bucket 0 = {A, B, C},
    // bucket 1 = {D, E, F}; need 4: whole bucket 0 fits, avg is 2000, and E
    // (2100) is the closest of bucket 1; returned rating-descending with the
    // 2100 tie kept in selection order
    let pool: Vec<u16> = vec![1, 2, 3, 4, 5, 6];
    let mut ratings: HashMap<u16, i64> = HashMap::new();
    ratings.insert(1, 2000);
    ratings.insert(2, 2100);
    ratings.insert(3, 1900);
    ratings.insert(4, 1000);
    ratings.insert(5, 2100);
    ratings.insert(6, 2600);
    let mut counts: HashMap<u16, u16> = HashMap::new();
    counts.insert(1, 0);
    counts.insert(2, 0);
    counts.insert(3, 0);
    counts.insert(4, 1);
    counts.insert(5, 1);
    counts.insert(6, 1);

    let active = select_active(&pool, &ratings, &counts, 1, 4).unwrap();
    assert_eq!(
        active,
        vec![p(2, 2100), p(5, 2100), p(1, 2000), p(3, 1900)]
    );
}

#[test]
fn select_active_no_games_picks_top_rated() {
    // with no games played everyone sits in bucket 0, the default average
    // anchor is 10000, so the four highest-rated players are selected
    let pool: Vec<u16> = vec![1, 2, 3, 4, 5, 6];
    let mut ratings: HashMap<u16, i64> = HashMap::new();
    ratings.insert(1, 2000);
    ratings.insert(2, 2150);
    ratings.insert(3, 1900);
    ratings.insert(4, 1000);
    ratings.insert(5, 2100);
    ratings.insert(6, 2600);
    let counts: HashMap<u16, u16> = HashMap::new();

    let active = select_active(&pool, &ratings, &counts, 0, 4).unwrap();
    assert_eq!(
        active,
        vec![p(6, 2600), p(2, 2150), p(5, 2100), p(1, 2000)]
    );
}

#[test]
fn select_active_missing_rating_fails_with_first_missing() {
    let pool: Vec<u16> = vec![7, 8, 9];
    let mut ratings: HashMap<u16, i64> = HashMap::new();
    ratings.insert(7, 1200);
    let counts: HashMap<u16, u16> = HashMap::new();

    let err = select_active(&pool, &ratings, &counts, 0, 2).unwrap_err();
    assert_eq!(err, MissingRatingError { id: 8 });
}

#[test]
fn select_active_empty_pool_needs_nothing() {
    let pool: Vec<u16> = vec![];
    let ratings: HashMap<u16, i64> = HashMap::new();
    let counts: HashMap<u16, u16> = HashMap::new();

    let active = select_active(&pool, &ratings, &counts, 0, 0).unwrap();
    assert_eq!(active, vec![]);
}

#[test]
fn select_active_single_place_goes_to_closest_to_anchor() {
    let pool: Vec<u16> = vec![1, 2];
    let mut ratings: HashMap<u16, i64> = HashMap::new();
    ratings.insert(1, 1500);
    ratings.insert(2, 1800);
    let counts: HashMap<u16, u16> = HashMap::new();

    // both unplayed: distance to the 10000 anchor decides, so the higher
    // rating wins the single place
    let active = select_active(&pool, &ratings, &counts, 0, 1).unwrap();
    assert_eq!(active, vec![p(2, 1800)]);
}
