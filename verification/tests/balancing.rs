use matchmaker::matchmaking::generate_matches;
use matchmaker::rng::RandomSource;
use matchmaker::GameInfo;
use matchmaker::Match;
use matchmaker::PlayerInfo;
use std::collections::HashSet;

fn p(id: u16, rating: i64) -> PlayerInfo {
    PlayerInfo { id, rating }
}

#[test]
fn fixed_draws_build_the_documented_match() {
    // active, rating-descending: A:2600 B:2100 C:2000 D:1900
    let active = vec![p(1, 2600), p(2, 2100), p(3, 2000), p(4, 1900)];
    let shape = GameInfo { games: 1, players_per_team: 2, stability: 1 };
    let mut rng = RandomSource::fixed(vec![0, 0, 0]);

    // draw 0 always lands on the first cumulative region: A anchors team
    // one, B (closest to A) joins team two; the pairing step first picks C
    // (closest to the average 2350), then D; C outrates D like team one
    // outrates team two, so D joins team one and C team two
    let matches = generate_matches(active, shape, &mut rng);
    assert_eq!(
        matches,
        vec![Match { id: 0, team1: vec![1, 4], team2: vec![2, 3] }]
    );
    // three draws were consumed from the cycle of three: back at the start
    assert_eq!(rng.cursor, 0);
}

#[test]
fn fixed_source_is_reproducible() {
    let active = vec![
        p(1, 2600),
        p(2, 2100),
        p(3, 2000),
        p(4, 1900),
        p(5, 1500),
        p(6, 1400),
        p(7, 1200),
        p(8, 900),
    ];
    let shape = GameInfo { games: 2, players_per_team: 2, stability: 2 };
    let draws: Vec<u128> = vec![17, 4242, 99999, 3, 777, 123456];

    let mut rng1 = RandomSource::fixed(draws.clone());
    let first = generate_matches(active.clone(), shape, &mut rng1);
    let mut rng2 = RandomSource::fixed(draws);
    let second = generate_matches(active, shape, &mut rng2);
    assert_eq!(first, second);
}

#[test]
fn matches_are_disjoint_and_full() {
    let active = vec![
        p(10, 2600),
        p(11, 2100),
        p(12, 2000),
        p(13, 1900),
        p(14, 1500),
        p(15, 1400),
        p(16, 1200),
        p(17, 900),
    ];
    let shape = GameInfo { games: 2, players_per_team: 2, stability: 2 };
    let mut rng = RandomSource::entropy();

    let matches = generate_matches(active.clone(), shape, &mut rng);
    assert_eq!(matches.len(), 2);
    let mut seen: HashSet<u16> = HashSet::new();
    for (g, m) in matches.iter().enumerate() {
        assert_eq!(m.id as usize, g);
        assert_eq!(m.team1.len(), 2);
        assert_eq!(m.team2.len(), 2);
        for id in m.team1.iter().chain(m.team2.iter()) {
            assert!(seen.insert(*id), "player {} placed twice", id);
            assert!(active.iter().any(|a| a.id == *id));
        }
    }
    assert_eq!(seen.len(), 8);
}

#[test]
fn num_games_is_clamped_by_the_pool() {
    // six players allow one full match of four; the second configured game
    // cannot be filled
    let active = vec![
        p(1, 2600),
        p(2, 2100),
        p(3, 2000),
        p(4, 1900),
        p(5, 1500),
        p(6, 1400),
    ];
    let shape = GameInfo { games: 2, players_per_team: 2, stability: 1 };
    let mut rng = RandomSource::entropy();

    let matches = generate_matches(active, shape, &mut rng);
    assert_eq!(matches.len(), 1);
    assert_eq!(matches[0].team1.len(), 2);
    assert_eq!(matches[0].team2.len(), 2);
}

#[test]
fn empty_shapes_build_no_matches() {
    let active = vec![p(1, 2600), p(2, 2100)];
    let mut rng = RandomSource::entropy();

    let none_per_team = GameInfo { games: 3, players_per_team: 0, stability: 1 };
    assert_eq!(generate_matches(active.clone(), none_per_team, &mut rng), vec![]);

    let no_games = GameInfo { games: 0, players_per_team: 1, stability: 1 };
    assert_eq!(generate_matches(active.clone(), no_games, &mut rng), vec![]);

    let too_few_players = GameInfo { games: 1, players_per_team: 2, stability: 1 };
    assert_eq!(generate_matches(active, too_few_players, &mut rng), vec![]);
}

#[test]
fn one_on_one_pairs_anchor_with_the_draw() {
    let active = vec![p(1, 2000), p(2, 1990), p(3, 100), p(4, 90)];
    let shape = GameInfo { games: 2, players_per_team: 1, stability: 3 };
    let mut rng = RandomSource::fixed(vec![0, 0]);

    // draw 0 picks the closest candidate each time
    let matches = generate_matches(active, shape, &mut rng);
    assert_eq!(
        matches,
        vec![
            Match { id: 0, team1: vec![1], team2: vec![2] },
            Match { id: 1, team1: vec![3], team2: vec![4] },
        ]
    );
}
