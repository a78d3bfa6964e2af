use matchmaker::weights::get_prob;
use matchmaker::weights::weighted_pick;

/// The cumulative probabilities a weight table induces: each entry divided
/// by the final one.
fn normalized(cum: &[u128]) -> Vec<f64> {
    let total = *cum.last().unwrap() as f64;
    cum.iter().map(|c| *c as f64 / total).collect()
}

fn close_within(a: &[f64], b: &[f64], tol: f64) {
    assert_eq!(a.len(), b.len());
    for (x, y) in a.iter().zip(b.iter()) {
        assert!((x - y).abs() < tol, "{} vs {}", x, y);
    }
}

fn close(a: &[f64], b: &[f64]) {
    close_within(a, b, 1e-9);
}

#[test]
fn test_get_prob() {
    let player = 2000;
    let others = vec![1000, 1000, 2000];
    let probs = get_prob(player, &others, 1);
    close(&normalized(&probs), &[0.25, 0.5, 1.0]);

    let player = 2000;
    let others = vec![2100, 1400, 1000];
    let probs = get_prob(player, &others, 2);
    close(
        &normalized(&probs),
        &[0.6009389671361502, 0.8849765258215962, 1.0],
    );

    let player = 2658;
    let others = vec![2344, 2638, 1986];
    let probs = get_prob(player, &others, 2);
    close(
        &normalized(&probs),
        &[0.30645020913647375, 0.9286094600336872, 1.0],
    );
}

#[test]
fn mod_test_get_prob() {
    let player = 2000;
    let others = vec![2100, 1400, 1000];
    let probs = get_prob(player, &others, 2);
    // the expected values carry single-precision rounding
    close_within(
        &normalized(&probs),
        &[0.600939, 0.8849765, 1.0],
        1e-6,
    );
}

#[test]
fn test_get_prob_stability() {
    let player = 2000;
    let others = vec![2100, 1400, 1000];
    let probs = get_prob(player, &others, 3);
    close(
        &normalized(&probs),
        &[0.7098786828422877, 0.9405545927209705, 1.0],
    );
}

#[test]
fn get_prob_exact_weights() {
    // distances [100, 600, 1000], total 1700; weights (1700 - d)^2 give the
    // exact cumulative table [1600^2, 1600^2 + 1100^2, 1600^2 + 1100^2 + 700^2]
    let probs = get_prob(2000, &vec![2100, 1400, 1000], 2);
    assert_eq!(probs, vec![2_560_000, 3_770_000, 4_260_000]);
}

#[test]
fn get_prob_cumulative_is_monotone_and_ends_at_one() {
    let probs = get_prob(1234, &vec![5, 900, 1300, 1234, -40, 7000], 3);
    for w in probs.windows(2) {
        assert!(w[0] <= w[1]);
    }
    let n = normalized(&probs);
    assert!((n.last().unwrap() - 1.0).abs() < 1e-12);
}

#[test]
fn get_prob_equidistant_is_uniform() {
    // both candidates sit 5 away from the target: equal steps
    let probs = get_prob(0, &vec![5, -5], 1);
    assert_eq!(probs[1], 2 * probs[0]);

    // zero total distance: the uniform fallback, one unit per candidate
    let probs = get_prob(7, &vec![7, 7, 7], 2);
    assert_eq!(probs, vec![1, 2, 3]);
}

#[test]
fn get_prob_single_candidate_falls_back_to_uniform() {
    // one candidate absorbs the whole distance mass, so its closeness
    // weight vanishes and the draw falls back to uniform
    let probs = get_prob(100, &vec![50], 1);
    assert_eq!(probs, vec![1]);
    assert_eq!(weighted_pick(100, &vec![50], 1, 123456789), 0);
}

#[test]
fn weighted_pick_lands_by_cumulative_regions() {
    let others = vec![2100, 1400, 1000];
    // cumulative weights are [2560000, 3770000, 4260000]
    assert_eq!(weighted_pick(2000, &others, 2, 0), 0);
    assert_eq!(weighted_pick(2000, &others, 2, 2_559_999), 0);
    assert_eq!(weighted_pick(2000, &others, 2, 2_560_000), 1);
    assert_eq!(weighted_pick(2000, &others, 2, 3_769_999), 1);
    assert_eq!(weighted_pick(2000, &others, 2, 3_770_000), 2);
    assert_eq!(weighted_pick(2000, &others, 2, 4_259_999), 2);
    // the raw draw is reduced modulo the total weight
    assert_eq!(weighted_pick(2000, &others, 2, 4_260_000), 0);
}

#[test]
fn stability_zero_draws_uniformly() {
    // exponent zero flattens every weight to one
    let probs = get_prob(2000, &vec![2100, 1400, 1000], 0);
    assert_eq!(probs, vec![1, 2, 3]);
}
