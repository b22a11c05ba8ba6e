use atri_elo_common::engine::{ContestError, EloMmr, Phase};
use atri_elo_common::player::{Diffusion, Outcome, Player, PlayerHistoryEntry};
use atri_elo_common::scalar::Scalar;

fn num(x: f64) -> Scalar {
    Scalar::from_bits(x.to_bits())
}

fn val(number: Scalar) -> f64 {
    f64::from_bits(number.to_bits())
}

fn diffusion(sigma: f64, anchor: f64, weights: &[f64], delta: f64) -> Diffusion {
    Diffusion {
        sigma: num(sigma),
        anchor: num(anchor),
        weights: weights.iter().map(|w| num(*w)).collect(),
        delta: num(delta),
    }
}

fn outcome_with(perf: f64, weight: f64, rating: f64, sigma: f64) -> Outcome {
    Outcome { perf: num(perf), weight: num(weight), rating: num(rating), sigma: num(sigma) }
}

/// An outcome with a deviation of 300, below every deviation that the
/// diffusions of these tests bring.
fn outcome(perf: f64, weight: f64, rating: f64) -> Outcome {
    outcome_with(perf, weight, rating, 300.0)
}

/// Runs one contest with the given ratings as outcomes, in the order of the
/// scoreboard's players; the performance of each is its rating plus one. The
/// diffusion raises each deviation by 8, and the outcome lowers it by 6.
fn run(engine: &mut EloMmr, contest_id: i64, scores: &[(i64, i64)], ratings: &[(i64, f64)]) {
    let standings = engine.update(contest_id, scores.to_vec()).unwrap();
    let mut diffusions = Vec::new();
    for line in &standings {
        let player = engine.get_player(line.player_id).unwrap();
        let weights: Vec<f64> = player.weights().iter().map(|w| val(*w) / 2.0).collect();
        diffusions.push(diffusion(val(player.sigma()) + 8.0, val(player.mu()), &weights, 400.0));
    }
    engine.diffuse(diffusions).unwrap();
    let mut outcomes = Vec::new();
    for line in &standings {
        let rating = ratings.iter().find(|entry| entry.0 == line.player_id).unwrap().1;
        let sigma = val(engine.get_player(line.player_id).unwrap().sigma()) - 6.0;
        outcomes.push(outcome_with(rating + 1.0, 2.5e-5, rating, sigma));
    }
    engine.conclude(outcomes).unwrap();
}

#[test]
fn defaults_are_the_preset() {
    let engine = EloMmr::default();
    let parameters = engine.get_parameters();
    assert_eq!(val(parameters.rho), 1.0);
    assert_eq!(val(parameters.beta), 200.0);
    assert_eq!(val(parameters.gamma), 80.0);
    assert_eq!(val(parameters.mu_init), 1500.0);
    assert_eq!(val(parameters.sigma_init), 350.0);
    assert_eq!(val(parameters.prior_weight), 1.0 / (350.0 * 350.0));
    assert_eq!(engine.get_phase(), Phase::Idle);
    assert!(engine.get_ratings().is_empty());
    assert!(engine.export_player_history().is_empty());
    assert!(engine.export_contest_details().is_empty());
}

#[test]
fn new_keeps_its_parameters() {
    let engine = EloMmr::new(num(0.5), num(150.0), num(60.0), num(1000.0), num(300.0), num(0.25));
    let parameters = engine.get_parameters();
    assert_eq!(val(parameters.rho), 0.5);
    assert_eq!(val(parameters.beta), 150.0);
    assert_eq!(val(parameters.gamma), 60.0);
    assert_eq!(val(parameters.mu_init), 1000.0);
    assert_eq!(val(parameters.sigma_init), 300.0);
    assert_eq!(val(parameters.prior_weight), 0.25);
}

#[test]
fn update_ranks_and_enrols() {
    let mut engine = EloMmr::default();
    let standings = engine.update(1, vec![(2, 50), (1, 100)]).unwrap();
    assert_eq!(standings.len(), 2);
    assert_eq!((standings[0].player_id, standings[0].score), (1, 100));
    assert_eq!((standings[0].lo, standings[0].hi), (1, 1));
    assert_eq!((standings[1].player_id, standings[1].score), (2, 50));
    assert_eq!((standings[1].lo, standings[1].hi), (2, 2));
    assert_eq!(engine.get_phase(), Phase::Diffusion);
    assert_eq!(engine.get_standings(), &standings);
    assert_eq!(engine.get_ratings(), vec![(1, num(1500.0)), (2, num(1500.0))]);
    let newcomer = engine.get_player(2).unwrap();
    assert_eq!(val(newcomer.mu()), 1500.0);
    assert_eq!(val(newcomer.sigma()), 350.0);
    assert_eq!(newcomer.perfs(), &vec![num(1500.0)]);
    assert_eq!(newcomer.weights(), &vec![num(1.0 / 122500.0)]);
    assert_eq!(
        newcomer.history(),
        &vec![PlayerHistoryEntry {
            contest_id: -1,
            perf: num(1500.0),
            rating: num(1500.0),
            contest_rank: 0,
            rating_rank: 0,
        }]
    );
    assert!(engine.get_player(3).is_none());
}

#[test]
fn diffuse_stores_the_results_and_returns_the_pairs() {
    let mut engine = EloMmr::default();
    engine.update(1, vec![(1, 100), (2, 50)]).unwrap();
    let pairs = engine
        .diffuse(vec![
            diffusion(359.0, 1501.0, &[7.0e-6], 411.0),
            diffusion(360.0, 1499.0, &[6.0e-6], 412.0),
        ])
        .unwrap();
    assert_eq!(pairs, vec![(num(411.0), num(1500.0)), (num(412.0), num(1500.0))]);
    assert_eq!(engine.get_phase(), Phase::Estimation);
    let first = engine.get_player(1).unwrap();
    assert_eq!(val(first.sigma()), 359.0);
    assert_eq!(val(first.delta()), 411.0);
    assert_eq!(val(first.mu_pi()), 1500.0);
    assert_eq!(val(first.mu()), 1500.0);
    assert_eq!(first.perfs(), &vec![num(1501.0)]);
    assert_eq!(first.weights(), &vec![num(7.0e-6)]);
    assert_eq!(first.history().len(), 1);
    let second = engine.get_player(2).unwrap();
    assert_eq!(val(second.sigma()), 360.0);
    assert_eq!(second.perfs(), &vec![num(1499.0)]);
    assert_eq!(second.weights(), &vec![num(6.0e-6)]);
}

#[test]
fn two_players_one_beats_the_other() {
    let mut engine = EloMmr::default();
    engine.update(1, vec![(1, 100), (2, 50)]).unwrap();
    engine
        .diffuse(vec![
            diffusion(359.0, 1500.0, &[7.0e-6], 411.0),
            diffusion(359.0, 1500.0, &[7.0e-6], 411.0),
        ])
        .unwrap();
    let ratings = engine
        .conclude(vec![outcome(1700.0, 2.5e-5, 1580.0), outcome(1300.0, 2.5e-5, 1420.0)])
        .unwrap();
    assert_eq!(ratings, vec![(1, num(1580.0)), (2, num(1420.0))]);
    assert_eq!(engine.get_phase(), Phase::Idle);
    assert!(engine.get_standings().is_empty());

    let mut exported = engine.get_ratings();
    exported.sort_by_key(|entry| entry.0);
    assert_eq!(exported, vec![(1, num(1580.0)), (2, num(1420.0))]);
    assert_eq!(engine.get_rating_of(&1), Some(num(1580.0)));
    assert_eq!(engine.get_rating_of(&2), Some(num(1420.0)));
    assert_eq!(engine.get_rating_of(&3), None);

    let history = engine.export_player_history_of(1).unwrap();
    assert_eq!(history.len(), 2);
    assert_eq!(
        history[1],
        PlayerHistoryEntry {
            contest_id: 1,
            perf: num(1700.0),
            rating: num(1580.0),
            contest_rank: 1,
            rating_rank: 1,
        }
    );
    let history = engine.export_player_history_of(2).unwrap();
    assert_eq!(history.len(), 2);
    assert_eq!(history[0].contest_id, -1);
    assert_eq!((history[1].contest_rank, history[1].rating_rank), (2, 2));
    assert!(engine.export_player_history_of(3).is_none());

    let first = engine.get_player(1).unwrap();
    assert_eq!(first.perfs(), &vec![num(1500.0), num(1700.0)]);
    assert_eq!(first.weights(), &vec![num(7.0e-6), num(2.5e-5)]);
    assert_eq!(val(first.sigma()), 300.0);
    assert_eq!(val(first.mu()), 1580.0);
}

#[test]
fn deviation_rises_in_diffusion_and_falls_in_the_contest() {
    let mut engine = EloMmr::default();
    engine.update(1, vec![(1, 10), (2, 5)]).unwrap();
    let diffused = 350f64.hypot(80.0);
    engine
        .diffuse(vec![
            diffusion(diffused, 1500.0, &[7.0e-6], 411.0),
            diffusion(diffused, 1500.0, &[7.0e-6], 411.0),
        ])
        .unwrap();
    assert_eq!(val(engine.get_player(1).unwrap().sigma()), diffused);
    engine
        .conclude(vec![
            outcome_with(1700.0, 2.5e-5, 1580.0, 176.0),
            outcome_with(1300.0, 2.5e-5, 1420.0, 177.0),
        ])
        .unwrap();
    let after_first = val(engine.get_player(1).unwrap().sigma());
    assert_eq!(after_first, 176.0);
    assert!(after_first < diffused);
    assert_eq!(val(engine.get_player(2).unwrap().sigma()), 177.0);

    engine.update(2, vec![(1, 10), (2, 5)]).unwrap();
    let diffused = after_first.hypot(80.0);
    engine
        .diffuse(vec![
            diffusion(diffused, 1580.0, &[6.0e-6, 2.0e-5], 411.0),
            diffusion(diffused, 1420.0, &[6.0e-6, 2.0e-5], 411.0),
        ])
        .unwrap();
    engine
        .conclude(vec![
            outcome_with(1700.0, 2.5e-5, 1600.0, 180.0),
            outcome_with(1300.0, 2.5e-5, 1400.0, 181.0),
        ])
        .unwrap();
    let after_second = val(engine.get_player(1).unwrap().sigma());
    assert_eq!(after_second, 180.0);
    assert!(after_first < after_second && after_second < diffused);
}

#[test]
fn a_diffusion_that_lowers_the_deviation_is_refused() {
    let mut engine = EloMmr::default();
    engine.update(1, vec![(1, 10), (2, 5)]).unwrap();
    assert_eq!(
        engine.diffuse(vec![
            diffusion(359.0, 1500.0, &[7.0e-6], 411.0),
            diffusion(349.0, 1500.0, &[7.0e-6], 411.0),
        ]),
        Err(ContestError::Mismatch)
    );
    assert_eq!(engine.get_phase(), Phase::Diffusion);
    assert_eq!(val(engine.get_player(1).unwrap().sigma()), 350.0);
    assert!(engine
        .diffuse(vec![
            diffusion(350.0, 1500.0, &[7.0e-6], 411.0),
            diffusion(359.0, 1500.0, &[7.0e-6], 411.0),
        ])
        .is_ok());
}

#[test]
fn an_outcome_that_does_not_lower_the_deviation_is_refused() {
    let mut engine = EloMmr::default();
    engine.update(1, vec![(1, 10), (2, 5)]).unwrap();
    engine
        .diffuse(vec![
            diffusion(359.0, 1500.0, &[7.0e-6], 411.0),
            diffusion(359.0, 1500.0, &[7.0e-6], 411.0),
        ])
        .unwrap();
    for sigma in [359.0, 359.5, 1000.0] {
        assert_eq!(
            engine.conclude(vec![
                outcome_with(1700.0, 2.5e-5, 1580.0, 300.0),
                outcome_with(1300.0, 2.5e-5, 1420.0, sigma),
            ]),
            Err(ContestError::Mismatch)
        );
        assert_eq!(engine.get_phase(), Phase::Estimation);
        assert_eq!(engine.get_player(1).unwrap().history().len(), 1);
        assert_eq!(val(engine.get_player(1).unwrap().sigma()), 359.0);
    }
    assert!(engine
        .conclude(vec![
            outcome_with(1700.0, 2.5e-5, 1580.0, 300.0),
            outcome_with(1300.0, 2.5e-5, 1420.0, 358.999),
        ])
        .is_ok());
    assert_eq!(val(engine.get_player(2).unwrap().sigma()), 358.999);
}

#[test]
fn contest_detail_matches_the_histories() {
    let mut engine = EloMmr::default();
    run(&mut engine, 1, &[(1, 100), (2, 50)], &[(1, 1580.0), (2, 1420.0)]);
    let detail = engine.export_contest_detail_of(1).unwrap();
    assert_eq!(
        detail.data(),
        &vec![(1, 100, num(1581.0), num(1580.0), 1), (2, 50, num(1421.0), num(1420.0), 2)]
    );
    for row in detail.data() {
        let history = engine.export_player_history_of(row.0).unwrap();
        assert_eq!(history.last().unwrap().rating_rank, row.4);
        assert_eq!(history.last().unwrap().perf, row.2);
        assert_eq!(history.last().unwrap().rating, row.3);
    }
    assert!(engine.export_contest_detail_of(2).is_none());
    let all = engine.export_contest_details();
    assert_eq!(all.len(), 1);
    assert_eq!(all[0].0, 1);
    assert_eq!(all[0].1.data(), detail.data());
}

#[test]
fn exact_tie_shares_ranks() {
    let mut engine = EloMmr::default();
    let standings = engine.update(1, vec![(1, 50), (2, 50)]).unwrap();
    for line in &standings {
        assert_eq!((line.lo, line.hi), (1, 2));
    }
    engine
        .diffuse(vec![
            diffusion(359.0, 1500.0, &[7.0e-6], 411.0),
            diffusion(359.0, 1500.0, &[7.0e-6], 411.0),
        ])
        .unwrap();
    engine
        .conclude(vec![outcome(1500.0, 2.5e-5, 1500.0), outcome(1500.0, 2.5e-5, 1500.0)])
        .unwrap();
    for id in [1, 2] {
        let history = engine.export_player_history_of(id).unwrap();
        assert_eq!((history[1].contest_rank, history[1].rating_rank), (1, 1));
    }
}

#[test]
fn three_way_with_one_tie() {
    let mut engine = EloMmr::default();
    let standings = engine.update(1, vec![(1, 100), (2, 80), (3, 80)]).unwrap();
    assert_eq!((standings[0].player_id, standings[0].lo, standings[0].hi), (1, 1, 1));
    assert_eq!((standings[1].lo, standings[1].hi), (2, 3));
    assert_eq!((standings[2].lo, standings[2].hi), (2, 3));
    let diffusions = (0..3).map(|_| diffusion(359.0, 1500.0, &[7.0e-6], 411.0)).collect();
    engine.diffuse(diffusions).unwrap();
    let ratings = engine
        .conclude(vec![
            outcome(1800.0, 2.5e-5, 1600.0),
            outcome(1400.0, 2.5e-5, 1450.0),
            outcome(1400.0, 2.5e-5, 1450.0),
        ])
        .unwrap();
    assert_eq!(ratings[0], (1, num(1600.0)));
    assert_eq!((ratings[1].1, ratings[2].1), (num(1450.0), num(1450.0)));
    assert_eq!(engine.export_player_history_of(1).unwrap()[1].rating_rank, 1);
    assert_eq!(engine.export_player_history_of(2).unwrap()[1].rating_rank, 2);
    assert_eq!(engine.export_player_history_of(3).unwrap()[1].rating_rank, 2);
    assert_eq!(engine.export_player_history_of(2).unwrap()[1].contest_rank, 2);
}

#[test]
fn empty_scoreboard_changes_nothing() {
    let mut engine = EloMmr::default();
    assert_eq!(engine.update(1, Vec::new()), Ok(Vec::new()));
    assert_eq!(engine.get_phase(), Phase::Idle);
    assert!(engine.get_ratings().is_empty());

    run(&mut engine, 1, &[(1, 100), (2, 50)], &[(1, 1580.0), (2, 1420.0)]);
    let ratings = engine.get_ratings();
    let histories = engine.export_player_history();
    assert_eq!(engine.update(2, Vec::new()), Ok(Vec::new()));
    assert_eq!(engine.get_phase(), Phase::Idle);
    assert_eq!(engine.get_ratings(), ratings);
    assert_eq!(engine.export_player_history(), histories);
    assert_eq!(engine.export_contest_details().len(), 1);

    engine.update(3, vec![(5, 1)]).unwrap();
    assert_eq!(engine.update(4, Vec::new()), Ok(Vec::new()));
    assert_eq!(engine.get_phase(), Phase::Diffusion);
}

#[test]
fn records_grow_by_one_each_contest() {
    let mut engine = EloMmr::default();
    for contest in 1..=4 {
        run(&mut engine, contest, &[(1, 10), (2, 5)], &[(1, 1500.0 + contest as f64), (2, 1400.0)]);
        for id in [1, 2] {
            let player = engine.get_player(id).unwrap();
            assert_eq!(player.history().len(), contest as usize + 1);
            assert_eq!(player.perfs().len(), contest as usize + 1);
            assert_eq!(player.weights().len(), contest as usize + 1);
            assert_eq!(player.history().last().unwrap().contest_id, contest);
            assert!(player.history().last().unwrap().rating_rank != 0);
        }
    }
    run(&mut engine, 5, &[(2, 1), (3, 2)], &[(2, 1390.0), (3, 1510.0)]);
    assert_eq!(engine.get_player(1).unwrap().history().len(), 5);
    assert_eq!(engine.get_player(2).unwrap().history().len(), 6);
    assert_eq!(engine.get_player(3).unwrap().history().len(), 2);
}

#[test]
fn rating_rank_counts_all_players() {
    let mut engine = EloMmr::default();
    run(
        &mut engine,
        1,
        &[(1, 40), (2, 30), (3, 20), (4, 10)],
        &[(1, 1700.0), (2, 1600.0), (3, 1500.0), (4, 1400.0)],
    );
    let standings = engine.update(2, vec![(4, 9), (3, 1)]).unwrap();
    assert_eq!((standings[0].player_id, standings[0].lo), (4, 1));
    let diffusions = vec![
        diffusion(360.0, 1400.0, &[1.0e-6, 2.0e-6], 411.0),
        diffusion(360.0, 1500.0, &[1.0e-6, 2.0e-6], 411.0),
    ];
    assert_eq!(val(engine.get_player(4).unwrap().sigma()), 352.0);
    engine.diffuse(diffusions).unwrap();
    let ratings = engine
        .conclude(vec![outcome(1900.0, 2.5e-5, 1650.0), outcome(1000.0, 2.5e-5, 1300.0)])
        .unwrap();
    assert_eq!(
        ratings,
        vec![(1, num(1700.0)), (4, num(1650.0)), (2, num(1600.0)), (3, num(1300.0))]
    );
    let fourth = engine.export_player_history_of(4).unwrap();
    assert_eq!((fourth[2].contest_id, fourth[2].contest_rank, fourth[2].rating_rank), (2, 1, 2));
    let third = engine.export_player_history_of(3).unwrap();
    assert_eq!((third[2].contest_rank, third[2].rating_rank), (2, 4));
    let second = engine.export_player_history_of(2).unwrap();
    assert_eq!(second.len(), 2);
    assert_eq!(second[1].rating_rank, 2);
    assert_eq!(
        engine.export_contest_detail_of(2).unwrap().data(),
        &vec![(4, 9, num(1900.0), num(1650.0), 2), (3, 1, num(1000.0), num(1300.0), 4)]
    );
}

#[test]
fn negative_ratings_rank_below_positive_ones() {
    let mut engine = EloMmr::default();
    run(&mut engine, 1, &[(1, 3), (2, 2), (3, 1)], &[(1, -5.0), (2, 12.0), (3, -700.0)]);
    assert_eq!(engine.export_player_history_of(2).unwrap()[1].rating_rank, 1);
    assert_eq!(engine.export_player_history_of(1).unwrap()[1].rating_rank, 2);
    assert_eq!(engine.export_player_history_of(3).unwrap()[1].rating_rank, 3);
}

#[test]
fn a_later_detail_replaces_the_earlier_one() {
    let mut engine = EloMmr::default();
    run(&mut engine, 7, &[(1, 2), (2, 1)], &[(1, 1600.0), (2, 1400.0)]);
    run(&mut engine, 8, &[(1, 2), (2, 1)], &[(1, 1610.0), (2, 1390.0)]);
    run(&mut engine, 7, &[(2, 5)], &[(2, 1700.0)]);
    let all = engine.export_contest_details();
    assert_eq!(all.len(), 2);
    assert_eq!((all[0].0, all[1].0), (7, 8));
    assert_eq!(all[0].1.data(), &vec![(2, 5, num(1701.0), num(1700.0), 1)]);
    assert_eq!(engine.export_contest_detail_of(8).unwrap().data().len(), 2);
}

#[test]
fn update_is_refused_while_a_contest_is_open() {
    let mut engine = EloMmr::default();
    engine.update(1, vec![(1, 100), (2, 50)]).unwrap();
    assert_eq!(engine.update(2, vec![(3, 1)]), Err(ContestError::ContestOpen));
    assert_eq!(engine.get_phase(), Phase::Diffusion);
    assert!(engine.get_player(3).is_none());
    assert_eq!(engine.get_standings().len(), 2);
}

#[test]
fn a_player_listed_twice_is_refused() {
    let mut engine = EloMmr::default();
    assert_eq!(
        engine.update(1, vec![(1, 100), (2, 50), (1, 30)]),
        Err(ContestError::DuplicatePlayer)
    );
    assert_eq!(engine.get_phase(), Phase::Idle);
    assert!(engine.get_ratings().is_empty());
    assert_eq!(engine.update(1, vec![(4, 7), (4, 7)]), Err(ContestError::DuplicatePlayer));
    assert!(engine.update(1, vec![(1, 100), (2, 50)]).is_ok());
}

#[test]
fn results_out_of_turn_are_refused() {
    let mut engine = EloMmr::default();
    assert_eq!(engine.diffuse(Vec::new()), Err(ContestError::OutOfTurn));
    assert_eq!(engine.conclude(Vec::new()), Err(ContestError::OutOfTurn));
    engine.update(1, vec![(1, 100)]).unwrap();
    assert_eq!(
        engine.conclude(vec![outcome(1.0, 1.0, 1.0)]),
        Err(ContestError::OutOfTurn)
    );
    engine.diffuse(vec![diffusion(359.0, 1500.0, &[7.0e-6], 411.0)]).unwrap();
    assert_eq!(
        engine.diffuse(vec![diffusion(359.0, 1500.0, &[7.0e-6], 411.0)]),
        Err(ContestError::OutOfTurn)
    );
    assert_eq!(engine.get_phase(), Phase::Estimation);
}

#[test]
fn results_that_do_not_fit_are_refused() {
    let mut engine = EloMmr::default();
    engine.update(1, vec![(1, 100), (2, 50)]).unwrap();
    assert_eq!(
        engine.diffuse(vec![diffusion(359.0, 1500.0, &[7.0e-6], 411.0)]),
        Err(ContestError::Mismatch)
    );
    assert_eq!(
        engine.diffuse(vec![
            diffusion(359.0, 1500.0, &[7.0e-6], 411.0),
            diffusion(359.0, 1500.0, &[7.0e-6, 1.0e-6], 411.0),
        ]),
        Err(ContestError::Mismatch)
    );
    assert_eq!(engine.get_phase(), Phase::Diffusion);
    assert_eq!(val(engine.get_player(1).unwrap().sigma()), 350.0);
    engine
        .diffuse(vec![
            diffusion(359.0, 1500.0, &[7.0e-6], 411.0),
            diffusion(359.0, 1500.0, &[7.0e-6], 411.0),
        ])
        .unwrap();
    assert_eq!(
        engine.conclude(vec![outcome(1.0, 1.0, 1.0)]),
        Err(ContestError::Mismatch)
    );
    assert_eq!(engine.get_phase(), Phase::Estimation);
    assert_eq!(engine.get_player(1).unwrap().history().len(), 1);
}

#[test]
fn a_record_takes_its_steps() {
    let mut player = Player::new(num(1500.0), num(350.0), num(0.125));
    assert_eq!(player.perfs(), &vec![num(1500.0)]);
    assert_eq!(player.weights(), &vec![num(0.125)]);
    assert!(!player.diffuse(diffusion(361.0, 1502.0, &[0.0625, 0.5], 420.0)));
    assert!(!player.diffuse(diffusion(361.0, 1502.0, &[], 420.0)));
    assert!(!player.diffuse(diffusion(349.0, 1502.0, &[0.0625], 420.0)));
    assert_eq!(val(player.sigma()), 350.0);
    assert_eq!(player.perfs(), &vec![num(1500.0)]);
    assert_eq!(player.weights(), &vec![num(0.125)]);
    assert!(player.diffuse(diffusion(361.0, 1502.0, &[0.0625], 420.0)));
    assert_eq!(val(player.sigma()), 361.0);
    assert_eq!(val(player.mu_pi()), 1500.0);
    assert_eq!(val(player.delta()), 420.0);
    assert_eq!(player.perfs(), &vec![num(1502.0)]);
    assert_eq!(player.weights(), &vec![num(0.0625)]);
    player.backfill(9);
    assert_eq!(player.history()[0].rating_rank, 0);
    assert!(!player.update(3, outcome_with(1550.0, 0.5, 1520.0, 361.0), 2));
    assert!(!player.update(3, outcome_with(1550.0, 0.5, 1520.0, 400.0), 2));
    assert_eq!(val(player.mu()), 1500.0);
    assert_eq!(player.history().len(), 1);
    assert!(player.update(3, outcome(1550.0, 0.5, 1520.0), 2));
    assert_eq!(val(player.sigma()), 300.0);
    assert_eq!(val(player.mu()), 1520.0);
    assert_eq!(player.perfs(), &vec![num(1502.0), num(1550.0)]);
    assert_eq!(player.weights(), &vec![num(0.0625), num(0.5)]);
    assert_eq!(
        player.history()[1],
        PlayerHistoryEntry {
            contest_id: 3,
            perf: num(1550.0),
            rating: num(1520.0),
            contest_rank: 2,
            rating_rank: 0,
        }
    );
    player.backfill(4);
    assert_eq!(player.history()[1].rating_rank, 4);
    player.backfill(6);
    assert_eq!(player.history()[1].rating_rank, 4);
    assert_eq!(player.history()[0].rating_rank, 0);
}
