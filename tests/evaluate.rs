use rand::rngs::StdRng;
use rand::SeedableRng;
use yut::evaluate::{best_reply, weigh_throws, Evaluate, Opt};
use yut::game::{Action, State};
use yut::position::Position;
use yut::sticks::Sticks;

fn chance(e: &Evaluate, seed: u64) -> f64 {
    let mut rng = StdRng::seed_from_u64(seed);
    e.win_weight(&mut rng) as f64 / e.weight_scale() as f64
}

#[test]
fn evaluate() {
    let opt = Opt { ply: 2, rollout: 2 };
    let mut state = State::new();
    println!("{:?}", state);
    let e = Evaluate::new(opt, state);
    let p = chance(&e, 1);
    println!("{}", p);
    let actions = state.actions(Sticks::from(1));
    state.act(actions[0]);
    println!("{:?}", state);
    let e = Evaluate::new(opt, state);
    let p = chance(&e, 2);
    println!("{}", p);
}

#[test]
fn almost_win() {
    let opt = Opt { ply: 2, rollout: 2 };
    let mut state = State::new();
    let goal = Position::goal();
    let back2 = Position::from(usize::from(goal) - 2);
    state.act(Action::new(Position::from(0), back2, 4));
    println!("{:?}", state);
    let e = Evaluate::new(opt, state);
    let p = chance(&e, 3);
    println!("{}", p);

    let act = state.actions(Sticks::from(1))[0];
    state.act(act);
    println!("{:?}", state);
    let e = Evaluate::new(opt, state);
    let p = chance(&e, 4);
    println!("{}", p);
}

#[test]
fn finished_game_is_certain() {
    let mut state = State::new();
    state.act(Action::new(Position::start(), Position::goal(), 4));
    for (ply, rollout) in [(0, 1), (1, 3), (2, 2)] {
        let e = Evaluate::new(Opt { ply, rollout }, state);
        let mut rng = StdRng::seed_from_u64(5);
        assert_eq!(e.win_weight(&mut rng), 0);
    }
}

#[test]
fn playout_estimate_is_a_probability() {
    let state = State::new();
    let e = Evaluate::new(Opt { ply: 0, rollout: 7 }, state);
    assert_eq!(e.weight_scale(), 7);
    for seed in 0..5 {
        let mut rng = StdRng::seed_from_u64(seed);
        assert!(e.win_weight(&mut rng) <= 7);
    }
}

#[test]
fn scale_grows_with_depth() {
    let e = Evaluate::new(Opt { ply: 2, rollout: 3 }, State::new());
    assert_eq!(e.weight_scale(), 16 * 16 * 3);
}

#[test]
fn seeded_search_is_reproducible() {
    let e = Evaluate::new(Opt { ply: 2, rollout: 2 }, State::new());
    let a = chance(&e, 42);
    let b = chance(&e, 42);
    assert_eq!(a.to_bits(), b.to_bits());
    assert!((0.0..=1.0).contains(&a));
}

#[test]
fn one_move_from_home_is_a_sure_win() {
    let mut state = State::new();
    state.act(Action::new(Position::start(), Position::from(30), 4));
    state.act(Action::new(Position::start(), Position::from(1), 1));
    let e = Evaluate::new(Opt { ply: 1, rollout: 1 }, state);
    let mut rng = StdRng::seed_from_u64(9);
    assert_eq!(e.win_weight(&mut rng), e.weight_scale());
}

#[test]
fn best_reply_takes_the_weakest_reply() {
    assert_eq!(best_reply(10, &vec![3, 7, 1]), 9);
    assert_eq!(best_reply(10, &vec![10, 10]), 0);
    assert_eq!(best_reply(10, &vec![]), 0);
}

#[test]
fn throws_are_weighted_by_their_landings() {
    assert_eq!(weigh_throws(10, &vec![10, 10, 10, 10, 10]), 160);
    assert_eq!(weigh_throws(4, &vec![0, 1, 2, 3, 4]), 32);
    assert_eq!(weigh_throws(4, &vec![0, 0, 0, 0, 0]), 0);
}
