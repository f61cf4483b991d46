use yut::game::{Action, State, TEXT_LEN};
use yut::position::Position;
use yut::sticks::Sticks;

#[test]
fn print_state() {
    let s = State::new();
    println!("{:?}", s);
}

#[test]
fn actions() {
    let s = State::new();
    let actions = s.actions(Sticks::from(1));
    assert_eq!(actions.len(), 1);
    for act in actions {
        println!("{:?}", act);
    }
}

#[test]
fn act() {
    let mut s = State::new();
    let actions = s.actions(Sticks::from(1));
    assert_eq!(actions.len(), 1);
    println!("{:?}", actions[0]);
    s.act(actions[0]);
    println!("{:?}", s);
    assert_eq!(s.first_pieces()[0], Position::from(1));
    let actions = s.actions(Sticks::from(2));
    println!("{:?}", actions[0]);
    s.act(actions[0]);
    println!("{:?}", s);
    assert_eq!(s.second_pieces()[0], Position::from(2));
}

#[test]
fn hit() {
    let mut s = State::new();
    let actions = s.actions(Sticks::from(3));
    assert_eq!(actions.len(), 1);
    println!("{:?}", actions[0]);
    s.act(actions[0]);
    println!("{:?}", s);
    assert_eq!(s.first_pieces()[0], Position::from(3));
    let actions = s.actions(Sticks::from(3));
    println!("{:?}", actions[0]);
    s.act(actions[0]);
    println!("{:?}", s);
    assert_eq!(s.second_pieces()[0], Position::from(3));
    assert_eq!(s.first_pieces()[0], Position::from(0));
}

#[test]
fn split_move() {
    let mut s = State::new();
    s.act(s.actions(Sticks::from(2))[0]);
    s.act(s.actions(Sticks::from(1))[0]);
    s.act(s.actions(Sticks::from(2))[0]);
    s.act(s.actions(Sticks::from(1))[0]);

    println!("{:?}", s);
    let actions = s.actions(Sticks::from(2));
    for act in &actions {
        println!("{:?}", act);
    }
    assert_eq!(actions.len(), 3);
    s.act(actions[1]);
    println!("{:?}", s);
    assert_eq!(s.first_pieces()[0], Position::from(4));
    assert_eq!(s.first_pieces()[1], Position::from(2));

    let actions = s.actions(Sticks::from(3));
    for act in &actions {
        println!("{:?}", act);
    }
    s.act(actions[2]);
    println!("{:?}", s);
    assert_eq!(s.second_pieces()[0], Position::from(4));
    assert_eq!(s.second_pieces()[1], Position::from(4));
    assert_eq!(s.first_pieces()[0], Position::from(0));
}

#[test]
fn print_visual() {
    let s = State::new();
    println!("{}", s.visual());
}

#[test]
fn new_state_starts_everything_on_start() {
    let s = State::new();
    for i in 0..4 {
        assert_eq!(s.first_pieces()[i], Position::start());
        assert_eq!(s.second_pieces()[i], Position::start());
    }
    assert!(s.is_first());
    assert!(!s.is_end());
}

#[test]
fn throw_of_one_enters_the_route() {
    let mut s = State::new();
    let actions = s.actions(Sticks::from(1));
    assert_eq!(actions.len(), 1);
    assert_eq!(actions[0].at(), Position::start());
    assert_eq!(actions[0].to(), Position::from(1));
    assert_eq!(actions[0].num(), 1);
    s.act(actions[0]);
    assert_eq!(s.first_pieces()[0], Position::from(1));
    for i in 1..4 {
        assert_eq!(s.first_pieces()[i], Position::start());
    }
    for i in 0..4 {
        assert_eq!(s.second_pieces()[i], Position::start());
    }
    assert!(!s.is_first());
}

#[test]
fn capture_sends_a_whole_stack_home() {
    let mut s = State::new();
    s.act(Action::new(Position::start(), Position::from(1), 1));
    s.act(Action::new(Position::start(), Position::from(3), 1));
    s.act(Action::new(Position::from(1), Position::from(2), 1));
    s.act(Action::new(Position::start(), Position::from(3), 1));
    assert_eq!(s.second_pieces()[0], Position::from(3));
    assert_eq!(s.second_pieces()[1], Position::from(3));
    s.act(Action::new(Position::from(2), Position::from(3), 1));
    assert_eq!(s.first_pieces()[0], Position::from(3));
    for i in 0..4 {
        assert_eq!(s.second_pieces()[i], Position::start());
    }
}

#[test]
fn landing_on_goal_captures_nothing() {
    let mut s = State::new();
    s.act(Action::new(Position::start(), Position::from(30), 1));
    s.act(Action::new(Position::start(), Position::goal(), 1));
    s.act(Action::new(Position::from(30), Position::goal(), 1));
    assert_eq!(s.first_pieces()[0], Position::goal());
    assert_eq!(s.second_pieces()[0], Position::goal());
}

#[test]
fn split_stack_moves_lowest_pieces_first() {
    let mut s = State::new();
    s.act(Action::new(Position::start(), Position::from(4), 3));
    s.act(Action::new(Position::start(), Position::from(9), 1));
    let actions = s.actions(Sticks::from(1));
    assert_eq!(actions.len(), 4);
    s.act(actions[1]);
    assert_eq!(s.first_pieces()[0], Position::from(5));
    assert_eq!(s.first_pieces()[1], Position::from(4));
    assert_eq!(s.first_pieces()[2], Position::from(4));
}

#[test]
fn all_pieces_home_wins() {
    let mut s = State::new();
    s.act(Action::new(Position::start(), Position::goal(), 4));
    assert!(s.is_end());
    assert!(s.is_win_first());
    let actions = s.actions(Sticks::from(1));
    assert_eq!(actions.len(), 1);
}

#[test]
fn three_pieces_home_is_not_terminal() {
    let mut s = State::new();
    s.act(Action::new(Position::start(), Position::goal(), 3));
    assert!(!s.is_end());
    let mut t = State::new();
    t.act(Action::new(Position::start(), Position::from(1), 1));
    t.act(Action::new(Position::start(), Position::goal(), 4));
    assert!(t.is_end());
    assert!(!t.is_win_first());
}

#[test]
fn drawing_shows_marks() {
    let mut s = State::new();
    s.act(Action::new(Position::start(), Position::from(1), 2));
    s.act(Action::new(Position::start(), Position::from(2), 1));
    let text = s.visual();
    assert_eq!(text.chars().count(), TEXT_LEN);
    let first_row: Vec<&str> = text.lines().collect();
    assert_eq!(first_row.len(), 13);
    assert_eq!(&first_row[0][0..2], "O2");
    assert_eq!(&first_row[0][3..5], "X1");
    assert_eq!(&first_row[0][6..8], "..");
}

#[test]
fn play_nth_counts_round_the_moves() {
    let mut s = State::new();
    s.play_nth(Sticks::from(1), 7);
    assert_eq!(s.first_pieces()[0], Position::from(1));

    let mut s = State::new();
    s.act(Action::new(Position::start(), Position::from(4), 3));
    s.act(Action::new(Position::start(), Position::from(9), 1));
    s.play_nth(Sticks::from(1), 5);
    assert_eq!(s.first_pieces()[0], Position::from(5));
    assert_eq!(s.first_pieces()[1], Position::from(4));
    assert_eq!(s.first_pieces()[3], Position::start());
}
