use yut::position::{alignment, HumanPosition, Position, POSITIONS};

fn label(p: Position) -> String {
    match p.human() {
        HumanPosition::Start => "S".to_string(),
        HumanPosition::Route(x) => format!("R{}", x),
        HumanPosition::Goal => "G".to_string(),
        HumanPosition::Center => "C".to_string(),
        HumanPosition::Shortcut(path, x) => format!("K{}_{}", path, x),
    }
}

#[test]
fn print_positions() {
    for i in 0..POSITIONS {
        println!("{}: {}", i, label(Position::from(i)));
    }
}

#[test]
fn advance_one() {
    for i in 0..POSITIONS {
        let p = Position::from(i);
        let mut line = format!("{} ->", label(p));
        let v = p.advance(1);
        for x in v {
            line.push_str(&format!(" {}", label(x)));
        }
        println!("{}", line);
    }
}

#[test]
fn advance_five() {
    for i in 0..POSITIONS {
        let p = Position::from(i);
        let mut line = format!("{} ->", label(p));
        let v = p.advance(5);
        for x in v {
            line.push_str(&format!(" {}", label(x)));
        }
        println!("{}", line);
    }
}

fn cells(v: Vec<Position>) -> Vec<usize> {
    v.into_iter().map(usize::from).collect()
}

#[test]
fn advance_stays_on_board() {
    for i in 0..POSITIONS {
        for d in 1..=5 {
            for q in cells(Position::from(i).advance(d)) {
                assert!(q < POSITIONS);
                assert_ne!(q, i);
            }
        }
    }
    for d in 1..=5 {
        let v = cells(Position::start().advance(d));
        assert_eq!(v, vec![d]);
    }
    assert!(Position::goal().advance(3).is_empty());
}

#[test]
fn advance_branches_and_shortcuts() {
    assert_eq!(cells(Position::from(5).advance(1)), vec![6, 32]);
    assert_eq!(cells(Position::from(5).advance(4)), vec![9, 50]);
    assert_eq!(cells(Position::from(5).advance(5)), vec![10, 41]);
    assert_eq!(cells(Position::from(3).advance(2)), vec![5]);
    assert_eq!(cells(Position::from(28).advance(3)), vec![31]);
    assert_eq!(cells(Position::from(50).advance(1)), vec![42, 45, 48]);
    assert_eq!(cells(Position::from(50).advance(4)), vec![21, 26, 31]);
    assert_eq!(cells(Position::from(43).advance(2)), vec![21]);
    assert_eq!(cells(Position::from(34).advance(2)), vec![41]);
}

#[test]
fn alignment_places_cells() {
    let (h, w, a) = alignment();
    assert_eq!((h, w), (13, 80));
    assert_eq!(a.len(), POSITIONS);
    assert_eq!(a[0], (2, 2));
    assert_eq!(a[1], (0, 0));
    assert_eq!(a[16], (12, 42));
    assert_eq!(a[50], (6, 21));
    assert_eq!(a[32], (2, 12));
    assert_eq!(a[41], (8, 30));
}
