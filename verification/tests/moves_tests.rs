use weirustqi::color::Color;
use weirustqi::coord::Coord;
use weirustqi::moves::Move;

#[test]
fn is_pass() {
    assert!(Move::Pass(Color::Black).is_pass());
    assert!(!Move::Stone(Coord::new(1, 1), Color::Black).is_pass());
}

#[test]
fn is_stone() {
    assert!(!Move::Pass(Color::Black).is_stone());
    assert!(Move::Stone(Coord::new(1, 1), Color::Black).is_stone());
}

#[test]
fn color() {
    assert_eq!(Color::White, Move::Pass(Color::White).color());
    assert_eq!(Color::Black, Move::Stone(Coord::new(1, 1), Color::Black).color());
}

#[test]
fn coord_happy() {
    assert_eq!(Coord::new(2, 3), Move::Stone(Coord::new(2, 3), Color::Black).coord())
}

#[test]
fn moves_it_from_str_happy() {
    assert_eq!(Move::Pass(Color::White), Move::from_str(&"White Pass").unwrap());
    assert_eq!(Move::Pass(Color::Black), Move::from_str(&"Black Pass").unwrap());
    assert_eq!(
        Move::Stone(Coord::from_str(&"A1").unwrap(), Color::White),
        Move::from_str(&"White A1").unwrap()
    );
    assert_eq!(
        Move::Stone(Coord::from_str(&"G7").unwrap(), Color::Black),
        Move::from_str(&"Black G7").unwrap()
    );
}

#[test]
fn moves_it_from_str_happy_anycase() {
    assert_eq!(Move::Pass(Color::Black), Move::from_str(&"BlAck pASS").unwrap());
    assert_eq!(
        Move::Stone(Coord::from_str(&"A1").unwrap(), Color::White),
        Move::from_str(&"WhitE a1").unwrap()
    );
}

#[test]
fn moves_it_from_str_unhappy() {
    assert!(Move::from_str(&"meh").is_err());
    assert!(Move::from_str(&"White").is_err());
    assert!(Move::from_str(&"White Meh").is_err());
    assert!(Move::from_str(&"meh A1").is_err());
}

#[test]
fn if_from_str_empty_not_valid_move() {
    assert!(Move::from_str(&"Empty A1").is_err());
    assert!(Move::from_str(&"empty pass").is_err());
}

#[test]
fn moves_it_from_str_to_str_eq() {
    for co in vec!["Black A1", "White T5", "White G7"] {
        assert_eq!(Move::from_str(&co).unwrap().to_text(), co);
    }
}
