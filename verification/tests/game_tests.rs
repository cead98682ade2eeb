use weirustqi::color::Color;
use weirustqi::coord::Coord;
use weirustqi::game::Game;
use weirustqi::moves::Move;

fn assert_color(g: &Game, c: Color, pos: &str) {
    assert_eq!(c, g.board().get(&Coord::from_str(pos).unwrap()));
}

fn play_moves(game: &mut Game, moves: Vec<&str>) {
    for m in moves {
        assert!(game.play(Move::from_str(m).unwrap()));
    }
}

fn try_play_invalid_move(g: &mut Game, mov: &str) {
    let mo = Move::from_str(mov).unwrap();
    assert!(!g.play(mo));
}

#[test]
fn it_builds_a_simple_new_game() {
    let g = Game::new(19, 11, 0);
    assert_eq!(19, g.board().size());
    assert_eq!(11, g.komi());
    assert_eq!(0, g.handicap());
    assert_eq!(0, g.captured_count(Color::Black));
    assert_eq!(0, g.captured_count(Color::White));
    assert_eq!(Color::Black, g.next_turn());
    assert_eq!(0, g.move_count());
    assert!(g.moves().is_empty());
    assert!(!g.finished());
}

#[test]
fn handicap_it_sets_white_as_first_player_when_handicaped() {
    let g = Game::new(19, 0, 1);
    assert_eq!(Color::White, g.next_turn());
}

#[test]
fn handicap_it_sets_stones_in_place() {
    let g = Game::new(19, 0, 9);
    assert_color(&g, Color::Black, "D4");
    assert_color(&g, Color::Black, "Q16");
    assert_color(&g, Color::Black, "D16");
    assert_color(&g, Color::Black, "Q4");
    assert_color(&g, Color::Black, "D10");
    assert_color(&g, Color::Black, "Q10");
    assert_color(&g, Color::Black, "K4");
    assert_color(&g, Color::Black, "K16");
    assert_color(&g, Color::Black, "K10");
}

#[test]
fn handicap_it_sets_stones_in_place_2() {
    let g = Game::new(19, 0, 3);
    assert_color(&g, Color::Black, "D4");
    assert_color(&g, Color::Black, "Q16");
    assert_color(&g, Color::Black, "D16");
    assert_color(&g, Color::Empty, "Q4");
}

#[test]
fn simplest_finished_game() {
    let mut g = Game::new(19, 11, 0);
    assert!(g.play(Move::from_str("Black D4").unwrap()));
    assert!(g.play(Move::from_str("White Q16").unwrap()));
    assert!(g.play(Move::from_str("Black Pass").unwrap()));
    assert!(!g.finished());
    assert!(g.play(Move::from_str("White Pass").unwrap()));
    assert!(g.finished());
}

#[test]
fn passing_is_valid_move_but_not_after_game_is_finished() {
    let mut g = Game::new(19, 11, 0);
    let black_pass = Move::from_str("Black Pass").unwrap();
    let white_pass = Move::from_str("White Pass").unwrap();
    // black pass
    assert!(!g.finished());
    assert!(!g.play(white_pass));
    assert!(g.play(black_pass));
    // white pass
    assert!(!g.finished());
    assert!(!g.play(black_pass)); // black move is not valid anymore
    assert!(g.play(white_pass));
    // and the game is finish
    assert!(g.finished());
    assert!(!g.play(white_pass));
    assert!(!g.play(black_pass));
}

#[test]
fn playing_twice_on_same_place_is_not_valid_move() {
    let mut g = Game::new(19, 11, 0);
    let black_move = Move::from_str("Black D4").unwrap();
    let black_move2 = Move::from_str("Black D5").unwrap();
    let white_move = Move::from_str("White Q16").unwrap();
    let white_move2 = Move::from_str("White Q15").unwrap();
    assert!(g.play(black_move));
    assert!(g.play(white_move));
    assert!(!g.play(black_move));
    assert!(g.play(black_move2));
    assert!(!g.play(white_move));
    assert!(g.play(white_move2));
}

#[test]
fn simplest_kill() {
    let mut g = Game::new(19, 11, 0);
    play_moves(&mut g, vec!["Black B1", "White A1", "Black A2"]);

    assert_eq!(Color::Empty, g.board().get(&Coord::from_str("A1").unwrap()));
    assert_eq!(1, g.captured_count(Color::White));
}

#[test]
fn four_kills() {
    let mut g = Game::new(19, 11, 0);
    play_moves(
        &mut g,
        vec![
            "black k10", "white l10", "black k9", "white l9", "black j10", "white k11",
            "black j9", "white j11", "black d10", "white h10", "black d9", "white h9",
            "black d8", "white j8", "black d11", "white k8",
        ],
    );

    assert_color(&g, Color::Empty, "k10");
    assert_color(&g, Color::Empty, "j9");
    assert_color(&g, Color::Empty, "j10");
    assert_color(&g, Color::Empty, "k9");
    assert_eq!(0, g.captured_count(Color::White));
    assert_eq!(4, g.captured_count(Color::Black));
}

#[test]
fn simple_kill_then_double_kill() {
    let mut g = Game::new(19, 11, 0);
    play_moves(
        &mut g,
        vec![
            "black k10", "white l10", "black k9", "white l9", "black j10", "white k11",
            "black j9", "white j11", "black d10", "white h10", "black d9", "white h9",
            "black d8", "white j8", "black d11", "white k8", // up to here eats 4
            "black k10", "white j10", "black j9", "white k9", // then eats 2 different groups
        ],
    );

    assert_color(&g, Color::Empty, "k10");
    assert_color(&g, Color::Empty, "j9");
    assert_color(&g, Color::White, "j10");
    assert_color(&g, Color::White, "k9");
    assert_eq!(0, g.captured_count(Color::White));
    assert_eq!(6, g.captured_count(Color::Black));
}

#[test]
fn basic_ko() {
    let mut g = Game::new(19, 11, 0);

    play_moves(&mut g, vec!["black a1", "white b1", "black a3", "white c1", "black b2", "white a2"]);
    assert_eq!((1, 0), g.captured());

    try_play_invalid_move(&mut g, "black a1");
    play_moves(&mut g, vec!["black b3"]);

    // two variants
    let mut g2 = g.clone();

    // variant: white finishes the ko
    play_moves(&mut g2, vec!["white a1"]);
    assert_eq!((1, 0), g.captured());

    // variant: white plays somewhere else, black can play in the eye (ex ko) again
    play_moves(&mut g, vec!["white d1", "black a1"]);
    try_play_invalid_move(&mut g, "white a2");
    assert_eq!((1, 1), g.captured());
}

#[test]
fn test_suicide() {
    let mut g = Game::new(19, 11, 0);
    play_moves(&mut g, vec!["black a2", "white f10", "black b1"]);
    try_play_invalid_move(&mut g, "white a1")
}

#[test]
fn empty_board_turn_alternation_and_finish() {
    let mut g = Game::new(19, 11, 0);
    assert_eq!(Color::Black, g.next_turn());
    assert!(g.play(Move::from_str("Black D4").unwrap()));
    assert_eq!(Color::White, g.next_turn());
    assert!(g.play(Move::from_str("White Q16").unwrap()));
    assert_eq!(Color::Black, g.next_turn());
    assert!(g.play(Move::from_str("Black Pass").unwrap()));
    assert!(!g.finished());
    assert_eq!(Color::White, g.next_turn());
    assert!(g.play(Move::from_str("White Pass").unwrap()));
    assert!(g.finished());
    assert_eq!((0, 0), g.captured());
}

#[test]
fn surrounded_single_stone_is_captured() {
    let mut g = Game::new(19, 11, 0);
    play_moves(
        &mut g,
        vec!["black c4", "white d4", "black d3", "white q16", "black e4", "white q15"],
    );
    assert_color(&g, Color::White, "D4");
    assert_eq!((0, 0), g.captured());
    // the last liberty of the lone White stone falls
    play_moves(&mut g, vec!["black d5"]);
    assert_color(&g, Color::Empty, "D4");
    assert_eq!(1, g.captured_count(Color::White));
    assert_eq!(0, g.captured_count(Color::Black));
}

#[test]
fn rejected_moves_change_nothing() {
    let mut g = Game::new(9, 11, 0);
    play_moves(&mut g, vec!["black c3"]);
    let fp = g.board().zobrist();
    let moves_before = g.move_count();
    // wrong turn
    try_play_invalid_move(&mut g, "black c4");
    // occupied point
    try_play_invalid_move(&mut g, "white c3");
    assert_eq!(fp, g.board().zobrist());
    assert_eq!(moves_before, g.move_count());
    assert_eq!(Color::White, g.next_turn());
    assert!(!g.finished());
}
