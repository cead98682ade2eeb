use std::collections::HashSet;
use weirustqi::board::Board;
use weirustqi::color::Color;
use weirustqi::coord::Coord;
use weirustqi::moves::Move;

#[test]
fn it_creates_boards() {
    let board = Board::new(19);
    assert_eq!(19, board.size());
}

#[test]
fn it_maintains_state() {
    let coord = Coord::new(2, 3);
    let mut board = Board::new(32);

    assert_eq!(Color::Empty, board.get(&coord));

    board.set_move(Move::Stone(coord, Color::White));
    assert_eq!(Color::White, board.get(&coord));

    board.set_move(Move::Stone(coord, Color::Black));
    assert_eq!(Color::Black, board.get(&coord));

    board.set_move(Move::Stone(coord, Color::Empty));
    assert_eq!(Color::Empty, board.get(&coord));
}

fn given_board_with_two_moves() -> Board {
    let mut board = Board::new(19);
    board.set_move(Move::Stone(Coord::new(2, 3), Color::White));
    board.set_move(Move::Stone(Coord::new(3, 2), Color::Black));
    board
}

#[test]
fn it_maintains_state_complex() {
    let mut board = given_board_with_two_moves();
    board.set_move(Move::Stone(Coord::new(2, 3), Color::White));
    board.set_move(Move::Stone(Coord::new(3, 2), Color::Black));
    assert_eq!(board.get(&Coord::new(2, 3)), Color::White);
    assert_eq!(board.get(&Coord::new(3, 2)), Color::Black);
}

#[test]
fn it_handles_board_limits() {
    let board_max_side = 32;
    let mut board = Board::new(board_max_side);
    for coord in Coord::all_possibles(board_max_side) {
        board.set_move(Move::Stone(coord, Color::Black));
    }
    let max_coord = Coord::new_us(board_max_side - 1, board_max_side - 1);
    let min_coord = Coord::new_us(0, 0);
    board.set_move(Move::Stone(max_coord, Color::White));
    board.set_move(Move::Stone(min_coord, Color::White));
    // it tests all positions to be sure there is not 'sliding' into neighbour intersection
    for coord in Coord::all_possibles(board_max_side) {
        let color = board.get(&coord);
        if coord == max_coord || coord == min_coord {
            assert_eq!(Color::White, color);
        } else {
            assert_eq!(Color::Black, color);
        }
    }
}

#[test]
fn it_finds_first_and_next() {
    let mut b = Board::new(19);
    assert!(b.find_first(Color::Dame).is_none());
    assert_eq!(Coord::from_str("A1").unwrap(), b.find_first(Color::Empty).unwrap());
    assert_eq!(
        Coord::from_str("B1").unwrap(),
        b.find_next(Color::Empty, &Coord::from_str("A1").unwrap()).unwrap()
    );
    assert_eq!(
        Coord::from_str("C1").unwrap(),
        b.find_next(Color::Empty, &Coord::from_str("B1").unwrap()).unwrap()
    );
    assert_eq!(
        Coord::from_str("A2").unwrap(),
        b.find_next(Color::Empty, &Coord::from_str("T1").unwrap()).unwrap()
    );
    assert!(b.find_next(Color::Empty, &Coord::from_str("T19").unwrap()).is_none());

    b.set_move(Move::Stone(Coord::from_str("T19").unwrap(), Color::BlackTerritory));
    assert_eq!(Coord::from_str("T19").unwrap(), b.find_first(Color::BlackTerritory).unwrap());

    for col in 0..19 {
        for row in 0..19 {
            b.set_move(Move::Stone(Coord::new(row, col), Color::White));
        }
    }
    assert!(b.find_first(Color::BlackTerritory).is_none());

    b.set_move(Move::Stone(Coord::new(5, 5), Color::Dame));
    b.set_move(Move::Stone(Coord::new(5, 6), Color::Dame));
    assert_eq!(Coord::new(5, 5), b.find_first(Color::Dame).unwrap());
    assert_eq!(Coord::new(5, 7), b.find_next(Color::White, &Coord::new(5, 5)).unwrap());
    assert!(b.find_next(Color::WhiteTerritory, &Coord::new(0, 0)).is_none());
}

#[test]
fn it_eq_zobrist_for_two_empty_boards() {
    let b1 = Board::new(19);
    let b2 = Board::new(19);
    assert_eq!(b1.zobrist(), b2.zobrist());
    assert!(b1.zobrist() != 0);
}

#[test]
fn it_wont_zero_zobrist_for_empty_board() {
    assert!(Board::new(5).zobrist() != 0);
    assert!(Board::new(9).zobrist() != 0);
    assert!(Board::new(11).zobrist() != 0);
    assert!(Board::new(19).zobrist() != 0);
    assert!(Board::new(32).zobrist() != 0);
}

#[test]
fn it_wont_eq_zobrist_for_empty_boards_of_diff_sizes() {
    assert!(Board::new(9).zobrist() != Board::new(11).zobrist());
    assert!(Board::new(11).zobrist() != Board::new(19).zobrist());
    assert!(Board::new(19).zobrist() != Board::new(32).zobrist());
}

#[test]
fn it_zorbrist_hash_right_when_emptying_position() {
    let k10 = Coord::from_str("K10").unwrap();
    let mut b = Board::new(19);

    let zobrist_0 = b.zobrist();

    b.set_move(Move::Stone(k10, Color::Black));
    let zobrist_after_black_k10 = b.zobrist();
    assert!(zobrist_after_black_k10 != zobrist_0);

    b.set_move(Move::Stone(k10, Color::White));
    let zobrist_after_white_k10 = b.zobrist();
    assert!(zobrist_after_black_k10 != zobrist_after_white_k10);
    assert!(zobrist_after_white_k10 != zobrist_0);

    b.set_move(Move::Stone(k10, Color::Empty));
    let zobrist_after_empty_k10 = b.zobrist();
    assert!(zobrist_after_empty_k10 != zobrist_after_black_k10);
    assert!(zobrist_after_empty_k10 != zobrist_after_white_k10);
    assert!(zobrist_after_empty_k10 == zobrist_0);
}

#[test]
fn it_hashes_boards() {
    let mut h: HashSet<Board> = HashSet::new();
    assert_eq!(0, h.len());
    h.insert(Board::new(9));
    assert_eq!(1, h.len());
    h.insert(Board::new(9));
    assert_eq!(1, h.len());
    h.insert(Board::new(11));
    assert_eq!(2, h.len());
    h.insert(Board::new(19));
    assert_eq!(3, h.len());
    h.insert(given_board_with_two_moves());
    assert_eq!(4, h.len());
    h.insert(given_board_with_two_moves());
    assert_eq!(4, h.len());
    h.insert(Board::new(32));
    assert_eq!(5, h.len());
}

#[test]
fn it_roundtrips_offset_to_coord_to_data_offset() {
    let b = Board::new(19);
    for ofs in 0..361 {
        let coord = b.offset_to_coord(ofs);
        let ofs_back = b.data_offset(&coord);
        assert_eq!(ofs, ofs_back);
    }
}

#[test]
fn it_equals() {
    assert!(Board::new(14) == Board::new(14));
    assert!(Board::new(14) != Board::new(15));
}

#[test]
fn it_equals_modified_boards() {
    assert_eq!(given_board_with_two_moves(), given_board_with_two_moves());
}

#[test]
fn is_eye_needs_every_neighbor() {
    let mut b = Board::new(9);
    let a1 = Coord::from_str("A1").unwrap();
    b.set_move(Move::Stone(Coord::from_str("A2").unwrap(), Color::Black));
    assert!(!b.is_eye(&a1, &Color::Black));
    b.set_move(Move::Stone(Coord::from_str("B1").unwrap(), Color::Black));
    assert!(b.is_eye(&a1, &Color::Black));
    assert!(!b.is_eye(&a1, &Color::White));
}

#[test]
fn remove_chain_takes_whole_group_and_only_it() {
    let mut b = Board::new(9);
    for pos in ["C3", "C4", "D4"] {
        b.set_move(Move::Stone(Coord::from_str(pos).unwrap(), Color::White));
    }
    b.set_move(Move::Stone(Coord::from_str("F7").unwrap(), Color::White));
    let removed = b.remove_chain(Coord::from_str("C4").unwrap(), Color::White);
    assert_eq!(3, removed);
    assert_eq!(Color::Empty, b.get(&Coord::from_str("C3").unwrap()));
    assert_eq!(Color::Empty, b.get(&Coord::from_str("C4").unwrap()));
    assert_eq!(Color::Empty, b.get(&Coord::from_str("D4").unwrap()));
    assert_eq!(Color::White, b.get(&Coord::from_str("F7").unwrap()));
    assert_eq!(0, b.remove_chain(Coord::from_str("C4").unwrap(), Color::White));
}

#[test]
fn place_then_clear_restores_fingerprint() {
    let mut b = Board::new(13);
    let z0 = b.zobrist();
    let c = Coord::from_str("D4").unwrap();
    b.set_move(Move::Stone(c, Color::Black));
    b.set_move(Move::Stone(c, Color::Empty));
    assert_eq!(z0, b.zobrist());
}
