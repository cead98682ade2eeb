use std::collections::HashSet;
use weirustqi::coord::Coord;

#[test]
fn it_does_new() {
    let c1 = Coord::new(0, 1);
    assert_eq!(0, c1.row);
    assert_eq!(1, c1.col);
}

#[test]
fn it_eq_with_diff_constructors() {
    let c1 = Coord::new(0, 1);
    let c2 = Coord::new_us(0, 1);
    assert_eq!(c1, c2);
}

#[test]
fn coord_it_from_str_happy() {
    match Coord::from_str(&"A2") {
        Ok(c) => assert_eq!(Coord::new(1, 0), c),
        Err(_) => panic!("Coord::form_str('A2') should be fine"),
    }
}

#[test]
fn it_does_with_coords_after_leter_i_and_two_digits() {
    match Coord::from_str(&"T19") {
        Ok(c) => assert_eq!(Coord::new(18, 18), c),
        Err(_) => panic!("Coord::from_str('T19') should be raw row:col 18:18 (base 0)"),
    }
}

#[test]
fn it_from_str_anycase() {
    assert_eq!(Coord::from_str(&"R18").unwrap(), Coord::from_str(&"r18").unwrap());
}

#[test]
fn it_from_str_err_on_empty() {
    if let Ok(some) = Coord::from_str(&"") {
        panic!("empty string should Err() but we got {:?}", some)
    }
}

#[test]
fn coord_it_from_str_to_str_eq() {
    for co in vec!["A1", "A2", "A3", "A20", "B3", "Z20", "G1", "H5", "Z99"] {
        assert_eq!(Coord::from_str(&co).unwrap().to_text(), co);
    }
}

#[test]
fn it_adjacents() {
    let adjs = Coord::from_str("D4").unwrap().adjacents(19);
    assert_eq!(4, adjs.len());
    assert!(adjs.contains(&Coord::from_str("D3").unwrap()));
    assert!(adjs.contains(&Coord::from_str("D5").unwrap()));
    assert!(adjs.contains(&Coord::from_str("C4").unwrap()));
    assert!(adjs.contains(&Coord::from_str("E4").unwrap()));
}

#[test]
fn it_adjacents_in_bottom_left_corner() {
    let adjs = Coord::from_str("A1").unwrap().adjacents(19);
    assert_eq!(2, adjs.len());
    assert!(adjs.contains(&Coord::from_str("A2").unwrap()));
    assert!(adjs.contains(&Coord::from_str("B1").unwrap()));
}

#[test]
fn it_adjacents_in_top_right_corner() {
    let adjs = Coord::from_str("T19").unwrap().adjacents(19);
    assert_eq!(2, adjs.len());
    assert!(adjs.contains(&Coord::from_str("S19").unwrap()));
    assert!(adjs.contains(&Coord::from_str("T18").unwrap()));
}

#[test]
fn it_adjacents_right_on_a2() {
    let adjs = Coord::from_str("A2").unwrap().adjacents(19);
    assert_eq!(3, adjs.len());
    assert!(adjs.contains(&Coord::from_str("A3").unwrap()));
    assert!(adjs.contains(&Coord::from_str("A1").unwrap()));
    assert!(adjs.contains(&Coord::from_str("B2").unwrap()));
}

#[test]
fn it_adjacents_right_on_q1() {
    let adjs = Coord::from_str("Q1").unwrap().adjacents(19);
    assert_eq!(3, adjs.len());
    assert!(adjs.contains(&Coord::from_str("Q2").unwrap()));
    assert!(adjs.contains(&Coord::from_str("P1").unwrap()));
    assert!(adjs.contains(&Coord::from_str("R1").unwrap()));
}

#[test]
fn it_adjacents_right_on_t10() {
    let adjs = Coord::from_str("T10").unwrap().adjacents(19);
    assert_eq!(3, adjs.len());
    assert!(adjs.contains(&Coord::from_str("S10").unwrap()));
    assert!(adjs.contains(&Coord::from_str("T11").unwrap()));
    assert!(adjs.contains(&Coord::from_str("T9").unwrap()));
}

#[test]
fn it_adjacents_right_on_k19() {
    let adjs = Coord::from_str("S19").unwrap().adjacents(19);
    assert_eq!(3, adjs.len());
    assert!(adjs.contains(&Coord::from_str("S18").unwrap()));
    assert!(adjs.contains(&Coord::from_str("T19").unwrap()));
    assert!(adjs.contains(&Coord::from_str("R19").unwrap()));
}

#[test]
fn it_adjacents_border_case() {
    assert_eq!(0, Coord::from_str("A1").unwrap().adjacents(1).len());
}

#[test]
fn it_adjacents_outside_board() {
    assert_eq!(0, Coord::from_str("T19").unwrap().adjacents(9).len());
}

#[test]
fn it_hashes_coords() {
    let mut h: HashSet<Coord> = HashSet::new();
    assert_eq!(0, h.len());
    h.insert(Coord::new(1, 2));
    assert_eq!(1, h.len());
    h.insert(Coord::new(1, 2));
    assert_eq!(1, h.len());
    h.insert(Coord::new(3, 3));
    assert_eq!(2, h.len());
    h.insert(Coord::new(4, 5));
    assert_eq!(3, h.len());
}

#[test]
fn it_does_from_sgf() {
    assert_eq!(Coord::from_str("A19").unwrap(), Coord::from_sgf("aa", 19).unwrap());
    assert_eq!(Coord::from_str("T19").unwrap(), Coord::from_sgf("sa", 19).unwrap());
    assert_eq!(Coord::from_str("T1").unwrap(), Coord::from_sgf("ss", 19).unwrap());

    assert_eq!(Coord::from_str("A9").unwrap(), Coord::from_sgf("aa", 9).unwrap());
    assert_eq!(Coord::from_str("A5").unwrap(), Coord::from_sgf("aa", 5).unwrap());

    assert_eq!(Coord::from_str("D15").unwrap(), Coord::from_sgf("de", 19).unwrap());
    assert_eq!(Coord::from_str("O10").unwrap(), Coord::from_sgf("nj", 19).unwrap());
    assert_eq!(Coord::from_str("T19").unwrap(), Coord::from_sgf("sa", 19).unwrap());
    assert_eq!(Coord::from_str("A1").unwrap(), Coord::from_sgf("as", 19).unwrap());
    assert_eq!(Coord::from_str("T1").unwrap(), Coord::from_sgf("ss", 19).unwrap());
    assert_eq!(Coord::from_str("A19").unwrap(), Coord::from_sgf("aa", 19).unwrap());
    assert_eq!(Coord::from_str("J16").unwrap(), Coord::from_sgf("id", 19).unwrap());
    assert_eq!(Coord::from_str("R13").unwrap(), Coord::from_sgf("qg", 19).unwrap());
    assert_eq!(Coord::from_str("H5").unwrap(), Coord::from_sgf("ho", 19).unwrap());
    assert_eq!(Coord::from_str("K10").unwrap(), Coord::from_sgf("jj", 19).unwrap());
    assert_eq!(Coord::from_str("K9").unwrap(), Coord::from_sgf("jk", 19).unwrap());

    assert_eq!(Coord::from_str("C7").unwrap(), Coord::from_sgf("cc", 9).unwrap());
    assert_eq!(Coord::from_str("E5").unwrap(), Coord::from_sgf("ee", 9).unwrap());
    assert_eq!(Coord::from_str("G3").unwrap(), Coord::from_sgf("gg", 9).unwrap());
    assert_eq!(Coord::from_str("J9").unwrap(), Coord::from_sgf("ia", 9).unwrap());
    assert_eq!(Coord::from_str("A9").unwrap(), Coord::from_sgf("aa", 9).unwrap());
    assert_eq!(Coord::from_str("A1").unwrap(), Coord::from_sgf("ai", 9).unwrap());
    assert_eq!(Coord::from_str("J1").unwrap(), Coord::from_sgf("ii", 9).unwrap());
}

#[test]
fn it_handles_invalid_from_sgf() {
    assert!(Coord::from_sgf("sa", 5).is_err());
    assert!(Coord::from_sgf("", 9).is_err());
}

#[test]
fn text_round_trip_on_all_supported_boards() {
    for size in 5u8..=32 {
        let cols = if size > 25 { 25 } else { size };
        for row in 0..size {
            for col in 0..cols {
                let c = Coord::new(row, col);
                assert_eq!(c, Coord::from_str(&c.to_text()).unwrap());
            }
        }
    }
}

#[test]
fn from_str_rejects_letter_i_and_zero_rows() {
    assert!(Coord::from_str("I5").is_err());
    assert!(Coord::from_str("A0").is_err());
    assert!(Coord::from_str("A999").is_err());
    assert!(Coord::from_str("5A").is_err());
}

#[test]
fn from_str_reads_rows_as_byte_wide_numbers() {
    // the row number parses as a byte does: up to 255, one optional plus
    assert_eq!(Coord::new(254, 0), Coord::from_str("A255").unwrap());
    assert!(Coord::from_str("A256").is_err());
    assert_eq!(Coord::new(4, 0), Coord::from_str("A+5").unwrap());
    assert!(Coord::from_str("A+").is_err());
    assert!(Coord::from_str("A++5").is_err());
    assert!(Coord::from_str("A+0").is_err());
}
