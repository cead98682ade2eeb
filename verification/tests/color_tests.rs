use weirustqi::color::Color;

#[test]
fn color_it_from_str_happy() {
    assert_eq!(Color::Empty, Color::from_str(&"Empty").unwrap());
    assert_eq!(Color::Black, Color::from_str(&"Black").unwrap());
    assert_eq!(Color::White, Color::from_str(&"White").unwrap());
    assert_eq!(Color::Dame, Color::from_str(&"Dame").unwrap());
    assert_eq!(Color::BlackTerritory, Color::from_str(&"Black_Territory").unwrap());
    assert_eq!(Color::WhiteTerritory, Color::from_str(&"White_Territory").unwrap());
}

#[test]
fn color_it_from_str_happy_anycase() {
    assert_eq!(Color::Empty, Color::from_str(&"EMPTY").unwrap());
    assert_eq!(Color::Black, Color::from_str(&"BlAcK").unwrap());
    assert_eq!(Color::White, Color::from_str(&"white").unwrap());
    assert_eq!(Color::WhiteTerritory, Color::from_str(&"white_TERRITORY").unwrap());
}

#[test]
fn color_it_from_str_unhappy() {
    assert!(Color::from_str(&"meh").is_err());
}

#[test]
fn color_it_from_str_to_str_eq() {
    for co in vec!["Black", "White", "Empty"] {
        assert_eq!(Color::from_str(&co).unwrap().to_text(), co);
    }
}

#[test]
fn it_as_char() {
    assert_eq!('B', Color::Black.as_char());
    assert_eq!('W', Color::White.as_char());
    assert_eq!('?', Color::Empty.as_char());
    assert_eq!('.', Color::Dame.as_char());
    assert_eq!('X', Color::BlackTerritory.as_char());
    assert_eq!('O', Color::WhiteTerritory.as_char());
}

#[test]
fn color_codes_round_trip() {
    for code in [0u8, 1, 2, 4, 5, 6] {
        assert_eq!(code, Color::f(&Color::from_u8(code)));
    }
}

#[test]
fn opposite_swaps_sides() {
    assert_eq!(Color::White, Color::Black.opposite());
    assert_eq!(Color::Black, Color::White.opposite());
    assert_eq!(Color::Dame, Color::Empty.opposite());
    assert_eq!(Color::Empty, Color::Dame.opposite());
    assert_eq!(Color::WhiteTerritory, Color::BlackTerritory.opposite());
    assert_eq!(Color::BlackTerritory, Color::WhiteTerritory.opposite());
}
