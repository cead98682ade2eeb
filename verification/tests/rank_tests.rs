use weirustqi::rank::Rank;

#[test]
fn from_str_unknown() {
    assert_eq!(Rank::Unknown, Rank::from_str("").unwrap());
    assert_eq!(Rank::Unknown, Rank::from_str("?").unwrap());
}

#[test]
fn rank_from_str_invalid() {
    assert!(Rank::from_str("this is not a ranking string").is_err());
    assert!(Rank::from_str("p").is_err());
    assert!(Rank::from_str("pro").is_err());
    assert!(Rank::from_str("k").is_err());
    assert!(Rank::from_str("kyu").is_err());
    assert!(Rank::from_str("d").is_err());
    assert!(Rank::from_str("dan").is_err());
    assert!(Rank::from_str("200 pro").is_err());
    assert!(Rank::from_str("100 dan?").is_err());
    assert!(Rank::from_str("*").is_err());
}

#[test]
fn rank_from_str_valid() {
    assert_eq!(Rank::Dan(5, true), Rank::from_str("5D").unwrap());

    assert_eq!(Rank::Dan(5, true), Rank::from_str("5d").unwrap());
    assert_eq!(Rank::Dan(5, true), Rank::from_str("5d*").unwrap());

    assert_eq!(Rank::Dan(5, false), Rank::from_str("5d?").unwrap());
    assert_eq!(Rank::Dan(5, false), Rank::from_str("5 dan ?").unwrap());

    assert_eq!(Rank::Pro(3, true), Rank::from_str("3p").unwrap());
    assert_eq!(Rank::Pro(3, true), Rank::from_str("3p*").unwrap());
    assert_eq!(Rank::Pro(3, true), Rank::from_str("3P").unwrap());
    assert_eq!(Rank::Pro(3, true), Rank::from_str("3pro").unwrap());
    assert_eq!(Rank::Pro(3, true), Rank::from_str("3PRO").unwrap());
    assert_eq!(Rank::Pro(3, true), Rank::from_str("3PRO*").unwrap());
    assert_eq!(Rank::Pro(3, true), Rank::from_str("3 p").unwrap());
    assert_eq!(Rank::Pro(3, true), Rank::from_str("3 P").unwrap());

    assert_eq!(Rank::Kyu(10, true), Rank::from_str("10 k").unwrap());
    assert_eq!(Rank::Kyu(10, true), Rank::from_str("10k").unwrap());
    assert_eq!(Rank::Kyu(10, true), Rank::from_str("10kyu").unwrap());
    assert_eq!(Rank::Kyu(10, true), Rank::from_str("10Kyu").unwrap());
    assert_eq!(Rank::Kyu(10, true), Rank::from_str("10 KyU*").unwrap());
    assert_eq!(Rank::Kyu(10, false), Rank::from_str("10 KyU ?").unwrap());
}

#[test]
fn from_str_overflow() {
    assert!(Rank::from_str("11p").is_err());
    assert!(Rank::from_str("9p").is_ok());
    assert!(Rank::from_str("0p").is_err());
    assert!(Rank::from_str("-1p").is_err());

    assert!(Rank::from_str("9d").is_err());
    assert!(Rank::from_str("8d").is_ok());
    assert!(Rank::from_str("0d").is_err());
    assert!(Rank::from_str("-1d").is_err());

    assert!(Rank::from_str("31k").is_err());
    assert!(Rank::from_str("30k").is_ok());
    assert!(Rank::from_str("10k").is_ok());
    assert!(Rank::from_str("1k").is_ok());
    assert!(Rank::from_str("0k").is_err());
    assert!(Rank::from_str("-1k").is_err());
}

#[test]
fn rank_it_from_str_to_str_eq() {
    for co in vec!["9p", "9p?", "25k?", "20k", "8d", "8d?"] {
        assert_eq!(Rank::from_str(&co).unwrap().to_text(), co);
    }
}

#[test]
fn rank_it_eq() {
    assert_eq!(Rank::Pro(5, true), Rank::Pro(5, true));
    assert!(Rank::Pro(5, true) != Rank::Pro(5, false));
    assert!(Rank::Dan(5, true) != Rank::Pro(5, false));
    assert!(Rank::Kyu(5, true) != Rank::Pro(5, true));
}
