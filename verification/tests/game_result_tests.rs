use weirustqi::color::Color;
use weirustqi::game_result::{GameResult, GameResultRange};

#[test]
fn game_result_from_str_invalid() {
    assert!(GameResult::from_str("this is not a game result  string").is_err());
    assert!(GameResult::from_str("B").is_err());
    assert!(GameResult::from_str("B-123123").is_err());
    assert!(GameResult::from_str("B+W").is_err());
    assert!(GameResult::from_str("B+").is_err());
    assert!(GameResult::from_str("???").is_err());
}

#[test]
fn game_result_from_str_valid() {
    assert_eq!(GameResult::Score(Color::White, 9), GameResult::from_str("W+4.5").unwrap());
    assert_eq!(GameResult::Score(Color::Black, 1), GameResult::from_str("B+0.5").unwrap());

    assert_eq!(GameResult::Resign(Color::White), GameResult::from_str("W+R").unwrap());
    assert_eq!(GameResult::Resign(Color::White), GameResult::from_str("W+Resign").unwrap());
    assert_eq!(GameResult::Resign(Color::Black), GameResult::from_str("B+R").unwrap());
    assert_eq!(GameResult::Resign(Color::Black), GameResult::from_str("B+Resign").unwrap());

    assert_eq!(GameResult::Forfeit(Color::White), GameResult::from_str("W+F").unwrap());
    assert_eq!(GameResult::Forfeit(Color::White), GameResult::from_str("W+Forfeit").unwrap());
    assert_eq!(GameResult::Forfeit(Color::Black), GameResult::from_str("B+F").unwrap());
    assert_eq!(GameResult::Forfeit(Color::Black), GameResult::from_str("B+Forfeit").unwrap());

    assert_eq!(GameResult::Time(Color::White), GameResult::from_str("W+T").unwrap());
    assert_eq!(GameResult::Time(Color::White), GameResult::from_str("W+Time").unwrap());
    assert_eq!(GameResult::Time(Color::Black), GameResult::from_str("B+T").unwrap());
    assert_eq!(GameResult::Time(Color::Black), GameResult::from_str("B+Time").unwrap());

    assert_eq!(GameResult::Draw, GameResult::from_str("0").unwrap());
    assert_eq!(GameResult::Draw, GameResult::from_str("Draw").unwrap());

    assert_eq!(GameResult::Void, GameResult::from_str("Void").unwrap());

    assert_eq!(GameResult::Unknown, GameResult::from_str("?").unwrap());
}

#[test]
fn game_result_it_from_str_to_str_eq() {
    for co in vec!["B+10", "B+4.5", "W+3", "W+R", "Void", "?", "B+F", "W+T"] {
        assert_eq!(GameResult::from_str(&co).unwrap().to_text(), co);
    }
}

#[test]
fn game_result_it_eq() {
    assert_eq!(GameResult::Score(Color::White, 7), GameResult::Score(Color::White, 7));
    assert_eq!(GameResult::Resign(Color::Black), GameResult::Resign(Color::Black));
    assert_eq!(GameResult::Forfeit(Color::Black), GameResult::Forfeit(Color::Black));
    assert_eq!(GameResult::Time(Color::Black), GameResult::Time(Color::Black));
    assert_eq!(GameResult::Draw, GameResult::Draw);
    assert_eq!(GameResult::Void, GameResult::Void);
    assert_eq!(GameResult::Unknown, GameResult::Unknown);
}

#[test]
fn it_game_result_range_eq() {
    assert_eq!(
        GameResultRange::new(GameResult::Score(Color::Black, 10), 10),
        GameResultRange::new(GameResult::Score(Color::Black, 10), 10)
    );
    assert!(
        GameResultRange::new(GameResult::Score(Color::Black, 10), 10)
            != GameResultRange::new(GameResult::Score(Color::Black, 10), 5)
    );
    assert!(
        GameResultRange::new(GameResult::Score(Color::Black, 10), 10)
            != GameResultRange::new(GameResult::Score(Color::Black, 12), 10)
    );
    assert!(
        GameResultRange::new(GameResult::Draw, 10)
            != GameResultRange::new(GameResult::Score(Color::Black, 10), 10)
    );
}

#[test]
fn it_game_result_range_for_score() {
    let score_b1 = GameResult::Score(Color::Black, 1); // half a point
    let score_b2 = GameResult::Score(Color::Black, 17); // eight and a half
    let score_w1 = GameResult::Score(Color::White, 6); // three points

    // simplex
    assert!(GameResultRange::new(score_b1, 10).includes(&score_b2));
    assert!(!GameResultRange::new(score_b1, 5).includes(&score_b2));
    assert!(GameResultRange::new(score_b1, 5).includes(&score_w1));
    assert!(GameResultRange::new(score_w1, 20).includes(&score_b1));
    assert!(GameResultRange::new(score_w1, 4).includes(&score_b1));
    assert!(!GameResultRange::new(score_w1, 4).includes(&score_b2));

    // but a B+5 within 7 vs a W+5 should be false, as there are 10 in distance
    assert!(
        !GameResultRange::new(GameResult::Score(Color::Black, 10), 7)
            .includes(&GameResult::Score(Color::White, 10))
    );

    // Resign, Forfeit, Time, Draw count as a level score
    assert!(GameResultRange::new(score_b1, 1).includes(&GameResult::Resign(Color::Black)));
    assert!(GameResultRange::new(score_b1, 1).includes(&GameResult::Resign(Color::White)));
    assert!(!GameResultRange::new(score_b2, 1).includes(&GameResult::Resign(Color::Black)));
    assert!(!GameResultRange::new(score_b2, 1).includes(&GameResult::Resign(Color::White)));
    assert!(GameResultRange::new(score_b2, 10).includes(&GameResult::Resign(Color::White)));

    assert!(GameResultRange::new(score_b1, 1).includes(&GameResult::Forfeit(Color::Black)));
    assert!(GameResultRange::new(score_b1, 1).includes(&GameResult::Forfeit(Color::White)));
    assert!(!GameResultRange::new(score_b2, 1).includes(&GameResult::Forfeit(Color::Black)));
    assert!(!GameResultRange::new(score_b2, 1).includes(&GameResult::Forfeit(Color::White)));
    assert!(GameResultRange::new(score_b2, 10).includes(&GameResult::Forfeit(Color::White)));

    assert!(GameResultRange::new(score_b1, 1).includes(&GameResult::Time(Color::Black)));
    assert!(GameResultRange::new(score_b1, 1).includes(&GameResult::Time(Color::White)));
    assert!(!GameResultRange::new(score_b2, 1).includes(&GameResult::Time(Color::Black)));
    assert!(!GameResultRange::new(score_b2, 1).includes(&GameResult::Time(Color::White)));
    assert!(GameResultRange::new(score_b2, 10).includes(&GameResult::Time(Color::White)));

    assert!(GameResultRange::new(score_b1, 1).includes(&GameResult::Draw));
    assert!(!GameResultRange::new(score_b2, 1).includes(&GameResult::Draw));
    assert!(GameResultRange::new(score_b2, 10).includes(&GameResult::Draw));

    // Void and Unknown are always not included in anything
    assert!(!GameResultRange::new(score_b1, 10).includes(&GameResult::Void));
    assert!(!GameResultRange::new(score_b1, 10).includes(&GameResult::Unknown));

    // border-cases
    assert!(!GameResultRange::new(score_b1, 0).includes(&GameResult::Resign(Color::Black)));
    assert!(GameResultRange::new(score_b1, 0).includes(&score_b1));
}

#[test]
fn better_than_follows_the_signed_projection() {
    let b5 = GameResultRange::new(GameResult::Score(Color::Black, 10), 0);
    let w3 = GameResultRange::new(GameResult::Score(Color::White, 6), 0);
    let draw = GameResultRange::new(GameResult::Draw, 0);
    assert!(w3.better_than_for(&draw, Color::White));
    assert!(!w3.better_than_for(&draw, Color::Black));
    assert!(b5.better_than_for(&draw, Color::Black));
    assert!(!b5.better_than_for(&draw, Color::White));
    assert!(b5.better_than_for(&w3, Color::Black));
    assert!(!b5.better_than_for(&b5, Color::Black));
}

#[test]
fn safe_win_needs_margin_past_range() {
    assert!(GameResultRange::new(GameResult::Score(Color::White, 9), 4).safe_win());
    assert!(!GameResultRange::new(GameResult::Score(Color::White, 8), 4).safe_win());
    assert!(!GameResultRange::new(GameResult::Draw, 0).safe_win());
    assert!(!GameResultRange::new(GameResult::Resign(Color::White), 0).safe_win());
}

#[test]
fn fractional_scores_reject_other_fractions() {
    assert!(GameResult::from_str("B+4.25").is_err());
    assert_eq!(GameResult::Score(Color::Black, 27), GameResult::from_str("B+13.50").unwrap());
    assert_eq!(GameResult::Score(Color::Black, 8), GameResult::from_str("B+4.0").unwrap());
}
