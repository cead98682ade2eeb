use weirustqi::color::Color;
use weirustqi::game_result::GameResult;
use weirustqi::gametree::{GameNode, GameTree};
use weirustqi::moves::Move;
use weirustqi::rank::Rank;

fn amove(s: &str) -> Move {
    Move::from_str(s).unwrap()
}

#[test]
fn it_can_be_created_and_retains_basic_properties() {
    let mut gt = GameTree::new();
    gt.set_black_name("black".to_string());
    gt.set_white_name("white".to_string());
    gt.set_black_rank(Rank::from_str("5p").unwrap());
    gt.set_white_rank(Rank::from_str("4d").unwrap());
    gt.set_board_size(19);
    gt.set_komi(11);
    gt.set_handicap(1);
    gt.set_result(GameResult::from_str("B+4.5").unwrap());

    assert_eq!(&"black".to_string(), gt.black_name());
    assert_eq!(&"white".to_string(), gt.white_name());
    assert_eq!(Rank::Pro(5, true), *gt.black_rank());
    assert_eq!(Rank::Dan(4, true), *gt.white_rank());
    assert_eq!(19, gt.board_size());
    assert_eq!(11, gt.komi());
    assert_eq!(1, gt.handicap());
    assert_eq!(GameResult::Score(Color::Black, 9), *gt.result());
}

#[test]
fn it_can_push_moves_into_it_simple() {
    let mut gt = GameTree::new();
    gt.push(GameNode::new_simple(amove("Black A1")));

    assert_eq!(1, gt.moves().len());
    let gn = gt.moves().first().unwrap();
    assert_eq!(amove("Black A1"), gn.themove());
    assert_eq!(&String::new(), gn.comment());
    assert_eq!(0, gn.variants().len());
}

#[test]
fn it_can_push_moves_into_it_with_comments() {
    let mut gt = GameTree::new();
    gt.push(GameNode::new(amove("Black A1"), "a good move"));

    assert_eq!(1, gt.moves().len());
    let gn = gt.moves().first().unwrap();
    assert_eq!(amove("Black A1"), gn.themove());
    assert_eq!("a good move", gn.comment());
    assert_eq!(0, gn.variants().len());
}

#[test]
fn it_can_push_moves_into_it_complex_with_variant() {
    // B-A1 -> W-A2 -> B-A3 -> W-A4
    //             \-> B-B3 -> W-B4

    let mut gt = GameTree::new();
    gt.push(GameNode::new_simple(amove("Black A1")));
    gt.push(GameNode::new_simple(amove("White A2")));
    gt.push(GameNode::new_simple(amove("Black A3")));
    gt.push(GameNode::new_simple(amove("White A4")));
    {
        let sub_node = gt.moves_as_mut().iter_mut().nth(1).unwrap();
        sub_node.push(GameNode::new_simple(amove("Black B3")));
        sub_node.push(GameNode::new_simple(amove("White B4")));
    }

    // normal path
    {
        let mut iter = gt.moves().iter();
        assert_eq!(amove("Black A1"), iter.next().unwrap().themove());
        assert_eq!(amove("White A2"), iter.next().unwrap().themove());
        assert_eq!(amove("Black A3"), iter.next().unwrap().themove());
        assert_eq!(amove("White A4"), iter.next().unwrap().themove());
        assert!(iter.next().is_none());
    }

    // variants checking, only on the second should have a variant
    {
        let mut iter = gt.moves().iter();
        assert!(!iter.next().unwrap().has_variants());
        assert!(iter.next().unwrap().has_variants());
        assert!(!iter.next().unwrap().has_variants());
        assert!(!iter.next().unwrap().has_variants());
    }

    // now lets check the variants
    {
        let mut iter = gt.moves().iter();
        let gn = iter.nth(1).unwrap();
        let mut gn_iter = gn.variants().iter();
        assert_eq!(amove("Black B3"), gn_iter.next().unwrap().themove());
        assert_eq!(amove("White B4"), gn_iter.next().unwrap().themove());
        assert!(gn_iter.next().is_none());
    }
}
