use weirustqi::color::Color;
use weirustqi::game::Game;
use weirustqi::game_result::{GameResult, GameResultRange};
use weirustqi::mcts::analytics::brain_keeper::{BrainKeeper, DefaultBrainKeeper};
use weirustqi::mcts::game_state::GameStateCache;
use weirustqi::mcts::game_tree::GameTreeCache;
use weirustqi::mcts::mred::{MrEd, ScorerPolicy};
use weirustqi::moves::Move;
use weirustqi::scorer::{conservative_floodfill_scorer, flood_fill, optimistic_floodfill_scorer};
use weirustqi::coord::Coord;

fn play_moves(game: &mut Game, moves: Vec<&str>) {
    for m in moves {
        assert!(game.play(Move::from_str(m).unwrap()));
    }
}

#[test]
fn conservative_scores_the_empty_board_as_komi_with_full_uncertainty() {
    let g = Game::new(5, 11, 0);
    let r = conservative_floodfill_scorer(&g);
    assert_eq!(GameResultRange::new(GameResult::Score(Color::White, 11), 25), r);
}

#[test]
fn conservative_scores_a_contested_board_as_all_neutral() {
    let mut g = Game::new(19, 11, 0);
    play_moves(&mut g, vec!["Black D4", "White Q16"]);
    let r = conservative_floodfill_scorer(&g);
    assert_eq!(GameResultRange::new(GameResult::Score(Color::White, 11), 359), r);
}

#[test]
fn conservative_walls_claim_their_side() {
    let mut g = Game::new(5, 0, 0);
    play_moves(
        &mut g,
        vec![
            "black c1", "white e5", "black c2", "white e4", "black c3", "white e3", "black c4",
            "white e2", "black c5", "white e1",
        ],
    );
    let r = conservative_floodfill_scorer(&g);
    // ten points of black territory against five neutral points
    assert_eq!(GameResultRange::new(GameResult::Score(Color::Black, 20), 5), r);
    let o = optimistic_floodfill_scorer(&g);
    assert_eq!(GameResultRange::new(GameResult::Score(Color::Black, 20), 5), o);
}

#[test]
fn optimistic_claims_a_heavily_outnumbered_border() {
    let mut g = Game::new(5, 0, 0);
    play_moves(
        &mut g,
        vec![
            "black c1", "white a1", "black c2", "white e1", "black c3", "white e2", "black c4",
            "white e3", "black c5", "white e5",
        ],
    );
    // conservatively the lone White corner stone keeps its region contested
    let r = conservative_floodfill_scorer(&g);
    assert_eq!(GameResultRange::new(GameResult::Score(Color::White, 0), 15), r);
    // optimistically it counts as captured and its region as Black's
    let o = optimistic_floodfill_scorer(&g);
    assert_eq!(GameResultRange::new(GameResult::Score(Color::Black, 24), 7), o);
}

#[test]
fn flood_fill_collects_region_and_borders_once_each() {
    let mut g = Game::new(5, 0, 0);
    play_moves(&mut g, vec!["black c1", "white a1", "black c2"]);
    let ffr = flood_fill(g.board(), Coord::from_str("B1").unwrap());
    // the empty space is one region: everything except the three stones
    assert_eq!(22, ffr.flooded.len());
    assert_eq!(1, ffr.whites.len());
    assert_eq!(2, ffr.blacks.len());
    assert!(ffr.whites.contains(&Coord::from_str("A1").unwrap()));
    assert!(ffr.blacks.contains(&Coord::from_str("C1").unwrap()));
    assert!(ffr.blacks.contains(&Coord::from_str("C2").unwrap()));
    // a stone seed floods nothing
    let none = flood_fill(g.board(), Coord::from_str("A1").unwrap());
    assert_eq!(0, none.flooded.len());
    assert_eq!(0, none.whites.len());
    assert_eq!(0, none.blacks.len());
}

#[test]
fn caches_reuse_entries_and_purge_old_generations() {
    let g = Game::new(9, 0, 0);
    let mut cache = GameTreeCache::new(9);
    let g1: u64 = 1;
    let g2: u64 = 2;
    let first = cache.get_or_create_as_mut(&g1, &g);
    let again = cache.get_or_create_as_mut(&g2, &g);
    assert_eq!(first, again);
    // a different position gets its own node
    let mut g_moved = g.clone();
    assert!(g_moved.play(Move::from_str("Black D4").unwrap()));
    let other = cache.get_or_create_as_mut(&g2, &g_moved);
    assert!(other != first);
    // purging beyond both generations empties the cache: the next lookup
    // rebuilds from index zero
    cache.purge_older_than(10);
    let fresh = cache.get_or_create_as_mut(&g2, &g_moved);
    assert_eq!(0, fresh);

    let mut scache = GameStateCache::new(9);
    let s1 = scache.get_or_create_as_mut(&g1, &g);
    assert_eq!(s1, scache.get_or_create_as_mut(&g2, &g));
    scache.purge_older_than(3);
    assert_eq!(0, scache.get_or_create_as_mut(&g2, &g));
}

#[test]
fn default_brain_keeper_applies_its_bounds() {
    let bk = DefaultBrainKeeper::new(5, 5, 10);
    // room in every budget and the uncertainty still large: keep going
    assert!(bk.should_continue(4, 4, 11));
    // any exhausted budget stops the search, and it stays stopped
    assert!(!bk.should_continue(5, 4, 11));
    assert!(!bk.should_continue(6, 4, 11));
    assert!(!bk.should_continue(4, 5, 11));
    // an uncertainty at or under the floor stops the search
    assert!(!bk.should_continue(4, 4, 10));
    assert!(!bk.should_continue(4, 4, 9));
}

#[test]
fn the_controller_thinks_without_touching_the_live_game() {
    let bk = DefaultBrainKeeper::new(10000, 10000, 1);
    let mut mred = MrEd::new(Game::new(9, 9, 0), &bk, ScorerPolicy::Conservative);
    mred.new_turn();
    assert_eq!(Move::Pass(Color::Black), mred.best_move());
    assert_eq!(GameResult::Draw, mred.best_result().result);
    mred.think();
    assert_eq!(0, mred.game().move_count());
    assert!(!mred.game().finished());
    // the suggestion is the best move, or a pass when no win is in sight
    let sm = mred.suggested_move();
    assert!(sm == mred.best_move() || sm.is_pass());
    // the live game stays playable through the controller
    assert!(mred.game_as_mut().play(Move::from_str("Black E5").unwrap()));
    assert_eq!(1, mred.game().move_count());
}

#[test]
fn the_controller_advances_generations() {
    let bk = DefaultBrainKeeper::new(1, 1, 1);
    let mut mred = MrEd::new(Game::new(9, 0, 0), &bk, ScorerPolicy::Optimistic);
    mred.think_new();
    mred.think_new();
    mred.new_turn();
    assert_eq!(Move::Pass(Color::Black), mred.best_move());
}

#[test]
fn playing_out_a_finished_game_scores_it() {
    let mut g = Game::new(5, 1, 0);
    play_moves(&mut g, vec!["black c3", "white pass", "black pass"]);
    assert!(g.finished());
    let r = conservative_floodfill_scorer(&g);
    // whole board is Black territory around the lone stone
    assert_eq!(GameResultRange::new(GameResult::Score(Color::Black, 49), 0), r);
}
