//! The move-search controller: it enumerates candidate moves for the
//! color to move, tries each on a clone of the live game, evaluates the
//! terminal position of a bounded random playout, and keeps the single
//! candidate whose outcome is strictly better for the mover. The best
//! result only ever improves within a turn, and thinking never touches
//! the live game.

use vstd::prelude::*;

use crate::board::{Board, coord_in_bounds, coord_off, spec_eye};
use crate::chains::color_at;
use crate::color::Color;
use crate::coord::Coord;
use crate::game::Game;
use crate::color::spec_opposite;
use crate::game_result::{GameResult, GameResultRange, spec_projection, spec_winner};
use crate::mcts::analytics::brain_keeper::BrainKeeper;
use crate::mcts::game_tree::{GameTreeCache, MoveStat};
use crate::moves::Move;
use crate::rng::random_u64;
use crate::scorer::{conservative_floodfill_scorer, spec_conservative_classify, spec_result_range};

verus! {

/// Which scoring policy the controller is configured with.
#[derive(Clone, Copy, PartialEq, Eq, Structural, Debug)]
pub enum ScorerPolicy {
    Conservative,
    Optimistic,
}

/// The turn's best was replaced by a strictly better outcome for the
/// mover: the new result is a stone-color score strictly better than the
/// old one under the signed projection (larger for White, smaller for
/// Black), and the new move is a stone of the mover on an empty point of
/// the live board that is not the mover's own eye and that the rule
/// engine accepts.
pub open spec fn improved_best(
    g: Game,
    old_r: GameResultRange,
    new_m: Move,
    new_r: GameResultRange,
) -> bool {
    let c = g.spec_next_turn();
    &&& (if c == Color::White {
        spec_projection(new_r.result) > spec_projection(old_r.result)
    } else {
        spec_projection(new_r.result) < spec_projection(old_r.result)
    })
    &&& (new_r.result matches GameResult::Score(w, _) && (w == Color::Black || w == Color::White))
    &&& (new_m matches Move::Stone(co, mc) && mc == c && coord_in_bounds(co, g.ssize())
        && color_at(g.spec_board().grid(), g.ssize(), co) == Color::Empty && !spec_eye(
        g.spec_board().grid(),
        g.spec_board().spec_size(),
        co,
        c,
    ) && g.stone_accepted(co, c))
}

/// The search controller: the live game, the generational cache, the
/// injected stopping policy and scoring policy, and the best move found
/// this turn.
pub struct MrEd<'r, K: BrainKeeper> {
    game: Game,
    cache: GameTreeCache,
    generation: u64,
    keeper: &'r K,
    scorer: ScorerPolicy,
    turn_best_move: Move,
    turn_best_result: GameResultRange,
}

impl<'r, K: BrainKeeper> MrEd<'r, K> {
    /// The live game.
    pub closed spec fn spec_game_val(&self) -> Game {
        self.game
    }

    /// The cache entries.
    pub closed spec fn spec_cache(&self) -> GameTreeCache {
        self.cache
    }

    /// The current generation.
    pub closed spec fn spec_generation(&self) -> u64 {
        self.generation
    }

    /// The configured scoring policy.
    pub closed spec fn spec_scorer(&self) -> ScorerPolicy {
        self.scorer
    }

    /// The best move found this turn.
    pub closed spec fn spec_turn_best_move(&self) -> Move {
        self.turn_best_move
    }

    /// The best result found this turn.
    pub closed spec fn spec_turn_best_result(&self) -> GameResultRange {
        self.turn_best_result
    }

    /// Well-formedness: a well-formed live game and cache.
    pub open spec fn wf(&self) -> bool {
        self.spec_game_val().wf() && self.spec_cache().wf()
    }

    /// A controller over a game, a stopping policy, and a scoring
    /// policy; the turn starts with a pass and a fully uncertain draw.
    pub fn new(game: Game, keeper: &'r K, scorer: ScorerPolicy) -> (r: MrEd<'r, K>)
        requires
            game.wf(),
        ensures
            r.wf(),
            r.spec_game_val() == game,
            r.spec_generation() == 0,
            r.spec_scorer() == scorer,
            r.spec_turn_best_move() == Move::Pass(Color::Black),
            r.spec_turn_best_result().result == GameResult::Draw,
    {
        let bs = game.board().size() as u16;
        proof {
            assert((bs as int) * (bs as int) <= 1024) by (nonlinear_arith)
                requires
                    0 <= bs <= 32,
            ;
        }
        let game_tree_cache = GameTreeCache::new(game.board().size());
        let game_result = GameResultRange::new(GameResult::Draw, bs * bs);
        MrEd {
            game,
            cache: game_tree_cache,
            generation: 0,
            keeper,
            scorer,
            turn_best_move: Move::Pass(Color::Black),
            turn_best_result: game_result,
        }
    }

    /// The live game.
    pub fn game(&self) -> (r: &Game)
        ensures
            *r == self.spec_game_val(),
    {
        &self.game
    }

    /// Mutable access to the live game.
    pub fn game_as_mut(&mut self) -> (r: &mut Game)
        ensures
            *r == old(self).spec_game_val(),
            final(self).spec_game_val() == *final(r),
            final(self).spec_cache() == old(self).spec_cache(),
            final(self).spec_generation() == old(self).spec_generation(),
            final(self).spec_scorer() == old(self).spec_scorer(),
            final(self).spec_turn_best_move() == old(self).spec_turn_best_move(),
            final(self).spec_turn_best_result() == old(self).spec_turn_best_result(),
    {
        &mut self.game
    }

    /// One think pass: every empty, non-own-eye point is tried on a
    /// clone of the live game; each accepted move is evaluated by a
    /// bounded random playout. The live game is never touched, and the
    /// turn's best (move, result) pair is either left exactly as it was
    /// or replaced by a strictly better playout outcome whose move the
    /// rule engine accepts for the mover.
    pub fn think(&mut self)
        requires
            old(self).wf(),
        ensures
            final(self).wf(),
            final(self).spec_game_val() == old(self).spec_game_val(),
            final(self).spec_cache() == old(self).spec_cache(),
            final(self).spec_generation() == old(self).spec_generation(),
            final(self).spec_scorer() == old(self).spec_scorer(),
            (final(self).spec_turn_best_move() == old(self).spec_turn_best_move()
                && final(self).spec_turn_best_result() == old(self).spec_turn_best_result())
                || improved_best(
                old(self).spec_game_val(),
                old(self).spec_turn_best_result(),
                final(self).spec_turn_best_move(),
                final(self).spec_turn_best_result(),
            ),
    {
        let my_color = self.game.next_turn();
        let bs = self.game.board().size() as usize;
        let all_coords = Coord::all_possibles(bs);
        let n = all_coords.len();
        let mut i: usize = 0;
        while i < n
            invariant
                self.wf(),
                self.spec_game_val() == old(self).spec_game_val(),
                self.spec_cache() == old(self).spec_cache(),
                self.spec_generation() == old(self).spec_generation(),
                self.spec_scorer() == old(self).spec_scorer(),
                my_color == self.spec_game_val().spec_next_turn(),
                bs == self.spec_game_val().spec_board().spec_size(),
                5 <= bs <= 32,
                n == all_coords@.len(),
                n == bs * bs,
                forall|k: int|
                    0 <= k < all_coords@.len() ==> all_coords@[k] == (Coord {
                        row: (k / bs as int) as u8,
                        col: (k % bs as int) as u8,
                    }),
                (self.spec_turn_best_move() == old(self).spec_turn_best_move()
                    && self.spec_turn_best_result() == old(self).spec_turn_best_result())
                    || improved_best(
                    old(self).spec_game_val(),
                    old(self).spec_turn_best_result(),
                    self.spec_turn_best_move(),
                    self.spec_turn_best_result(),
                ),
            decreases n - i,
        {
            let coord = all_coords[i];
            proof {
                let ii = i as int;
                let bi = bs as int;
                assert(n == bs * bs);
                assert(0 <= ii / bi && ii / bi < bi && 0 <= ii % bi && ii % bi < bi) by (
                nonlinear_arith)
                    requires
                        0 <= ii < bi * bi,
                        5 <= bi,
                ;
            }
            let m = Move::Stone(coord, my_color);
            if Self::is_ok_move(self.game.board(), &m) {
                let mut game = self.game.clone();
                let ghost scratch = game;
                if game.play(m) {
                    let result = Self::super_fast_playout(game);
                    if result.better_than_for(&self.turn_best_result, my_color) {
                        proof {
                            crate::game::lemma_same_game_acceptance(
                                self.spec_game_val(),
                                scratch,
                                coord,
                                my_color,
                            );
                        }
                        self.turn_best_result = result;
                        self.turn_best_move = m;
                    }
                }
            }
            i += 1;
        }
    }

    /// One cache-driven think step: the generation advances, and the
    /// live position's cache node is created (snapshotting the game, with
    /// empty statistics) or, if present, stamped with the new generation;
    /// every other node is untouched.
    pub fn think_new(&mut self)
        requires
            old(self).wf(),
            old(self).spec_generation() < u64::MAX,
        ensures
            final(self).wf(),
            final(self).spec_game_val() == old(self).spec_game_val(),
            final(self).spec_generation() == old(self).spec_generation() + 1,
            final(self).spec_scorer() == old(self).spec_scorer(),
            final(self).spec_turn_best_move() == old(self).spec_turn_best_move(),
            final(self).spec_turn_best_result() == old(self).spec_turn_best_result(),
            ({
                let key = old(self).spec_game_val().spec_board().spec_zobrist();
                let g1 = (old(self).spec_generation() + 1) as u64;
                let olde = old(self).spec_cache().spec_entries();
                let newe = final(self).spec_cache().spec_entries();
                if exists|i: int| 0 <= i < olde.len() && (#[trigger] olde[i]).0 == key {
                    exists|i: int|
                        0 <= i < olde.len() && (#[trigger] olde[i]).0 == key && newe == olde.update(
                            i,
                            (key, olde[i].1.with_gen(g1)),
                        )
                } else {
                    &&& newe.len() == olde.len() + 1
                    &&& newe == olde.push(newe.last())
                    &&& newe.last().0 == key
                    &&& newe.last().1.spec_last_used_gen() == g1
                    &&& Game::same_game(old(self).spec_game_val(), newe.last().1.spec_game())
                    &&& newe.last().1.spec_stats() == Seq::<(Coord, MoveStat)>::empty()
                    &&& newe.last().1.spec_playouts() == 0
                }
            }),
    {
        self.generation = self.generation + 1;
        let generation = self.generation;
        let node = self.cache.get_or_create_as_mut(&generation, &self.game);
        proof {
            let key = old(self).spec_game_val().spec_board().spec_zobrist();
            let g1 = (old(self).spec_generation() + 1) as u64;
            let olde = old(self).spec_cache().spec_entries();
            let newe = self.spec_cache().spec_entries();
            assert(generation == g1);
            if exists|i: int| 0 <= i < olde.len() && (#[trigger] olde[i]).0 == key {
                let i0 = choose|i: int| 0 <= i < olde.len() && (#[trigger] olde[i]).0 == key;
                assert(olde[i0].0 == key);
                let ni = node as int;
                assert(0 <= ni && ni < olde.len());
                assert(olde[ni].0 == key);
                assert(newe == olde.update(ni, (key, olde[ni].1.with_gen(g1))));
            }
        }
    }

    /// Starts a turn: the best move resets to a pass for the color to
    /// move, and the best result to a fully uncertain draw.
    pub fn new_turn(&mut self)
        ensures
            final(self).spec_game_val() == old(self).spec_game_val(),
            final(self).spec_cache() == old(self).spec_cache(),
            final(self).spec_generation() == old(self).spec_generation(),
            final(self).spec_scorer() == old(self).spec_scorer(),
            final(self).spec_turn_best_move() == Move::Pass(
                old(self).spec_game_val().spec_next_turn(),
            ),
            final(self).spec_turn_best_result() == (GameResultRange {
                result: GameResult::Draw,
                range: 10000u16,
            }),
    {
        self.turn_best_move = Move::Pass(self.game.next_turn());
        self.turn_best_result = GameResultRange::new(GameResult::Draw, 10000);
    }

    /// A candidate placement is worth trying: its point is empty and is
    /// not a single-point eye of the mover's own color.
    fn is_ok_move(b: &Board, m: &Move) -> (r: bool)
        requires
            b.wf(),
            *m matches Move::Stone(co, _) && coord_in_bounds(co, b.spec_size() as int),
        ensures
            (*m matches Move::Stone(co, c) ==> r == (color_at(b.grid(), b.spec_size() as int, co)
                == Color::Empty && !spec_eye(b.grid(), b.spec_size(), co, c))),
    {
        if b.get(&m.coord()) != Color::Empty {
            false
        } else if b.is_eye(&m.coord(), &m.color()) {
            false
        } else {
            true
        }
    }

    /// The best move found this turn.
    pub fn best_move(&self) -> (r: Move)
        ensures
            r == self.spec_turn_best_move(),
    {
        self.turn_best_move
    }

    /// The best result found this turn.
    pub fn best_result(&self) -> (r: GameResultRange)
        ensures
            r == self.spec_turn_best_result(),
    {
        self.turn_best_result
    }

    /// The move to play: the turn's best move, overridden by a pass when
    /// the mover cannot achieve a winning outcome, or when it is winning
    /// safely outside the uncertainty and the opponent just passed.
    pub fn suggested_move(&self) -> (r: Move)
        ensures
            r == if spec_winner(self.spec_turn_best_result().result) != Some(
                self.spec_game_val().spec_next_turn(),
            ) || (self.spec_turn_best_result().result matches GameResult::Score(_, sc) && sc > 2
                * self.spec_turn_best_result().range && self.spec_game_val().spec_moves().len() >= 1
                && (self.spec_game_val().spec_moves().last() matches Move::Pass(_))) {
                Move::Pass(self.spec_game_val().spec_next_turn())
            } else {
                self.spec_turn_best_move()
            },
    {
        let w = self.turn_best_result.result.winner();
        let mine = Some(self.game.next_turn());
        let pass_out = w != mine || (w == mine && self.turn_best_result.safe_win()
            && self.last_move_is_pass());
        if pass_out {
            Move::Pass(self.game.next_turn())
        } else {
            self.turn_best_move
        }
    }

    /// Whether the most recent recorded move, if any, is a pass.
    fn last_move_is_pass(&self) -> (r: bool)
        ensures
            r == (self.spec_game_val().spec_moves().len() >= 1 && (
            self.spec_game_val().spec_moves().last() matches Move::Pass(_))),
    {
        let moves = self.game.moves();
        let n = moves.len();
        if n == 0 {
            return false;
        }
        let last = moves[n - 1];
        last.is_pass()
    }

    /// A bounded random playout from a position: uniformly random
    /// placements, increasingly sampled from the remaining empty points,
    /// until the game finishes, the move ceiling of twice the board area
    /// is reached, or a turn's retry budget forces a pass. Whatever the
    /// draws, the outcome is the conservative score of some well-formed
    /// position evolved from the input: same komi and board side, and
    /// capture tallies that never shrank — so it is always a score for
    /// one of the stone colors.
    fn super_fast_playout(g: Game) -> (r: GameResultRange)
        requires
            g.wf(),
        ensures
            (r.result matches GameResult::Score(c, _) && (c == Color::Black || c
                == Color::White)),
            (exists|gt: Game|
                #[trigger] gt.wf() && gt.spec_komi() == g.spec_komi()
                    && gt.spec_board().spec_size() == g.spec_board().spec_size()
                    && gt.spec_captured_black() >= g.spec_captured_black()
                    && gt.spec_captured_white() >= g.spec_captured_white() && r
                    == spec_result_range(
                    spec_conservative_classify(
                        gt.spec_board().grid(),
                        gt.ssize(),
                        (gt.spec_board().grid().len() + 1) as nat,
                    ),
                    gt.spec_komi() as int,
                    gt.spec_captured_black() as int,
                    gt.spec_captured_white() as int,
                    0,
                    0,
                    0,
                )),
    {
        let ghost g_in = g;
        let mut g = g;
        let board_size = g.board().size() as usize;
        let ghost bs0 = g.spec_board().spec_size();
        proof {
            assert(board_size * board_size <= 1024) by (nonlinear_arith)
                requires
                    0 <= board_size <= 32,
            ;
        }
        let area = board_size * board_size;
        let limit = 2 * area;
        while !g.finished() && g.move_count() < limit
            invariant
                g.wf(),
                g.spec_board().spec_size() == bs0,
                board_size == bs0,
                5 <= board_size <= 32,
                limit == 2 * (board_size * board_size),
                limit <= 2048,
                g.spec_komi() == g_in.spec_komi(),
                g.spec_captured_black() >= g_in.spec_captured_black(),
                g.spec_captured_white() >= g_in.spec_captured_white(),
            decreases limit - g.spec_moves().len(),
        {
            let turn_color = g.next_turn();
            let mut count: usize = 0;
            let mut non_empty: Vec<usize> = Vec::new();
            let mut moved = false;
            let ghost gsnap = g;
            let half = board_size / 2;
            let third = board_size / 3;
            while count <= half && !moved
                invariant
                    g.wf(),
                    g.spec_board().spec_size() == bs0,
                    board_size == bs0,
                    5 <= board_size <= 32,
                    half == board_size / 2,
                    third == board_size / 3,
                    moved ==> g.spec_moves().len() > gsnap.spec_moves().len(),
                    moved ==> g.spec_moves().len() <= gsnap.spec_moves().len() + 1,
                    !moved ==> Game::same_game(gsnap, g),
                    g.spec_komi() == g_in.spec_komi(),
                    g.spec_captured_black() >= g_in.spec_captured_black(),
                    g.spec_captured_white() >= g_in.spec_captured_white(),
                    forall|k: int|
                        0 <= k < non_empty@.len() ==> #[trigger] non_empty@[k]
                            < g.spec_board().grid().len(),
                decreases half + 1 - count,
            {
                count += 1;
                let coord: Coord;
                if count > third {
                    if non_empty.len() == 0 {
                        let data = g.board().data();
                        let dn = data.len();
                        let mut o: usize = 0;
                        while o < dn
                            invariant
                                0 <= o <= dn,
                                dn == data@.len(),
                                dn == g.spec_board().grid().len(),
                                forall|k: int|
                                    0 <= k < non_empty@.len() ==> #[trigger] non_empty@[k] < dn,
                            decreases dn - o,
                        {
                            if data[o] == Color::Empty {
                                non_empty.push(o);
                            }
                            o += 1;
                        }
                    }
                    if non_empty.len() == 0 {
                        coord = Coord::random(board_size);
                    } else {
                        let idx = (random_u64() % (non_empty.len() as u64)) as usize;
                        coord = g.board().offset_to_coord(non_empty[idx]);
                    }
                } else {
                    coord = Coord::random(board_size);
                }
                let m = Move::Stone(coord, turn_color);
                if Self::is_ok_move(g.board(), &m) {
                    let ghost gpre = g;
                    if g.play(m) {
                        proof {
                            crate::game::lemma_resolve_count_nonneg(
                                gpre.spec_board().grid(),
                                gpre.ssize(),
                                coord,
                                spec_opposite(turn_color),
                                gpre.opp_neighbors(coord, turn_color),
                            );
                        }
                        moved = true;
                    }
                }
            }
            if !moved {
                let ok = g.play(Move::Pass(turn_color));
                assert(ok);
            }
        }
        let result = conservative_floodfill_scorer(&g);
        proof {
            assert(g.wf() && g.spec_komi() == g_in.spec_komi() && g.spec_board().spec_size()
                == g_in.spec_board().spec_size() && g.spec_captured_black()
                >= g_in.spec_captured_black() && g.spec_captured_white()
                >= g_in.spec_captured_white() && result == spec_result_range(
                spec_conservative_classify(
                    g.spec_board().grid(),
                    g.ssize(),
                    (g.spec_board().grid().len() + 1) as nat,
                ),
                g.spec_komi() as int,
                g.spec_captured_black() as int,
                g.spec_captured_white() as int,
                0,
                0,
                0,
            ));
        }
        result
    }
}

} // verus!
