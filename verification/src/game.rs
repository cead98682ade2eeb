//! The rule engine: turn order, capture, suicide and superko enforcement.
//! Every speculative computation happens on a scratch clone of the board;
//! a rejected move leaves the game provably unchanged.

use vstd::prelude::*;

use crate::board::{
    Board, coord_in_bounds, coord_off, filter_matching, lemma_filter_matching_props,
};
use crate::chains::{
    chain_live, chain_set, color_at, coords_adjacent, has_empty_neighbor, lemma_off_coord_inverse,
    off_coord,
};
use crate::color::{Color, spec_opposite};
use crate::coord::{Coord, spec_adjacents};
use crate::moves::Move;
use crate::zobrist::spec_fingerprint;

verus! {

/// The grid with every point of the chain of `color` through `seed`
/// emptied and everything else unchanged.
pub open spec fn spec_empty_chain(grid: Seq<Color>, size: int, color: Color, seed: Coord) -> Seq<
    Color,
> {
    Seq::new(
        grid.len(),
        |o: int|
            if chain_set(grid, size, color, seed).contains(off_coord(size, o)) {
                Color::Empty
            } else {
                grid[o]
            },
    )
}

/// Capture resolution for a stone played at `coord` by the mover whose
/// opponent is `opp`: the listed neighbors are visited in order, and each
/// that still holds an opponent chain whose last liberty is `coord` is
/// removed before the next is examined. Yields the resolved grid and the
/// total number of stones removed.
pub open spec fn spec_resolve_captures(
    grid: Seq<Color>,
    size: int,
    coord: Coord,
    opp: Color,
    adjs: Seq<Coord>,
) -> (Seq<Color>, int)
    decreases adjs.len(),
{
    if adjs.len() == 0 {
        (grid, 0)
    } else {
        let a = adjs[0];
        let step = if color_at(grid, size, a) == opp && !chain_live(grid, size, opp, a, coord) {
            (spec_empty_chain(grid, size, opp, a), chain_set(grid, size, opp, a).len() as int)
        } else {
            (grid, 0int)
        };
        let rest = spec_resolve_captures(step.0, size, coord, opp, adjs.skip(1));
        (rest.0, step.1 + rest.1)
    }
}

/// The nine fixed handicap points of the 19-line board, in the order
/// they are occupied as the handicap grows.
pub open spec fn spec_handicap_coords() -> Seq<Coord> {
    seq![
        Coord { row: 3, col: 3 },
        Coord { row: 15, col: 15 },
        Coord { row: 15, col: 3 },
        Coord { row: 3, col: 15 },
        Coord { row: 9, col: 3 },
        Coord { row: 9, col: 15 },
        Coord { row: 3, col: 9 },
        Coord { row: 15, col: 9 },
        Coord { row: 9, col: 9 },
    ]
}

/// A game in progress: the live board, the bookkeeping of captures and
/// turn order, the move history, and the fingerprints of every position
/// seen so far (the superko memory). Komi is held in half-points, so the
/// customary fractional compensations are exact integers.
#[derive(Debug)]
pub struct Game {
    board: Board,
    komi: i32,
    handicap: u16,
    captured_black: u16,
    captured_white: u16,
    next_turn: Color,
    finished: bool,
    super_ko: Vec<u64>,
    moves: Vec<Move>,
}

impl Game {
    /// The live board.
    pub closed spec fn spec_board(&self) -> Board {
        self.board
    }

    /// The komi, in half-points (positive favors White).
    pub closed spec fn spec_komi(&self) -> i32 {
        self.komi
    }

    /// The handicap stone count.
    pub closed spec fn spec_handicap(&self) -> u16 {
        self.handicap
    }

    /// How many black stones have been captured.
    pub closed spec fn spec_captured_black(&self) -> u16 {
        self.captured_black
    }

    /// How many white stones have been captured.
    pub closed spec fn spec_captured_white(&self) -> u16 {
        self.captured_white
    }

    /// The color to move.
    pub closed spec fn spec_next_turn(&self) -> Color {
        self.next_turn
    }

    /// Whether two consecutive passes have ended the game.
    pub closed spec fn spec_finished(&self) -> bool {
        self.finished
    }

    /// The fingerprints of every position reached by an accepted move.
    pub closed spec fn spec_super_ko(&self) -> Set<u64> {
        self.super_ko@.to_set()
    }

    /// The accepted moves, in order.
    pub closed spec fn spec_moves(&self) -> Seq<Move> {
        self.moves@
    }

    /// The board side as an int, for specification arithmetic.
    pub open spec fn ssize(&self) -> int {
        self.spec_board().spec_size() as int
    }

    /// Well-formedness: a well-formed board and a stone color to move.
    pub open spec fn wf(&self) -> bool {
        &&& self.spec_board().wf()
        &&& (self.spec_next_turn() == Color::Black || self.spec_next_turn() == Color::White)
    }

    /// The two games agree on every observable part of their state.
    pub open spec fn same_game(a: Game, b: Game) -> bool {
        &&& a.spec_board().spec_size() == b.spec_board().spec_size()
        &&& a.spec_board().grid() == b.spec_board().grid()
        &&& a.spec_board().spec_zobrist() == b.spec_board().spec_zobrist()
        &&& a.spec_komi() == b.spec_komi()
        &&& a.spec_handicap() == b.spec_handicap()
        &&& a.spec_captured_black() == b.spec_captured_black()
        &&& a.spec_captured_white() == b.spec_captured_white()
        &&& a.spec_next_turn() == b.spec_next_turn()
        &&& a.spec_finished() == b.spec_finished()
        &&& a.spec_super_ko() == b.spec_super_ko()
        &&& a.spec_moves() == b.spec_moves()
    }

    /// The neighbors of `coord` that hold the opponent of `c`, in the
    /// neighborhood's fixed order, on the live board.
    pub open spec fn opp_neighbors(&self, coord: Coord, c: Color) -> Seq<Coord> {
        filter_matching(
            self.spec_board().grid(),
            self.ssize(),
            spec_adjacents(coord, self.spec_board().spec_size()),
            spec_opposite(c),
        )
    }

    /// The capture resolution of playing `c` at `coord` on the live
    /// board: the scratch grid after captures, and the count removed.
    pub open spec fn stone_result(&self, coord: Coord, c: Color) -> (Seq<Color>, int) {
        spec_resolve_captures(
            self.spec_board().grid(),
            self.ssize(),
            coord,
            spec_opposite(c),
            self.opp_neighbors(coord, c),
        )
    }

    /// The fingerprint the position would have after captures are
    /// resolved and the stone is placed.
    pub open spec fn stone_fingerprint(&self, coord: Coord, c: Color) -> u64 {
        spec_fingerprint(
            self.spec_board().spec_size(),
            self.stone_result(coord, c).0.update(coord_off(coord, self.ssize()), c),
        )
    }

    /// When a stone move is accepted: the game is unfinished, it is the
    /// mover's turn, the point is empty, the placement keeps a liberty
    /// after captures (an empty neighbor or a live chain), and the
    /// resulting position repeats no position seen before.
    pub open spec fn stone_accepted(&self, coord: Coord, c: Color) -> bool {
        &&& !self.spec_finished()
        &&& c == self.spec_next_turn()
        &&& color_at(self.spec_board().grid(), self.ssize(), coord) == Color::Empty
        &&& (has_empty_neighbor(self.stone_result(coord, c).0, self.ssize(), coord) || chain_live(
            self.stone_result(coord, c).0,
            self.ssize(),
            c,
            coord,
            coord,
        ))
        &&& !self.spec_super_ko().contains(self.stone_fingerprint(coord, c))
    }

    /// When a pass is accepted: the game is unfinished and it is the
    /// passer's turn.
    pub open spec fn pass_accepted(&self, c: Color) -> bool {
        !self.spec_finished() && c == self.spec_next_turn()
    }

    /// Whether `play` accepts the move `m` in state `g`.
    pub open spec fn move_accepted(g: Game, m: Move) -> bool {
        match m {
            Move::Pass(c) => g.pass_accepted(c),
            Move::Stone(co, c) => g.stone_accepted(co, c),
        }
    }

    /// What every accepted move does: komi, handicap and board size are
    /// kept; the turn flips; the move is appended to the history; and the
    /// new position's fingerprint joins the superko memory.
    pub open spec fn commit_outcome(pre: Game, post: Game, m: Move) -> bool {
        &&& post.spec_board().spec_size() == pre.spec_board().spec_size()
        &&& post.spec_komi() == pre.spec_komi()
        &&& post.spec_handicap() == pre.spec_handicap()
        &&& post.spec_next_turn() == spec_opposite(pre.spec_next_turn())
        &&& post.spec_moves() == pre.spec_moves().push(m)
        &&& post.spec_super_ko() == pre.spec_super_ko().insert(post.spec_board().spec_zobrist())
    }

    /// What an accepted pass does: the board and the captured counts are
    /// untouched, and the game finishes exactly when the previous
    /// recorded move was also a pass.
    pub open spec fn pass_outcome(pre: Game, post: Game) -> bool {
        &&& post.spec_board() == pre.spec_board()
        &&& post.spec_captured_black() == pre.spec_captured_black()
        &&& post.spec_captured_white() == pre.spec_captured_white()
        &&& post.spec_finished() == (pre.spec_moves().len() > 0 && (pre.spec_moves().last()
            matches Move::Pass(_)))
    }

    /// A counter after crediting `cap` captured stones: the exact sum,
    /// saturating at the counter's width.
    pub open spec fn credited(counter: u16, cap: int) -> int {
        if counter + cap <= u16::MAX {
            counter + cap
        } else {
            u16::MAX as int
        }
    }

    /// What an accepted stone move does: the board becomes the scratch
    /// board (captures resolved, stone placed), the game stays
    /// unfinished, and the removed stones are credited to the counter of
    /// the color taken off the board.
    pub open spec fn stone_outcome(pre: Game, post: Game, coord: Coord, c: Color) -> bool {
        let cap = pre.stone_result(coord, c).1;
        &&& post.spec_board().grid() == pre.stone_result(coord, c).0.update(
            coord_off(coord, pre.ssize()),
            c,
        )
        &&& !post.spec_finished()
        &&& (c == Color::Black ==> post.spec_captured_white() == Game::credited(
            pre.spec_captured_white(),
            cap,
        ) && post.spec_captured_black() == pre.spec_captured_black())
        &&& (c == Color::White ==> post.spec_captured_black() == Game::credited(
            pre.spec_captured_black(),
            cap,
        ) && post.spec_captured_white() == pre.spec_captured_white())
    }

    /// The whole effect of an accepted move.
    pub open spec fn play_outcome(pre: Game, post: Game, m: Move) -> bool {
        &&& Game::commit_outcome(pre, post, m)
        &&& match m {
            Move::Pass(_) => Game::pass_outcome(pre, post),
            Move::Stone(co, c) => Game::stone_outcome(pre, post, co, c),
        }
    }

    /// A fresh game: an empty board of the given side with the first
    /// `handicap` handicap stones placed (handicap is only defined on the
    /// 19-line board), White to move when handicapped, Black otherwise.
    pub fn new(board_size: usize, komi: i32, handicap: usize) -> (r: Game)
        requires
            5 <= board_size <= 32,
            handicap == 0 || (board_size == 19 && handicap <= 9),
        ensures
            r.wf(),
            r.spec_board().spec_size() == board_size,
            r.spec_komi() == komi,
            r.spec_handicap() == handicap,
            r.spec_captured_black() == 0,
            r.spec_captured_white() == 0,
            r.spec_next_turn() == if handicap > 0 {
                Color::White
            } else {
                Color::Black
            },
            !r.spec_finished(),
            r.spec_super_ko() == Set::<u64>::empty(),
            r.spec_moves() == Seq::<Move>::empty(),
            forall|c: Coord|
                #[trigger] coord_in_bounds(c, board_size as int) ==> color_at(
                    r.spec_board().grid(),
                    board_size as int,
                    c,
                ) == if exists|j: int| 0 <= j < handicap && spec_handicap_coords()[j] == c {
                    Color::Black
                } else {
                    Color::Empty
                },
    {
        let mut le_board = Board::new(board_size);
        proof {
            assert forall|c: Coord| #[trigger]
                coord_in_bounds(c, board_size as int) implies color_at(
                le_board.grid(),
                board_size as int,
                c,
            ) == Color::Empty by {
                assert(0 <= coord_off(c, board_size as int) < board_size * board_size) by (
                nonlinear_arith)
                    requires
                        0 <= c.row < board_size,
                        0 <= c.col < board_size,
                ;
            }
        }
        if handicap > 0 {
            Self::set_handicap_stones(&mut le_board, handicap);
        }
        let g = Game {
            board: le_board,
            komi,
            handicap: handicap as u16,
            captured_black: 0,
            captured_white: 0,
            next_turn: if handicap > 0 {
                Color::White
            } else {
                Color::Black
            },
            finished: false,
            super_ko: Vec::new(),
            moves: Vec::new(),
        };
        proof {
            assert(g.spec_super_ko() =~= Set::<u64>::empty());
            assert(g.spec_moves() =~= Seq::<Move>::empty());
        }
        g
    }

    /// A fresh game seeded from a parsed game record's settings.
    pub fn new_for_gametree(gt: &crate::gametree::GameTree) -> (r: Game)
        requires
            5 <= gt.spec_board_size() <= 32,
            gt.spec_handicap() == 0 || (gt.spec_board_size() == 19 && gt.spec_handicap() <= 9),
        ensures
            r.wf(),
            r.spec_board().spec_size() == gt.spec_board_size(),
            r.spec_komi() == gt.spec_komi(),
            r.spec_handicap() == gt.spec_handicap(),
            r.spec_captured_black() == 0,
            r.spec_captured_white() == 0,
            r.spec_next_turn() == if gt.spec_handicap() > 0 {
                Color::White
            } else {
                Color::Black
            },
            !r.spec_finished(),
            r.spec_super_ko() == Set::<u64>::empty(),
            r.spec_moves() == Seq::<Move>::empty(),
            forall|c: Coord|
                #[trigger] coord_in_bounds(c, gt.spec_board_size() as int) ==> color_at(
                    r.spec_board().grid(),
                    gt.spec_board_size() as int,
                    c,
                ) == if exists|j: int|
                    0 <= j < gt.spec_handicap() && spec_handicap_coords()[j] == c {
                    Color::Black
                } else {
                    Color::Empty
                },
    {
        Self::new(gt.board_size(), gt.komi(), gt.handicap() as usize)
    }

    /// The fixed handicap points of a board: the nine star points on the
    /// 19-line board, nothing on any other size.
    pub fn handicap_coords_for(board_size: u8) -> (r: Vec<Coord>)
        ensures
            board_size == 19 ==> r@ == spec_handicap_coords(),
            board_size != 19 ==> r@.len() == 0,
    {
        let mut v: Vec<Coord> = Vec::new();
        if board_size == 19 {
            v.push(Coord::new(3, 3));
            v.push(Coord::new(15, 15));
            v.push(Coord::new(15, 3));
            v.push(Coord::new(3, 15));
            v.push(Coord::new(9, 3));
            v.push(Coord::new(9, 15));
            v.push(Coord::new(3, 9));
            v.push(Coord::new(15, 9));
            v.push(Coord::new(9, 9));
            proof {
                assert(v@ =~= spec_handicap_coords());
            }
        }
        v
    }

    /// Places the first `handicap` handicap stones as Black stones.
    fn set_handicap_stones(board: &mut Board, handicap: usize) -> (nothing: ())
        requires
            old(board).wf(),
            old(board).spec_size() == 19,
            1 <= handicap <= 9,
        ensures
            final(board).wf(),
            final(board).spec_size() == old(board).spec_size(),
            forall|c: Coord|
                #[trigger] coord_in_bounds(c, 19) ==> color_at(final(board).grid(), 19, c) == (
                if exists|j: int| 0 <= j < handicap && spec_handicap_coords()[j] == c {
                    Color::Black
                } else {
                    color_at(old(board).grid(), 19, c)
                }),
    {
        let coords = Self::handicap_coords_for(board.size());
        let mut i: usize = 0;
        while i < handicap
            invariant
                0 <= i <= handicap <= 9,
                coords@ == spec_handicap_coords(),
                board.wf(),
                board.spec_size() == 19,
                board.grid().len() == old(board).grid().len(),
                forall|c: Coord|
                    #[trigger] coord_in_bounds(c, 19) ==> color_at(board.grid(), 19, c) == (
                    if exists|j: int| 0 <= j < i && spec_handicap_coords()[j] == c {
                        Color::Black
                    } else {
                        color_at(old(board).grid(), 19, c)
                    }),
            decreases handicap - i,
        {
            let co = coords[i];
            let ghost before = board.grid();
            board.set_move(Move::Stone(co, Color::Black));
            proof {
                assert forall|c: Coord| #[trigger] coord_in_bounds(c, 19) implies color_at(
                    board.grid(),
                    19,
                    c,
                ) == (if exists|j: int| 0 <= j < i + 1 && spec_handicap_coords()[j] == c {
                    Color::Black
                } else {
                    color_at(old(board).grid(), 19, c)
                }) by {
                    assert(0 <= coord_off(c, 19) < 361);
                    assert(0 <= coord_off(co, 19) < 361);
                    if c != co && coord_off(c, 19) == coord_off(co, 19) {
                        crate::chains::lemma_coord_off_injective(c, co, 19);
                    }
                    if c == co {
                        assert(spec_handicap_coords()[i as int] == c);
                    }
                }
            }
            i += 1;
        }
    }

    /// The live board.
    pub fn board(&self) -> (r: &Board)
        ensures
            *r == self.spec_board(),
    {
        &self.board
    }

    /// The komi, in half-points.
    pub fn komi(&self) -> (r: i32)
        ensures
            r == self.spec_komi(),
    {
        self.komi
    }

    /// The handicap stone count.
    pub fn handicap(&self) -> (r: u16)
        ensures
            r == self.spec_handicap(),
    {
        self.handicap
    }

    /// The color to move.
    pub fn next_turn(&self) -> (r: Color)
        ensures
            r == self.spec_next_turn(),
    {
        self.next_turn
    }

    /// The accepted moves, in order.
    pub fn moves(&self) -> (r: &Vec<Move>)
        ensures
            r@ == self.spec_moves(),
    {
        &self.moves
    }

    /// How many moves have been accepted.
    pub fn move_count(&self) -> (r: usize)
        ensures
            r == self.spec_moves().len(),
    {
        self.moves.len()
    }

    /// Whether two consecutive passes have ended the game.
    pub fn finished(&self) -> (r: bool)
        ensures
            r == self.spec_finished(),
    {
        self.finished
    }

    /// How many stones of `color` have been captured; defined for the
    /// two stone colors only.
    pub fn captured_count(&self, color: Color) -> (r: u16)
        requires
            color == Color::Black || color == Color::White,
        ensures
            r == if color == Color::Black {
                self.spec_captured_black()
            } else {
                self.spec_captured_white()
            },
    {
        match color {
            Color::White => self.captured_white,
            Color::Black => self.captured_black,
            _ => unreached(),
        }
    }

    /// The captured counts as (black, white).
    pub fn captured(&self) -> (r: (u16, u16))
        ensures
            r.0 == self.spec_captured_black(),
            r.1 == self.spec_captured_white(),
    {
        (self.captured_black, self.captured_white)
    }

    /// Commits an already-validated move: flips the turn, credits the
    /// captured stones to the color just taken off the board, marks the
    /// game finished on the second consecutive pass, records the move,
    /// and remembers the live board's fingerprint.
    fn state_update_for_move(&mut self, m: &Move, captured: u16) -> (nothing: ())
        requires
            old(self).wf(),
        ensures
            final(self).wf(),
            final(self).spec_board() == old(self).spec_board(),
            final(self).spec_komi() == old(self).spec_komi(),
            final(self).spec_handicap() == old(self).spec_handicap(),
            final(self).spec_next_turn() == spec_opposite(old(self).spec_next_turn()),
            old(self).spec_next_turn() == Color::Black ==> final(self).spec_captured_white() == (
            if old(self).spec_captured_white() + captured <= u16::MAX {
                (old(self).spec_captured_white() + captured) as u16
            } else {
                u16::MAX
            }) && final(self).spec_captured_black() == old(self).spec_captured_black(),
            old(self).spec_next_turn() == Color::White ==> final(self).spec_captured_black() == (
            if old(self).spec_captured_black() + captured <= u16::MAX {
                (old(self).spec_captured_black() + captured) as u16
            } else {
                u16::MAX
            }) && final(self).spec_captured_white() == old(self).spec_captured_white(),
            final(self).spec_finished() == (old(self).spec_finished() || (*m matches Move::Pass(_)
                && old(self).spec_moves().len() > 0 && old(self).spec_moves().last()
                matches Move::Pass(_))),
            final(self).spec_moves() == old(self).spec_moves().push(*m),
            final(self).spec_super_ko() == old(self).spec_super_ko().insert(
                old(self).spec_board().spec_zobrist(),
            ),
    {
        let nt = self.next_turn.opposite();
        self.next_turn = nt;
        if nt == Color::White {
            self.captured_white = self.captured_white.saturating_add(captured);
        } else {
            self.captured_black = self.captured_black.saturating_add(captured);
        }
        if m.is_pass() {
            if self.moves.len() > 0 {
                let lm = self.moves[self.moves.len() - 1];
                if lm.is_pass() {
                    self.finished = true;
                }
            }
        }
        self.moves.push(*m);
        let fp = self.board.zobrist();
        let ghost sk0 = self.super_ko@;
        self.super_ko.push(fp);
        proof {
            assert forall|x: u64| #[trigger]
                self.super_ko@.contains(x) implies sk0.contains(x) || x == fp by {
                let i = choose|i: int| 0 <= i < self.super_ko@.len() && self.super_ko@[i] == x;
                if i < sk0.len() {
                    assert(sk0[i] == x);
                }
            }
            assert forall|x: u64| sk0.contains(x) implies #[trigger] self.super_ko@.contains(
                x,
            ) by {
                let i = choose|i: int| 0 <= i < sk0.len() && sk0[i] == x;
                assert(self.super_ko@[i] == x);
            }
            assert(self.super_ko@[self.super_ko@.len() - 1] == fp);
            assert(self.spec_super_ko() =~= sk0.to_set().insert(fp));
        }
    }
}

/// Linear membership scan over the fingerprint list.
fn fingerprints_contain(v: &Vec<u64>, x: u64) -> (r: bool)
    ensures
        r == v@.contains(x),
{
    let n = v.len();
    let mut i: usize = 0;
    while i < n
        invariant
            0 <= i <= n,
            n == v@.len(),
            forall|j: int| 0 <= j < i ==> v@[j] != x,
        decreases n - i,
    {
        if v[i] == x {
            return true;
        }
        i += 1;
    }
    false
}

impl Game {
    /// Attempts one move. A pass is accepted exactly when the game is
    /// unfinished and it is the passer's turn; a stone move additionally
    /// needs an empty point, a liberty after captures are resolved on a
    /// scratch board, and a resulting position that repeats no earlier
    /// one. An accepted move commits the scratch board, flips the turn,
    /// credits captures, records the move and its fingerprint, and ends
    /// the game on the second consecutive pass; a rejected move changes
    /// nothing at all.
    #[verifier::rlimit(100)]
    pub fn play(&mut self, m: Move) -> (r: bool)
        requires
            old(self).wf(),
            m matches Move::Stone(co, _) ==> coord_in_bounds(co, old(self).ssize()),
        ensures
            final(self).wf(),
            r == Game::move_accepted(*old(self), m),
            !r ==> Game::same_game(*old(self), *final(self)),
            r ==> Game::play_outcome(*old(self), *final(self), m),
    {
        if self.finished {
            return false;
        }
        match m {
            Move::Pass(c) => {
                if c != self.next_turn {
                    return false;
                }
                self.state_update_for_move(&m, 0);
                true
            },
            Move::Stone(coord, color) => {
                if color != self.next_turn {
                    return false;
                }
                if self.board.get(&coord) != Color::Empty {
                    return false;
                }
                let ghost g0 = self.board.grid();
                let ghost s = self.ssize();
                proof {
                    assert(25 <= s * s <= 1024) by (nonlinear_arith)
                        requires
                            5 <= s <= 32,
                    ;
                }
                let mut mock_board = self.board.clone();
                let opposite_color = self.next_turn.opposite();
                let mut captured: usize = 0;
                let adjs = mock_board.adjacents_by_color(&coord, &opposite_color);
                proof {
                    lemma_filter_matching_props(
                        g0,
                        s,
                        spec_adjacents(coord, self.spec_board().spec_size()),
                        opposite_color,
                    );
                    assert(adjs@ == old(self).opp_neighbors(coord, color));
                    assert(adjs@.len() <= 4);
                    assert(adjs@.skip(0) =~= adjs@);
                }
                let n_adj = adjs.len();
                let mut i: usize = 0;
                while i < n_adj
                    invariant
                        0 <= i <= n_adj,
                        n_adj == adjs@.len() <= 4,
                        s == old(self).ssize(),
                        25 <= s * s <= 1024,
                        g0 == old(self).spec_board().grid(),
                        coord_in_bounds(coord, s),
                        opposite_color == spec_opposite(color),
                        opposite_color == Color::Black || opposite_color == Color::White,
                        mock_board.wf(),
                        mock_board.spec_size() == old(self).spec_board().spec_size(),
                        mock_board.grid().len() == g0.len(),
                        forall|k: int|
                            0 <= k < adjs@.len() ==> coord_in_bounds(#[trigger] adjs@[k], s),
                        captured <= i * 1024,
                        spec_resolve_captures(g0, s, coord, opposite_color, adjs@) == {
                            let rc = spec_resolve_captures(
                                mock_board.grid(),
                                s,
                                coord,
                                opposite_color,
                                adjs@.skip(i as int),
                            );
                            (rc.0, captured + rc.1)
                        },
                    decreases n_adj - i,
                {
                    let adj = adjs[i];
                    let ghost gi = mock_board.grid();
                    let ghost rest = adjs@.skip(i as int);
                    proof {
                        assert(rest[0] == adjs@[i as int]);
                        assert(rest.skip(1) =~= adjs@.skip(i + 1));
                    }
                    if mock_board.get(&adj) == opposite_color {
                        if mock_board.is_given_coord_last_liberty_for_adj_chain(
                            coord,
                            adj,
                            opposite_color,
                        ) {
                            let n = mock_board.remove_chain(adj, opposite_color);
                            proof {
                                let ch = chain_set(gi, s, opposite_color, adj);
                                assert(mock_board.grid() =~= spec_empty_chain(
                                    gi,
                                    s,
                                    opposite_color,
                                    adj,
                                )) by {
                                    assert forall|o: int|
                                        0 <= o < gi.len() implies mock_board.grid()[o]
                                        == spec_empty_chain(gi, s, opposite_color, adj)[o] by {
                                        lemma_off_coord_inverse(s, o);
                                        let c = off_coord(s, o);
                                        assert(color_at(mock_board.grid(), s, c)
                                            == if ch.contains(c) {
                                            Color::Empty
                                        } else {
                                            color_at(gi, s, c)
                                        });
                                    }
                                }
                            }
                            captured = captured + n;
                        }
                    }
                    i += 1;
                }
                proof {
                    assert(adjs@.skip(n_adj as int) =~= Seq::<Coord>::empty());
                    assert(old(self).stone_result(coord, color) == (
                        mock_board.grid(),
                        captured as int,
                    ));
                }
                let ghost g_cap = mock_board.grid();
                let empties = mock_board.adjacents_by_color(&coord, &Color::Empty);
                proof {
                    lemma_filter_matching_props(
                        g_cap,
                        s,
                        spec_adjacents(coord, self.spec_board().spec_size()),
                        Color::Empty,
                    );
                    crate::chains::lemma_adjacents_sound(coord, self.spec_board().spec_size());
                    if empties@.len() > 0 {
                        assert(spec_adjacents(coord, self.spec_board().spec_size()).contains(
                            empties@[0],
                        ));
                        let k = choose|k: int|
                            0 <= k < spec_adjacents(coord, self.spec_board().spec_size()).len()
                                && spec_adjacents(coord, self.spec_board().spec_size())[k]
                                == empties@[0];
                        assert(coords_adjacent(coord, empties@[0]));
                        assert(has_empty_neighbor(g_cap, s, coord));
                    }
                    if has_empty_neighbor(g_cap, s, coord) {
                        let e = choose|e: Coord|
                            coords_adjacent(coord, e) && coord_in_bounds(e, s) && color_at(
                                g_cap,
                                s,
                                e,
                            ) == Color::Empty;
                        crate::chains::lemma_adjacents_complete(coord, self.spec_board().spec_size(), e);
                        let j = choose|j: int|
                            0 <= j < spec_adjacents(coord, self.spec_board().spec_size()).len()
                                && spec_adjacents(coord, self.spec_board().spec_size())[j] == e;
                        assert(empties@.len() > 0);
                    }
                }
                let lives = empties.len() > 0 || mock_board.given_move_will_live(m);
                if !lives {
                    return false;
                }
                mock_board.set_move(m);
                let fp = mock_board.zobrist();
                proof {
                    assert(fp == old(self).stone_fingerprint(coord, color));
                }
                if fingerprints_contain(&self.super_ko, fp) {
                    return false;
                }
                self.board = mock_board;
                self.state_update_for_move(&m, captured as u16);
                true
            },
        }
    }
}

impl Clone for Game {
    /// An independent deep copy, observably identical to the original.
    fn clone(&self) -> (r: Game)
        ensures
            Game::same_game(*self, r),
    {
        let r = Game {
            board: self.board.clone(),
            komi: self.komi,
            handicap: self.handicap,
            captured_black: self.captured_black,
            captured_white: self.captured_white,
            next_turn: self.next_turn,
            finished: self.finished,
            super_ko: self.super_ko.clone(),
            moves: self.moves.clone(),
        };
        proof {
            assert(r.super_ko@ =~= self.super_ko@);
            assert(r.moves@ =~= self.moves@);
        }
        r
    }
}


/// Capture resolution only removes stones: every point either keeps its
/// color or becomes empty, and the grid keeps its length.
pub proof fn lemma_resolve_monotone(
    grid: Seq<Color>,
    size: int,
    coord: Coord,
    opp: Color,
    adjs: Seq<Coord>,
)
    ensures
        spec_resolve_captures(grid, size, coord, opp, adjs).0.len() == grid.len(),
        forall|o: int|
            0 <= o < grid.len() ==> #[trigger] spec_resolve_captures(
                grid,
                size,
                coord,
                opp,
                adjs,
            ).0[o] == grid[o] || spec_resolve_captures(grid, size, coord, opp, adjs).0[o]
                == Color::Empty,
    decreases adjs.len(),
{
    if adjs.len() > 0 {
        let a = adjs[0];
        let step = if color_at(grid, size, a) == opp && !chain_live(grid, size, opp, a, coord) {
            spec_empty_chain(grid, size, opp, a)
        } else {
            grid
        };
        lemma_resolve_monotone(step, size, coord, opp, adjs.skip(1));
    }
}

/// Capture resolution never counts a negative number of stones.
pub proof fn lemma_resolve_count_nonneg(
    grid: Seq<Color>,
    size: int,
    coord: Coord,
    opp: Color,
    adjs: Seq<Coord>,
)
    ensures
        spec_resolve_captures(grid, size, coord, opp, adjs).1 >= 0,
    decreases adjs.len(),
{
    if adjs.len() > 0 {
        let a = adjs[0];
        let step = if color_at(grid, size, a) == opp && !chain_live(grid, size, opp, a, coord) {
            spec_empty_chain(grid, size, opp, a)
        } else {
            grid
        };
        lemma_resolve_count_nonneg(step, size, coord, opp, adjs.skip(1));
    }
}

/// A capturing move empties every point of the captured chain, and the
/// count of removed stones covers that chain exactly when it is the only
/// opponent chain adjacent to the played point: stated for the first
/// neighbor that capture resolution visits.
pub proof fn lemma_capture_empties_chain(
    grid: Seq<Color>,
    size: int,
    coord: Coord,
    opp: Color,
    adjs: Seq<Coord>,
)
    requires
        1 <= size <= 255,
        grid.len() == size * size,
        adjs.len() > 0,
        color_at(grid, size, adjs[0]) == opp,
        !chain_live(grid, size, opp, adjs[0], coord),
    ensures
        forall|t: Coord|
            #[trigger] chain_set(grid, size, opp, adjs[0]).contains(t) ==> color_at(
                spec_resolve_captures(grid, size, coord, opp, adjs).0,
                size,
                t,
            ) == Color::Empty,
        spec_resolve_captures(grid, size, coord, opp, adjs).1 >= chain_set(
            grid,
            size,
            opp,
            adjs[0],
        ).len(),
        adjs.len() == 1 ==> spec_resolve_captures(grid, size, coord, opp, adjs).1 == chain_set(
            grid,
            size,
            opp,
            adjs[0],
        ).len(),
{
    let ch = chain_set(grid, size, opp, adjs[0]);
    let step = spec_empty_chain(grid, size, opp, adjs[0]);
    let rest = spec_resolve_captures(step, size, coord, opp, adjs.skip(1));
    lemma_resolve_monotone(step, size, coord, opp, adjs.skip(1));
    lemma_resolve_count_nonneg(step, size, coord, opp, adjs.skip(1));
    assert forall|t: Coord| #[trigger] ch.contains(t) implies color_at(
        spec_resolve_captures(grid, size, coord, opp, adjs).0,
        size,
        t,
    ) == Color::Empty by {
        let p = choose|p: Seq<Coord>|
            crate::chains::is_path(grid, size, opp, crate::chains::no_block(), p) && p.first()
                == adjs[0] && p.last() == t;
        assert(coord_in_bounds(t, size));
        let o = coord_off(t, size);
        assert(0 <= t.row * size + t.col < size * size) by (nonlinear_arith)
            requires
                0 <= t.row < size,
                0 <= t.col < size,
        ;
        assert(o == t.row * size + t.col);
        lemma_off_coord_inverse(size, o);
        crate::chains::lemma_coord_off_injective(off_coord(size, o), t, size);
        assert(step[o] == Color::Empty);
    }
    if adjs.len() == 1 {
        assert(spec_resolve_captures(step, size, coord, opp, adjs.skip(1)).1 == 0);
    }
}

/// Games that agree on every observable part agree on move acceptance
/// and capture resolution: both are functions of the board, the turn,
/// the finished flag and the superko memory alone.
pub proof fn lemma_same_game_acceptance(a: Game, b: Game, coord: Coord, c: Color)
    requires
        Game::same_game(a, b),
    ensures
        a.stone_accepted(coord, c) == b.stone_accepted(coord, c),
        a.stone_result(coord, c) == b.stone_result(coord, c),
{
    assert(a.spec_board().spec_size() == b.spec_board().spec_size());
    assert(a.spec_board().grid() == b.spec_board().grid());
    assert(a.opp_neighbors(coord, c) == b.opp_neighbors(coord, c));
    assert(a.stone_result(coord, c) == b.stone_result(coord, c));
    assert(a.stone_fingerprint(coord, c) == b.stone_fingerprint(coord, c));
}

/// Capture resolution over neighbors that hold no opponent stone
/// changes nothing and counts nothing.
proof fn lemma_resolve_skips_non_opp(
    grid: Seq<Color>,
    size: int,
    coord: Coord,
    opp: Color,
    adjs: Seq<Coord>,
)
    requires
        forall|j: int| 0 <= j < adjs.len() ==> color_at(grid, size, #[trigger] adjs[j]) != opp,
    ensures
        spec_resolve_captures(grid, size, coord, opp, adjs) == (grid, 0int),
    decreases adjs.len(),
{
    if adjs.len() > 0 {
        assert(forall|j: int|
            0 <= j < adjs.skip(1).len() ==> color_at(grid, size, #[trigger] adjs.skip(1)[j])
                != opp);
        lemma_resolve_skips_non_opp(grid, size, coord, opp, adjs.skip(1));
    }
}

/// A capturing move whose opposite-colored neighbors all belong to one
/// chain empties exactly that chain and counts exactly its size: the
/// resolved grid is the grid with the chain emptied, and the count is the
/// chain's cardinality.
pub proof fn lemma_single_chain_capture(
    grid: Seq<Color>,
    size: int,
    coord: Coord,
    opp: Color,
    adjs: Seq<Coord>,
)
    requires
        1 <= size <= 255,
        grid.len() == size * size,
        opp != Color::Empty,
        adjs.len() > 0,
        forall|j: int| 0 <= j < adjs.len() ==> coord_in_bounds(#[trigger] adjs[j], size),
        color_at(grid, size, adjs[0]) == opp,
        !chain_live(grid, size, opp, adjs[0], coord),
        forall|j: int|
            0 < j < adjs.len() && color_at(grid, size, #[trigger] adjs[j]) == opp ==> chain_set(
                grid,
                size,
                opp,
                adjs[0],
            ).contains(adjs[j]),
    ensures
        spec_resolve_captures(grid, size, coord, opp, adjs) == (
            spec_empty_chain(grid, size, opp, adjs[0]),
            chain_set(grid, size, opp, adjs[0]).len() as int,
        ),
{
    let ch = chain_set(grid, size, opp, adjs[0]);
    let g1 = spec_empty_chain(grid, size, opp, adjs[0]);
    assert forall|j: int| 0 <= j < adjs.skip(1).len() implies color_at(
        g1,
        size,
        #[trigger] adjs.skip(1)[j],
    ) != opp by {
        let a = adjs.skip(1)[j];
        assert(a == adjs[j + 1]);
        let o = coord_off(a, size);
        assert(0 <= a.row * size + a.col < size * size) by (nonlinear_arith)
            requires
                0 <= a.row < size,
                0 <= a.col < size,
        ;
        assert(o == a.row * size + a.col);
        lemma_off_coord_inverse(size, o);
        crate::chains::lemma_coord_off_injective(off_coord(size, o), a, size);
        if color_at(grid, size, a) == opp {
            assert(ch.contains(a));
            assert(g1[o] == Color::Empty);
        } else {
            assert(!ch.contains(a)) by {
                if ch.contains(a) {
                    let p = choose|p: Seq<Coord>|
                        crate::chains::is_path(grid, size, opp, crate::chains::no_block(), p)
                            && p.first() == adjs[0] && p.last() == a;
                    if p.len() == 1 {
                        assert(a == adjs[0]);
                    }
                }
            }
            assert(g1[o] == grid[o]);
        }
    }
    lemma_resolve_skips_non_opp(g1, size, coord, opp, adjs.skip(1));
}

/// A capturing move empties every point of the captured chain and
/// counts exactly the chain's size, which `play` then credits to the
/// capturing color's counter: stated for a stone move whose
/// opposite-colored neighbors all belong to one chain that the played
/// point deprives of its last liberty.
pub proof fn lemma_capturing_move_credits_chain(g: Game, coord: Coord, c: Color)
    requires
        g.wf(),
        coord_in_bounds(coord, g.ssize()),
        c == Color::Black || c == Color::White,
        g.opp_neighbors(coord, c).len() > 0,
        !chain_live(
            g.spec_board().grid(),
            g.ssize(),
            spec_opposite(c),
            g.opp_neighbors(coord, c)[0],
            coord,
        ),
        forall|j: int|
            0 < j < g.opp_neighbors(coord, c).len() ==> chain_set(
                g.spec_board().grid(),
                g.ssize(),
                spec_opposite(c),
                g.opp_neighbors(coord, c)[0],
            ).contains(#[trigger] g.opp_neighbors(coord, c)[j]),
    ensures
        g.stone_result(coord, c).1 == chain_set(
            g.spec_board().grid(),
            g.ssize(),
            spec_opposite(c),
            g.opp_neighbors(coord, c)[0],
        ).len(),
        forall|t: Coord|
            #[trigger] chain_set(
                g.spec_board().grid(),
                g.ssize(),
                spec_opposite(c),
                g.opp_neighbors(coord, c)[0],
            ).contains(t) ==> color_at(g.stone_result(coord, c).0, g.ssize(), t) == Color::Empty,
{
    let grid = g.spec_board().grid();
    let s = g.ssize();
    let opp = spec_opposite(c);
    let adjs = g.opp_neighbors(coord, c);
    let ch = chain_set(grid, s, opp, adjs[0]);
    lemma_filter_matching_props(grid, s, spec_adjacents(coord, g.spec_board().spec_size()), opp);
    crate::chains::lemma_adjacents_sound(coord, g.spec_board().spec_size());
    assert(s * s == grid.len()) by (nonlinear_arith)
        requires
            grid.len() == g.spec_board().spec_size() * g.spec_board().spec_size(),
            s == g.spec_board().spec_size() as int,
    ;
    assert forall|j: int| 0 <= j < adjs.len() implies coord_in_bounds(#[trigger] adjs[j], s)
        && color_at(grid, s, adjs[j]) == opp by {
        assert(spec_adjacents(coord, g.spec_board().spec_size()).contains(adjs[j]));
        let k = choose|k: int|
            0 <= k < spec_adjacents(coord, g.spec_board().spec_size()).len() && spec_adjacents(
                coord,
                g.spec_board().spec_size(),
            )[k] == adjs[j];
    }
    lemma_single_chain_capture(grid, s, coord, opp, adjs);
    assert forall|t: Coord| #[trigger] ch.contains(t) implies color_at(
        g.stone_result(coord, c).0,
        s,
        t,
    ) == Color::Empty by {
        let p = choose|p: Seq<Coord>|
            crate::chains::is_path(grid, s, opp, crate::chains::no_block(), p) && p.first()
                == adjs[0] && p.last() == t;
        assert(coord_in_bounds(t, s));
        let o = coord_off(t, s);
        assert(0 <= t.row * s + t.col < s * s) by (nonlinear_arith)
            requires
                0 <= t.row < s,
                0 <= t.col < s,
        ;
        assert(o == t.row * s + t.col);
        lemma_off_coord_inverse(s, o);
        crate::chains::lemma_coord_off_injective(off_coord(s, o), t, s);
        assert(g.stone_result(coord, c).0[o] == Color::Empty);
    }
}

/// A move that would leave the mover's own new group without a liberty,
/// and does not itself capture anything, is not accepted; by `play`'s
/// contract a rejected move changes nothing.
pub proof fn lemma_suicide_rejected(g: Game, coord: Coord, c: Color)
    requires
        coord_in_bounds(coord, g.ssize()),
        g.stone_result(coord, c) == (g.spec_board().grid(), 0int),
        !chain_live(g.spec_board().grid(), g.ssize(), c, coord, coord),
    ensures
        !g.stone_accepted(coord, c),
{
    if has_empty_neighbor(g.stone_result(coord, c).0, g.ssize(), coord) {
        crate::chains::lemma_empty_neighbor_live(g.spec_board().grid(), g.ssize(), c, coord);
    }
}

/// Recreating any whole-board position seen earlier in the game is
/// rejected: a stone whose resulting fingerprint is already in the
/// superko memory is never accepted, however long ago it was recorded.
pub proof fn lemma_superko_rejected(g: Game, coord: Coord, c: Color)
    requires
        g.spec_super_ko().contains(g.stone_fingerprint(coord, c)),
    ensures
        !g.stone_accepted(coord, c),
{
}

/// Two consecutive passes, and only they, finish the game, and a
/// finished game accepts no move at all: acceptance presupposes an
/// unfinished game, and an accepted move finishes it exactly when it is
/// a pass whose predecessor in the history was also a pass.
pub proof fn lemma_two_passes_finish(pre: Game, post: Game, m: Move)
    requires
        Game::move_accepted(pre, m),
        Game::play_outcome(pre, post, m),
    ensures
        !pre.spec_finished(),
        post.spec_finished() <==> (m matches Move::Pass(_) && pre.spec_moves().len() > 0 && (
        pre.spec_moves().last() matches Move::Pass(_))),
{
}

} // verus!
