//! A parsed game record: the players, the game settings, the recorded
//! result, and the ordered moves, each with an optional comment and
//! branch variants.

use vstd::prelude::*;

use crate::game_result::GameResult;
use crate::moves::Move;
use crate::rank::Rank;

verus! {

/// One recorded move with its comment and its branch variants.
#[derive(Debug)]
pub struct GameNode {
    themove: Move,
    comment: String,
    variants: Vec<GameNode>,
}

/// A whole game record. Komi is held in half-points.
#[derive(Debug)]
pub struct GameTree {
    black_name: String,
    white_name: String,
    black_rank: Rank,
    white_rank: Rank,
    board_size: usize,
    handicap: u16,
    komi: i32,
    result: GameResult,
    moves: Vec<GameNode>,
}

impl GameNode {
    /// The recorded move.
    pub closed spec fn spec_themove(&self) -> Move {
        self.themove
    }

    /// The comment text.
    pub closed spec fn spec_comment(&self) -> Seq<char> {
        self.comment@
    }

    /// The branch variants.
    pub closed spec fn spec_variants(&self) -> Seq<GameNode> {
        self.variants@
    }

    /// A node holding only a move.
    pub fn new_simple(m: Move) -> (r: GameNode)
        ensures
            r.spec_themove() == m,
            r.spec_comment() == Seq::<char>::empty(),
            r.spec_variants() == Seq::<GameNode>::empty(),
    {
        let r = GameNode { themove: m, comment: String::new(), variants: Vec::new() };
        proof {
            assert(r.spec_variants() =~= Seq::<GameNode>::empty());
        }
        r
    }

    /// A node holding a move and a comment.
    pub fn new(m: Move, s: &str) -> (r: GameNode)
        ensures
            r.spec_themove() == m,
            r.spec_comment() == s@,
            r.spec_variants() == Seq::<GameNode>::empty(),
    {
        let r = GameNode { themove: m, comment: String::from_str(s), variants: Vec::new() };
        proof {
            assert(r.spec_variants() =~= Seq::<GameNode>::empty());
        }
        r
    }

    /// Appends a branch variant.
    pub fn push(&mut self, gn: GameNode) -> (nothing: ())
        ensures
            final(self).spec_themove() == old(self).spec_themove(),
            final(self).spec_comment() == old(self).spec_comment(),
            final(self).spec_variants() == old(self).spec_variants().push(gn),
    {
        self.variants.push(gn)
    }

    /// The recorded move.
    pub fn themove(&self) -> (r: Move)
        ensures
            r == self.spec_themove(),
    {
        self.themove
    }

    /// The comment text.
    pub fn comment(&self) -> (r: &String)
        ensures
            r@ == self.spec_comment(),
    {
        &self.comment
    }

    /// The branch variants.
    pub fn variants(&self) -> (r: &Vec<GameNode>)
        ensures
            r@ == self.spec_variants(),
    {
        &self.variants
    }

    /// Whether the node has branch variants.
    pub fn has_variants(&self) -> (r: bool)
        ensures
            r == (self.spec_variants().len() > 0),
    {
        !self.variants.is_empty()
    }
}

impl GameTree {
    /// The black player's name.
    pub closed spec fn spec_black_name(&self) -> Seq<char> {
        self.black_name@
    }

    /// The white player's name.
    pub closed spec fn spec_white_name(&self) -> Seq<char> {
        self.white_name@
    }

    /// The black player's rank.
    pub closed spec fn spec_black_rank(&self) -> Rank {
        self.black_rank
    }

    /// The white player's rank.
    pub closed spec fn spec_white_rank(&self) -> Rank {
        self.white_rank
    }

    /// The recorded board side.
    pub closed spec fn spec_board_size(&self) -> usize {
        self.board_size
    }

    /// The recorded handicap.
    pub closed spec fn spec_handicap(&self) -> u16 {
        self.handicap
    }

    /// The recorded komi, in half-points.
    pub closed spec fn spec_komi(&self) -> i32 {
        self.komi
    }

    /// The recorded result.
    pub closed spec fn spec_result(&self) -> GameResult {
        self.result
    }

    /// The recorded moves.
    pub closed spec fn spec_moves(&self) -> Seq<GameNode> {
        self.moves@
    }

    /// The recorded moves as the stored vector value.
    pub closed spec fn spec_moves_vec(&self) -> Vec<GameNode> {
        self.moves
    }

    /// An empty record: unnamed players of unknown rank, no board size,
    /// no handicap, no komi, an unknown result, and no moves.
    pub fn new() -> (r: GameTree)
        ensures
            r.spec_black_name() == Seq::<char>::empty(),
            r.spec_white_name() == Seq::<char>::empty(),
            r.spec_black_rank() == Rank::Unknown,
            r.spec_white_rank() == Rank::Unknown,
            r.spec_board_size() == 0,
            r.spec_handicap() == 0,
            r.spec_komi() == 0,
            r.spec_result() == GameResult::Unknown,
            r.spec_moves() == Seq::<GameNode>::empty(),
    {
        let r = GameTree {
            black_name: String::new(),
            white_name: String::new(),
            black_rank: Rank::Unknown,
            white_rank: Rank::Unknown,
            board_size: 0,
            handicap: 0,
            komi: 0,
            result: GameResult::Unknown,
            moves: Vec::new(),
        };
        proof {
            assert(r.spec_moves() =~= Seq::<GameNode>::empty());
        }
        r
    }

    /// Sets the black player's name.
    pub fn set_black_name(&mut self, black_name: String) -> (nothing: ())
        ensures
            final(self).spec_black_name() == black_name@,
            GameTree::same_but_names(*old(self), *final(self)),
            final(self).spec_white_name() == old(self).spec_white_name(),
    {
        self.black_name = black_name
    }

    /// The black player's name.
    pub fn black_name(&self) -> (r: &String)
        ensures
            r@ == self.spec_black_name(),
    {
        &self.black_name
    }

    /// Sets the white player's name.
    pub fn set_white_name(&mut self, white_name: String) -> (nothing: ())
        ensures
            final(self).spec_white_name() == white_name@,
            GameTree::same_but_names(*old(self), *final(self)),
            final(self).spec_black_name() == old(self).spec_black_name(),
    {
        self.white_name = white_name
    }

    /// The white player's name.
    pub fn white_name(&self) -> (r: &String)
        ensures
            r@ == self.spec_white_name(),
    {
        &self.white_name
    }

    /// The fields other than the two names agree.
    pub open spec fn same_but_names(a: GameTree, b: GameTree) -> bool {
        &&& a.spec_black_rank() == b.spec_black_rank()
        &&& a.spec_white_rank() == b.spec_white_rank()
        &&& a.spec_board_size() == b.spec_board_size()
        &&& a.spec_handicap() == b.spec_handicap()
        &&& a.spec_komi() == b.spec_komi()
        &&& a.spec_result() == b.spec_result()
        &&& a.spec_moves() == b.spec_moves()
    }

    /// The settings other than the one named by each setter agree; names
    /// and moves always agree.
    pub open spec fn same_but_settings(a: GameTree, b: GameTree) -> bool {
        &&& a.spec_black_name() == b.spec_black_name()
        &&& a.spec_white_name() == b.spec_white_name()
        &&& a.spec_moves() == b.spec_moves()
    }

    /// Sets the white player's rank.
    pub fn set_white_rank(&mut self, white_rank: Rank) -> (nothing: ())
        ensures
            final(self).spec_white_rank() == white_rank,
            GameTree::same_but_settings(*old(self), *final(self)),
            final(self).spec_black_rank() == old(self).spec_black_rank(),
            final(self).spec_board_size() == old(self).spec_board_size(),
            final(self).spec_handicap() == old(self).spec_handicap(),
            final(self).spec_komi() == old(self).spec_komi(),
            final(self).spec_result() == old(self).spec_result(),
    {
        self.white_rank = white_rank
    }

    /// The white player's rank.
    pub fn white_rank(&self) -> (r: &Rank)
        ensures
            *r == self.spec_white_rank(),
    {
        &self.white_rank
    }

    /// Sets the black player's rank.
    pub fn set_black_rank(&mut self, black_rank: Rank) -> (nothing: ())
        ensures
            final(self).spec_black_rank() == black_rank,
            GameTree::same_but_settings(*old(self), *final(self)),
            final(self).spec_white_rank() == old(self).spec_white_rank(),
            final(self).spec_board_size() == old(self).spec_board_size(),
            final(self).spec_handicap() == old(self).spec_handicap(),
            final(self).spec_komi() == old(self).spec_komi(),
            final(self).spec_result() == old(self).spec_result(),
    {
        self.black_rank = black_rank
    }

    /// The black player's rank.
    pub fn black_rank(&self) -> (r: &Rank)
        ensures
            *r == self.spec_black_rank(),
    {
        &self.black_rank
    }

    /// Sets the board side.
    pub fn set_board_size(&mut self, board_size: usize) -> (nothing: ())
        ensures
            final(self).spec_board_size() == board_size,
            GameTree::same_but_settings(*old(self), *final(self)),
            final(self).spec_black_rank() == old(self).spec_black_rank(),
            final(self).spec_white_rank() == old(self).spec_white_rank(),
            final(self).spec_handicap() == old(self).spec_handicap(),
            final(self).spec_komi() == old(self).spec_komi(),
            final(self).spec_result() == old(self).spec_result(),
    {
        self.board_size = board_size
    }

    /// The recorded board side.
    pub fn board_size(&self) -> (r: usize)
        ensures
            r == self.spec_board_size(),
    {
        self.board_size
    }

    /// Sets the komi, in half-points.
    pub fn set_komi(&mut self, komi: i32) -> (nothing: ())
        ensures
            final(self).spec_komi() == komi,
            GameTree::same_but_settings(*old(self), *final(self)),
            final(self).spec_black_rank() == old(self).spec_black_rank(),
            final(self).spec_white_rank() == old(self).spec_white_rank(),
            final(self).spec_board_size() == old(self).spec_board_size(),
            final(self).spec_handicap() == old(self).spec_handicap(),
            final(self).spec_result() == old(self).spec_result(),
    {
        self.komi = komi
    }

    /// The recorded komi, in half-points.
    pub fn komi(&self) -> (r: i32)
        ensures
            r == self.spec_komi(),
    {
        self.komi
    }

    /// Sets the handicap.
    pub fn set_handicap(&mut self, handicap: u16) -> (nothing: ())
        ensures
            final(self).spec_handicap() == handicap,
            GameTree::same_but_settings(*old(self), *final(self)),
            final(self).spec_black_rank() == old(self).spec_black_rank(),
            final(self).spec_white_rank() == old(self).spec_white_rank(),
            final(self).spec_board_size() == old(self).spec_board_size(),
            final(self).spec_komi() == old(self).spec_komi(),
            final(self).spec_result() == old(self).spec_result(),
    {
        self.handicap = handicap
    }

    /// The recorded handicap.
    pub fn handicap(&self) -> (r: u16)
        ensures
            r == self.spec_handicap(),
    {
        self.handicap
    }

    /// Sets the recorded result.
    pub fn set_result(&mut self, result: GameResult) -> (nothing: ())
        ensures
            final(self).spec_result() == result,
            GameTree::same_but_settings(*old(self), *final(self)),
            final(self).spec_black_rank() == old(self).spec_black_rank(),
            final(self).spec_white_rank() == old(self).spec_white_rank(),
            final(self).spec_board_size() == old(self).spec_board_size(),
            final(self).spec_handicap() == old(self).spec_handicap(),
            final(self).spec_komi() == old(self).spec_komi(),
    {
        self.result = result
    }

    /// The recorded result.
    pub fn result(&self) -> (r: &GameResult)
        ensures
            *r == self.spec_result(),
    {
        &self.result
    }

    /// The recorded moves.
    pub fn moves(&self) -> (r: &Vec<GameNode>)
        ensures
            r@ == self.spec_moves(),
    {
        &self.moves
    }

    /// Mutable access to the recorded moves.
    pub fn moves_as_mut(&mut self) -> (r: &mut Vec<GameNode>)
        ensures
            *r == old(self).spec_moves_vec(),
            final(self).spec_moves() == final(r)@,
            final(self).spec_black_name() == old(self).spec_black_name(),
            final(self).spec_white_name() == old(self).spec_white_name(),
            final(self).spec_black_rank() == old(self).spec_black_rank(),
            final(self).spec_white_rank() == old(self).spec_white_rank(),
            final(self).spec_board_size() == old(self).spec_board_size(),
            final(self).spec_handicap() == old(self).spec_handicap(),
            final(self).spec_komi() == old(self).spec_komi(),
            final(self).spec_result() == old(self).spec_result(),
    {
        &mut self.moves
    }

    /// Appends a recorded move.
    pub fn push(&mut self, gn: GameNode) -> (nothing: ())
        ensures
            final(self).spec_moves() == old(self).spec_moves().push(gn),
            final(self).spec_black_name() == old(self).spec_black_name(),
            final(self).spec_white_name() == old(self).spec_white_name(),
            final(self).spec_black_rank() == old(self).spec_black_rank(),
            final(self).spec_white_rank() == old(self).spec_white_rank(),
            final(self).spec_board_size() == old(self).spec_board_size(),
            final(self).spec_handicap() == old(self).spec_handicap(),
            final(self).spec_komi() == old(self).spec_komi(),
            final(self).spec_result() == old(self).spec_result(),
    {
        self.moves.push(gn);
    }
}

} // verus!
