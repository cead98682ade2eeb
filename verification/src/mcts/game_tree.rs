//! The generational search cache: per-position nodes keyed by the board
//! fingerprint, each holding a game snapshot and per-move statistics,
//! evicted by a caller-driven generational purge.

use vstd::prelude::*;

use crate::coord::Coord;
use crate::game::Game;

verus! {

/// The per-move statistics of one candidate: how often analysis voted
/// for it and how often each color won a playout through it.
#[derive(Debug)]
pub struct MoveStat {
    votes: u32,
    black_wins: u32,
    white_wins: u32,
}

impl MoveStat {
    /// The recorded votes.
    pub closed spec fn spec_votes(&self) -> u32 {
        self.votes
    }

    /// The recorded black playout wins.
    pub closed spec fn spec_black_wins(&self) -> u32 {
        self.black_wins
    }

    /// The recorded white playout wins.
    pub closed spec fn spec_white_wins(&self) -> u32 {
        self.white_wins
    }

    /// The playout wins recorded for `color`: White's, or Black's for
    /// any other color.
    pub fn wins_for(&self, color: crate::color::Color) -> (r: u32)
        ensures
            r == if color == crate::color::Color::White {
                self.spec_white_wins()
            } else {
                self.spec_black_wins()
            },
    {
        if color == crate::color::Color::White {
            self.white_wins
        } else {
            self.black_wins
        }
    }

    /// How many playouts went through the move.
    pub fn played(&self) -> (r: u32)
        requires
            self.spec_white_wins() + self.spec_black_wins() <= u32::MAX,
        ensures
            r == self.spec_white_wins() + self.spec_black_wins(),
    {
        self.white_wins + self.black_wins
    }

    /// The recorded votes.
    pub fn votes(&self) -> (r: u32)
        ensures
            r == self.spec_votes(),
    {
        self.votes
    }
}

/// One cached position: a snapshot of the game, the per-move statistics,
/// the playouts spent here, and when the node was last touched.
pub struct GameTreeNode {
    game: Game,
    stats: Vec<(Coord, MoveStat)>,
    playouts: u32,
    last_used_gen: u64,
}

impl GameTreeNode {
    /// The cached game snapshot.
    pub closed spec fn spec_game(&self) -> Game {
        self.game
    }

    /// The per-move statistics.
    pub closed spec fn spec_stats(&self) -> Seq<(Coord, MoveStat)> {
        self.stats@
    }

    /// The playouts spent at this node.
    pub closed spec fn spec_playouts(&self) -> u32 {
        self.playouts
    }

    /// The generation that last touched this node.
    pub closed spec fn spec_last_used_gen(&self) -> u64 {
        self.last_used_gen
    }

    /// The same node with its generation stamp replaced.
    pub closed spec fn with_gen(self, g: u64) -> GameTreeNode {
        GameTreeNode { last_used_gen: g, ..self }
    }

    /// A fresh node for a game snapshot, touched by `generation`.
    pub fn new(game: Game, generation: u64) -> (r: GameTreeNode)
        ensures
            r.spec_game() == game,
            r.spec_stats() == Seq::<(Coord, MoveStat)>::empty(),
            r.spec_playouts() == 0,
            r.spec_last_used_gen() == generation,
    {
        let r = GameTreeNode { game, stats: Vec::new(), playouts: 0, last_used_gen: generation };
        proof {
            assert(r.spec_stats() =~= Seq::<(Coord, MoveStat)>::empty());
        }
        r
    }
}

/// The node list with every node older than `generation` dropped, in
/// their original order.
pub open spec fn spec_purge_nodes(s: Seq<(u64, GameTreeNode)>, generation: u64) -> Seq<
    (u64, GameTreeNode),
>
    decreases s.len(),
{
    if s.len() == 0 {
        Seq::empty()
    } else {
        let rest = spec_purge_nodes(s.skip(1), generation);
        if s.first().1.spec_last_used_gen() < generation {
            rest
        } else {
            seq![s.first()] + rest
        }
    }
}

/// No two listed entries share a fingerprint key.
pub open spec fn keys_distinct(s: Seq<(u64, GameTreeNode)>) -> bool {
    forall|i: int, j: int|
        0 <= i < s.len() && 0 <= j < s.len() && i != j ==> (#[trigger] s[i]).0 != (
        #[trigger] s[j]).0
}

/// The generational cache of search nodes, keyed by position
/// fingerprint. Entries are created lazily on first lookup and evicted
/// only by the caller-driven purge.
pub struct GameTreeCache {
    entries: Vec<(u64, GameTreeNode)>,
}

impl GameTreeCache {
    /// The stored entries, in insertion order.
    pub closed spec fn spec_entries(&self) -> Seq<(u64, GameTreeNode)> {
        self.entries@
    }

    /// Well-formedness: one entry per fingerprint.
    pub open spec fn wf(&self) -> bool {
        keys_distinct(self.spec_entries())
    }

    /// An empty cache; the side length only sizes expectations and is
    /// not a bound.
    pub fn new(board_size: u8) -> (r: GameTreeCache)
        ensures
            r.wf(),
            r.spec_entries() == Seq::<(u64, GameTreeNode)>::empty(),
    {
        let r = GameTreeCache { entries: Vec::new() };
        proof {
            assert(r.spec_entries() =~= Seq::<(u64, GameTreeNode)>::empty());
        }
        r
    }

    /// Drops every node whose last-used generation is strictly older
    /// than `generation`, keeping the rest in order.
    pub fn purge_older_than(&mut self, generation: u64) -> (nothing: ())
        requires
            old(self).wf(),
        ensures
            final(self).wf(),
            final(self).spec_entries() == spec_purge_nodes(old(self).spec_entries(), generation),
    {
        let ghost all = self.entries@;
        let mut kept: Vec<(u64, GameTreeNode)> = Vec::new();
        while self.entries.len() != 0
            invariant
                keys_distinct(kept@),
                keys_distinct(self.entries@),
                forall|a: int, b: int|
                    0 <= a < kept@.len() && 0 <= b < self.entries@.len() ==> (#[trigger] kept@[a]).0
                        != (#[trigger] self.entries@[b]).0,
                spec_purge_nodes(all, generation) == kept@ + spec_purge_nodes(
                    self.entries@,
                    generation,
                ),
            decreases self.entries@.len(),
        {
            let ghost before = self.entries@;
            let ghost kept_before = kept@;
            let e = self.entries.remove(0);
            proof {
                assert(self.entries@ =~= before.skip(1));
            }
            if e.1.last_used_gen >= generation {
                kept.push(e);
                proof {
                    assert(kept@.drop_last() =~= kept_before);
                    assert(kept@ + spec_purge_nodes(self.entries@, generation) =~= kept_before + (
                    seq![before.first()] + spec_purge_nodes(before.skip(1), generation)));
                }
            } else {
                proof {
                    assert(kept@ + spec_purge_nodes(self.entries@, generation) =~= kept_before
                        + spec_purge_nodes(before.skip(1), generation));
                }
            }
        }
        proof {
            assert(spec_purge_nodes(self.entries@, generation) =~= Seq::<(
                u64,
                GameTreeNode,
            )>::empty());
            assert(kept@ + spec_purge_nodes(self.entries@, generation) =~= kept@);
        }
        self.entries = kept;
    }

    /// The position of the entry with the given key, if any.
    fn find_key(&self, key: u64) -> (r: Option<usize>)
        ensures
            match r {
                Some(i) => i < self.spec_entries().len() && self.spec_entries()[i as int].0 == key,
                None => forall|i: int|
                    0 <= i < self.spec_entries().len() ==> (#[trigger] self.spec_entries()[i]).0
                        != key,
            },
    {
        let n = self.entries.len();
        let mut i: usize = 0;
        while i < n
            invariant
                0 <= i <= n,
                n == self.spec_entries().len(),
                forall|j: int| 0 <= j < i ==> (#[trigger] self.spec_entries()[j]).0 != key,
            decreases n - i,
        {
            if self.entries[i].0 == key {
                return Some(i);
            }
            i += 1;
        }
        None
    }

    /// Looks the position up by its fingerprint, creating its node on
    /// first sight, and stamps the node with the current generation;
    /// yields the node's position in the cache. An existing node keeps
    /// its snapshot and statistics; a fresh node snapshots the game.
    pub fn get_or_create_as_mut(&mut self, generation: &u64, game: &Game) -> (r: usize)
        requires
            old(self).wf(),
        ensures
            final(self).wf(),
            r < final(self).spec_entries().len(),
            final(self).spec_entries()[r as int].0 == game.spec_board().spec_zobrist(),
            final(self).spec_entries()[r as int].1.spec_last_used_gen() == *generation,
            (exists|i: int|
                0 <= i < old(self).spec_entries().len() && (
                #[trigger] old(self).spec_entries()[i]).0 == game.spec_board().spec_zobrist())
                ==> final(self).spec_entries() == old(self).spec_entries().update(
                r as int,
                (
                    game.spec_board().spec_zobrist(),
                    old(self).spec_entries()[r as int].1.with_gen(*generation),
                ),
            ) && old(self).spec_entries()[r as int].0 == game.spec_board().spec_zobrist() && r
                < old(self).spec_entries().len(),
            !(exists|i: int|
                0 <= i < old(self).spec_entries().len() && (
                #[trigger] old(self).spec_entries()[i]).0 == game.spec_board().spec_zobrist())
                ==> final(self).spec_entries().len() == old(self).spec_entries().len() + 1 && r + 1
                == final(self).spec_entries().len() && final(self).spec_entries() == old(
                self,
            ).spec_entries().push(final(self).spec_entries()[r as int]) && Game::same_game(
                *game,
                final(self).spec_entries()[r as int].1.spec_game(),
            ) && final(self).spec_entries()[r as int].1.spec_stats() == Seq::<(
                Coord,
                MoveStat,
            )>::empty() && final(self).spec_entries()[r as int].1.spec_playouts() == 0,
    {
        let key = game.board().zobrist();
        match self.find_key(key) {
            Some(i) => {
                self.entries[i].1.last_used_gen = *generation;
                proof {
                    assert(self.entries@ =~= old(self).spec_entries().update(
                        i as int,
                        (key, old(self).spec_entries()[i as int].1.with_gen(*generation)),
                    ));
                }
                i
            },
            None => {
                let node = GameTreeNode::new(game.clone(), *generation);
                let r = self.entries.len();
                self.entries.push((key, node));
                proof {
                    assert(final(self).spec_entries()[r as int]
                        == final(self).spec_entries().last());
                    assert(final(self).spec_entries() =~= old(self).spec_entries().push(
                        final(self).spec_entries()[r as int],
                    ));
                }
                r
            },
        }
    }
}

} // verus!
