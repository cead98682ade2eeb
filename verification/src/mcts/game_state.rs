//! A second generational cache keyed by position fingerprint, holding a
//! game snapshot and per-point tallies.

use vstd::prelude::*;

use crate::coord::Coord;
use crate::game::Game;

verus! {

/// The tallies of one point: votes and wins by color.
pub struct CoordGameState {
    pub votes: u32,
    pub black_wins: u32,
    pub white_wins: u32,
}

/// One cached position: its fingerprint, a snapshot of the game, the
/// per-point tallies, and when the entry was last touched.
pub struct GameState {
    zobrist: u64,
    game: Game,
    stats: Vec<(Coord, CoordGameState)>,
    last_used_gen: u64,
}

impl GameState {
    /// The stored fingerprint.
    pub closed spec fn spec_zobrist(&self) -> u64 {
        self.zobrist
    }

    /// The cached game snapshot.
    pub closed spec fn spec_game(&self) -> Game {
        self.game
    }

    /// The per-point tallies.
    pub closed spec fn spec_stats(&self) -> Seq<(Coord, CoordGameState)> {
        self.stats@
    }

    /// The generation that last touched this entry.
    pub closed spec fn spec_last_used_gen(&self) -> u64 {
        self.last_used_gen
    }

    /// The same entry with its generation stamp replaced.
    pub closed spec fn with_gen(self, g: u64) -> GameState {
        GameState { last_used_gen: g, ..self }
    }

    /// A fresh entry snapshotting the game, touched by `generation`.
    pub fn new(game: Game, generation: u64) -> (r: GameState)
        ensures
            r.spec_zobrist() == game.spec_board().spec_zobrist(),
            Game::same_game(game, r.spec_game()),
            r.spec_stats() == Seq::<(Coord, CoordGameState)>::empty(),
            r.spec_last_used_gen() == generation,
    {
        let zobrist = game.board().zobrist();
        let snapshot = game.clone();
        let r = GameState { zobrist, game: snapshot, stats: Vec::new(), last_used_gen: generation };
        proof {
            assert(r.spec_stats() =~= Seq::<(Coord, CoordGameState)>::empty());
        }
        r
    }
}

/// The entry list with every entry older than `generation` dropped, in
/// their original order.
pub open spec fn spec_purge_states(s: Seq<(u64, GameState)>, generation: u64) -> Seq<
    (u64, GameState),
>
    decreases s.len(),
{
    if s.len() == 0 {
        Seq::empty()
    } else {
        let rest = spec_purge_states(s.skip(1), generation);
        if s.first().1.spec_last_used_gen() < generation {
            rest
        } else {
            seq![s.first()] + rest
        }
    }
}

/// No two listed entries share a fingerprint key.
pub open spec fn state_keys_distinct(s: Seq<(u64, GameState)>) -> bool {
    forall|i: int, j: int|
        0 <= i < s.len() && 0 <= j < s.len() && i != j ==> (#[trigger] s[i]).0 != (
        #[trigger] s[j]).0
}

/// The generational cache of position entries, keyed by fingerprint.
pub struct GameStateCache {
    entries: Vec<(u64, GameState)>,
}

impl GameStateCache {
    /// The stored entries, in insertion order.
    pub closed spec fn spec_entries(&self) -> Seq<(u64, GameState)> {
        self.entries@
    }

    /// Well-formedness: one entry per fingerprint.
    pub open spec fn wf(&self) -> bool {
        state_keys_distinct(self.spec_entries())
    }

    /// An empty cache; the side length only sizes expectations.
    pub fn new(board_size: u8) -> (r: GameStateCache)
        ensures
            r.wf(),
            r.spec_entries() == Seq::<(u64, GameState)>::empty(),
    {
        let r = GameStateCache { entries: Vec::new() };
        proof {
            assert(r.spec_entries() =~= Seq::<(u64, GameState)>::empty());
        }
        r
    }

    /// Drops every entry whose last-used generation is strictly older
    /// than `generation`, keeping the rest in order.
    pub fn purge_older_than(&mut self, generation: u64) -> (nothing: ())
        requires
            old(self).wf(),
        ensures
            final(self).wf(),
            final(self).spec_entries() == spec_purge_states(old(self).spec_entries(), generation),
    {
        let ghost all = self.entries@;
        let mut kept: Vec<(u64, GameState)> = Vec::new();
        while self.entries.len() != 0
            invariant
                state_keys_distinct(kept@),
                state_keys_distinct(self.entries@),
                forall|a: int, b: int|
                    0 <= a < kept@.len() && 0 <= b < self.entries@.len() ==> (#[trigger] kept@[a]).0
                        != (#[trigger] self.entries@[b]).0,
                spec_purge_states(all, generation) == kept@ + spec_purge_states(
                    self.entries@,
                    generation,
                ),
            decreases self.entries@.len(),
        {
            let ghost before = self.entries@;
            let ghost kept_before = kept@;
            let e = self.entries.remove(0);
            proof {
                assert(self.entries@ =~= before.skip(1));
            }
            if e.1.last_used_gen >= generation {
                kept.push(e);
                proof {
                    assert(kept@.drop_last() =~= kept_before);
                    assert(kept@ + spec_purge_states(self.entries@, generation) =~= kept_before + (
                    seq![before.first()] + spec_purge_states(before.skip(1), generation)));
                }
            } else {
                proof {
                    assert(kept@ + spec_purge_states(self.entries@, generation) =~= kept_before
                        + spec_purge_states(before.skip(1), generation));
                }
            }
        }
        proof {
            assert(spec_purge_states(self.entries@, generation) =~= Seq::<(
                u64,
                GameState,
            )>::empty());
            assert(kept@ + spec_purge_states(self.entries@, generation) =~= kept@);
        }
        self.entries = kept;
    }

    /// The position of the entry with the given key, if any.
    fn find_key(&self, key: u64) -> (r: Option<usize>)
        ensures
            match r {
                Some(i) => i < self.spec_entries().len() && self.spec_entries()[i as int].0 == key,
                None => forall|i: int|
                    0 <= i < self.spec_entries().len() ==> (#[trigger] self.spec_entries()[i]).0
                        != key,
            },
    {
        let n = self.entries.len();
        let mut i: usize = 0;
        while i < n
            invariant
                0 <= i <= n,
                n == self.spec_entries().len(),
                forall|j: int| 0 <= j < i ==> (#[trigger] self.spec_entries()[j]).0 != key,
            decreases n - i,
        {
            if self.entries[i].0 == key {
                return Some(i);
            }
            i += 1;
        }
        None
    }

    /// Looks the position up by its fingerprint, creating its entry on
    /// first sight, and stamps it with the current generation; yields the
    /// entry's position in the cache.
    pub fn get_or_create_as_mut(&mut self, generation: &u64, game: &Game) -> (r: usize)
        requires
            old(self).wf(),
        ensures
            final(self).wf(),
            r < final(self).spec_entries().len(),
            final(self).spec_entries()[r as int].0 == game.spec_board().spec_zobrist(),
            final(self).spec_entries()[r as int].1.spec_last_used_gen() == *generation,
            (exists|i: int|
                0 <= i < old(self).spec_entries().len() && (
                #[trigger] old(self).spec_entries()[i]).0 == game.spec_board().spec_zobrist())
                ==> final(self).spec_entries() == old(self).spec_entries().update(
                r as int,
                (
                    game.spec_board().spec_zobrist(),
                    old(self).spec_entries()[r as int].1.with_gen(*generation),
                ),
            ) && old(self).spec_entries()[r as int].0 == game.spec_board().spec_zobrist() && r
                < old(self).spec_entries().len(),
            !(exists|i: int|
                0 <= i < old(self).spec_entries().len() && (
                #[trigger] old(self).spec_entries()[i]).0 == game.spec_board().spec_zobrist())
                ==> final(self).spec_entries().len() == old(self).spec_entries().len() + 1 && r + 1
                == final(self).spec_entries().len() && final(self).spec_entries() == old(
                self,
            ).spec_entries().push(final(self).spec_entries()[r as int]) && Game::same_game(
                *game,
                final(self).spec_entries()[r as int].1.spec_game(),
            ),
    {
        let key = game.board().zobrist();
        match self.find_key(key) {
            Some(i) => {
                self.entries[i].1.last_used_gen = *generation;
                proof {
                    assert(self.entries@ =~= old(self).spec_entries().update(
                        i as int,
                        (key, old(self).spec_entries()[i as int].1.with_gen(*generation)),
                    ));
                }
                i
            },
            None => {
                let node = GameState::new(game.clone(), *generation);
                let r = self.entries.len();
                self.entries.push((key, node));
                proof {
                    assert(final(self).spec_entries()[r as int]
                        == final(self).spec_entries().last());
                    assert(final(self).spec_entries() =~= old(self).spec_entries().push(
                        final(self).spec_entries()[r as int],
                    ));
                }
                r
            },
        }
    }
}

} // verus!
