//! Flood-fill territory scoring: empty regions are classified by the
//! colors of their bordering stones, under a conservative and an
//! optimistic policy, and the classified board is folded into a signed
//! score with an uncertainty range. Scoring always works on a scratch
//! clone and never mutates the live board.

use vstd::prelude::*;

use crate::board::{Board, coord_in_bounds, coord_off};
use crate::chains::{
    chain_set, color_at, coords_adjacent, coords_contain, count_matching,
    lemma_adjacents_complete, lemma_adjacents_sound, lemma_coord_off_injective,
    lemma_distinct_coords_bounded, lemma_off_coord_inverse, lemma_reaches_in_closed_set,
    lemma_reaches_self, lemma_reaches_step, no_block, off_coord, reaches,
};
use crate::color::Color;
use crate::coord::{Coord, spec_adjacents};
use crate::game::Game;
use crate::game_result::{GameResult, GameResultRange};
use crate::moves::Move;

verus! {

/// The maximal region of connected empty points through `seed`.
pub open spec fn spec_region(grid: Seq<Color>, size: int, seed: Coord) -> Set<Coord> {
    chain_set(grid, size, Color::Empty, seed)
}

/// The points of `color` bordering the region of `seed`: distinct stones
/// with at least one edge into the region.
pub open spec fn spec_borders(grid: Seq<Color>, size: int, seed: Coord, color: Color) -> Set<
    Coord,
> {
    Set::new(
        |c: Coord|
            coord_in_bounds(c, size) && color_at(grid, size, c) == color && exists|f: Coord|
                #[trigger] spec_region(grid, size, seed).contains(f) && coords_adjacent(f, c),
    )
}

/// One maximal empty region with its two deduplicated border sets.
pub struct FloodFillResult {
    pub flooded: Vec<Coord>,
    pub whites: Vec<Coord>,
    pub blacks: Vec<Coord>,
}

/// Floods the empty region through `coord`, collecting the region and
/// the distinct White- and Black-bordering stones; a non-empty seed
/// yields three empty lists.
pub fn flood_fill(board: &Board, coord: Coord) -> (r: FloodFillResult)
    requires
        board.wf(),
        coord_in_bounds(coord, board.spec_size() as int),
    ensures
        r.flooded@.no_duplicates(),
        r.whites@.no_duplicates(),
        r.blacks@.no_duplicates(),
        color_at(board.grid(), board.spec_size() as int, coord) != Color::Empty ==> r.flooded@.len()
            == 0 && r.whites@.len() == 0 && r.blacks@.len() == 0,
        color_at(board.grid(), board.spec_size() as int, coord) == Color::Empty ==> {
            let g = board.grid();
            let s = board.spec_size() as int;
            &&& (forall|c: Coord|
                r.flooded@.contains(c) <==> #[trigger] spec_region(g, s, coord).contains(c))
            &&& (forall|c: Coord|
                r.whites@.contains(c) <==> #[trigger] spec_borders(
                    g,
                    s,
                    coord,
                    Color::White,
                ).contains(c))
            &&& (forall|c: Coord|
                r.blacks@.contains(c) <==> #[trigger] spec_borders(
                    g,
                    s,
                    coord,
                    Color::Black,
                ).contains(c))
        },
{
    let ghost g = board.grid();
    let ghost s = board.spec_size() as int;
    let mut flooded: Vec<Coord> = Vec::new();
    let mut whites: Vec<Coord> = Vec::new();
    let mut blacks: Vec<Coord> = Vec::new();
    if board.get(&coord) != Color::Empty {
        return FloodFillResult { flooded, whites, blacks };
    }
    proof {
        assert(25 <= s * s <= 1024) by (nonlinear_arith)
            requires
                5 <= s <= 32,
        ;
        lemma_reaches_self(g, s, Color::Empty, coord, no_block());
    }
    let mut work: Vec<Coord> = Vec::new();
    flooded.push(coord);
    work.push(coord);
    proof {
        assert(flooded@[0] == coord);
        assert(work@[0] == coord);
    }
    while work.len() != 0
        invariant
            board.wf(),
            g == board.grid(),
            s == board.spec_size() as int,
            25 <= s * s <= 1024,
            coord_in_bounds(coord, s),
            color_at(g, s, coord) == Color::Empty,
            flooded@.no_duplicates(),
            whites@.no_duplicates(),
            blacks@.no_duplicates(),
            flooded@.len() <= s * s,
            flooded@.contains(coord),
            forall|i: int|
                0 <= i < flooded@.len() ==> coord_in_bounds(#[trigger] flooded@[i], s)
                    && spec_region(g, s, coord).contains(flooded@[i]),
            forall|i: int|
                0 <= i < whites@.len() ==> spec_borders(g, s, coord, Color::White).contains(
                    #[trigger] whites@[i],
                ),
            forall|i: int|
                0 <= i < blacks@.len() ==> spec_borders(g, s, coord, Color::Black).contains(
                    #[trigger] blacks@[i],
                ),
            forall|i: int| 0 <= i < work@.len() ==> flooded@.contains(#[trigger] work@[i]),
            forall|a: Coord, b: Coord|
                #![trigger coords_adjacent(a, b)]
                flooded@.contains(a) && !work@.contains(a) && coords_adjacent(a, b)
                    && coord_in_bounds(b, s) ==> (color_at(g, s, b) == Color::Empty
                    ==> flooded@.contains(b)) && (color_at(g, s, b) == Color::White
                    ==> whites@.contains(b)) && (color_at(g, s, b) == Color::Black
                    ==> blacks@.contains(b)),
        decreases s * s - flooded@.len(), work@.len(),
    {
        let ghost prev_work = work@;
        let cur = work.pop().unwrap();
        proof {
            assert(prev_work[prev_work.len() - 1] == cur);
            assert forall|x: Coord| prev_work.contains(x) implies x == cur || work@.contains(
                x,
            ) by {
                let i = choose|i: int| 0 <= i < prev_work.len() && prev_work[i] == x;
                if i < prev_work.len() - 1 {
                    assert(work@[i] == x);
                }
            }
            let i = choose|i: int| 0 <= i < flooded@.len() && flooded@[i] == cur;
        }
        let adjs = cur.adjacents(board.size());
        proof {
            lemma_adjacents_sound(cur, board.spec_size());
        }
        let ghost flooded_at_pop = flooded@;
        let mut k: usize = 0;
        let n = adjs.len();
        while k < n
            invariant
                board.wf(),
                g == board.grid(),
                s == board.spec_size() as int,
                25 <= s * s <= 1024,
                coord_in_bounds(coord, s),
                coord_in_bounds(cur, s),
                color_at(g, s, coord) == Color::Empty,
                0 <= k <= n,
                n == adjs@.len(),
                adjs@ == spec_adjacents(cur, board.spec_size()),
                forall|i: int|
                    0 <= i < adjs@.len() ==> coord_in_bounds(#[trigger] adjs@[i], s)
                        && coords_adjacent(cur, adjs@[i]),
                flooded@.no_duplicates(),
                whites@.no_duplicates(),
                blacks@.no_duplicates(),
                flooded@.len() <= s * s,
                flooded@.len() >= flooded_at_pop.len(),
                work@.len() + flooded_at_pop.len() == prev_work.len() - 1 + flooded@.len(),
                flooded@.contains(coord),
                flooded@.contains(cur),
                spec_region(g, s, coord).contains(cur),
                forall|i: int|
                    0 <= i < flooded@.len() ==> coord_in_bounds(#[trigger] flooded@[i], s)
                        && spec_region(g, s, coord).contains(flooded@[i]),
                forall|i: int|
                    0 <= i < whites@.len() ==> spec_borders(g, s, coord, Color::White).contains(
                        #[trigger] whites@[i],
                    ),
                forall|i: int|
                    0 <= i < blacks@.len() ==> spec_borders(g, s, coord, Color::Black).contains(
                        #[trigger] blacks@[i],
                    ),
                forall|i: int| 0 <= i < work@.len() ==> flooded@.contains(#[trigger] work@[i]),
                forall|a: Coord, b: Coord|
                    #![trigger coords_adjacent(a, b)]
                    flooded@.contains(a) && !work@.contains(a) && a != cur && coords_adjacent(a, b)
                        && coord_in_bounds(b, s) ==> (color_at(g, s, b) == Color::Empty
                        ==> flooded@.contains(b)) && (color_at(g, s, b) == Color::White
                        ==> whites@.contains(b)) && (color_at(g, s, b) == Color::Black
                        ==> blacks@.contains(b)),
                forall|j: int|
                    0 <= j < k ==> (color_at(g, s, #[trigger] adjs@[j]) == Color::Empty
                        ==> flooded@.contains(adjs@[j])) && (color_at(g, s, adjs@[j])
                        == Color::White ==> whites@.contains(adjs@[j])) && (color_at(g, s, adjs@[j])
                        == Color::Black ==> blacks@.contains(adjs@[j])),
            decreases n - k,
        {
            let adj = adjs[k];
            let ac = board.get(&adj);
            if ac == Color::Empty {
                if !coords_contain(&flooded, &adj) {
                    proof {
                        lemma_push_distinct(flooded@, adj);
                        lemma_reaches_step(g, s, Color::Empty, coord, no_block(), cur, adj);
                    }
                    let ghost old_flooded = flooded@;
                    let ghost old_work = work@;
                    flooded.push(adj);
                    work.push(adj);
                    proof {
                        lemma_distinct_coords_bounded(flooded@, s);
                        lemma_push_keeps(old_flooded, adj);
                        lemma_push_keeps(old_work, adj);
                        assert(flooded@[flooded@.len() - 1] == adj);
                        assert(work@[work@.len() - 1] == adj);
                    }
                }
            } else if ac == Color::White {
                if !coords_contain(&whites, &adj) {
                    proof {
                        lemma_push_distinct(whites@, adj);
                        lemma_push_keeps(whites@, adj);
                        assert(spec_borders(g, s, coord, Color::White).contains(adj)) by {
                            assert(spec_region(g, s, coord).contains(cur) && coords_adjacent(
                                cur,
                                adj,
                            ));
                        }
                    }
                    whites.push(adj);
                    proof {
                        assert(whites@[whites@.len() - 1] == adj);
                    }
                }
            } else if ac == Color::Black {
                if !coords_contain(&blacks, &adj) {
                    proof {
                        lemma_push_distinct(blacks@, adj);
                        lemma_push_keeps(blacks@, adj);
                        assert(spec_borders(g, s, coord, Color::Black).contains(adj)) by {
                            assert(spec_region(g, s, coord).contains(cur) && coords_adjacent(
                                cur,
                                adj,
                            ));
                        }
                    }
                    blacks.push(adj);
                    proof {
                        assert(blacks@[blacks@.len() - 1] == adj);
                    }
                }
            }
            k += 1;
        }
        proof {
            assert forall|a: Coord, b: Coord|
                #![trigger coords_adjacent(a, b)]
                flooded@.contains(a) && !work@.contains(a) && coords_adjacent(a, b)
                    && coord_in_bounds(b, s) implies (color_at(g, s, b) == Color::Empty
                ==> flooded@.contains(b)) && (color_at(g, s, b) == Color::White
                ==> whites@.contains(b)) && (color_at(g, s, b) == Color::Black ==> blacks@.contains(
                b,
            )) by {
                if a == cur {
                    lemma_adjacents_complete(cur, board.spec_size(), b);
                    let j = choose|j: int| 0 <= j < adjs@.len() && adjs@[j] == b;
                }
            }
        }
    }
    proof {
        let su = Set::new(|x: Coord| flooded@.contains(x));
        assert forall|c: Coord| #[trigger]
            spec_region(g, s, coord).contains(c) implies flooded@.contains(c) by {
            assert(su.contains(coord));
            assert forall|a: Coord, b: Coord|
                su.contains(a) && #[trigger] coords_adjacent(a, b) && coord_in_bounds(b, s) && b
                    != no_block() && color_at(g, s, b) == Color::Empty implies #[trigger] su.contains(
                b,
            ) by {}
            lemma_reaches_in_closed_set(g, s, Color::Empty, coord, no_block(), c, su);
        }
        assert forall|c: Coord| #[trigger]
            spec_borders(g, s, coord, Color::White).contains(c) implies whites@.contains(c) by {
            let f = choose|f: Coord|
                #[trigger] spec_region(g, s, coord).contains(f) && coords_adjacent(f, c);
            assert(flooded@.contains(f));
        }
        assert forall|c: Coord| #[trigger]
            spec_borders(g, s, coord, Color::Black).contains(c) implies blacks@.contains(c) by {
            let f = choose|f: Coord|
                #[trigger] spec_region(g, s, coord).contains(f) && coords_adjacent(f, c);
            assert(flooded@.contains(f));
        }
    }
    FloodFillResult { flooded, whites, blacks }
}

/// Pushing an element absent from a duplicate-free list keeps it
/// duplicate-free.
proof fn lemma_push_distinct(v: Seq<Coord>, x: Coord)
    requires
        v.no_duplicates(),
        !v.contains(x),
    ensures
        v.push(x).no_duplicates(),
{
    assert forall|i: int, j: int|
        0 <= i < v.push(x).len() && 0 <= j < v.push(x).len() && i != j implies v.push(x)[i]
        != v.push(x)[j] by {
        if i == v.len() {
            if v.push(x)[i] == v.push(x)[j] {
                assert(v[j] == x);
            }
        } else if j == v.len() {
            if v.push(x)[i] == v.push(x)[j] {
                assert(v[i] == x);
            }
        }
    }
}

/// Pushing keeps every previous element.
proof fn lemma_push_keeps(v: Seq<Coord>, x: Coord)
    ensures
        forall|y: Coord| v.contains(y) ==> #[trigger] v.push(x).contains(y),
{
    assert forall|y: Coord| v.contains(y) implies #[trigger] v.push(x).contains(y) by {
        let i = choose|i: int| 0 <= i < v.len() && v[i] == y;
        assert(v.push(x)[i] == y);
    }
}


/// Every member of an empty region is an empty point.
proof fn lemma_region_members_empty(grid: Seq<Color>, size: int, seed: Coord, t: Coord)
    requires
        color_at(grid, size, seed) == Color::Empty,
        spec_region(grid, size, seed).contains(t),
    ensures
        color_at(grid, size, t) == Color::Empty,
{
    let p = choose|p: Seq<Coord>|
        crate::chains::is_path(grid, size, Color::Empty, no_block(), p) && p.first() == seed
            && p.last() == t;
    if p.len() == 1 {
        assert(t == seed);
    }
}

/// Overwriting a point that holds neither of two colors changes the
/// count of neither.
proof fn lemma_count_matching_update_other(grid: Seq<Color>, i: int, c: Color, col: Color)
    requires
        0 <= i < grid.len(),
        grid[i] != col,
        c != col,
    ensures
        count_matching(grid.update(i, c), col) == count_matching(grid, col),
    decreases grid.len(),
{
    let u = grid.update(i, c);
    if i == grid.len() - 1 {
        assert(u.drop_last() =~= grid.drop_last());
    } else {
        assert(u.drop_last() =~= grid.drop_last().update(i, c));
        lemma_count_matching_update_other(grid.drop_last(), i, c, col);
        assert(u.last() == grid.last());
    }
}

/// The first empty point at or after `i`, or the grid length.
pub open spec fn spec_first_empty_from(grid: Seq<Color>, i: int) -> int
    decreases grid.len() - i,
{
    if i < 0 || i >= grid.len() {
        grid.len() as int
    } else if grid[i] == Color::Empty {
        i
    } else {
        spec_first_empty_from(grid, i + 1)
    }
}

/// The first-empty function finds the first empty point.
proof fn lemma_first_empty_char(grid: Seq<Color>, i: int, o: int)
    requires
        0 <= i <= o <= grid.len(),
        forall|j: int| i <= j < o ==> grid[j] != Color::Empty,
        o < grid.len() ==> grid[o] == Color::Empty,
    ensures
        spec_first_empty_from(grid, i) == if o < grid.len() {
            o
        } else {
            grid.len() as int
        },
    decreases o - i,
{
    if i < o {
        lemma_first_empty_char(grid, i + 1, o);
    }
}

/// The set holds at least one coordinate.
pub open spec fn set_has_coord(s: Set<Coord>) -> bool {
    exists|c: Coord| s.contains(c)
}

/// The grid with every listed point overwritten by `color`.
pub open spec fn spec_mark(grid: Seq<Color>, size: int, pts: Set<Coord>, color: Color) -> Seq<
    Color,
> {
    Seq::new(
        grid.len(),
        |o: int|
            if pts.contains(off_coord(size, o)) {
                color
            } else {
                grid[o]
            },
    )
}

/// Overwrites every listed point with `color`. The points must all hold
/// one color `src`, distinct from the new one; the count of `src` points
/// drops by exactly the list's length and no other count changes.
fn mark_points(board: &mut Board, pts: &Vec<Coord>, color: Color, Ghost(src): Ghost<Color>) -> (nothing:
    ())
    requires
        old(board).wf(),
        color != Color::Empty,
        color != src,
        pts@.no_duplicates(),
        forall|i: int|
            0 <= i < pts@.len() ==> coord_in_bounds(#[trigger] pts@[i], old(board).spec_size() as int)
                && color_at(old(board).grid(), old(board).spec_size() as int, pts@[i]) == src,
    ensures
        final(board).wf(),
        final(board).spec_size() == old(board).spec_size(),
        final(board).grid() == spec_mark(
            old(board).grid(),
            old(board).spec_size() as int,
            Set::new(|c: Coord| pts@.contains(c)),
            color,
        ),
        count_matching(final(board).grid(), src) == count_matching(old(board).grid(), src)
            - pts@.len(),
        forall|col: Color|
            col != src && col != color ==> #[trigger] count_matching(final(board).grid(), col)
                == count_matching(old(board).grid(), col),
{
    let ghost s = board.spec_size() as int;
    let ghost g0 = board.grid();
    let n = pts.len();
    let mut i: usize = 0;
    while i < n
        invariant
            board.wf(),
            s == board.spec_size() as int,
            board.spec_size() == old(board).spec_size(),
            g0 == old(board).grid(),
            board.grid().len() == g0.len(),
            color != Color::Empty,
            color != src,
            0 <= i <= n,
            n == pts@.len(),
            pts@.no_duplicates(),
            forall|k: int|
                0 <= k < pts@.len() ==> coord_in_bounds(#[trigger] pts@[k], s) && color_at(
                    g0,
                    s,
                    pts@[k],
                ) == src,
            forall|c: Coord|
                #[trigger] coord_in_bounds(c, s) ==> color_at(board.grid(), s, c) == (
                if pts@.subrange(0, i as int).contains(c) {
                    color
                } else {
                    color_at(g0, s, c)
                }),
            count_matching(board.grid(), src) == count_matching(g0, src) - i,
            forall|col: Color|
                col != src && col != color ==> #[trigger] count_matching(board.grid(), col)
                    == count_matching(g0, col),
        decreases n - i,
    {
        let co = pts[i];
        let ghost before = board.grid();
        proof {
            assert(!pts@.subrange(0, i as int).contains(pts@[i as int])) by {
                if pts@.subrange(0, i as int).contains(pts@[i as int]) {
                    let j = choose|j: int|
                        0 <= j < i && pts@.subrange(0, i as int)[j] == pts@[i as int];
                }
            }
            assert(color_at(before, s, co) == src);
            assert(0 <= coord_off(co, s) < s * s) by (nonlinear_arith)
                requires
                    0 <= co.row < s,
                    0 <= co.col < s,
            ;
            crate::chains::lemma_count_matching_update(before, coord_off(co, s), color, src);
            assert forall|col: Color| col != src && col != color implies #[trigger] count_matching(
                before.update(coord_off(co, s), color),
                col,
            ) == count_matching(before, col) by {
                lemma_count_matching_update_other(before, coord_off(co, s), color, col);
            }
        }
        board.set_move(Move::Stone(co, color));
        proof {
            assert forall|c: Coord| #[trigger] coord_in_bounds(c, s) implies color_at(
                board.grid(),
                s,
                c,
            ) == (if pts@.subrange(0, i + 1).contains(c) {
                color
            } else {
                color_at(g0, s, c)
            }) by {
                assert(0 <= coord_off(c, s) < s * s) by (nonlinear_arith)
                    requires
                        0 <= c.row < s,
                        0 <= c.col < s,
                ;
                if c != co && coord_off(c, s) == coord_off(co, s) {
                    lemma_coord_off_injective(c, co, s);
                }
                if pts@.subrange(0, i + 1).contains(c) {
                    let j = choose|j: int| 0 <= j < i + 1 && #[trigger] pts@.subrange(0, i + 1)[j] == c;
                    if j < i {
                        assert(pts@.subrange(0, i as int)[j] == c);
                    }
                } else {
                    assert(!pts@.subrange(0, i as int).contains(c)) by {
                        if pts@.subrange(0, i as int).contains(c) {
                            let j = choose|j: int|
                                0 <= j < i && pts@.subrange(0, i as int)[j] == c;
                            assert(pts@.subrange(0, i + 1)[j] == c);
                        }
                    }
                    assert(c != co) by {
                        if c == co {
                            assert(pts@.subrange(0, i + 1)[i as int] == c);
                        }
                    }
                }
            }
        }
        i += 1;
    }
    proof {
        assert(pts@.subrange(0, n as int) =~= pts@);
        assert forall|o: int|
            0 <= o < board.grid().len() implies board.grid()[o] == spec_mark(
            g0,
            s,
            Set::new(|c: Coord| pts@.contains(c)),
            color,
        )[o] by {
            lemma_off_coord_inverse(s, o);
            let c = off_coord(s, o);
            assert(color_at(board.grid(), s, c) == board.grid()[o]);
        }
        assert(board.grid() =~= spec_mark(g0, s, Set::new(|c: Coord| pts@.contains(c)), color));
    }
}

/// How many points of the board hold each color.
pub struct CountColorsResult {
    empty: u16,
    black: u16,
    white: u16,
    dame: u16,
    black_territory: u16,
    white_territory: u16,
}

impl CountColorsResult {
    /// The count of empty points.
    pub closed spec fn spec_empty(&self) -> u16 {
        self.empty
    }

    /// The count of black stones.
    pub closed spec fn spec_black(&self) -> u16 {
        self.black
    }

    /// The count of white stones.
    pub closed spec fn spec_white(&self) -> u16 {
        self.white
    }

    /// The count of neutral points.
    pub closed spec fn spec_dame(&self) -> u16 {
        self.dame
    }

    /// The count of black territory points.
    pub closed spec fn spec_black_territory(&self) -> u16 {
        self.black_territory
    }

    /// The count of white territory points.
    pub closed spec fn spec_white_territory(&self) -> u16 {
        self.white_territory
    }
}

/// Counts every color over the whole grid in one pass.
pub fn count_colors(board: &Board) -> (r: CountColorsResult)
    requires
        board.wf(),
    ensures
        r.spec_empty() == count_matching(board.grid(), Color::Empty),
        r.spec_black() == count_matching(board.grid(), Color::Black),
        r.spec_white() == count_matching(board.grid(), Color::White),
        r.spec_dame() == count_matching(board.grid(), Color::Dame),
        r.spec_black_territory() == count_matching(board.grid(), Color::BlackTerritory),
        r.spec_white_territory() == count_matching(board.grid(), Color::WhiteTerritory),
{
    let ghost g = board.grid();
    let data = board.data();
    let n = data.len();
    let mut empty: u16 = 0;
    let mut black: u16 = 0;
    let mut white: u16 = 0;
    let mut black_territory: u16 = 0;
    let mut white_territory: u16 = 0;
    let mut dame: u16 = 0;
    let mut i: usize = 0;
    proof {
        assert(g.subrange(0, 0) =~= Seq::<Color>::empty());
        let wfs = board.spec_size() as int;
        assert(wfs * wfs <= 1024) by (nonlinear_arith)
            requires
                0 <= wfs <= 32,
        ;
    }
    while i < n
        invariant
            0 <= i <= n,
            n == g.len() <= 1024,
            data@ == g,
            empty == count_matching(g.subrange(0, i as int), Color::Empty),
            black == count_matching(g.subrange(0, i as int), Color::Black),
            white == count_matching(g.subrange(0, i as int), Color::White),
            dame == count_matching(g.subrange(0, i as int), Color::Dame),
            black_territory == count_matching(g.subrange(0, i as int), Color::BlackTerritory),
            white_territory == count_matching(g.subrange(0, i as int), Color::WhiteTerritory),
            empty <= i && black <= i && white <= i && dame <= i && black_territory <= i
                && white_territory <= i,
        decreases n - i,
    {
        proof {
            assert(g.subrange(0, i + 1).drop_last() =~= g.subrange(0, i as int));
            assert(g.subrange(0, i + 1).last() == g[i as int]);
        }
        match data[i] {
            Color::Empty => empty = empty + 1,
            Color::Black => black = black + 1,
            Color::White => white = white + 1,
            Color::BlackTerritory => black_territory = black_territory + 1,
            Color::WhiteTerritory => white_territory = white_territory + 1,
            Color::Dame => dame = dame + 1,
        }
        i += 1;
    }
    proof {
        assert(g.subrange(0, n as int) =~= g);
    }
    CountColorsResult { empty, black, white, dame, black_territory, white_territory }
}


/// One conservative classification step: the first empty region becomes
/// Black territory when only Black borders it, White territory when only
/// White does, and neutral otherwise.
pub open spec fn spec_conservative_step(grid: Seq<Color>, size: int) -> Seq<Color> {
    let fe = spec_first_empty_from(grid, 0);
    let seed = off_coord(size, fe);
    let wb = spec_borders(grid, size, seed, Color::White);
    let bb = spec_borders(grid, size, seed, Color::Black);
    let cl = if !set_has_coord(wb) && set_has_coord(bb) {
        Color::BlackTerritory
    } else if !set_has_coord(bb) && set_has_coord(wb) {
        Color::WhiteTerritory
    } else {
        Color::Dame
    };
    spec_mark(grid, size, spec_region(grid, size, seed), cl)
}

/// The conservative classification of the whole grid: empty regions are
/// classified in row-major order of their first point until none remain.
pub open spec fn spec_conservative_classify(grid: Seq<Color>, size: int, fuel: nat) -> Seq<Color>
    decreases fuel,
{
    if fuel == 0 {
        grid
    } else {
        let fe = spec_first_empty_from(grid, 0);
        if fe >= grid.len() {
            grid
        } else {
            spec_conservative_classify(spec_conservative_step(grid, size), size, (fuel - 1) as nat)
        }
    }
}

/// One optimistic classification step: as the conservative one, but a
/// region whose majority border outnumbers the minority by more than
/// three is claimed for the majority, with the minority stones treated
/// as captured. Yields the new grid and the extra black and white
/// captures of this step.
pub open spec fn spec_optimistic_step(grid: Seq<Color>, size: int) -> (Seq<Color>, int, int) {
    let fe = spec_first_empty_from(grid, 0);
    let seed = off_coord(size, fe);
    let reg = spec_region(grid, size, seed);
    let wb = spec_borders(grid, size, seed, Color::White);
    let bb = spec_borders(grid, size, seed, Color::Black);
    let wbn = wb.len() as int;
    let bbn = bb.len() as int;
    if bbn > 0 && wbn < bbn && bbn - wbn > 3 {
        (spec_mark(spec_mark(grid, size, wb, Color::BlackTerritory), size, reg, Color::BlackTerritory), 0int, wbn)
    } else if wbn > 0 && bbn < wbn && wbn - bbn > 3 {
        (spec_mark(spec_mark(grid, size, bb, Color::WhiteTerritory), size, reg, Color::WhiteTerritory), bbn, 0int)
    } else {
        (spec_mark(grid, size, reg, Color::Dame), 0int, 0int)
    }
}

/// The optimistic classification of the whole grid, with the total extra
/// black and white captures it claims.
pub open spec fn spec_optimistic_classify(grid: Seq<Color>, size: int, fuel: nat) -> (
    Seq<Color>,
    int,
    int,
)
    decreases fuel,
{
    if fuel == 0 {
        (grid, 0int, 0int)
    } else {
        let fe = spec_first_empty_from(grid, 0);
        if fe >= grid.len() {
            (grid, 0int, 0int)
        } else {
            let step = spec_optimistic_step(grid, size);
            let rest = spec_optimistic_classify(step.0, size, (fuel - 1) as nat);
            (rest.0, step.1 + rest.1, step.2 + rest.2)
        }
    }
}

/// The signed score of a classified grid, in half-points: komi plus the
/// credited and extra captures plus the live-stone and territory
/// differences; negative totals favor Black, positive White.
pub open spec fn spec_score_count(
    grid: Seq<Color>,
    komi: int,
    cb: int,
    cw: int,
    eb: int,
    ew: int,
) -> int {
    komi + 2 * cb - 2 * cw + 2 * eb - 2 * ew + 2 * count_matching(grid, Color::White) - 2
        * count_matching(grid, Color::Black) + 2 * count_matching(grid, Color::WhiteTerritory) - 2
        * count_matching(grid, Color::BlackTerritory)
}

/// The outcome read off a classified grid: the winning color and margin
/// from the signed score, with the neutral-point count plus any extra
/// range as the uncertainty.
pub open spec fn spec_result_range(
    grid: Seq<Color>,
    komi: int,
    cb: int,
    cw: int,
    eb: int,
    ew: int,
    er: int,
) -> GameResultRange {
    let count = spec_score_count(grid, komi, cb, cw, eb, ew);
    GameResultRange {
        result: GameResult::Score(
            if count < 0 {
                Color::Black
            } else {
                Color::White
            },
            (if count < 0 {
                -count
            } else {
                count
            }) as u32,
        ),
        range: (count_matching(grid, Color::Dame) + er) as u16,
    }
}

/// Folds a classified board and the game's bookkeeping into an outcome
/// range.
fn calculate_result_range(
    board: &Board,
    game: &Game,
    extra_black_captured: u16,
    extra_white_captured: u16,
    extra_range: u16,
) -> (r: GameResultRange)
    requires
        board.wf(),
        game.wf(),
        extra_black_captured <= 1024,
        extra_white_captured <= 1024,
        extra_range <= 4096,
    ensures
        r == spec_result_range(
            board.grid(),
            game.spec_komi() as int,
            game.spec_captured_black() as int,
            game.spec_captured_white() as int,
            extra_black_captured as int,
            extra_white_captured as int,
            extra_range as int,
        ),
{
    let counted = count_colors(board);
    proof {
        crate::chains::lemma_count_matching_bounds(board.grid(), Color::White);
        crate::chains::lemma_count_matching_bounds(board.grid(), Color::Black);
        crate::chains::lemma_count_matching_bounds(board.grid(), Color::WhiteTerritory);
        crate::chains::lemma_count_matching_bounds(board.grid(), Color::BlackTerritory);
        crate::chains::lemma_count_matching_bounds(board.grid(), Color::Dame);
        let bs = board.spec_size() as int;
        assert(bs * bs <= 1024) by (nonlinear_arith)
            requires
                0 <= bs <= 32,
        ;
    }
    let count: i64 = game.komi() as i64 + 2 * (game.captured_count(Color::Black) as i64) - 2 * (
    game.captured_count(Color::White) as i64) + 2 * (extra_black_captured as i64) - 2 * (
    extra_white_captured as i64) + 2 * (counted.white as i64) - 2 * (counted.black as i64) + 2 * (
    counted.white_territory as i64) - 2 * (counted.black_territory as i64);
    let winning_color = if count < 0 {
        Color::Black
    } else {
        Color::White
    };
    let winning_score: u32 = if count < 0 {
        (-count) as u32
    } else {
        count as u32
    };
    let range: u16 = counted.dame + extra_range;
    GameResultRange::new(GameResult::Score(winning_color, winning_score), range)
}

/// Classifies every empty region conservatively on a scratch board and
/// reads the outcome off the result, yielding the classified board too:
/// its grid is exactly the conservative classification of the live grid,
/// and the outcome is read off it.
#[verifier::rlimit(100)]
pub fn conservative_floodfill_scorer_with_board(game: &Game) -> (r: (Board, GameResultRange))
    requires
        game.wf(),
    ensures
        r.0.wf(),
        r.0.spec_size() == game.spec_board().spec_size(),
        r.0.grid() == spec_conservative_classify(
            game.spec_board().grid(),
            game.ssize(),
            (game.spec_board().grid().len() + 1) as nat,
        ),
        r.1 == spec_result_range(
            r.0.grid(),
            game.spec_komi() as int,
            game.spec_captured_black() as int,
            game.spec_captured_white() as int,
            0,
            0,
            0,
        ),
{
    let mut wb = game.board().clone();
    let ghost g0 = wb.grid();
    let ghost s = wb.spec_size() as int;
    let ghost fuel0: nat = (g0.len() + 1) as nat;
    let ghost mut m: nat = fuel0;
    proof {
        assert(25 <= s * s <= 1024) by (nonlinear_arith)
            requires
                5 <= s <= 32,
        ;
    }
    let mut curr_find = wb.find_first(Color::Empty);
    while curr_find.is_some()
        invariant
            wb.wf(),
            s == wb.spec_size() as int,
            25 <= s * s <= 1024,
            wb.grid().len() == g0.len(),
            match curr_find {
                Some(c) => coord_in_bounds(c, s) && color_at(wb.grid(), s, c) == Color::Empty && (
                forall|j: int| 0 <= j < coord_off(c, s) ==> wb.grid()[j] != Color::Empty) && m >= 1
                    && m >= g0.len() - coord_off(c, s),
                None => forall|j: int| 0 <= j < wb.grid().len() ==> wb.grid()[j] != Color::Empty,
            },
            spec_conservative_classify(g0, s, fuel0) == spec_conservative_classify(
                wb.grid(),
                s,
                m,
            ),
        decreases (match curr_find {
            Some(c) => g0.len() + 1 - coord_off(c, s),
            None => 0int,
        }),
    {
        let curr = curr_find.unwrap();
        let ghost gi = wb.grid();
        let ghost mi = m;
        let ghost fe = coord_off(curr, s);
        proof {
            assert(0 <= curr.row * s + curr.col < s * s) by (nonlinear_arith)
                requires
                    0 <= curr.row < s,
                    0 <= curr.col < s,
            ;
            assert(fe == curr.row * s + curr.col);
            lemma_first_empty_char(gi, 0, fe);
            lemma_off_coord_inverse(s, fe);
            lemma_coord_off_injective(off_coord(s, fe), curr, s);
            assert(off_coord(s, fe) == curr);
        }
        let ffr = flood_fill(&wb, curr);
        let ghost reg = spec_region(gi, s, curr);
        let ghost wbset = spec_borders(gi, s, curr, Color::White);
        let ghost bbset = spec_borders(gi, s, curr, Color::Black);
        proof {
            if ffr.whites@.len() > 0 {
                assert(wbset.contains(ffr.whites@[0]));
            }
            if set_has_coord(wbset) {
                let c = choose|c: Coord| wbset.contains(c);
                assert(ffr.whites@.contains(c));
            }
            if ffr.blacks@.len() > 0 {
                assert(bbset.contains(ffr.blacks@[0]));
            }
            if set_has_coord(bbset) {
                let c = choose|c: Coord| bbset.contains(c);
                assert(ffr.blacks@.contains(c));
            }
            assert forall|i: int| 0 <= i < ffr.flooded@.len() implies coord_in_bounds(
                #[trigger] ffr.flooded@[i],
                s,
            ) && color_at(gi, s, ffr.flooded@[i]) == Color::Empty by {
                assert(reg.contains(ffr.flooded@[i]));
                let p = choose|p: Seq<Coord>|
                    crate::chains::is_path(gi, s, Color::Empty, no_block(), p) && p.first() == curr
                        && p.last() == ffr.flooded@[i];
                lemma_region_members_empty(gi, s, curr, ffr.flooded@[i]);
            }
        }
        let is_bt = ffr.whites.len() == 0 && ffr.blacks.len() > 0;
        let is_wt = ffr.blacks.len() == 0 && ffr.whites.len() > 0;
        let cl = if is_bt {
            Color::BlackTerritory
        } else if is_wt {
            Color::WhiteTerritory
        } else {
            Color::Dame
        };
        mark_points(&mut wb, &ffr.flooded, cl, Ghost(Color::Empty));
        proof {
            let fset = Set::new(|c: Coord| ffr.flooded@.contains(c));
            assert(fset =~= reg);
            assert(wb.grid() == spec_mark(gi, s, reg, cl));
            assert(wb.grid() == spec_conservative_step(gi, s));
            assert(spec_conservative_classify(gi, s, mi) == spec_conservative_classify(
                wb.grid(),
                s,
                (mi - 1) as nat,
            ));
            m = (mi - 1) as nat;
            assert forall|j: int| 0 <= j <= fe implies wb.grid()[j] != Color::Empty by {
                lemma_off_coord_inverse(s, j);
                if reg.contains(off_coord(s, j)) {
                    assert(wb.grid()[j] == cl);
                } else {
                    assert(wb.grid()[j] == gi[j]);
                    if j == fe {
                        lemma_reaches_self(gi, s, Color::Empty, curr, no_block());
                        assert(reg.contains(curr));
                    }
                }
            }
        }
        curr_find = wb.find_next(Color::Empty, &curr);
        proof {
            if curr_find is Some {
                let c2 = curr_find.unwrap();
                assert(0 <= c2.row * s + c2.col < s * s) by (nonlinear_arith)
                    requires
                        0 <= c2.row < s,
                        0 <= c2.col < s,
                ;
                assert(coord_off(c2, s) == c2.row * s + c2.col);
                assert(coord_off(c2, s) > fe);
                assert forall|j: int| 0 <= j < coord_off(c2, s) implies wb.grid()[j]
                    != Color::Empty by {}
            }
        }
    }
    proof {
        if m > 0 {
            lemma_first_empty_char(wb.grid(), 0, wb.grid().len() as int);
        }
        assert(spec_conservative_classify(wb.grid(), s, m) == wb.grid());
    }
    let result = calculate_result_range(&wb, game, 0, 0, 0);
    (wb, result)
}

/// Classifies every empty region conservatively on a scratch board and
/// reads the outcome off the result: the exact outcome is the one given
/// by the conservative classification of the live grid.
pub fn conservative_floodfill_scorer(game: &Game) -> (r: GameResultRange)
    requires
        game.wf(),
    ensures
        r == spec_result_range(
            spec_conservative_classify(
                game.spec_board().grid(),
                game.ssize(),
                (game.spec_board().grid().len() + 1) as nat,
            ),
            game.spec_komi() as int,
            game.spec_captured_black() as int,
            game.spec_captured_white() as int,
            0,
            0,
            0,
        ),
{
    let scored = conservative_floodfill_scorer_with_board(game);
    scored.1
}


/// Classifies every empty region optimistically on a scratch board,
/// yielding the classified board too: a heavily outnumbered border is
/// treated as captured and its region claimed; the board's grid is
/// exactly the optimistic classification of the live grid, and the
/// outcome read off it is widened by one and a half times the extra
/// captures.
#[verifier::rlimit(100)]
pub fn optimistic_floodfill_scorer_with_board(game: &Game) -> (r: (Board, GameResultRange))
    requires
        game.wf(),
    ensures
        r.0.wf(),
        r.0.spec_size() == game.spec_board().spec_size(),
        ({
            let t = spec_optimistic_classify(
                game.spec_board().grid(),
                game.ssize(),
                (game.spec_board().grid().len() + 1) as nat,
            );
            &&& r.0.grid() == t.0
            &&& r.1 == spec_result_range(
                t.0,
                game.spec_komi() as int,
                game.spec_captured_black() as int,
                game.spec_captured_white() as int,
                t.1,
                t.2,
                (t.1 + t.2) * 3 / 2,
            )
        }),
{
    let mut wb = game.board().clone();
    let ghost g0 = wb.grid();
    let ghost s = wb.spec_size() as int;
    let ghost fuel0: nat = (g0.len() + 1) as nat;
    let ghost mut m: nat = fuel0;
    let mut extra_black_captured: u16 = 0;
    let mut extra_white_captured: u16 = 0;
    proof {
        assert(25 <= s * s <= 1024) by (nonlinear_arith)
            requires
                5 <= s <= 32,
        ;
        crate::chains::lemma_count_matching_bounds(g0, Color::White);
        crate::chains::lemma_count_matching_bounds(g0, Color::Black);
    }
    let mut curr_find = wb.find_first(Color::Empty);
    while curr_find.is_some()
        invariant
            wb.wf(),
            s == wb.spec_size() as int,
            25 <= s * s <= 1024,
            wb.grid().len() == g0.len(),
            g0.len() <= 1024,
            match curr_find {
                Some(c) => coord_in_bounds(c, s) && color_at(wb.grid(), s, c) == Color::Empty && (
                forall|j: int| 0 <= j < coord_off(c, s) ==> wb.grid()[j] != Color::Empty) && m >= 1
                    && m >= g0.len() - coord_off(c, s),
                None => forall|j: int| 0 <= j < wb.grid().len() ==> wb.grid()[j] != Color::Empty,
            },
            extra_black_captured + count_matching(wb.grid(), Color::Black) == count_matching(
                g0,
                Color::Black,
            ),
            extra_white_captured + count_matching(wb.grid(), Color::White) == count_matching(
                g0,
                Color::White,
            ),
            0 <= count_matching(wb.grid(), Color::Black),
            0 <= count_matching(wb.grid(), Color::White),
            count_matching(g0, Color::Black) <= g0.len(),
            count_matching(g0, Color::White) <= g0.len(),
            spec_optimistic_classify(g0, s, fuel0) == ({
                let t = spec_optimistic_classify(wb.grid(), s, m);
                (t.0, extra_black_captured + t.1, extra_white_captured + t.2)
            }),
        decreases (match curr_find {
            Some(c) => g0.len() + 1 - coord_off(c, s),
            None => 0int,
        }),
    {
        let curr = curr_find.unwrap();
        let ghost gi = wb.grid();
        let ghost mi = m;
        let ghost fe = coord_off(curr, s);
        proof {
            assert(0 <= curr.row * s + curr.col < s * s) by (nonlinear_arith)
                requires
                    0 <= curr.row < s,
                    0 <= curr.col < s,
            ;
            assert(fe == curr.row * s + curr.col);
            lemma_first_empty_char(gi, 0, fe);
            lemma_off_coord_inverse(s, fe);
            lemma_coord_off_injective(off_coord(s, fe), curr, s);
            assert(off_coord(s, fe) == curr);
        }
        let ffr = flood_fill(&wb, curr);
        let ghost reg = spec_region(gi, s, curr);
        let ghost wbset = spec_borders(gi, s, curr, Color::White);
        let ghost bbset = spec_borders(gi, s, curr, Color::Black);
        proof {
            assert forall|i: int| 0 <= i < ffr.flooded@.len() implies coord_in_bounds(
                #[trigger] ffr.flooded@[i],
                s,
            ) && color_at(gi, s, ffr.flooded@[i]) == Color::Empty by {
                assert(reg.contains(ffr.flooded@[i]));
                let p = choose|p: Seq<Coord>|
                    crate::chains::is_path(gi, s, Color::Empty, no_block(), p) && p.first() == curr
                        && p.last() == ffr.flooded@[i];
                lemma_region_members_empty(gi, s, curr, ffr.flooded@[i]);
            }
            assert forall|i: int| 0 <= i < ffr.whites@.len() implies coord_in_bounds(
                #[trigger] ffr.whites@[i],
                s,
            ) && color_at(gi, s, ffr.whites@[i]) == Color::White by {
                assert(wbset.contains(ffr.whites@[i]));
            }
            assert forall|i: int| 0 <= i < ffr.blacks@.len() implies coord_in_bounds(
                #[trigger] ffr.blacks@[i],
                s,
            ) && color_at(gi, s, ffr.blacks@[i]) == Color::Black by {
                assert(bbset.contains(ffr.blacks@[i]));
            }
            ffr.whites@.unique_seq_to_set();
            ffr.blacks@.unique_seq_to_set();
            assert(ffr.whites@.to_set() =~= wbset) by {
                assert forall|c: Coord| ffr.whites@.to_set().contains(c) implies wbset.contains(
                    c,
                ) by {
                    assert(ffr.whites@.contains(c));
                }
            }
            assert(ffr.blacks@.to_set() =~= bbset) by {
                assert forall|c: Coord| ffr.blacks@.to_set().contains(c) implies bbset.contains(
                    c,
                ) by {
                    assert(ffr.blacks@.contains(c));
                }
            }
            assert(ffr.whites@.len() == wbset.len());
            assert(ffr.blacks@.len() == bbset.len());
        }
        let whites_l = ffr.whites.len();
        let blacks_l = ffr.blacks.len();
        let is_white_territory = whites_l > 0 && blacks_l < whites_l && whites_l - blacks_l > 3;
        let is_black_territory = blacks_l > 0 && whites_l < blacks_l && blacks_l - whites_l > 3;
        if is_black_territory {
            mark_points(&mut wb, &ffr.whites, Color::BlackTerritory, Ghost(Color::White));
            proof {
                let wvset = Set::new(|c: Coord| ffr.whites@.contains(c));
                assert(wvset =~= wbset);
                crate::chains::lemma_count_matching_bounds(wb.grid(), Color::White);
            }
            extra_white_captured = extra_white_captured + (ffr.whites.len() as u16);
            let ghost g1 = wb.grid();
            proof {
                assert forall|i: int| 0 <= i < ffr.flooded@.len() implies coord_in_bounds(
                    #[trigger] ffr.flooded@[i],
                    s,
                ) && color_at(g1, s, ffr.flooded@[i]) == Color::Empty by {
                    let t = ffr.flooded@[i];
                    assert(0 <= t.row * s + t.col < s * s) by (nonlinear_arith)
                        requires
                            0 <= t.row < s,
                            0 <= t.col < s,
                    ;
                    lemma_off_coord_inverse(s, coord_off(t, s));
                    lemma_coord_off_injective(off_coord(s, coord_off(t, s)), t, s);
                    assert(!wbset.contains(t));
                }
            }
            mark_points(&mut wb, &ffr.flooded, Color::BlackTerritory, Ghost(Color::Empty));
            proof {
                let fset = Set::new(|c: Coord| ffr.flooded@.contains(c));
                assert(fset =~= reg);
                assert(wb.grid() == spec_optimistic_step(gi, s).0);
                assert(spec_optimistic_step(gi, s).1 == 0);
                assert(spec_optimistic_step(gi, s).2 == wbset.len() as int);
            }
        } else if is_white_territory {
            mark_points(&mut wb, &ffr.blacks, Color::WhiteTerritory, Ghost(Color::Black));
            proof {
                let bvset = Set::new(|c: Coord| ffr.blacks@.contains(c));
                assert(bvset =~= bbset);
                crate::chains::lemma_count_matching_bounds(wb.grid(), Color::Black);
            }
            extra_black_captured = extra_black_captured + (ffr.blacks.len() as u16);
            let ghost g1 = wb.grid();
            proof {
                assert forall|i: int| 0 <= i < ffr.flooded@.len() implies coord_in_bounds(
                    #[trigger] ffr.flooded@[i],
                    s,
                ) && color_at(g1, s, ffr.flooded@[i]) == Color::Empty by {
                    let t = ffr.flooded@[i];
                    assert(0 <= t.row * s + t.col < s * s) by (nonlinear_arith)
                        requires
                            0 <= t.row < s,
                            0 <= t.col < s,
                    ;
                    lemma_off_coord_inverse(s, coord_off(t, s));
                    lemma_coord_off_injective(off_coord(s, coord_off(t, s)), t, s);
                    assert(!bbset.contains(t));
                }
            }
            mark_points(&mut wb, &ffr.flooded, Color::WhiteTerritory, Ghost(Color::Empty));
            proof {
                let fset = Set::new(|c: Coord| ffr.flooded@.contains(c));
                assert(fset =~= reg);
                assert(wb.grid() == spec_optimistic_step(gi, s).0);
                assert(spec_optimistic_step(gi, s).1 == bbset.len() as int);
                assert(spec_optimistic_step(gi, s).2 == 0);
            }
        } else {
            mark_points(&mut wb, &ffr.flooded, Color::Dame, Ghost(Color::Empty));
            proof {
                let fset = Set::new(|c: Coord| ffr.flooded@.contains(c));
                assert(fset =~= reg);
                assert(wb.grid() == spec_optimistic_step(gi, s).0);
                assert(spec_optimistic_step(gi, s).1 == 0);
                assert(spec_optimistic_step(gi, s).2 == 0);
            }
        }
        proof {
            assert(spec_optimistic_classify(gi, s, mi) == ({
                let rest = spec_optimistic_classify(wb.grid(), s, (mi - 1) as nat);
                (
                    rest.0,
                    spec_optimistic_step(gi, s).1 + rest.1,
                    spec_optimistic_step(gi, s).2 + rest.2,
                )
            }));
            m = (mi - 1) as nat;
            assert forall|j: int| 0 <= j <= fe implies wb.grid()[j] != Color::Empty by {
                lemma_off_coord_inverse(s, j);
                if j == fe {
                    lemma_reaches_self(gi, s, Color::Empty, curr, no_block());
                    assert(reg.contains(curr));
                }
            }
        }
        curr_find = wb.find_next(Color::Empty, &curr);
        proof {
            if curr_find is Some {
                let c2 = curr_find.unwrap();
                assert(0 <= c2.row * s + c2.col < s * s) by (nonlinear_arith)
                    requires
                        0 <= c2.row < s,
                        0 <= c2.col < s,
                ;
                assert(coord_off(c2, s) == c2.row * s + c2.col);
                assert(coord_off(c2, s) > fe);
                assert forall|j: int| 0 <= j < coord_off(c2, s) implies wb.grid()[j]
                    != Color::Empty by {}
            }
        }
    }
    proof {
        if m > 0 {
            lemma_first_empty_char(wb.grid(), 0, wb.grid().len() as int);
        }
        assert(spec_optimistic_classify(wb.grid(), s, m) == (wb.grid(), 0int, 0int));
    }
    let extra_range = (extra_black_captured + extra_white_captured) * 3 / 2;
    let result = calculate_result_range(
        &wb,
        game,
        extra_black_captured,
        extra_white_captured,
        extra_range,
    );
    (wb, result)
}

/// Classifies every empty region optimistically on a scratch board: a
/// heavily outnumbered border is treated as captured and its region
/// claimed; the exact outcome is the one given by the optimistic
/// classification of the live grid, its range widened by one and a half
/// times the extra captures.
pub fn optimistic_floodfill_scorer(game: &Game) -> (r: GameResultRange)
    requires
        game.wf(),
    ensures
        ({
            let t = spec_optimistic_classify(
                game.spec_board().grid(),
                game.ssize(),
                (game.spec_board().grid().len() + 1) as nat,
            );
            r == spec_result_range(
                t.0,
                game.spec_komi() as int,
                game.spec_captured_black() as int,
                game.spec_captured_white() as int,
                t.1,
                t.2,
                (t.1 + t.2) * 3 / 2,
            )
        }),
{
    let scored = optimistic_floodfill_scorer_with_board(game);
    scored.1
}

} // verus!
