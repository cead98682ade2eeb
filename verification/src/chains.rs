//! Connectivity of same-colored chains over the grid: paths, reachability,
//! the liberty predicate, and the maximal chain of a seed point. The
//! executable flood searches on `Board` are specified against these.

use vstd::prelude::*;

use crate::board::{coord_in_bounds, coord_off};
use crate::color::Color;
use crate::coord::{Coord, spec_adjacents};

verus! {

/// Two coordinates share an edge.
pub open spec fn coords_adjacent(a: Coord, b: Coord) -> bool {
    (a.row == b.row && (a.col == b.col + 1 || b.col == a.col + 1)) || (a.col == b.col && (a.row
        == b.row + 1 || b.row == a.row + 1))
}

/// The color at a coordinate of the grid.
pub open spec fn color_at(grid: Seq<Color>, size: int, c: Coord) -> Color {
    grid[coord_off(c, size)]
}

/// A coordinate that lies on no board; passed as the blocked point where
/// nothing is blocked.
pub open spec fn no_block() -> Coord {
    Coord { row: 255, col: 255 }
}

/// A flood path: nonempty and in bounds; after its seed, every step is a
/// point of the chain color other than the blocked point, and consecutive
/// points share an edge.
pub open spec fn is_path(
    grid: Seq<Color>,
    size: int,
    color: Color,
    blocked: Coord,
    p: Seq<Coord>,
) -> bool {
    &&& p.len() > 0
    &&& forall|i: int| 0 <= i < p.len() ==> coord_in_bounds(#[trigger] p[i], size)
    &&& forall|i: int| 1 <= i < p.len() ==> coords_adjacent(p[i - 1], #[trigger] p[i])
    &&& forall|i: int|
        1 <= i < p.len() ==> #[trigger] p[i] != blocked && color_at(grid, size, p[i]) == color
}

/// `t` belongs to the chain flooded from `start` over `color` points,
/// never stepping on `blocked`.
pub open spec fn reaches(
    grid: Seq<Color>,
    size: int,
    color: Color,
    start: Coord,
    blocked: Coord,
    t: Coord,
) -> bool {
    exists|p: Seq<Coord>|
        is_path(grid, size, color, blocked, p) && p.first() == start && p.last() == t
}

/// The flooded chain has a liberty: some reachable point has an empty
/// in-bounds neighbor other than the blocked point.
pub open spec fn chain_live(
    grid: Seq<Color>,
    size: int,
    color: Color,
    start: Coord,
    blocked: Coord,
) -> bool {
    exists|t: Coord, e: Coord|
        reaches(grid, size, color, start, blocked, t) && coords_adjacent(t, e) && coord_in_bounds(
            e,
            size,
        ) && e != blocked && color_at(grid, size, e) == Color::Empty
}

/// The maximal chain of `color` points connected to `start`.
pub open spec fn chain_set(grid: Seq<Color>, size: int, color: Color, start: Coord) -> Set<Coord> {
    Set::new(|t: Coord| reaches(grid, size, color, start, no_block(), t))
}

/// The coordinate at row-major offset `o` on a board of side `size`.
pub open spec fn off_coord(size: int, o: int) -> Coord {
    Coord { row: (o / size) as u8, col: (o % size) as u8 }
}

/// Some in-bounds neighbor of `c` is empty.
pub open spec fn has_empty_neighbor(grid: Seq<Color>, size: int, c: Coord) -> bool {
    exists|e: Coord|
        coords_adjacent(c, e) && coord_in_bounds(e, size) && color_at(grid, size, e) == Color::Empty
}

/// How many points of the grid hold `color`.
pub open spec fn count_matching(grid: Seq<Color>, color: Color) -> int
    decreases grid.len(),
{
    if grid.len() == 0 {
        0
    } else {
        count_matching(grid.drop_last(), color) + if grid.last() == color {
            1int
        } else {
            0int
        }
    }
}

/// Linear membership scan over a coordinate list.
pub fn coords_contain(v: &Vec<Coord>, c: &Coord) -> (r: bool)
    ensures
        r == v@.contains(*c),
{
    let n = v.len();
    let mut i: usize = 0;
    while i < n
        invariant
            0 <= i <= n,
            n == v@.len(),
            forall|j: int| 0 <= j < i ==> v@[j] != *c,
        decreases n - i,
    {
        if v[i] == *c {
            return true;
        }
        i += 1;
    }
    false
}

/// Every point reaches itself.
pub proof fn lemma_reaches_self(
    grid: Seq<Color>,
    size: int,
    color: Color,
    start: Coord,
    blocked: Coord,
)
    requires
        coord_in_bounds(start, size),
    ensures
        reaches(grid, size, color, start, blocked, start),
{
    let p = seq![start];
    assert(is_path(grid, size, color, blocked, p));
    assert(p.first() == start && p.last() == start);
}

/// Reachability extends across one edge onto an unblocked point of the
/// chain color.
pub proof fn lemma_reaches_step(
    grid: Seq<Color>,
    size: int,
    color: Color,
    start: Coord,
    blocked: Coord,
    t: Coord,
    b: Coord,
)
    requires
        reaches(grid, size, color, start, blocked, t),
        coords_adjacent(t, b),
        coord_in_bounds(b, size),
        b != blocked,
        color_at(grid, size, b) == color,
    ensures
        reaches(grid, size, color, start, blocked, b),
{
    let p = choose|p: Seq<Coord>|
        is_path(grid, size, color, blocked, p) && p.first() == start && p.last() == t;
    let q = p.push(b);
    assert(forall|i: int| 0 <= i < p.len() ==> q[i] == p[i]);
    assert(is_path(grid, size, color, blocked, q));
    assert(q.first() == start && q.last() == b);
}

/// Walking a path from inside a closed set cannot leave the set: if every
/// unblocked chain-colored neighbor of a member is a member, the path's
/// end is a member.
pub proof fn lemma_path_in_closed_set(
    grid: Seq<Color>,
    size: int,
    color: Color,
    blocked: Coord,
    p: Seq<Coord>,
    s: Set<Coord>,
)
    requires
        is_path(grid, size, color, blocked, p),
        s.contains(p.first()),
        forall|a: Coord, b: Coord|
            s.contains(a) && #[trigger] coords_adjacent(a, b) && coord_in_bounds(b, size) && b
                != blocked && color_at(grid, size, b) == color ==> #[trigger] s.contains(b),
    ensures
        s.contains(p.last()),
    decreases p.len(),
{
    if p.len() > 1 {
        let q = p.drop_last();
        assert(is_path(grid, size, color, blocked, q));
        assert(q.first() == p.first());
        lemma_path_in_closed_set(grid, size, color, blocked, q, s);
        assert(s.contains(p[p.len() - 2]));
        assert(coords_adjacent(p[p.len() - 2], p.last()));
    }
}

/// As the path lemma, lifted to reachability.
pub proof fn lemma_reaches_in_closed_set(
    grid: Seq<Color>,
    size: int,
    color: Color,
    start: Coord,
    blocked: Coord,
    t: Coord,
    s: Set<Coord>,
)
    requires
        reaches(grid, size, color, start, blocked, t),
        s.contains(start),
        forall|a: Coord, b: Coord|
            s.contains(a) && #[trigger] coords_adjacent(a, b) && coord_in_bounds(b, size) && b
                != blocked && color_at(grid, size, b) == color ==> #[trigger] s.contains(b),
    ensures
        s.contains(t),
{
    let p = choose|p: Seq<Coord>|
        is_path(grid, size, color, blocked, p) && p.first() == start && p.last() == t;
    lemma_path_in_closed_set(grid, size, color, blocked, p, s);
}

/// Distinct in-bounds coordinates have distinct offsets.
pub proof fn lemma_coord_off_injective(a: Coord, b: Coord, size: int)
    requires
        1 <= size,
        coord_in_bounds(a, size),
        coord_in_bounds(b, size),
        coord_off(a, size) == coord_off(b, size),
    ensures
        a == b,
{
    assert(a.row == b.row && a.col == b.col) by (nonlinear_arith)
        requires
            1 <= size,
            0 <= a.row < size,
            0 <= a.col < size,
            0 <= b.row < size,
            0 <= b.col < size,
            a.row * size + a.col == b.row * size + b.col,
    ;
}

/// A duplicate-free sequence of in-bounds coordinates has at most one
/// entry per grid point.
pub proof fn lemma_distinct_coords_bounded(p: Seq<Coord>, size: int)
    requires
        1 <= size,
        p.no_duplicates(),
        forall|i: int| 0 <= i < p.len() ==> coord_in_bounds(#[trigger] p[i], size),
    ensures
        p.len() <= size * size,
{
    let f = |c: Coord| coord_off(c, size);
    let offs = p.map_values(f);
    assert(offs.no_duplicates()) by {
        assert forall|i: int, j: int|
            0 <= i < offs.len() && 0 <= j < offs.len() && i != j implies offs[i] != offs[j] by {
            if offs[i] == offs[j] {
                lemma_coord_off_injective(p[i], p[j], size);
            }
        }
    }
    offs.unique_seq_to_set();
    let range = vstd::set_lib::set_int_range(0, size * size);
    vstd::set_lib::lemma_int_range(0, size * size);
    assert(offs.to_set().subset_of(range)) by {
        assert forall|o: int| offs.to_set().contains(o) implies range.contains(o) by {
            let i = choose|i: int| 0 <= i < offs.len() && offs[i] == o;
            let c = p[i];
            assert(c.row * size + c.col < size * size && 0 <= c.row * size + c.col) by (
            nonlinear_arith)
                requires
                    0 <= c.row < size,
                    0 <= c.col < size,
            ;
        }
    }
    vstd::set_lib::lemma_len_subset(offs.to_set(), range);
}

/// Overwriting one point that held `color` with another color lowers the
/// count of `color` points by exactly one.
pub proof fn lemma_count_matching_update(grid: Seq<Color>, i: int, c: Color, color: Color)
    requires
        0 <= i < grid.len(),
        grid[i] == color,
        c != color,
    ensures
        count_matching(grid.update(i, c), color) == count_matching(grid, color) - 1,
    decreases grid.len(),
{
    let u = grid.update(i, c);
    if i == grid.len() - 1 {
        assert(u.drop_last() =~= grid.drop_last());
    } else {
        assert(u.drop_last() =~= grid.drop_last().update(i, c));
        lemma_count_matching_update(grid.drop_last(), i, c, color);
        assert(u.last() == grid.last());
    }
}

/// Counts never exceed the grid and never fall below zero.
pub proof fn lemma_count_matching_bounds(grid: Seq<Color>, color: Color)
    ensures
        0 <= count_matching(grid, color) <= grid.len(),
    decreases grid.len(),
{
    if grid.len() > 0 {
        lemma_count_matching_bounds(grid.drop_last(), color);
    }
}

/// The neighborhood sequence is sound: each entry is in bounds and shares
/// an edge with the center.
pub proof fn lemma_adjacents_sound(c: Coord, bs: u8)
    requires
        coord_in_bounds(c, bs as int),
    ensures
        forall|i: int|
            0 <= i < spec_adjacents(c, bs).len() ==> coord_in_bounds(
                #[trigger] spec_adjacents(c, bs)[i],
                bs as int,
            ) && coords_adjacent(c, spec_adjacents(c, bs)[i]),
{
}

/// The neighborhood sequence is complete: every in-bounds coordinate that
/// shares an edge with the center appears in it.
pub proof fn lemma_adjacents_complete(c: Coord, bs: u8, b: Coord)
    requires
        coord_in_bounds(c, bs as int),
        coord_in_bounds(b, bs as int),
        coords_adjacent(c, b),
    ensures
        spec_adjacents(c, bs).contains(b),
{
    let a = spec_adjacents(c, bs);
    let has_n: int = if c.row + 1 < bs {
        1
    } else {
        0
    };
    let has_s: int = if c.row >= 1 {
        1
    } else {
        0
    };
    if b.row == c.row + 1 && b.col == c.col {
        assert(a[0] == b);
    } else if c.row >= 1 && b.row == c.row - 1 && b.col == c.col {
        assert(a[has_n] == b);
    } else if b.col == c.col + 1 && b.row == c.row {
        assert(a[has_n + has_s] == b);
    } else {
        assert(c.col >= 1 && b.col == c.col - 1 && b.row == c.row);
        let has_e: int = if c.col + 1 < bs {
            1
        } else {
            0
        };
        assert(a[has_n + has_s + has_e] == b);
    }
}

} // verus!

verus! {

/// Offset-to-coordinate inverts coordinate-to-offset on the board.
pub proof fn lemma_off_coord_inverse(size: int, o: int)
    requires
        1 <= size <= 255,
        0 <= o < size * size,
    ensures
        coord_in_bounds(off_coord(size, o), size),
        coord_off(off_coord(size, o), size) == o,
{
    assert(0 <= o / size < size && 0 <= o % size < size && (o / size) * size + (o % size) == o) by (
    nonlinear_arith)
        requires
            1 <= size,
            0 <= o < size * size,
    ;
}

/// Adjacent coordinates are distinct.
pub proof fn lemma_adjacent_distinct(a: Coord, b: Coord)
    requires
        coords_adjacent(a, b),
    ensures
        a != b,
{
}

/// A point with an empty in-bounds neighbor heads a live chain: the point
/// itself reaches itself, and the empty neighbor is its liberty.
pub proof fn lemma_empty_neighbor_live(grid: Seq<Color>, size: int, color: Color, c: Coord)
    requires
        coord_in_bounds(c, size),
        has_empty_neighbor(grid, size, c),
    ensures
        chain_live(grid, size, color, c, c),
{
    lemma_reaches_self(grid, size, color, c, c);
    let e = choose|e: Coord|
        coords_adjacent(c, e) && coord_in_bounds(e, size) && color_at(grid, size, e)
            == Color::Empty;
    lemma_adjacent_distinct(c, e);
    assert(reaches(grid, size, color, c, c, c) && coords_adjacent(c, e) && coord_in_bounds(e, size)
        && e != c && color_at(grid, size, e) == Color::Empty);
}

} // verus!
