//! The board: a square grid of colors with an incrementally maintained
//! 64-bit position fingerprint. Two boards compare equal exactly when
//! they have the same size and the same fingerprint; a fingerprint
//! collision is accepted as indistinguishable by design.

use vstd::prelude::*;

use crate::chains::{
    chain_live, chain_set, color_at, coords_adjacent, coords_contain, count_matching,
    lemma_adjacents_complete, lemma_adjacents_sound, lemma_count_matching_bounds,
    lemma_count_matching_update, lemma_distinct_coords_bounded, lemma_reaches_in_closed_set,
    lemma_reaches_self, lemma_reaches_step, no_block, reaches,
};
use crate::color::Color;
use crate::coord::{Coord, spec_adjacents};
use crate::moves::Move;
use crate::zobrist::{
    spec_board_base, spec_fingerprint, spec_stone_mask, spec_zob_acc, board_base, stone_const,
    lemma_zob_acc_agree, lemma_zob_acc_update, lemma_zob_acc_empty, lemma_board_base_injective,
};

verus! {

/// The row-major grid offset of a coordinate on a board of side `size`.
pub open spec fn coord_off(c: Coord, size: int) -> int {
    c.row * size + c.col
}

/// The coordinate lies strictly within a board of side `size`.
pub open spec fn coord_in_bounds(c: Coord, size: int) -> bool {
    c.row < size && c.col < size
}

/// The grid after one move is written onto it: a stone move overwrites
/// its point, a pass changes nothing.
pub open spec fn spec_apply_move(grid: Seq<Color>, size: int, m: Move) -> Seq<Color> {
    match m {
        Move::Pass(_) => grid,
        Move::Stone(co, c) => grid.update(coord_off(co, size), c),
    }
}

/// The grid after a sequence of moves is written onto it in order.
pub open spec fn spec_apply_moves(grid: Seq<Color>, size: int, ms: Seq<Move>) -> Seq<Color>
    decreases ms.len(),
{
    if ms.len() == 0 {
        grid
    } else {
        spec_apply_moves(spec_apply_move(grid, size, ms[0]), size, ms.skip(1))
    }
}

/// The subsequence of `cs` whose points hold `color` on the given grid,
/// in their original order.
pub open spec fn filter_matching(grid: Seq<Color>, size: int, cs: Seq<Coord>, color: Color) -> Seq<
    Coord,
>
    decreases cs.len(),
{
    if cs.len() == 0 {
        Seq::empty()
    } else {
        let rest = filter_matching(grid, size, cs.drop_last(), color);
        if grid[coord_off(cs.last(), size)] == color {
            rest.push(cs.last())
        } else {
            rest
        }
    }
}

/// The filtered subsequence never grows past its source, its entries all
/// come from the source and match the color, and it is nonempty whenever
/// some source entry matches.
pub proof fn lemma_filter_matching_props(grid: Seq<Color>, size: int, cs: Seq<Coord>, color: Color)
    ensures
        filter_matching(grid, size, cs, color).len() <= cs.len(),
        forall|i: int|
            0 <= i < filter_matching(grid, size, cs, color).len() ==> cs.contains(
                #[trigger] filter_matching(grid, size, cs, color)[i],
            ) && color_at(grid, size, filter_matching(grid, size, cs, color)[i]) == color,
        forall|j: int|
            0 <= j < cs.len() && color_at(grid, size, #[trigger] cs[j]) == color
                ==> filter_matching(grid, size, cs, color).len() > 0,
    decreases cs.len(),
{
    if cs.len() > 0 {
        lemma_filter_matching_props(grid, size, cs.drop_last(), color);
        let f = filter_matching(grid, size, cs, color);
        let fr = filter_matching(grid, size, cs.drop_last(), color);
        assert forall|i: int| 0 <= i < f.len() implies cs.contains(#[trigger] f[i]) && color_at(
            grid,
            size,
            f[i],
        ) == color by {
            if i < fr.len() {
                assert(f[i] == fr[i]);
                let k = choose|k: int| 0 <= k < cs.drop_last().len() && cs.drop_last()[k] == fr[i];
                assert(cs[k] == fr[i]);
            } else {
                assert(cs[cs.len() - 1] == f[i]);
            }
        }
        assert forall|j: int|
            0 <= j < cs.len() && color_at(grid, size, #[trigger] cs[j]) == color implies f.len()
            > 0 by {
            if j < cs.len() - 1 {
                assert(cs.drop_last()[j] == cs[j]);
            }
        }
    }
}

/// The point is an eye for `color`: empty, with every in-bounds
/// neighbor holding `color`.
pub open spec fn spec_eye(grid: Seq<Color>, size: u8, eye: Coord, color: Color) -> bool {
    grid[coord_off(eye, size as int)] == Color::Empty && forall|k: int|
        0 <= k < spec_adjacents(eye, size).len() ==> grid[coord_off(
            #[trigger] spec_adjacents(eye, size)[k],
            size as int,
        )] == color
}

/// A square grid of colors plus its position fingerprint.
#[derive(Debug, Hash)]
pub struct Board {
    size: u8,
    data: Vec<Color>,
    zobrist: u64,
}

impl Board {
    /// The board's side length.
    pub closed spec fn spec_size(&self) -> u8 {
        self.size
    }

    /// The grid contents in row-major order.
    pub closed spec fn grid(&self) -> Seq<Color> {
        self.data@
    }

    /// The stored fingerprint.
    pub closed spec fn spec_zobrist(&self) -> u64 {
        self.zobrist
    }

    /// Well-formedness: a playable side length, a full grid, and a
    /// fingerprint that equals the fingerprint of the grid contents.
    pub open spec fn wf(&self) -> bool {
        &&& 5 <= self.spec_size() <= 32
        &&& self.grid().len() == self.spec_size() * self.spec_size()
        &&& self.spec_zobrist() == spec_fingerprint(self.spec_size(), self.grid())
    }

    /// A fresh, empty board of the given side.
    pub fn new(board_size: usize) -> (r: Self)
        requires
            5 <= board_size <= 32,
        ensures
            r.wf(),
            r.spec_size() == board_size,
            r.grid().len() == board_size * board_size,
            forall|j: int| 0 <= j < r.grid().len() ==> r.grid()[j] == Color::Empty,
    {
        proof {
            assert(board_size * board_size <= 1024) by (nonlinear_arith)
                requires
                    0 <= board_size <= 32,
            ;
        }
        let n = board_size * board_size;
        let mut data: Vec<Color> = Vec::new();
        let mut i: usize = 0;
        while i < n
            invariant
                0 <= i <= n,
                data@.len() == i,
                forall|j: int| 0 <= j < i ==> data@[j] == Color::Empty,
            decreases n - i,
        {
            data.push(Color::Empty);
            i += 1;
        }
        let zobrist = board_base(board_size as u8);
        proof {
            lemma_zob_acc_empty(data@, data@.len() as int);
            let b = spec_board_base(board_size as u8);
            assert(b ^ 0u64 == b) by (bit_vector);
        }
        Board { size: board_size as u8, data, zobrist }
    }

    /// The row-major offset of an in-bounds coordinate.
    pub fn data_offset(&self, coord: &Coord) -> (r: usize)
        requires
            self.wf(),
            coord_in_bounds(*coord, self.spec_size() as int),
        ensures
            r == coord_off(*coord, self.spec_size() as int),
            r < self.grid().len(),
    {
        proof {
            let s = self.spec_size() as int;
            assert(coord.row * s + coord.col < s * s && s * s <= 1024) by (nonlinear_arith)
                requires
                    0 <= coord.row < s,
                    0 <= coord.col < s,
                    s <= 32,
            ;
        }
        coord.row as usize * self.size as usize + coord.col as usize
    }

    /// The coordinate at a row-major offset.
    pub fn offset_to_coord(&self, offset: usize) -> (r: Coord)
        requires
            self.wf(),
            offset < self.grid().len(),
        ensures
            coord_in_bounds(r, self.spec_size() as int),
            coord_off(r, self.spec_size() as int) == offset,
            r.row == offset as int / self.spec_size() as int,
            r.col == offset as int % self.spec_size() as int,
    {
        let size_us = self.size as usize;
        proof {
            let s = self.spec_size() as int;
            let o = offset as int;
            assert(o / s < s && 0 <= o % s < s && (o / s) * s + o % s == o) by (nonlinear_arith)
                requires
                    0 <= o < s * s,
                    5 <= s,
            ;
        }
        Coord::new_us(offset / size_us, offset % size_us)
    }

    /// The color at an in-bounds coordinate.
    pub fn get(&self, coord: &Coord) -> (r: Color)
        requires
            self.wf(),
            coord_in_bounds(*coord, self.spec_size() as int),
        ensures
            r == self.grid()[coord_off(*coord, self.spec_size() as int)],
    {
        let o = self.data_offset(coord);
        self.data[o]
    }

    /// Writes one move onto the grid and updates the fingerprint: the old
    /// occupant's contribution is XORed out, the new one's XORed in.
    pub fn set_move(&mut self, m: Move) -> (nothing: ())
        requires
            old(self).wf(),
            m matches Move::Stone(co, _) ==> coord_in_bounds(co, old(self).spec_size() as int),
        ensures
            final(self).wf(),
            final(self).spec_size() == old(self).spec_size(),
            final(self).grid() == spec_apply_move(
                old(self).grid(),
                old(self).spec_size() as int,
                m,
            ),
    {
        if let Move::Stone(coord, color) = m {
            let o = self.data_offset(&coord);
            let ghost g0 = self.data@;
            let ghost s = self.spec_size();
            let curr = self.data[o];
            proof {
                let ss = self.spec_size() as int;
                assert(ss * ss <= 1024) by (nonlinear_arith)
                    requires
                        0 <= ss <= 32,
                ;
            }
            let ghost mo = spec_stone_mask(g0[o as int], o as int);
            let ghost mc = spec_stone_mask(color, o as int);
            if curr == Color::Black || curr == Color::White {
                self.zobrist = self.zobrist ^ stone_const(o, curr);
            } else {
                proof {
                    let z = self.spec_zobrist();
                    assert(z ^ 0u64 == z) by (bit_vector);
                }
            }
            if color == Color::Black || color == Color::White {
                self.zobrist = self.zobrist ^ stone_const(o, color);
            } else {
                proof {
                    let z = self.spec_zobrist();
                    assert(z ^ 0u64 == z) by (bit_vector);
                }
            }
            self.data[o] = color;
            proof {
                lemma_zob_acc_update(g0, o as int, color, g0.len() as int);
                assert(g0.update(o as int, color).len() == g0.len());
                let b = spec_board_base(s);
                let x = spec_zob_acc(g0, g0.len() as int);
                assert(((b ^ x) ^ mo) ^ mc == b ^ ((x ^ mo) ^ mc)) by (bit_vector);
            }
        }
    }

    /// Writes a sequence of moves onto the grid in order.
    pub fn set_moves(&mut self, ms: Vec<Move>) -> (nothing: ())
        requires
            old(self).wf(),
            forall|i: int|
                0 <= i < ms@.len() ==> (#[trigger] ms@[i] matches Move::Stone(co, _)
                    ==> coord_in_bounds(co, old(self).spec_size() as int)),
        ensures
            final(self).wf(),
            final(self).spec_size() == old(self).spec_size(),
            final(self).grid() == spec_apply_moves(
                old(self).grid(),
                old(self).spec_size() as int,
                ms@,
            ),
    {
        let ghost all = ms@;
        let ghost s = old(self).spec_size() as int;
        let mut i: usize = 0;
        let n = ms.len();
        proof {
            assert(all.skip(0) =~= all);
        }
        while i < n
            invariant
                0 <= i <= n,
                n == all.len(),
                ms@ == all,
                self.wf(),
                self.spec_size() as int == s,
                forall|k: int|
                    0 <= k < all.len() ==> (#[trigger] all[k] matches Move::Stone(co, _)
                        ==> coord_in_bounds(co, s)),
                spec_apply_moves(old(self).grid(), s, all) == spec_apply_moves(
                    self.grid(),
                    s,
                    all.skip(i as int),
                ),
            decreases n - i,
        {
            let ghost before = self.grid();
            let m = ms[i];
            self.set_move(m);
            proof {
                let rest = all.skip(i as int);
                assert(rest[0] == all[i as int]);
                assert(rest.skip(1) =~= all.skip(i + 1));
                assert(spec_apply_moves(before, s, rest) == spec_apply_moves(
                    self.grid(),
                    s,
                    all.skip(i + 1),
                ));
            }
            i += 1;
        }
        proof {
            assert(all.skip(n as int) =~= Seq::<Move>::empty());
        }
    }

    /// The first point holding `color` in row-major order, if any.
    pub fn find_first(&self, color: Color) -> (r: Option<Coord>)
        requires
            self.wf(),
        ensures
            match r {
                Some(c) => {
                    &&& coord_in_bounds(c, self.spec_size() as int)
                    &&& self.grid()[coord_off(c, self.spec_size() as int)] == color
                    &&& forall|j: int|
                        0 <= j < coord_off(c, self.spec_size() as int) ==> self.grid()[j] != color
                },
                None => forall|j: int| 0 <= j < self.grid().len() ==> self.grid()[j] != color,
            },
    {
        let n = self.data.len();
        let mut i: usize = 0;
        while i < n
            invariant
                0 <= i <= n,
                self.wf(),
                n == self.grid().len(),
                forall|j: int| 0 <= j < i ==> self.grid()[j] != color,
            decreases n - i,
        {
            if self.data[i] == color {
                return Some(self.offset_to_coord(i));
            }
            i += 1;
        }
        None
    }

    /// The first point holding `color` strictly after `coord` in
    /// row-major order, if any.
    pub fn find_next(&self, color: Color, coord: &Coord) -> (r: Option<Coord>)
        requires
            self.wf(),
            coord_in_bounds(*coord, self.spec_size() as int),
        ensures
            match r {
                Some(c) => {
                    &&& coord_in_bounds(c, self.spec_size() as int)
                    &&& coord_off(c, self.spec_size() as int) > coord_off(
                        *coord,
                        self.spec_size() as int,
                    )
                    &&& self.grid()[coord_off(c, self.spec_size() as int)] == color
                    &&& forall|j: int|
                        coord_off(*coord, self.spec_size() as int) < j < coord_off(
                            c,
                            self.spec_size() as int,
                        ) ==> self.grid()[j] != color
                },
                None => forall|j: int|
                    coord_off(*coord, self.spec_size() as int) < j < self.grid().len()
                        ==> self.grid()[j] != color,
            },
    {
        proof {
            let ss = self.spec_size() as int;
            assert(ss * ss <= 1024) by (nonlinear_arith)
                requires
                    0 <= ss <= 32,
            ;
        }
        let start = self.data_offset(coord) + 1;
        let n = self.data.len();
        let mut i: usize = start;
        while i < n
            invariant
                start <= i <= n || (start > n && i == start),
                self.wf(),
                n == self.grid().len(),
                start == coord_off(*coord, self.spec_size() as int) + 1,
                forall|j: int| start <= j < i ==> self.grid()[j] != color,
            decreases n - i,
        {
            if self.data[i] == color {
                return Some(self.offset_to_coord(i));
            }
            i += 1;
        }
        None
    }

    /// The in-bounds neighbors of `center` that hold `color`, in the
    /// neighborhood's fixed order.
    pub fn adjacents_by_color(&self, center: &Coord, color: &Color) -> (r: Vec<Coord>)
        requires
            self.wf(),
            coord_in_bounds(*center, self.spec_size() as int),
        ensures
            r@ == filter_matching(
                self.grid(),
                self.spec_size() as int,
                spec_adjacents(*center, self.spec_size()),
                *color,
            ),
            forall|i: int|
                0 <= i < r@.len() ==> coord_in_bounds(#[trigger] r@[i], self.spec_size() as int),
    {
        let adjs = center.adjacents(self.size);
        proof {
            lemma_adjacents_in_bounds(*center, self.spec_size());
        }
        let mut out: Vec<Coord> = Vec::new();
        let mut i: usize = 0;
        let n = adjs.len();
        proof {
            assert(adjs@.subrange(0, 0) =~= Seq::<Coord>::empty());
        }
        while i < n
            invariant
                0 <= i <= n,
                self.wf(),
                n == adjs@.len(),
                adjs@ == spec_adjacents(*center, self.spec_size()),
                forall|k: int|
                    0 <= k < adjs@.len() ==> coord_in_bounds(
                        #[trigger] adjs@[k],
                        self.spec_size() as int,
                    ),
                out@ == filter_matching(
                    self.grid(),
                    self.spec_size() as int,
                    adjs@.subrange(0, i as int),
                    *color,
                ),
                forall|k: int|
                    0 <= k < out@.len() ==> coord_in_bounds(
                        #[trigger] out@[k],
                        self.spec_size() as int,
                    ),
            decreases n - i,
        {
            let c = adjs[i];
            if self.get(&c) == *color {
                out.push(c);
            }
            proof {
                let p = adjs@.subrange(0, i + 1);
                assert(p.drop_last() =~= adjs@.subrange(0, i as int));
                assert(p.last() == adjs@[i as int]);
            }
            i += 1;
        }
        proof {
            assert(adjs@.subrange(0, n as int) =~= adjs@);
        }
        out
    }

    /// The point is an eye for `color`: empty, with every neighbor
    /// holding `color`.
    pub fn is_eye(&self, eye: &Coord, color: &Color) -> (r: bool)
        requires
            self.wf(),
            coord_in_bounds(*eye, self.spec_size() as int),
        ensures
            r == spec_eye(self.grid(), self.spec_size(), *eye, *color),
    {
        if self.get(eye) != Color::Empty {
            return false;
        }
        let adjs = eye.adjacents(self.size);
        proof {
            lemma_adjacents_in_bounds(*eye, self.spec_size());
        }
        let mut i: usize = 0;
        let n = adjs.len();
        while i < n
            invariant
                0 <= i <= n,
                self.wf(),
                n == adjs@.len(),
                adjs@ == spec_adjacents(*eye, self.spec_size()),
                forall|k: int|
                    0 <= k < adjs@.len() ==> coord_in_bounds(
                        #[trigger] adjs@[k],
                        self.spec_size() as int,
                    ),
                forall|k: int|
                    0 <= k < i ==> self.grid()[coord_off(
                        #[trigger] adjs@[k],
                        self.spec_size() as int,
                    )] == *color,
            decreases n - i,
        {
            let c = adjs[i];
            if self.get(&c) != *color {
                return false;
            }
            i += 1;
        }
        true
    }

    /// Worklist flood over `color` points from `start`, with `filled`
    /// treated as already painted: reports whether the flooded chain has
    /// a liberty. The search stops at the first empty neighbor found.
    fn flood_has_liberty(&self, color: Color, start: Coord, filled: Coord) -> (r: bool)
        requires
            self.wf(),
            coord_in_bounds(start, self.spec_size() as int),
            coord_in_bounds(filled, self.spec_size() as int),
            color != Color::Empty,
            start == filled || color_at(self.grid(), self.spec_size() as int, start) == color,
        ensures
            r == chain_live(self.grid(), self.spec_size() as int, color, start, filled),
    {
        let ghost g = self.grid();
        let ghost s = self.spec_size() as int;
        proof {
            assert(s * s <= 1024 && 25 <= s * s) by (nonlinear_arith)
                requires
                    5 <= s <= 32,
            ;
        }
        let mut paint: Vec<Coord> = Vec::new();
        paint.push(filled);
        if start != filled {
            paint.push(start);
        }
        let mut work: Vec<Coord> = Vec::new();
        work.push(start);
        proof {
            lemma_reaches_self(g, s, color, start, filled);
            assert(paint@[0] == filled);
            assert(paint@[paint@.len() - 1] == start);
            assert(work@[0] == start);
        }
        while work.len() != 0
            invariant
                self.wf(),
                g == self.grid(),
                s == self.spec_size() as int,
                25 <= s * s <= 1024,
                color != Color::Empty,
                coord_in_bounds(start, s),
                coord_in_bounds(filled, s),
                paint@.no_duplicates(),
                paint@.len() <= s * s,
                forall|i: int| 0 <= i < paint@.len() ==> coord_in_bounds(#[trigger] paint@[i], s),
                paint@.contains(filled),
                paint@.contains(start),
                forall|i: int|
                    0 <= i < paint@.len() ==> #[trigger] paint@[i] == filled || color_at(
                        g,
                        s,
                        paint@[i],
                    ) == color,
                forall|i: int| 0 <= i < work@.len() ==> paint@.contains(#[trigger] work@[i]),
                forall|i: int|
                    0 <= i < work@.len() ==> reaches(g, s, color, start, filled, #[trigger] work@[i]),
                forall|a: Coord, b: Coord|
                    #![trigger coords_adjacent(a, b)]
                    paint@.contains(a) && !work@.contains(a) && (a != filled || a == start)
                        && coords_adjacent(a, b) && coord_in_bounds(b, s) ==> paint@.contains(b)
                        || (color_at(g, s, b) != Color::Empty && color_at(g, s, b) != color),
            decreases s * s - paint@.len(), work@.len(),
        {
            let ghost prev_work = work@;
            let cur = work.pop().unwrap();
            proof {
                assert(prev_work.contains(cur)) by {
                    assert(prev_work[prev_work.len() - 1] == cur);
                }
                assert forall|x: Coord| prev_work.contains(x) implies x == cur
                    || work@.contains(x) by {
                    let i = choose|i: int| 0 <= i < prev_work.len() && prev_work[i] == x;
                    if i < prev_work.len() - 1 {
                        assert(work@[i] == x);
                    }
                }
                let i = choose|i: int| 0 <= i < paint@.len() && paint@[i] == cur;
            }
            let adjs = cur.adjacents(self.size);
            proof {
                lemma_adjacents_sound(cur, self.spec_size());
            }
            let ghost paint_at_pop = paint@;
            let mut k: usize = 0;
            let n = adjs.len();
            while k < n
                invariant
                    self.wf(),
                    g == self.grid(),
                    s == self.spec_size() as int,
                    25 <= s * s <= 1024,
                    color != Color::Empty,
                    coord_in_bounds(start, s),
                    coord_in_bounds(filled, s),
                    coord_in_bounds(cur, s),
                    0 <= k <= n,
                    n == adjs@.len(),
                    adjs@ == spec_adjacents(cur, self.spec_size()),
                    forall|i: int|
                        0 <= i < adjs@.len() ==> coord_in_bounds(#[trigger] adjs@[i], s),
                    paint@.no_duplicates(),
                    paint@.len() <= s * s,
                    paint@.len() >= paint_at_pop.len(),
                    work@.len() + paint_at_pop.len() == prev_work.len() - 1 + paint@.len(),
                    forall|i: int|
                        0 <= i < paint@.len() ==> coord_in_bounds(#[trigger] paint@[i], s),
                    paint@.contains(filled),
                    paint@.contains(start),
                    paint@.contains(cur),
                    reaches(g, s, color, start, filled, cur),
                    forall|i: int|
                        0 <= i < paint@.len() ==> #[trigger] paint@[i] == filled || color_at(
                            g,
                            s,
                            paint@[i],
                        ) == color,
                    forall|i: int| 0 <= i < work@.len() ==> paint@.contains(#[trigger] work@[i]),
                    forall|i: int|
                        0 <= i < work@.len() ==> reaches(
                            g,
                            s,
                            color,
                            start,
                            filled,
                            #[trigger] work@[i],
                        ),
                    forall|a: Coord, b: Coord|
                        #![trigger coords_adjacent(a, b)]
                        paint@.contains(a) && !work@.contains(a) && (a != filled || a == start)
                            && a != cur && coords_adjacent(a, b) && coord_in_bounds(b, s)
                            ==> paint@.contains(b) || (color_at(g, s, b) != Color::Empty
                            && color_at(g, s, b) != color),
                    forall|j: int|
                        0 <= j < k ==> paint@.contains(#[trigger] adjs@[j]) || (color_at(
                            g,
                            s,
                            adjs@[j],
                        ) != Color::Empty && color_at(g, s, adjs@[j]) != color),
                decreases n - k,
            {
                let adj = adjs[k];
                if !coords_contain(&paint, &adj) {
                    let ac = self.get(&adj);
                    if ac == Color::Empty {
                        proof {
                            assert(adj != filled);
                            assert(reaches(g, s, color, start, filled, cur) && coords_adjacent(
                                cur,
                                adj,
                            ) && coord_in_bounds(adj, s) && adj != filled && color_at(g, s, adj)
                                == Color::Empty);
                        }
                        return true;
                    } else if ac == color {
                        proof {
                            let ghost p0 = paint@;
                            assert forall|i: int, j: int|
                                0 <= i < p0.push(adj).len() && 0 <= j < p0.push(adj).len() && i
                                    != j implies p0.push(adj)[i] != p0.push(adj)[j] by {
                                if i == p0.len() {
                                    assert(!p0.contains(adj));
                                    if p0.push(adj)[i] == p0.push(adj)[j] {
                                        assert(p0[j] == adj);
                                    }
                                } else if j == p0.len() {
                                    assert(!p0.contains(adj));
                                    if p0.push(adj)[i] == p0.push(adj)[j] {
                                        assert(p0[i] == adj);
                                    }
                                }
                            }
                            lemma_reaches_step(g, s, color, start, filled, cur, adj);
                        }
                        let ghost old_paint = paint@;
                        let ghost old_work = work@;
                        paint.push(adj);
                        work.push(adj);
                        proof {
                            lemma_distinct_coords_bounded(paint@, s);
                            assert forall|x: Coord| old_paint.contains(x) implies paint@.contains(
                                x,
                            ) by {
                                let i = choose|i: int| 0 <= i < old_paint.len() && old_paint[i]
                                    == x;
                                assert(paint@[i] == x);
                            }
                            assert forall|x: Coord| old_work.contains(x) implies work@.contains(
                                x,
                            ) by {
                                let i = choose|i: int| 0 <= i < old_work.len() && old_work[i] == x;
                                assert(work@[i] == x);
                            }
                            assert(paint@[paint@.len() - 1] == adj);
                            assert(work@[work@.len() - 1] == adj);
                        }
                    }
                }
                k += 1;
            }
            proof {
                assert forall|a: Coord, b: Coord|
                    #![trigger coords_adjacent(a, b)]
                    paint@.contains(a) && !work@.contains(a) && (a != filled || a == start)
                        && coords_adjacent(a, b) && coord_in_bounds(b, s) implies paint@.contains(
                    b,
                ) || (color_at(g, s, b) != Color::Empty && color_at(g, s, b) != color) by {
                    if a == cur {
                        lemma_adjacents_complete(cur, self.spec_size(), b);
                        let j = choose|j: int| 0 <= j < adjs@.len() && adjs@[j] == b;
                    }
                }
            }
        }
        proof {
            let su = Set::new(|x: Coord| paint@.contains(x) && (x != filled || x == start));
            assert(!chain_live(g, s, color, start, filled)) by {
                if chain_live(g, s, color, start, filled) {
                    let (t, e) = choose|t: Coord, e: Coord|
                        reaches(g, s, color, start, filled, t) && coords_adjacent(t, e)
                            && coord_in_bounds(e, s) && e != filled && color_at(g, s, e)
                            == Color::Empty;
                    assert(su.contains(start));
                    assert forall|a: Coord, b: Coord|
                        su.contains(a) && #[trigger] coords_adjacent(a, b) && coord_in_bounds(b, s)
                            && b != filled && color_at(g, s, b) == color implies #[trigger] su.contains(
                        b,
                    ) by {}
                    crate::chains::lemma_reaches_in_closed_set(g, s, color, start, filled, t, su);
                    assert(paint@.contains(t) && (t != filled || t == start));
                    assert(paint@.contains(e) || (color_at(g, s, e) != Color::Empty && color_at(
                        g,
                        s,
                        e,
                    ) != color));
                    if paint@.contains(e) {
                        let i = choose|i: int| 0 <= i < paint@.len() && paint@[i] == e;
                    }
                    assert(false);
                }
            }
        }
        false
    }

    /// Whether the stone placed by `m` would belong to a chain with at
    /// least one liberty, with the placed point itself counted as filled.
    /// A pass places nothing and never lives.
    pub fn given_move_will_live(&self, m: Move) -> (r: bool)
        requires
            self.wf(),
            m matches Move::Stone(co, c) ==> coord_in_bounds(co, self.spec_size() as int) && c
                != Color::Empty,
        ensures
            r == match m {
                Move::Pass(_) => false,
                Move::Stone(co, c) => chain_live(
                    self.grid(),
                    self.spec_size() as int,
                    c,
                    co,
                    co,
                ),
            },
    {
        match m {
            Move::Pass(_) => false,
            Move::Stone(coord, color) => self.flood_has_liberty(color, coord, coord),
        }
    }

    /// Whether `given` is the last liberty of the chain of `adj_color`
    /// stones through `adj`: true when that chain, with `given` treated
    /// as filled, has no liberty left.
    pub fn is_given_coord_last_liberty_for_adj_chain(
        &self,
        given: Coord,
        adj: Coord,
        adj_color: Color,
    ) -> (r: bool)
        requires
            self.wf(),
            coord_in_bounds(given, self.spec_size() as int),
            coord_in_bounds(adj, self.spec_size() as int),
            adj_color != Color::Empty,
            color_at(self.grid(), self.spec_size() as int, adj) == adj_color,
        ensures
            r == !chain_live(self.grid(), self.spec_size() as int, adj_color, adj, given),
    {
        !self.flood_has_liberty(adj_color, adj, given)
    }

    /// Flood-removes the maximal chain of `color` stones through `coord`,
    /// emptying exactly its points and returning exactly its size; a seed
    /// of any other color removes nothing.
    #[verifier::rlimit(100)]
    pub fn remove_chain(&mut self, coord: Coord, color: Color) -> (r: usize)
        requires
            old(self).wf(),
            coord_in_bounds(coord, old(self).spec_size() as int),
            color != Color::Empty,
        ensures
            final(self).wf(),
            final(self).spec_size() == old(self).spec_size(),
            r <= old(self).grid().len(),
            color_at(old(self).grid(), old(self).spec_size() as int, coord) != color
                ==> final(self).grid() == old(self).grid() && r == 0,
            color_at(old(self).grid(), old(self).spec_size() as int, coord) == color ==> {
                let g = old(self).grid();
                let s = old(self).spec_size() as int;
                let ch = chain_set(g, s, color, coord);
                &&& r == ch.len()
                &&& forall|c: Coord|
                    #[trigger] coord_in_bounds(c, s) ==> color_at(final(self).grid(), s, c) == (
                    if ch.contains(c) {
                        Color::Empty
                    } else {
                        color_at(g, s, c)
                    })
            },
    {
        let ghost g0 = self.grid();
        let ghost s = self.spec_size() as int;
        if self.get(&coord) != color {
            return 0;
        }
        proof {
            assert(25 <= s * s <= 1024) by (nonlinear_arith)
                requires
                    5 <= s <= 32,
            ;
            lemma_count_matching_bounds(g0, color);
            lemma_reaches_self(g0, s, color, coord, no_block());
        }
        let mut count: usize = 0;
        let ghost mut removed: Set<Coord> = Set::empty();
        let mut work: Vec<Coord> = Vec::new();
        work.push(coord);
        proof {
            assert(work@[0] == coord);
        }
        while work.len() != 0
            invariant
                self.wf(),
                s == self.spec_size() as int,
                25 <= s * s <= 1024,
                self.grid().len() == g0.len(),
                color != Color::Empty,
                coord_in_bounds(coord, s),
                color_at(g0, s, coord) == color,
                removed.finite(),
                count == removed.len(),
                count + count_matching(self.grid(), color) == count_matching(g0, color),
                0 <= count_matching(self.grid(), color),
                count_matching(g0, color) <= g0.len(),
                forall|c: Coord|
                    #[trigger] removed.contains(c) ==> coord_in_bounds(c, s) && color_at(g0, s, c)
                        == color && reaches(g0, s, color, coord, no_block(), c),
                forall|c: Coord|
                    #[trigger] coord_in_bounds(c, s) ==> color_at(self.grid(), s, c) == (
                    if removed.contains(c) {
                        Color::Empty
                    } else {
                        color_at(g0, s, c)
                    }),
                forall|i: int|
                    0 <= i < work@.len() ==> coord_in_bounds(#[trigger] work@[i], s) && color_at(
                        g0,
                        s,
                        work@[i],
                    ) == color && reaches(g0, s, color, coord, no_block(), work@[i]),
                removed.contains(coord) || work@.contains(coord),
                forall|a: Coord, b: Coord|
                    #![trigger coords_adjacent(a, b)]
                    removed.contains(a) && coords_adjacent(a, b) && coord_in_bounds(b, s)
                        && color_at(g0, s, b) == color ==> removed.contains(b) || work@.contains(b),
            decreases count_matching(self.grid(), color), work@.len(),
        {
            let ghost prev_work = work@;
            let cur = work.pop().unwrap();
            proof {
                assert(prev_work[prev_work.len() - 1] == cur);
                assert forall|x: Coord| prev_work.contains(x) implies x == cur
                    || work@.contains(x) by {
                    let i = choose|i: int| 0 <= i < prev_work.len() && prev_work[i] == x;
                    if i < prev_work.len() - 1 {
                        assert(work@[i] == x);
                    }
                }
            }
            if self.get(&cur) == color {
                proof {
                    assert(!removed.contains(cur));
                    assert(0 <= coord_off(cur, s) < s * s) by (nonlinear_arith)
                        requires
                            0 <= cur.row < s,
                            0 <= cur.col < s,
                    ;
                    lemma_count_matching_update(self.grid(), coord_off(cur, s), Color::Empty, color);
                }
                let ghost grid_before = self.grid();
                self.set_move(Move::Stone(cur, Color::Empty));
                count += 1;
                proof {
                    lemma_count_matching_bounds(self.grid(), color);
                    removed = removed.insert(cur);
                    assert forall|c: Coord|
                        #[trigger] coord_in_bounds(c, s) implies color_at(self.grid(), s, c) == (
                    if removed.contains(c) {
                        Color::Empty
                    } else {
                        color_at(g0, s, c)
                    }) by {
                        assert(0 <= coord_off(c, s) < s * s) by (nonlinear_arith)
                            requires
                                0 <= c.row < s,
                                0 <= c.col < s,
                        ;
                        assert(0 <= coord_off(cur, s) < s * s) by (nonlinear_arith)
                            requires
                                0 <= cur.row < s,
                                0 <= cur.col < s,
                        ;
                        if c != cur && coord_off(c, s) == coord_off(cur, s) {
                            crate::chains::lemma_coord_off_injective(c, cur, s);
                        }
                        assert(self.grid() == grid_before.update(coord_off(cur, s), Color::Empty));
                    }
                }
                let adjs = cur.adjacents(self.size);
                proof {
                    lemma_adjacents_sound(cur, self.spec_size());
                }
                let mut k: usize = 0;
                let n = adjs.len();
                while k < n
                    invariant
                        self.wf(),
                        s == self.spec_size() as int,
                        25 <= s * s <= 1024,
                        self.grid().len() == g0.len(),
                        color != Color::Empty,
                        coord_in_bounds(coord, s),
                        coord_in_bounds(cur, s),
                        color_at(g0, s, coord) == color,
                        0 <= k <= n,
                        n == adjs@.len(),
                        adjs@ == spec_adjacents(cur, self.spec_size()),
                        forall|i: int|
                            0 <= i < adjs@.len() ==> coord_in_bounds(#[trigger] adjs@[i], s)
                                && coords_adjacent(cur, adjs@[i]),
                        removed.finite(),
                        count == removed.len(),
                        count + count_matching(self.grid(), color) == count_matching(g0, color),
                        0 <= count_matching(self.grid(), color),
                        count_matching(g0, color) <= g0.len(),
                        removed.contains(cur),
                        reaches(g0, s, color, coord, no_block(), cur),
                        forall|c: Coord|
                            #[trigger] removed.contains(c) ==> coord_in_bounds(c, s) && color_at(
                                g0,
                                s,
                                c,
                            ) == color && reaches(g0, s, color, coord, no_block(), c),
                        forall|c: Coord|
                            #[trigger] coord_in_bounds(c, s) ==> color_at(self.grid(), s, c) == (
                            if removed.contains(c) {
                                Color::Empty
                            } else {
                                color_at(g0, s, c)
                            }),
                        forall|i: int|
                            0 <= i < work@.len() ==> coord_in_bounds(#[trigger] work@[i], s)
                                && color_at(g0, s, work@[i]) == color && reaches(
                                g0,
                                s,
                                color,
                                coord,
                                no_block(),
                                work@[i],
                            ),
                        removed.contains(coord) || work@.contains(coord),
                        forall|a: Coord, b: Coord|
                            #![trigger coords_adjacent(a, b)]
                            removed.contains(a) && a != cur && coords_adjacent(a, b)
                                && coord_in_bounds(b, s) && color_at(g0, s, b) == color
                                ==> removed.contains(b) || work@.contains(b),
                        forall|j: int|
                            0 <= j < k ==> !(color_at(g0, s, #[trigger] adjs@[j]) == color)
                                || removed.contains(adjs@[j]) || work@.contains(adjs@[j]),
                    decreases n - k,
                {
                    let adj = adjs[k];
                    let ghost before_push = work@;
                    if self.get(&adj) == color {
                        proof {
                            assert(!removed.contains(adj));
                            assert(color_at(g0, s, adj) == color);
                            lemma_reaches_step(g0, s, color, coord, no_block(), cur, adj);
                        }
                        work.push(adj);
                        proof {
                            assert(work@[work@.len() - 1] == adj);
                            assert forall|x: Coord| before_push.contains(x) implies work@.contains(
                                x,
                            ) by {
                                let i = choose|i: int|
                                    0 <= i < before_push.len() && before_push[i] == x;
                                assert(work@[i] == x);
                            }
                        }
                    } else {
                        proof {
                            if color_at(g0, s, adj) == color {
                                assert(removed.contains(adj));
                            }
                        }
                    }
                    k += 1;
                }
                proof {
                    assert forall|a: Coord, b: Coord|
                        #![trigger coords_adjacent(a, b)]
                        removed.contains(a) && coords_adjacent(a, b) && coord_in_bounds(b, s)
                            && color_at(g0, s, b) == color implies removed.contains(b)
                        || work@.contains(b) by {
                        if a == cur {
                            lemma_adjacents_complete(cur, self.spec_size(), b);
                            let j = choose|j: int| 0 <= j < adjs@.len() && adjs@[j] == b;
                        }
                    }
                }
            } else {
                proof {
                    assert(removed.contains(cur));
                }
            }
        }
        proof {
            let ch = chain_set(g0, s, color, coord);
            assert(removed =~= ch) by {
                assert forall|t: Coord| removed.contains(t) implies ch.contains(t) by {}
                assert forall|t: Coord| ch.contains(t) implies removed.contains(t) by {
                    assert(reaches(g0, s, color, coord, no_block(), t));
                    lemma_reaches_in_closed_set(g0, s, color, coord, no_block(), t, removed);
                }
            }
        }
        count
    }

    /// Read-only access to the whole grid for scanning.
    pub fn data(&self) -> (r: &Vec<Color>)
        ensures
            r@ == self.grid(),
    {
        &self.data
    }

    /// The board's side length.
    pub fn size(&self) -> (r: u8)
        ensures
            r == self.spec_size(),
    {
        self.size
    }

    /// The board's position fingerprint.
    pub fn zobrist(&self) -> (r: u64)
        ensures
            r == self.spec_zobrist(),
    {
        self.zobrist
    }
}

/// Every neighbor of a strictly in-bounds coordinate is itself strictly
/// in bounds.
pub proof fn lemma_adjacents_in_bounds(c: Coord, bs: u8)
    requires
        coord_in_bounds(c, bs as int),
    ensures
        forall|i: int|
            0 <= i < spec_adjacents(c, bs).len() ==> coord_in_bounds(
                #[trigger] spec_adjacents(c, bs)[i],
                bs as int,
            ),
{
}

impl Clone for Board {
    /// An independent deep copy: the clone compares equal to the original
    /// and shares no grid storage with it.
    fn clone(&self) -> (r: Board)
        ensures
            r.spec_size() == self.spec_size(),
            r.grid() == self.grid(),
            r.spec_zobrist() == self.spec_zobrist(),
    {
        let r = Board { size: self.size, data: self.data.clone(), zobrist: self.zobrist };
        proof {
            assert(r.data@ =~= self.data@);
        }
        r
    }
}

impl PartialEq for Board {
    /// Boards are equal exactly when size and fingerprint agree; a
    /// fingerprint collision is accepted as equality by design.
    fn eq(&self, other: &Board) -> (r: bool) {
        self.size == other.size && self.zobrist == other.zobrist
    }
}

impl Eq for Board {

}

impl vstd::std_specs::cmp::PartialEqSpecImpl for Board {
    open spec fn obeys_eq_spec() -> bool {
        true
    }

    open spec fn eq_spec(&self, other: &Board) -> bool {
        self.spec_size() == other.spec_size() && self.spec_zobrist() == other.spec_zobrist()
    }
}

/// Two freshly constructed empty boards have equal fingerprints exactly
/// when their sides are equal: same-size empty boards always collide,
/// different-size empty boards never do.
pub proof fn lemma_empty_board_fingerprints(s1: u8, s2: u8, g1: Seq<Color>, g2: Seq<Color>)
    requires
        5 <= s1 <= 32,
        5 <= s2 <= 32,
        g1.len() == s1 * s1,
        g2.len() == s2 * s2,
        forall|j: int| 0 <= j < g1.len() ==> g1[j] == Color::Empty,
        forall|j: int| 0 <= j < g2.len() ==> g2[j] == Color::Empty,
    ensures
        (spec_fingerprint(s1, g1) == spec_fingerprint(s2, g2)) <==> s1 == s2,
{
    lemma_zob_acc_empty(g1, g1.len() as int);
    lemma_zob_acc_empty(g2, g2.len() as int);
    let b1 = spec_board_base(s1);
    let b2 = spec_board_base(s2);
    assert(b1 ^ 0u64 == b1) by (bit_vector);
    assert(b2 ^ 0u64 == b2) by (bit_vector);
    if s1 != s2 {
        lemma_board_base_injective(s1, s2);
    } else {
        lemma_zob_acc_agree(g1, g2, g1.len() as int);
    }
}

/// Placing a stone on an empty point and then clearing that point
/// restores the position fingerprint exactly.
pub proof fn lemma_fingerprint_place_then_clear(size: u8, grid: Seq<Color>, o: int, c: Color)
    requires
        0 <= o < grid.len(),
        grid[o] == Color::Empty,
    ensures
        spec_fingerprint(size, grid.update(o, c).update(o, Color::Empty)) == spec_fingerprint(
            size,
            grid,
        ),
{
    assert(grid.update(o, c).update(o, Color::Empty) =~= grid);
}

} // verus!
