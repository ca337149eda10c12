//! The tile map that actors move over.
use super::{grid_key, Position, Rect, GRID_STRIDE};
use std::collections::HashSet;
use vstd::arithmetic::div_mod::lemma_fundamental_div_mod_converse;
use vstd::prelude::*;
use vstd::set_lib::{lemma_int_range, lemma_len_subset, lemma_map_size, set_int_range};

verus! {

broadcast use vstd::std_specs::hash::group_hash_axioms;

/// A tile on the map.
#[derive(Debug, Clone, Copy, PartialEq, Eq, Structural)]
pub struct Tile {
    explored: bool,
    blocked: bool,
    wall: bool,
}

impl Tile {
    pub closed spec fn spec_wall() -> Tile {
        Tile { explored: false, blocked: true, wall: true }
    }

    pub closed spec fn spec_floor() -> Tile {
        Tile { explored: false, blocked: false, wall: false }
    }

    /// An impassable wall.
    pub fn wall() -> (r: Tile)
        ensures
            r == Tile::spec_wall(),
            r.spec_is_blocking() && r.spec_is_wall() && !r.spec_is_explored(),
    {
        Tile { explored: false, blocked: true, wall: true }
    }

    /// A tile that entities can be placed in and move through.
    pub fn floor() -> (r: Tile)
        ensures
            r == Tile::spec_floor(),
            !r.spec_is_blocking() && !r.spec_is_wall() && !r.spec_is_explored(),
    {
        Tile { explored: false, blocked: false, wall: false }
    }

    /// A tile which blocks movement but is not a wall.
    pub fn block() -> (r: Tile)
        ensures
            r.spec_is_blocking() && !r.spec_is_wall() && !r.spec_is_explored(),
    {
        Tile { explored: false, blocked: true, wall: false }
    }

    pub closed spec fn spec_is_blocking(&self) -> bool {
        self.blocked
    }

    pub closed spec fn spec_is_wall(&self) -> bool {
        self.wall
    }

    pub closed spec fn spec_is_explored(&self) -> bool {
        self.explored
    }

    pub fn is_blocking(&self) -> (r: bool)
        ensures
            r == self.spec_is_blocking(),
    {
        self.blocked
    }

    pub fn is_wall(&self) -> (r: bool)
        ensures
            r == self.spec_is_wall(),
    {
        self.wall
    }

    pub fn is_explored(&self) -> (r: bool)
        ensures
            r == self.spec_is_explored(),
    {
        self.explored
    }
}

/// Errors of map operations.
#[derive(Debug, Clone, Copy, PartialEq, Eq, Structural)]
pub enum MapError {
    /// The replacement would match the predicate it replaces, without end.
    InfiniteLoop,
}

/// A rectangular grid of tiles, stored row by row.
#[derive(Debug, Clone, PartialEq, Eq)]
pub struct GameMap {
    tiles: Vec<Tile>,
    width: u32,
    height: u32,
}

impl GameMap {
    pub closed spec fn spec_width(&self) -> nat {
        self.width as nat
    }

    pub closed spec fn spec_height(&self) -> nat {
        self.height as nat
    }

    /// The tiles, row by row.
    pub closed spec fn spec_tiles(&self) -> Seq<Tile> {
        self.tiles@
    }

    /// Every row is complete: there are `width * height` tiles.
    pub open spec fn wf(&self) -> bool {
        self.spec_tiles().len() == self.spec_width() * self.spec_height()
    }

    /// The index of `(x, y)` in the row-by-row tiles.
    pub open spec fn spec_index(&self, x: u32, y: u32) -> int {
        x as int + y as int * self.spec_width()
    }

    /// The tile at `(x, y)`, if `(x, y)` lies on the map.
    pub open spec fn spec_get(&self, x: u32, y: u32) -> Option<Tile> {
        let i = self.spec_index(x, y);
        if x < self.spec_width() && y < self.spec_height() && i < self.spec_tiles().len() {
            Some(self.spec_tiles()[i])
        } else {
            None
        }
    }

    /// A map of `width * height` walls: areas are meant to be carved out of it.
    pub fn new(width: u32, height: u32) -> (r: Self)
        requires
            width * height <= u32::MAX,
        ensures
            r.wf(),
            r.spec_width() == width,
            r.spec_height() == height,
            forall|i: int| 0 <= i < r.spec_tiles().len() ==> #[trigger] r.spec_tiles()[i]
                == Tile::spec_wall(),
    {
        let count = width * height;
        let mut tiles: Vec<Tile> = Vec::new();
        let mut i: u32 = 0;
        while i < count
            invariant
                i <= count,
                tiles@.len() == i,
                forall|j: int| 0 <= j < i ==> #[trigger] tiles@[j] == Tile::spec_wall(),
            decreases count - i,
        {
            tiles.push(Tile::wall());
            i += 1;
        }
        GameMap { tiles, width, height }
    }

    /// The width and height of the map.
    pub fn dimensions(&self) -> (r: (u32, u32))
        ensures
            r.0 == self.spec_width(),
            r.1 == self.spec_height(),
    {
        (self.width, self.height)
    }

    /// The index of `(x, y)` in the tiles, if `(x, y)` lies on the map.
    fn sub2ind(&self, x: u32, y: u32) -> (r: Option<usize>)
        ensures
            r matches Some(i) ==> i == self.spec_index(x, y) && self.spec_get(x, y) is Some,
            r is None ==> self.spec_get(x, y) is None,
            self.wf() ==> (r is Some <==> x < self.spec_width() && y < self.spec_height()),
    {
        if x >= self.width || y >= self.height {
            return None;
        }
        assert((x as int + y as int * self.width as int) < (self.width as int * self.height as int))
            by (nonlinear_arith)
            requires
                x < self.width,
                y < self.height,
        ;
        assert(y as int * self.width as int <= u32::MAX as int * u32::MAX as int) by (nonlinear_arith)
            requires
                y <= u32::MAX,
                self.width <= u32::MAX,
        ;
        let row = y as u64 * self.width as u64;
        let wide = x as u64 + row;
        if wide < self.tiles.len() as u64 {
            Some(wide as usize)
        } else {
            None
        }
    }

    /// The tile at `(x, y)`, if it exists in the map.
    pub fn get(&self, x: u32, y: u32) -> (r: Option<&Tile>)
        ensures
            r matches Some(t) ==> self.spec_get(x, y) == Some(*t),
            r is None ==> self.spec_get(x, y) is None,
            self.wf() ==> (r is Some <==> x < self.spec_width() && y < self.spec_height()),
    {
        match self.sub2ind(x, y) {
            Some(i) => Some(&self.tiles[i]),
            None => None,
        }
    }

    /// The tile at a position, if it exists in the map.
    pub fn pos(&self, pos: &Position) -> (r: Option<&Tile>)
        ensures
            r matches Some(t) ==> self.spec_get(pos.x, pos.y) == Some(*t),
            r is None ==> self.spec_get(pos.x, pos.y) is None,
    {
        self.get(pos.x, pos.y)
    }

    /// Replaces the tile at `(x, y)`; `false`, and no change, when it does
    /// not exist in the map.
    pub fn set(&mut self, x: u32, y: u32, tile: Tile) -> (r: bool)
        ensures
            r == (old(self).spec_get(x, y) is Some),
            final(self).spec_width() == old(self).spec_width(),
            final(self).spec_height() == old(self).spec_height(),
            r ==> final(self).spec_tiles() == old(self).spec_tiles().update(
                old(self).spec_index(x, y),
                tile,
            ),
            !r ==> *final(self) == *old(self),
    {
        match self.sub2ind(x, y) {
            Some(i) => {
                self.tiles.set(i, tile);
                true
            },
            None => false,
        }
    }
}

/// How many of `hits` are true.
pub open spec fn count_hits(hits: Seq<bool>) -> nat
    decreases hits.len(),
{
    if hits.len() == 0 {
        0
    } else {
        count_hits(hits.drop_last()) + if hits.last() {
            1nat
        } else {
            0nat
        }
    }
}

/// The lower end of a window of half-width `range` around `c`, clamped at 0.
pub open spec fn window_lo(c: u32, range: u32) -> int {
    if c >= range {
        c - range
    } else {
        0
    }
}

/// The upper end of a window of half-width `range` around `c`, clamped at
/// `limit - 1`, the last coordinate below `limit`.
pub open spec fn window_hi(c: u32, range: u32, limit: u32) -> int {
    if c + range < limit {
        c + range
    } else {
        limit - 1
    }
}

impl GameMap {
    /// The columns of the window around `x` (both ends included).
    pub open spec fn window_width(&self, x: u32, range: u32) -> int {
        window_hi(x, range, self.spec_width() as u32) - window_lo(x, range) + 1
    }

    /// The rows of the window around `y` (both ends included).
    pub open spec fn window_height(&self, y: u32, range: u32) -> int {
        window_hi(y, range, self.spec_height() as u32) - window_lo(y, range) + 1
    }

    /// The `i`-th cell of the window around `(x, y)`, row by row.
    pub open spec fn window_cell(&self, x: u32, y: u32, range: u32, i: int) -> (u32, u32) {
        let w = self.window_width(x, range);
        ((window_lo(x, range) + i % w) as u32, (window_lo(y, range) + i / w) as u32)
    }

    /// The number of cells of the window around `(x, y)`.
    pub open spec fn window_len(&self, x: u32, y: u32, range: u32) -> int {
        if self.window_width(x, range) <= 0 || self.window_height(y, range) <= 0 {
            0
        } else {
            self.window_width(x, range) * self.window_height(y, range)
        }
    }

    /// The tile in the `i`-th cell of the window, if it exists in the map.
    pub open spec fn window_tile(&self, x: u32, y: u32, range: u32, i: int) -> Option<Tile> {
        let c = self.window_cell(x, y, range, i);
        self.spec_get(c.0, c.1)
    }

    /// The bounds of the window, computed.
    fn window(&self, x: u32, y: u32, range: u32) -> (r: (u64, u64, u64, u64))
        requires
            x + range <= u32::MAX,
            y + range <= u32::MAX,
            (2 * range + 1) * (2 * range + 1) <= usize::MAX,
        ensures
            r.0 == window_lo(x, range),
            r.1 == window_lo(y, range),
            r.2 == (if self.window_width(x, range) > 0 { self.window_width(x, range) } else { 0 }),
            r.3 == self.window_len(x, y, range),
            r.3 <= usize::MAX,
    {
        let x_lo = if x >= range { x - range } else { 0 };
        let y_lo = if y >= range { y - range } else { 0 };
        let x_hi: i64 = if x + range < self.width { (x + range) as i64 } else { self.width as i64 - 1 };
        let y_hi: i64 = if y + range < self.height { (y + range) as i64 } else { self.height as i64 - 1 };
        if x_hi < x_lo as i64 || y_hi < y_lo as i64 {
            return (x_lo as u64, y_lo as u64, if x_hi < x_lo as i64 { 0 } else { (x_hi - x_lo as i64) as u64 + 1 }, 0);
        }
        let w = (x_hi - x_lo as i64) as u64 + 1;
        let h = (y_hi - y_lo as i64) as u64 + 1;
        assert(w * h <= (2 * range + 1) * (2 * range + 1)) by (nonlinear_arith)
            requires
                1 <= w <= 2 * range + 1,
                1 <= h <= 2 * range + 1,
        ;
        (x_lo as u64, y_lo as u64, w, w * h)
    }

    /// Folds `op` over the tiles around `(x, y)`: the cells within `range`
    /// of it in each coordinate (clamped to the map), row by row, skipping
    /// cells that are not on the map.
    pub fn fold_adjacent<B, F: Fn(&Tile, B) -> B>(
        &self,
        x: u32,
        y: u32,
        range: u32,
        acc: B,
        op: F,
    ) -> (r: B)
        requires
            x + range <= u32::MAX,
            y + range <= u32::MAX,
            (2 * range + 1) * (2 * range + 1) <= usize::MAX,
            forall|t: &Tile, a: B| op.requires((t, a)),
        ensures
            exists|accs: Seq<B>|
                #![trigger accs.last()]
                {
                    &&& accs.len() == self.window_len(x, y, range) + 1
                    &&& accs[0] == acc
                    &&& r == accs.last()
                    &&& forall|i: int|
                        0 <= i < self.window_len(x, y, range) ==> match #[trigger] self.window_tile(
                            x,
                            y,
                            range,
                            i,
                        ) {
                            Some(t) => op.ensures((&t, accs[i]), accs[i + 1]),
                            None => accs[i + 1] == accs[i],
                        }
                },
    {
        let (x_lo, y_lo, w, n) = self.window(x, y, range);
        let ghost first = acc;
        let mut acc = acc;
        let ghost mut accs: Seq<B> = seq![acc];
        let mut i: u64 = 0;
        while i < n
            invariant
                x_lo == window_lo(x, range),
                y_lo == window_lo(y, range),
                n == self.window_len(x, y, range),
                n > 0 ==> w == self.window_width(x, range) && w > 0,
                n <= usize::MAX,
                i <= n,
                forall|t: &Tile, a: B| op.requires((t, a)),
                accs.len() == i + 1,
                accs[0] == first,
                acc == accs.last(),
                forall|j: int|
                    0 <= j < i ==> match #[trigger] self.window_tile(x, y, range, j) {
                        Some(t) => op.ensures((&t, accs[j]), accs[j + 1]),
                        None => accs[j + 1] == accs[j],
                    },
            decreases n - i,
        {
            proof {
                self.lemma_window_cell(x, y, range, i as int);
            }
            let cx = x_lo + i % w;
            let cy = y_lo + i / w;
            let ghost before = accs;
            match self.get(cx as u32, cy as u32) {
                Some(tile) => {
                    let ghost prev = acc;
                    acc = op(tile, acc);
                    proof {
                        accs = accs.push(acc);
                    }
                },
                None => {
                    proof {
                        accs = accs.push(acc);
                    }
                },
            }
            proof {
                assert forall|j: int|
                    0 <= j < i + 1 implies match #[trigger] self.window_tile(x, y, range, j) {
                    Some(t) => op.ensures((&t, accs[j]), accs[j + 1]),
                    None => accs[j + 1] == accs[j],
                } by {
                    if j < i {
                        assert(accs[j] == before[j] && accs[j + 1] == before[j + 1]);
                    }
                }
            }
            i += 1;
        }
        assert(accs.last() == acc);
        acc
    }

    /// Calls `op` on each tile around `(x, y)`, in the window and order of
    /// [`Self::fold_adjacent`].
    pub fn map_adjacent<F: FnMut(&Tile)>(&self, x: u32, y: u32, range: u32, op: F)
        requires
            x + range <= u32::MAX,
            y + range <= u32::MAX,
            (2 * range + 1) * (2 * range + 1) <= usize::MAX,
            forall|f: F, t: &Tile| f.requires((t,)),
    {
        let (x_lo, y_lo, w, n) = self.window(x, y, range);
        let mut op = op;
        let mut i: u64 = 0;
        while i < n
            invariant
                x_lo == window_lo(x, range),
                y_lo == window_lo(y, range),
                n == self.window_len(x, y, range),
                n > 0 ==> w == self.window_width(x, range) && w > 0,
                i <= n,
                forall|f: F, t: &Tile| f.requires((t,)),
            decreases n - i,
        {
            proof {
                self.lemma_window_cell(x, y, range, i as int);
            }
            let cx = x_lo + i % w;
            let cy = y_lo + i / w;
            if let Some(tile) = self.get(cx as u32, cy as u32) {
                op(tile);
            }
            i += 1;
        }
    }

    /// Replaces the tiles that [`Self::flood_select`] selects from `(x, y)`
    /// with `replacement`, and returns how many it replaced. When
    /// `replacement` itself is accepted by `predicate` the fill could never
    /// end: the result is `InfiniteLoop` and the map is unchanged.
    pub fn flood_replace<F: Fn(&Tile) -> bool>(
        &mut self,
        x: u32,
        y: u32,
        predicate: F,
        replacement: Tile,
    ) -> (r: Result<usize, MapError>)
        requires
            old(self).wf(),
            forall|t: &Tile| predicate.requires((t,)),
            forall|t: &Tile, a: bool, b: bool|
                predicate.ensures((t,), a) && predicate.ensures((t,), b) ==> a == b,
        ensures
            final(self).wf(),
            final(self).spec_width() == old(self).spec_width(),
            final(self).spec_height() == old(self).spec_height(),
            r matches Err(e) ==> e == MapError::InfiniteLoop && predicate.ensures(
                (&replacement,),
                true,
            ) && *final(self) == *old(self),
            r matches Ok(n) ==> predicate.ensures((&replacement,), false) && exists|s: Set<u64>|
                #[trigger] old(self).is_flood(predicate, x, y, s) && n == s.len() && forall|
                    a: u32,
                    b: u32,
                | #[trigger] final(self).spec_get(a, b) == if s.contains(cell_key((a, b)))
                    && old(self).spec_get(a, b) is Some {
                    Some(replacement)
                } else {
                    old(self).spec_get(a, b)
                },
    {
        if predicate(&replacement) {
            return Err(MapError::InfiniteLoop);
        }
        let region = self.flood_select(x, y, predicate);
        let count = region.len();
        let ghost before = *self;
        let total = self.tiles.len();
        let w = self.width as usize;
        let mut i: usize = 0;
        while i < total
            invariant
                before.wf(),
                total == before.spec_tiles().len(),
                w == before.spec_width(),
                self.width == before.width,
                self.height == before.height,
                self.tiles@.len() == total,
                i <= total,
                forall|j: int|
                    #![trigger self.tiles@[j]]
                    0 <= j < total ==> self.tiles@[j] == if j < i && w > 0 && region@.contains(
                        cell_key(((j % w as int) as u32, (j / w as int) as u32)),
                    ) {
                        replacement
                    } else {
                        before.spec_tiles()[j]
                    },
            decreases total - i,
        {
            assert(w > 0) by (nonlinear_arith)
                requires
                    total == w * before.spec_height(),
                    i < total,
            ;
            assert((i / w) < before.spec_height()) by (nonlinear_arith)
                requires
                    total == w * before.spec_height(),
                    i < total,
                    w > 0,
            ;
            let cx = (i % w) as u32;
            let cy = (i / w) as u32;
            let key = Position::new(cx, cy).grid_key();
            if region.contains(&key) {
                self.tiles.set(i, replacement);
            }
            i += 1;
        }
        proof {
            assert forall|a: u32, b: u32| #[trigger] self.spec_get(a, b) == if region@.contains(
                cell_key((a, b)),
            ) && before.spec_get(a, b) is Some {
                Some(replacement)
            } else {
                before.spec_get(a, b)
            } by {
                if a < before.spec_width() && b < before.spec_height() {
                    let j = a as int + b as int * w as int;
                    assert(j < total) by (nonlinear_arith)
                        requires
                            total == w * before.spec_height(),
                            a < w,
                            b < before.spec_height(),
                            j == a + b * w,
                    ;
                    lemma_fundamental_div_mod_converse(j, w as int, b as int, a as int);
                    assert(self.tiles@[j] == self.tiles@[j]);
                }
            }
            assert(before.is_flood(predicate, x, y, region@));
        }
        Ok(count)
    }

    /// The `i`-th window cell, computed from its index, lies in `u32` range.
    proof fn lemma_window_cell(&self, x: u32, y: u32, range: u32, i: int)
        requires
            0 <= i < self.window_len(x, y, range),
        ensures
            self.window_width(x, range) > 0,
            0 <= window_lo(x, range) + i % self.window_width(x, range) <= u32::MAX,
            0 <= window_lo(y, range) + i / self.window_width(x, range) <= u32::MAX,
    {
        let w = self.window_width(x, range);
        let h = self.window_height(y, range);
        assert(0 <= i % w < w) by (nonlinear_arith)
            requires
                w > 0,
        ;
        assert(0 <= i / w < h) by (nonlinear_arith)
            requires
                w > 0,
                h > 0,
                0 <= i < w * h,
        ;
    }

    /// The number of tiles around `(x, y)`, in the window of
    /// [`Self::fold_adjacent`], on which `pred` holds.
    pub fn count_adjacent<F: Fn(&Tile) -> bool>(&self, x: u32, y: u32, range: u32, pred: F) -> (r:
        usize)
        requires
            x + range <= u32::MAX,
            y + range <= u32::MAX,
            (2 * range + 1) * (2 * range + 1) <= usize::MAX,
            forall|t: &Tile| pred.requires((t,)),
        ensures
            exists|hits: Seq<bool>|
                #![trigger count_hits(hits)]
                {
                    &&& hits.len() == self.window_len(x, y, range)
                    &&& r == count_hits(hits)
                    &&& forall|i: int|
                        0 <= i < self.window_len(x, y, range) ==> match #[trigger] self.window_tile(
                            x,
                            y,
                            range,
                            i,
                        ) {
                            Some(t) => pred.ensures((&t,), hits[i]),
                            None => !hits[i],
                        }
                },
    {
        let (x_lo, y_lo, w, n) = self.window(x, y, range);
        let mut count: usize = 0;
        let ghost mut hits: Seq<bool> = seq![];
        let mut i: u64 = 0;
        while i < n
            invariant
                x_lo == window_lo(x, range),
                y_lo == window_lo(y, range),
                n == self.window_len(x, y, range),
                n > 0 ==> w == self.window_width(x, range) && w > 0,
                n <= usize::MAX,
                i <= n,
                forall|t: &Tile| pred.requires((t,)),
                hits.len() == i,
                count == count_hits(hits),
                count <= i,
                forall|j: int|
                    0 <= j < i ==> match #[trigger] self.window_tile(x, y, range, j) {
                        Some(t) => pred.ensures((&t,), hits[j]),
                        None => !hits[j],
                    },
            decreases n - i,
        {
            proof {
                self.lemma_window_cell(x, y, range, i as int);
            }
            let cx = x_lo + i % w;
            let cy = y_lo + i / w;
            let ghost before = hits;
            let hit = match self.get(cx as u32, cy as u32) {
                Some(tile) => pred(tile),
                None => false,
            };
            proof {
                hits = hits.push(hit);
                assert(hits.drop_last() =~= before);
            }
            if hit {
                count += 1;
            }
            proof {
                assert forall|j: int|
                    0 <= j < i + 1 implies match #[trigger] self.window_tile(x, y, range, j) {
                    Some(t) => pred.ensures((&t,), hits[j]),
                    None => !hits[j],
                } by {
                    if j < i {
                        assert(hits[j] == before[j]);
                    }
                }
            }
            i += 1;
        }
        assert(count_hits(hits) == count);
        count
    }
}

/// The key of a cell.
pub open spec fn cell_key(c: (u32, u32)) -> u64 {
    grid_key(c.0, c.1)
}

/// The cell that a key stands for.
pub open spec fn key_cell(k: u64) -> (u32, u32) {
    ((k / GRID_STRIDE) as u32, (k % GRID_STRIDE) as u32)
}

/// Whether `n` lies within one step of `c` in each coordinate (`c` included).
pub open spec fn is_near(c: (u32, u32), n: (u32, u32)) -> bool {
    -1 <= n.0 - c.0 <= 1 && -1 <= n.1 - c.1 <= 1
}

/// Cell `i` of `order` lies next to `start` or to an earlier cell of `order`.
pub open spec fn linked_at(start: (u32, u32), order: Seq<(u32, u32)>, i: int) -> bool {
    is_near(start, order[i]) || exists|j: int| 0 <= j < i && is_near(order[j], order[i])
}

/// Each cell of `order` lies next to `start` or to an earlier cell: the cells
/// are connected to `start`.
pub open spec fn grows_from(start: (u32, u32), order: Seq<(u32, u32)>) -> bool {
    forall|i: int| 0 <= i < order.len() ==> #[trigger] linked_at(start, order, i)
}

/// `s` holds exactly the keys of the cells of `order`.
pub open spec fn keys_of(order: Seq<(u32, u32)>, s: Set<u64>) -> bool {
    &&& forall|i: int| 0 <= i < order.len() ==> s.contains(#[trigger] cell_key(order[i]))
    &&& forall|k: u64| #[trigger]
        s.contains(k) ==> exists|i: int| 0 <= i < order.len() && cell_key(order[i]) == k
}

proof fn lemma_cell_key(c: (u32, u32))
    ensures
        cell_key(c) as int == c.0 * GRID_STRIDE + c.1,
        key_cell(cell_key(c)) == c,
{
    assert(0 <= c.0 * GRID_STRIDE + c.1 <= u64::MAX) by (nonlinear_arith)
        requires
            c.0 <= u32::MAX,
            c.1 <= u32::MAX,
    ;
    lemma_fundamental_div_mod_converse(
        c.0 * GRID_STRIDE + c.1,
        GRID_STRIDE as int,
        c.0 as int,
        c.1 as int,
    );
}

/// A finite set of keys below `bound` has at most `bound` members.
proof fn lemma_keys_below(s: Set<u64>, bound: int)
    requires
        s.finite(),
        0 <= bound,
        forall|k: u64| #[trigger] s.contains(k) ==> k < bound,
    ensures
        s.len() <= bound,
{
    let f = |k: u64| k as int;
    let t = s.map(f);
    lemma_int_range(0, bound);
    assert(t.subset_of(set_int_range(0, bound)));
    lemma_len_subset(t, set_int_range(0, bound));
    assert(vstd::relations::injective_on(f, s));
    lemma_map_size(s, t, f);
}

impl GameMap {
    /// Whether the tile at `c` exists and `pred` accepts it.
    pub open spec fn selects<F: Fn(&Tile) -> bool>(&self, pred: F, c: (u32, u32)) -> bool {
        match self.spec_get(c.0, c.1) {
            Some(t) => pred.ensures((&t,), true),
            None => false,
        }
    }

    /// Whether every accepted tile near `c` has its key in `s`.
    pub open spec fn encloses<F: Fn(&Tile) -> bool>(&self, pred: F, s: Set<u64>, c: (u32, u32)) -> bool {
        forall|n: (u32, u32)| is_near(c, n) && #[trigger] self.selects(pred, n) ==> s.contains(cell_key(n))
    }

    /// `s` is a selection of [`Self::flood_select`] from `(x, y)`: the keys
    /// of the accepted cells connected to `(x, y)` (none when the tile at
    /// `(x, y)` is rejected).
    pub open spec fn is_flood<F: Fn(&Tile) -> bool>(&self, pred: F, x: u32, y: u32, s: Set<u64>) -> bool {
        &&& forall|k: u64| #[trigger]
            s.contains(k) ==> cell_key(key_cell(k)) == k && self.selects(pred, key_cell(k))
        &&& forall|k: u64| #[trigger] s.contains(k) ==> self.encloses(pred, s, key_cell(k))
        &&& (self.spec_get(x, y) matches Some(t) && !pred.ensures((&t,), true)) ==> s =~= Set::<
            u64,
        >::empty()
        &&& !(self.spec_get(x, y) matches Some(t) && !pred.ensures((&t,), true)) ==> self.encloses(
            pred,
            s,
            (x, y),
        )
        &&& exists|order: Seq<(u32, u32)>|
            #![trigger keys_of(order, s)]
            keys_of(order, s) && grows_from((x, y), order)
    }

    /// A key of an existing cell lies below `tiles * GRID_STRIDE`.
    proof fn lemma_key_bound(&self, c: (u32, u32))
        requires
            self.wf(),
            self.spec_get(c.0, c.1) is Some,
        ensures
            (cell_key(c) as int) < self.spec_tiles().len() * GRID_STRIDE,
    {
        lemma_cell_key(c);
        let len = self.spec_tiles().len() as int;
        let w = self.spec_width() as int;
        assert(c.0 + c.1 * w < len);
        if w == 0 {
            assert(len == 0) by (nonlinear_arith)
                requires
                    len == w * self.spec_height(),
                    w == 0,
            ;
        }
        assert(c.0 * GRID_STRIDE + c.1 < len * GRID_STRIDE) by (nonlinear_arith)
            requires
                w >= 1,
                0 <= c.0,
                0 <= c.1,
                c.0 + c.1 * w < len,
        ;
    }

    /// The keys of the cells connected to `(x, y)` through tiles that
    /// `predicate` accepts, stepping to any of the eight neighbours (and
    /// clamping at 0). When the tile at `(x, y)` exists and is not accepted,
    /// the selection is empty. Every selected cell's tile is accepted, every
    /// accepted tile next to a selected cell, or next to `(x, y)`, is
    /// selected, and the selected cells can be listed so that each lies next
    /// to `(x, y)` or to one listed before it. The predicate is expected to
    /// answer the same for the same tile.
    pub fn flood_select<F: Fn(&Tile) -> bool>(&self, x: u32, y: u32, predicate: F) -> (r: HashSet<u64>)
        requires
            self.wf(),
            forall|t: &Tile| predicate.requires((t,)),
            forall|t: &Tile, a: bool, b: bool|
                predicate.ensures((t,), a) && predicate.ensures((t,), b) ==> a == b,
        ensures
            forall|k: u64| #[trigger]
                r@.contains(k) ==> cell_key(key_cell(k)) == k && self.selects(predicate, key_cell(k)),
            forall|k: u64| #[trigger] r@.contains(k) ==> self.encloses(predicate, r@, key_cell(k)),
            (self.spec_get(x, y) matches Some(t) && !predicate.ensures((&t,), true)) ==> r@ =~= Set::<
                u64,
            >::empty(),
            !(self.spec_get(x, y) matches Some(t) && !predicate.ensures((&t,), true))
                ==> self.encloses(predicate, r@, (x, y)),
            exists|order: Seq<(u32, u32)>|
                #![trigger keys_of(order, r@)]
                keys_of(order, r@) && grows_from((x, y), order),
            self.is_flood(predicate, x, y, r@),
    {
        let mut set: HashSet<u64> = HashSet::new();
        let ghost mut order: Seq<(u32, u32)> = seq![];
        if let Some(tile) = self.get(x, y) {
            if !predicate(tile) {
                assert(keys_of(order, set@));
                return set;
            }
        }
        let ghost bound = self.spec_tiles().len() * GRID_STRIDE;
        let ghost start = (x, y);
        let mut queue: Vec<(u32, u32)> = Vec::new();
        queue.push((x, y));
        assert(queue@[0] == start);
        loop
            invariant
                self.wf(),
                bound == self.spec_tiles().len() * GRID_STRIDE,
                start == (x, y),
                forall|t: &Tile| predicate.requires((t,)),
                forall|t: &Tile, a: bool, b: bool|
                    predicate.ensures((t,), a) && predicate.ensures((t,), b) ==> a == b,
                set@.finite(),
                set@.len() <= bound,
                forall|k: u64| #[trigger]
                    set@.contains(k) ==> cell_key(key_cell(k)) == k && self.selects(
                        predicate,
                        key_cell(k),
                    ) && k < bound,
                forall|k: u64| #[trigger]
                    set@.contains(k) ==> queue@.contains(key_cell(k)) || self.encloses(
                        predicate,
                        set@,
                        key_cell(k),
                    ),
                queue@.contains(start) || self.encloses(predicate, set@, start),
                keys_of(order, set@),
                grows_from(start, order),
                forall|q: int|
                    0 <= q < queue@.len() ==> #[trigger] queue@[q] == start || order.contains(
                        queue@[q],
                    ),
            ensures
                queue@.len() == 0,
                keys_of(order, set@),
                grows_from(start, order),
                forall|k: u64| #[trigger]
                    set@.contains(k) ==> cell_key(key_cell(k)) == k && self.selects(
                        predicate,
                        key_cell(k),
                    ),
                forall|k: u64| #[trigger]
                    set@.contains(k) ==> queue@.contains(key_cell(k)) || self.encloses(
                        predicate,
                        set@,
                        key_cell(k),
                    ),
                queue@.contains(start) || self.encloses(predicate, set@, start),
            decreases bound - set@.len() + queue@.len(),
        {
            let ghost waiting = queue@;
            let c = match queue.pop() {
                None => break,
                Some(c) => c,
            };
            let ghost popped = queue@;
            let ghost before = set@;
            assert(waiting =~= popped.push(c));
            assert(waiting[waiting.len() - 1] == c);
            assert(c == start || order.contains(c));
            let mut t: u32 = 0;
            while t < 9
                invariant
                    self.wf(),
                    bound == self.spec_tiles().len() * GRID_STRIDE,
                    forall|t: &Tile| predicate.requires((t,)),
                    forall|t: &Tile, a: bool, b: bool|
                        predicate.ensures((t,), a) && predicate.ensures((t,), b) ==> a == b,
                    t <= 9,
                    set@.finite(),
                    set@.len() <= bound,
                    before.subset_of(set@),
                    set@.len() - before.len() == queue@.len() - popped.len(),
                    queue@.len() >= popped.len(),
                    queue@.take(popped.len() as int) == popped,
                    keys_of(order, set@),
                    grows_from(start, order),
                    c == start || order.contains(c),
                    forall|q: int|
                        0 <= q < queue@.len() ==> #[trigger] queue@[q] == start || order.contains(
                            queue@[q],
                        ),
                    forall|k: u64| #[trigger]
                        set@.contains(k) ==> cell_key(key_cell(k)) == k && self.selects(
                            predicate,
                            key_cell(k),
                        ) && k < bound,
                    forall|k: u64| #[trigger]
                        set@.contains(k) && !before.contains(k) ==> queue@.contains(key_cell(k)),
                    forall|n: (u32, u32)|
                        is_near(c, n) && n.0 - c.0 + 1 + 3 * (n.1 - c.1 + 1) < t
                            && #[trigger] self.selects(predicate, n) ==> set@.contains(cell_key(n)),
                decreases 9 - t,
            {
                let nx = c.0 as i64 + (t % 3) as i64 - 1;
                let ny = c.1 as i64 + (t / 3) as i64 - 1;
                if 0 <= nx && nx <= u32::MAX as i64 && 0 <= ny && ny <= u32::MAX as i64 {
                    let n = (nx as u32, ny as u32);
                    if let Some(tile) = self.get(n.0, n.1) {
                        let key = Position::new(n.0, n.1).grid_key();
                        proof {
                            lemma_cell_key(n);
                        }
                        if !set.contains(&key) {
                            if predicate(tile) {
                                proof {
                                    self.lemma_key_bound(n);
                                }
                                let ghost pre = set@;
                                let ghost q0 = queue@;
                                let ghost o0 = order;
                                set.insert(key);
                                queue.push(n);
                                proof {
                                    order = order.push(n);
                                    assert(is_near(c, n));
                                    if c != start {
                                        let j = choose|j: int| 0 <= j < o0.len() && o0[j] == c;
                                        assert(order[j] == c);
                                    }
                                    assert(linked_at(start, order, order.len() - 1));
                                    assert forall|i: int| 0 <= i < order.len() implies #[trigger] linked_at(
                                        start,
                                        order,
                                        i,
                                    ) by {
                                        if i < o0.len() {
                                            assert(linked_at(start, o0, i));
                                            if !is_near(start, o0[i]) {
                                                let j = choose|j: int| 0 <= j < i && is_near(o0[j], o0[i]);
                                                assert(order[j] == o0[j]);
                                            }
                                        }
                                    }
                                    assert forall|k: u64| #[trigger] set@.contains(k) implies exists|i: int|
                                        0 <= i < order.len() && cell_key(order[i]) == k by {
                                        if k == key {
                                            assert(cell_key(order[order.len() - 1]) == k);
                                        } else {
                                            let i = choose|i: int| 0 <= i < o0.len() && cell_key(o0[i]) == k;
                                            assert(order[i] == o0[i]);
                                        }
                                    }
                                    assert forall|i: int| 0 <= i < order.len() implies set@.contains(
                                        #[trigger] cell_key(order[i]),
                                    ) by {
                                        if i < o0.len() {
                                            assert(order[i] == o0[i]);
                                            assert(pre.contains(cell_key(o0[i])));
                                        }
                                    }
                                    assert forall|q: int| 0 <= q < queue@.len() implies #[trigger] queue@[q]
                                        == start || order.contains(queue@[q]) by {
                                        if q < q0.len() {
                                            assert(queue@[q] == q0[q]);
                                            if q0[q] != start {
                                                let i = choose|i: int| 0 <= i < o0.len() && o0[i] == q0[q];
                                                assert(order[i] == o0[i]);
                                            }
                                        } else {
                                            assert(order[order.len() - 1] == n);
                                        }
                                    }
                                    lemma_keys_below(set@, bound);
                                    assert(queue@.take(popped.len() as int) =~= q0.take(
                                        popped.len() as int,
                                    ));
                                    assert forall|k: u64| #[trigger]
                                        set@.contains(k) && !before.contains(k) implies queue@.contains(
                                        key_cell(k),
                                    ) by {
                                        if k != key {
                                            assert(pre.contains(k));
                                            assert(q0.contains(key_cell(k)));
                                            let i = choose|i: int|
                                                0 <= i < q0.len() && q0[i] == key_cell(k);
                                            assert(queue@[i] == key_cell(k));
                                        } else {
                                            assert(queue@[queue@.len() - 1] == key_cell(k));
                                        }
                                    }
                                }
                            }
                        }
                    }
                }
                t += 1;
            }
            proof {
                assert forall|n: (u32, u32)| is_near(c, n) && #[trigger] self.selects(
                    predicate,
                    n,
                ) implies set@.contains(cell_key(n)) by {
                    assert(n.0 - c.0 + 1 + 3 * (n.1 - c.1 + 1) < 9);
                }
                assert(self.encloses(predicate, set@, c));
                assert forall|d: (u32, u32)|
                    waiting.contains(d) && d != c implies #[trigger] queue@.contains(d) by {
                    let i = choose|i: int| 0 <= i < waiting.len() && waiting[i] == d;
                    assert(i < popped.len());
                    assert(popped[i] == d);
                    assert(queue@.take(popped.len() as int)[i] == d);
                    assert(queue@[i] == d);
                }
                assert forall|d: (u32, u32)|
                    self.encloses(predicate, before, d) implies #[trigger] self.encloses(
                    predicate,
                    set@,
                    d,
                ) by {
                    assert forall|n: (u32, u32)| is_near(d, n) && #[trigger] self.selects(
                        predicate,
                        n,
                    ) implies set@.contains(cell_key(n)) by {
                        assert(before.contains(cell_key(n)));
                    }
                }
                assert forall|k: u64| #[trigger] set@.contains(k) implies queue@.contains(
                    key_cell(k),
                ) || self.encloses(predicate, set@, key_cell(k)) by {
                    if before.contains(k) {
                        if waiting.contains(key_cell(k)) && key_cell(k) != c {
                            assert(queue@.contains(key_cell(k)));
                        }
                    }
                }
                if waiting.contains(start) && start != c {
                    assert(queue@.contains(start));
                }
            }
        }
        assert(keys_of(order, set@) && grows_from((x, y), order));
        set
    }
}

/// Walks the tiles of a rectangular area of a map: see [`GameMap::iter_rect`].
pub struct MapArea<'a> {
    x: u32,
    y: u32,
    area: Rect,
    map: &'a GameMap,
}

impl GameMap {
    /// A walk over the tiles inside `area`, whose far corner must stay within
    /// `u32` coordinates.
    pub fn iter_rect(&self, area: Rect) -> (r: MapArea<'_>)
        requires
            area.pos.x + area.w <= u32::MAX,
            area.pos.y + area.h <= u32::MAX,
        ensures
            r.wf(),
            r.cursor() == (0u32, 0u32),
            r.spec_area() == area,
            r.spec_map() == *self,
    {
        MapArea { x: 0, y: 0, area, map: self }
    }
}

impl<'a> MapArea<'a> {
    /// The area's far corner stays within `u32` coordinates.
    pub closed spec fn wf(&self) -> bool {
        &&& self.area.pos.x + self.area.w <= u32::MAX
        &&& self.area.pos.y + self.area.h <= u32::MAX
    }

    /// The position, relative to the area, that the next call reports.
    pub closed spec fn cursor(&self) -> (u32, u32) {
        (self.x, self.y)
    }

    pub closed spec fn spec_area(&self) -> Rect {
        self.area
    }

    pub closed spec fn spec_map(&self) -> GameMap {
        *self.map
    }

    /// Reports the tile at the cursor and moves the cursor on: along the row
    /// up to the width (included), then to the start of the next row. Once
    /// the cursor has passed the height, or when the cursor's tile falls
    /// outside the area or the map, the result is `None`.
    pub fn next(&mut self) -> (r: Option<(Position, Tile)>)
        requires
            old(self).wf(),
        ensures
            final(self).wf(),
            final(self).spec_area() == old(self).spec_area(),
            final(self).spec_map() == old(self).spec_map(),
            ({
                let (x, y) = old(self).cursor();
                let area = old(self).spec_area();
                if y >= area.h {
                    r is None && final(self).cursor() == old(self).cursor()
                } else {
                    &&& final(self).cursor() == if x < area.w {
                        ((x + 1) as u32, y)
                    } else {
                        (0u32, (y + 1) as u32)
                    }
                    &&& r == match old(self).spec_map().spec_get(
                        (area.pos.x + x) as u32,
                        (area.pos.y + y) as u32,
                    ) {
                        Some(t) => if x <= area.w {
                            Some((Position { x, y }, t))
                        } else {
                            None
                        },
                        None => None,
                    }
                }
            }),
    {
        let pos = Position { x: self.x, y: self.y };
        if self.y < self.area.h {
            if self.x < self.area.w {
                self.x += 1;
            } else {
                self.x = 0;
                self.y += 1;
            }
        } else {
            return None;
        }
        match self.area.transform(&pos) {
            Some(map_pos) => match self.map.pos(&map_pos) {
                Some(tile) => Some((pos, *tile)),
                None => None,
            },
            None => None,
        }
    }
}

} // verus!
