//! Game-world primitives and a best-first planning engine.
//!
//! The `path` module holds the planner: a generic A* / uniform-cost search
//! over user-supplied models, samplers and states. The other modules are
//! clients of it: a tile map, actors that move over it, and items.
use vstd::prelude::*;

pub mod actor;
pub mod item;
pub mod map;
pub mod path;

verus! {

/// An (x, y) position in the game world.
#[derive(Clone, Copy, PartialEq, Eq, Debug, Hash, Structural)]
pub struct Position {
    pub x: u32,
    pub y: u32,
}

/// Number of distinct `y` coordinates: the factor that packs a position into one key.
pub const GRID_STRIDE: u64 = 4294967296;

/// The integer key of a position: `x` in the high half, `y` in the low half.
pub open spec fn grid_key(x: u32, y: u32) -> u64 {
    (x as int * GRID_STRIDE + y as int) as u64
}

impl Position {
    pub fn new(x: u32, y: u32) -> (r: Self)
        ensures
            r.x == x,
            r.y == y,
    {
        Position { x, y }
    }

    pub fn zero() -> (r: Self)
        ensures
            r.x == 0,
            r.y == 0,
    {
        Position { x: 0, y: 0 }
    }

    /// The position's key for deduplication: distinct positions have distinct keys.
    pub fn grid_key(&self) -> (r: u64)
        ensures
            r == grid_key(self.x, self.y),
            r as int == self.x as int * GRID_STRIDE + self.y as int,
    {
        assert(self.x as int * GRID_STRIDE + self.y as int <= u64::MAX) by (nonlinear_arith)
            requires
                self.x <= u32::MAX,
                self.y <= u32::MAX,
        ;
        self.x as u64 * GRID_STRIDE + self.y as u64
    }

    /// The position that a grid key stands for.
    pub fn from_grid_key(key: u64) -> (r: Self)
        ensures
            grid_key(r.x, r.y) == key,
    {
        let x = (key / GRID_STRIDE) as u32;
        let y = (key % GRID_STRIDE) as u32;
        assert(key as int == (key / GRID_STRIDE) as int * GRID_STRIDE + (key % GRID_STRIDE) as int)
            by (nonlinear_arith);
        assert(key / GRID_STRIDE <= u32::MAX) by (nonlinear_arith);
        Position { x, y }
    }
}

/// Distinct positions have distinct grid keys.
pub proof fn lemma_grid_key_injective(a: Position, b: Position)
    requires
        grid_key(a.x, a.y) == grid_key(b.x, b.y),
    ensures
        a == b,
{
    let ka = a.x as int * GRID_STRIDE + a.y as int;
    let kb = b.x as int * GRID_STRIDE + b.y as int;
    assert(0 <= ka <= u64::MAX) by (nonlinear_arith)
        requires
            a.x <= u32::MAX,
            a.y <= u32::MAX,
            ka == a.x as int * GRID_STRIDE + a.y as int,
    ;
    assert(0 <= kb <= u64::MAX) by (nonlinear_arith)
        requires
            b.x <= u32::MAX,
            b.y <= u32::MAX,
            kb == b.x as int * GRID_STRIDE + b.y as int,
    ;
    assert(ka == kb);
    assert(a.x == b.x && a.y == b.y) by (nonlinear_arith)
        requires
            a.x as int * GRID_STRIDE + a.y as int == b.x as int * GRID_STRIDE + b.y as int,
            0 <= a.y < GRID_STRIDE,
            0 <= b.y < GRID_STRIDE,
            a.x >= 0,
            b.x >= 0,
    ;
}

/// A rectangular area.
///
/// Converts positions relative to the rectangle's area into positions in the
/// rectangle's parent space.
#[derive(Clone, Copy, PartialEq, Eq, Debug, Structural)]
pub struct Rect {
    /// The top-left position of the rectangle.
    pub pos: Position,
    /// The width of the rectangle.
    pub w: u32,
    /// The height of the rectangle.
    pub h: u32,
}

impl Rect {
    pub fn new(pos: Position, w: u32, h: u32) -> (r: Self)
        ensures
            r.pos == pos,
            r.w == w,
            r.h == h,
    {
        Rect { pos, w, h }
    }

    /// A rectangle whose top-left corner is at the origin.
    pub fn origin(w: u32, h: u32) -> (r: Self)
        ensures
            r.pos == Position::zero_spec(),
            r.w == w,
            r.h == h,
    {
        Rect { pos: Position { x: 0, y: 0 }, w, h }
    }

    /// Whether `pos` lies in the area (the far edges included).
    pub open spec fn covers(self, pos: Position) -> bool {
        pos.x <= self.w && pos.y <= self.h
    }

    /// The global position of a position inside the rectangle, or `None` when it
    /// falls outside the rectangle's area.
    pub fn transform(&self, pos: &Position) -> (r: Option<Position>)
        requires
            self.covers(*pos) ==> self.pos.x + pos.x <= u32::MAX && self.pos.y + pos.y
                <= u32::MAX,
        ensures
            self.covers(*pos) <==> r.is_some(),
            r matches Some(p) ==> p.x == self.pos.x + pos.x && p.y == self.pos.y + pos.y,
    {
        if pos.x > self.w || pos.y > self.h {
            None
        } else {
            Some(Position { x: self.pos.x + pos.x, y: self.pos.y + pos.y })
        }
    }
}

impl Position {
    pub open spec fn zero_spec() -> Position {
        Position { x: 0, y: 0 }
    }
}

impl path::State for Position {
    open spec fn spec_grid_position(&self) -> u64 {
        grid_key(self.x, self.y)
    }

    fn grid_position(&self) -> (r: u64) {
        self.grid_key()
    }
}

} // verus!
