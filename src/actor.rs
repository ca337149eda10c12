//! Actors that move over a [`GameMap`], and the turn-optimal planning model
//! that plans their moves.
use super::{grid_key, Position};
use crate::map::GameMap;
use crate::path::astar::AStar;
use crate::path::{HeuristicModel, Model, PathResult, Sampler, State};
use vstd::prelude::*;

verus! {

/// Why a movement could not be carried out.
#[derive(Debug, Clone, Copy, PartialEq, Eq, Structural)]
pub enum MoveError {
    /// The tile at this position blocks movement.
    Blocked(u32, u32),
    /// This position does not exist on the map.
    OffMap(i64, i64),
    /// The actor lacks the mana the movement consumes.
    NoMana,
}

pub type ActionResult = Result<(), MoveError>;

/// Something an actor can do on a map.
pub trait Action {
    /// The actor after the action, and whether it succeeded.
    spec fn spec_execute(&self, map: GameMap, actor: Actor) -> (Actor, ActionResult);

    fn execute(&self, map: &GameMap, actor: &mut Actor) -> (r: ActionResult)
        ensures
            (*final(actor), r) == self.spec_execute(*map, *old(actor)),
    ;
}

/// An agent in the world, with a position and a pool of mana.
#[derive(Debug, Clone, Copy, PartialEq, Eq, Structural)]
pub struct Actor {
    pub pos: Position,
    pub mana: usize,
    pub max_mana: usize,
}

impl Actor {
    pub fn new(x: u32, y: u32, mana: usize, max_mana: usize) -> (r: Self)
        ensures
            r.pos.x == x && r.pos.y == y,
            r.mana == mana,
            r.max_mana == max_mana,
    {
        Actor { pos: Position { x, y }, mana, max_mana }
    }
}

/// The eight compass directions; north is `y + 1`, east is `x + 1`.
#[derive(Debug, Clone, Copy, PartialEq, Eq, Hash, Structural)]
pub enum Direction {
    North,
    NorthEast,
    East,
    SouthEast,
    South,
    SouthWest,
    West,
    NorthWest,
}

impl Direction {
    /// The unit offset of one step.
    pub open spec fn offset(self) -> (int, int) {
        match self {
            Direction::North => (0, 1),
            Direction::NorthEast => (1, 1),
            Direction::East => (1, 0),
            Direction::SouthEast => (1, -1),
            Direction::South => (0, -1),
            Direction::SouthWest => (-1, -1),
            Direction::West => (-1, 0),
            Direction::NorthWest => (-1, 1),
        }
    }

    pub open spec fn is_diagonal(self) -> bool {
        self.offset().0 != 0 && self.offset().1 != 0
    }

    /// Whether one step from `(x, y)` stays within `u32` coordinates.
    pub open spec fn can_step(self, x: u32, y: u32) -> bool {
        0 <= x + self.offset().0 <= u32::MAX && 0 <= y + self.offset().1 <= u32::MAX
    }

    /// One step from `(x, y)`.
    pub fn step_from(self, x: u32, y: u32) -> (r: (u32, u32))
        requires
            self.can_step(x, y),
        ensures
            r.0 == x + self.offset().0,
            r.1 == y + self.offset().1,
    {
        match self {
            Direction::North => (x, y + 1),
            Direction::NorthEast => (x + 1, y + 1),
            Direction::East => (x + 1, y),
            Direction::SouthEast => (x + 1, y - 1),
            Direction::South => (x, y - 1),
            Direction::SouthWest => (x - 1, y - 1),
            Direction::West => (x - 1, y),
            Direction::NorthWest => (x - 1, y + 1),
        }
    }

    /// One step from `(x, y)`, or `None` when it leaves `u32` coordinates.
    pub fn checked_step_from(self, x: u32, y: u32) -> (r: Option<(u32, u32)>)
        ensures
            r is Some <==> self.can_step(x, y),
            r matches Some(p) ==> p.0 == x + self.offset().0 && p.1 == y + self.offset().1,
    {
        let (dx, dy): (i64, i64) = match self {
            Direction::North => (0, 1),
            Direction::NorthEast => (1, 1),
            Direction::East => (1, 0),
            Direction::SouthEast => (1, -1),
            Direction::South => (0, -1),
            Direction::SouthWest => (-1, -1),
            Direction::West => (-1, 0),
            Direction::NorthWest => (-1, 1),
        };
        let nx = x as i64 + dx;
        let ny = y as i64 + dy;
        if 0 <= nx && nx <= u32::MAX as i64 && 0 <= ny && ny <= u32::MAX as i64 {
            Some((nx as u32, ny as u32))
        } else {
            None
        }
    }
}

impl Default for Direction {
    fn default() -> (r: Self)
        ensures
            r == Direction::North,
    {
        Direction::North
    }
}

/// A movement: a teleport or a walk in a direction, or staying in place.
#[derive(Debug, Clone, Copy, PartialEq, Eq, Hash, Structural)]
pub enum Movement {
    Teleport(Direction),
    Walk(Direction),
    Stay,
}

impl Default for Movement {
    fn default() -> (r: Self)
        ensures
            r == Movement::Stay,
    {
        Movement::Stay
    }
}

/// Mana after one turn: one more, capped at the actor's maximum.
pub open spec fn regenerated(actor: Actor) -> usize {
    if actor.mana < actor.max_mana {
        (actor.mana + 1) as usize
    } else {
        actor.max_mana
    }
}

/// How many steps a teleport in `d` takes: 5 diagonally, else 10.
pub open spec fn teleport_distance(d: Direction) -> nat {
    if d.is_diagonal() {
        5
    } else {
        10
    }
}

/// Where `n` more teleport steps in `d` from `(x, y)` end: `Ok` with the
/// final position, or `Err` with the first blocking position met. A step
/// whose position is not on the map is skipped.
pub open spec fn teleport_from(map: GameMap, d: Direction, x: u32, y: u32, n: nat) -> Result<
    (u32, u32),
    (u32, u32),
>
    decreases n,
{
    if n == 0 {
        Ok((x, y))
    } else if d.can_step(x, y) {
        let nx = (x + d.offset().0) as u32;
        let ny = (y + d.offset().1) as u32;
        match map.spec_get(nx, ny) {
            Some(t) => if t.spec_is_blocking() {
                Err((nx, ny))
            } else {
                teleport_from(map, d, nx, ny, (n - 1) as nat)
            },
            None => teleport_from(map, d, x, y, (n - 1) as nat),
        }
    } else {
        teleport_from(map, d, x, y, (n - 1) as nat)
    }
}

impl Movement {
    /// The actor after the movement, and whether it succeeded. Every
    /// movement first regenerates one mana (up to the maximum). A walk moves
    /// one step onto a non-blocking tile. A teleport goes its distance step by
    /// step, skipping positions off the map and stopping with an error at a
    /// blocking tile; it then costs 5 mana, failing when fewer are left.
    pub open spec fn spec_apply(self, map: GameMap, actor: Actor) -> (Actor, ActionResult) {
        let rested = Actor { mana: regenerated(actor), ..actor };
        let (x, y) = (actor.pos.x, actor.pos.y);
        match self {
            Movement::Stay => (rested, Ok(())),
            Movement::Walk(d) => if !d.can_step(x, y) {
                (rested, Err(MoveError::OffMap((x + d.offset().0) as i64, (y + d.offset().1) as i64)))
            } else {
                let nx = (x + d.offset().0) as u32;
                let ny = (y + d.offset().1) as u32;
                match map.spec_get(nx, ny) {
                    Some(t) => if t.spec_is_blocking() {
                        (rested, Err(MoveError::Blocked(nx, ny)))
                    } else {
                        (Actor { pos: Position { x: nx, y: ny }, ..rested }, Ok(()))
                    },
                    None => (rested, Err(MoveError::OffMap(nx as i64, ny as i64))),
                }
            },
            Movement::Teleport(d) => match teleport_from(map, d, x, y, teleport_distance(d)) {
                Err(p) => (rested, Err(MoveError::Blocked(p.0, p.1))),
                Ok(p) => {
                    let moved = Actor { pos: Position { x: p.0, y: p.1 }, ..rested };
                    if moved.mana < 5 {
                        (moved, Err(MoveError::NoMana))
                    } else {
                        (Actor { mana: (moved.mana - 5) as usize, ..moved }, Ok(()))
                    }
                },
            },
        }
    }

    /// Carries out the movement on `actor`.
    pub fn apply(&self, map: &GameMap, actor: &mut Actor) -> (r: ActionResult)
        ensures
            (*final(actor), r) == self.spec_apply(*map, *old(actor)),
    {
        actor.mana = if actor.mana < actor.max_mana {
            actor.mana + 1
        } else {
            actor.max_mana
        };
        let x = actor.pos.x;
        let y = actor.pos.y;
        match *self {
            Movement::Stay => Ok(()),
            Movement::Walk(direction) => match direction.checked_step_from(x, y) {
                None => {
                    let (nx, ny) = offset_of(direction, x, y);
                    Err(MoveError::OffMap(nx, ny))
                },
                Some((nx, ny)) => match map.get(nx, ny) {
                    Some(tile) => {
                        if !tile.is_blocking() {
                            actor.pos = Position { x: nx, y: ny };
                            Ok(())
                        } else {
                            Err(MoveError::Blocked(nx, ny))
                        }
                    },
                    None => Err(MoveError::OffMap(nx as i64, ny as i64)),
                },
            },
            Movement::Teleport(direction) => {
                let distance: u32 = match direction {
                    Direction::SouthEast | Direction::NorthEast | Direction::SouthWest
                    | Direction::NorthWest => 5,
                    _ => 10,
                };
                let mut cx = x;
                let mut cy = y;
                let mut i: u32 = 0;
                while i < distance
                    invariant
                        *self == Movement::Teleport(direction),
                        *actor == (Actor { mana: regenerated(*old(actor)), ..*old(actor) }),
                        x == old(actor).pos.x,
                        y == old(actor).pos.y,
                        distance == teleport_distance(direction),
                        i <= distance,
                        teleport_from(*map, direction, x, y, distance as nat) == teleport_from(
                            *map,
                            direction,
                            cx,
                            cy,
                            (distance - i) as nat,
                        ),
                    decreases distance - i,
                {
                    if let Some((nx, ny)) = direction.checked_step_from(cx, cy) {
                        if let Some(tile) = map.get(nx, ny) {
                            if !tile.is_blocking() {
                                cx = nx;
                                cy = ny;
                            } else {
                                assert(teleport_from(*map, direction, cx, cy, (distance - i) as nat)
                                    == Err::<(u32, u32), (u32, u32)>((nx, ny)));
                                return Err(MoveError::Blocked(nx, ny));
                            }
                        }
                    }
                    i += 1;
                }
                actor.pos = Position { x: cx, y: cy };
                if actor.mana < 5 {
                    Err(MoveError::NoMana)
                } else {
                    actor.mana -= 5;
                    Ok(())
                }
            },
        }
    }
}

/// The coordinates one step in `d` from `(x, y)`, as signed integers.
fn offset_of(d: Direction, x: u32, y: u32) -> (r: (i64, i64))
    ensures
        r.0 == x + d.offset().0,
        r.1 == y + d.offset().1,
{
    let (dx, dy): (i64, i64) = match d {
        Direction::North => (0, 1),
        Direction::NorthEast => (1, 1),
        Direction::East => (1, 0),
        Direction::SouthEast => (1, -1),
        Direction::South => (0, -1),
        Direction::SouthWest => (-1, -1),
        Direction::West => (-1, 0),
        Direction::NorthWest => (-1, 1),
    };
    (x as i64 + dx, y as i64 + dy)
}

impl Action for Movement {
    open spec fn spec_execute(&self, map: GameMap, actor: Actor) -> (Actor, ActionResult) {
        self.spec_apply(map, actor)
    }

    fn execute(&self, map: &GameMap, actor: &mut Actor) -> (r: ActionResult) {
        self.apply(map, actor)
    }
}

impl State for Actor {
    open spec fn spec_grid_position(&self) -> u64 {
        grid_key(self.pos.x, self.pos.y)
    }

    fn grid_position(&self) -> (r: u64) {
        self.pos.grid_key()
    }
}

/// The eight walks, north first, clockwise.
pub open spec fn walks() -> Seq<Movement> {
    seq![
        Movement::Walk(Direction::North),
        Movement::Walk(Direction::NorthEast),
        Movement::Walk(Direction::East),
        Movement::Walk(Direction::SouthEast),
        Movement::Walk(Direction::South),
        Movement::Walk(Direction::SouthWest),
        Movement::Walk(Direction::West),
        Movement::Walk(Direction::NorthWest),
    ]
}

/// The eight teleports, north first, clockwise.
pub open spec fn teleports() -> Seq<Movement> {
    seq![
        Movement::Teleport(Direction::North),
        Movement::Teleport(Direction::NorthEast),
        Movement::Teleport(Direction::East),
        Movement::Teleport(Direction::SouthEast),
        Movement::Teleport(Direction::South),
        Movement::Teleport(Direction::SouthWest),
        Movement::Teleport(Direction::West),
        Movement::Teleport(Direction::NorthWest),
    ]
}

/// Appends the eight walks to `out`, or with `teleport` the eight teleports.
fn push_all(out: &mut Vec<Movement>, teleport: bool)
    ensures
        final(out)@ == old(out)@ + if teleport {
            teleports()
        } else {
            walks()
        },
{
    let directions = [
        Direction::North,
        Direction::NorthEast,
        Direction::East,
        Direction::SouthEast,
        Direction::South,
        Direction::SouthWest,
        Direction::West,
        Direction::NorthWest,
    ];
    let ghost start = out@;
    let ghost kind = if teleport {
        teleports()
    } else {
        walks()
    };
    let mut i: usize = 0;
    while i < 8
        invariant
            i <= 8,
            directions@ == seq![
                Direction::North,
                Direction::NorthEast,
                Direction::East,
                Direction::SouthEast,
                Direction::South,
                Direction::SouthWest,
                Direction::West,
                Direction::NorthWest,
            ],
            kind == if teleport {
                teleports()
            } else {
                walks()
            },
            out@ == start + kind.take(i as int),
        decreases 8 - i,
    {
        let d = directions[i];
        if teleport {
            out.push(Movement::Teleport(d));
        } else {
            out.push(Movement::Walk(d));
        }
        assert(kind.take(i + 1) =~= kind.take(i as int).push(kind[i as int]));
        i += 1;
    }
    assert(kind.take(8) =~= kind);
}

/// Proposes the eight walks from every state.
pub struct WalkSampler {
    movements: Vec<Movement>,
}

impl WalkSampler {
    pub closed spec fn controls(&self) -> Seq<Movement> {
        self.movements@
    }

    pub fn new() -> (r: Self)
        ensures
            r.controls() == walks(),
            forall|m: TurnOptimal, s: Actor| #[trigger] r.spec_sample(m, s)@ == walks(),
    {
        let mut movements: Vec<Movement> = Vec::new();
        push_all(&mut movements, false);
        WalkSampler { movements }
    }

    /// The controls proposed from every state.
    pub fn movements(&self) -> (r: Vec<Movement>)
        ensures
            r@ == self.controls(),
    {
        let mut r: Vec<Movement> = Vec::new();
        let mut i: usize = 0;
        while i < self.movements.len()
            invariant
                i <= self.movements@.len(),
                r@ == self.movements@.take(i as int),
            decreases self.movements@.len() - i,
        {
            r.push(self.movements[i]);
            assert(self.movements@.take(i + 1) =~= self.movements@.take(i as int).push(
                self.movements@[i as int],
            ));
            i += 1;
        }
        assert(self.movements@.take(self.movements@.len() as int) =~= self.movements@);
        r
    }
}

impl Default for WalkSampler {
    fn default() -> (r: Self)
        ensures
            r.controls() == walks(),
    {
        Self::new()
    }
}

impl Sampler<TurnOptimal> for WalkSampler {
    closed spec fn spec_sample(&self, model: TurnOptimal, current: Actor) -> Vec<Movement> {
        self.movements
    }

    fn sample(&mut self, model: &TurnOptimal, current: &Actor) -> (r: Vec<Movement>) {
        self.movements()
    }
}

/// Proposes the eight walks and the eight teleports from every state.
pub struct TeleportSampler {
    movements: Vec<Movement>,
}

impl TeleportSampler {
    pub closed spec fn controls(&self) -> Seq<Movement> {
        self.movements@
    }

    pub fn new() -> (r: Self)
        ensures
            r.controls() == walks() + teleports(),
            forall|m: TurnOptimal, s: Actor| #[trigger] r.spec_sample(m, s)@ == walks() + teleports(),
    {
        let mut movements: Vec<Movement> = Vec::new();
        push_all(&mut movements, false);
        push_all(&mut movements, true);
        TeleportSampler { movements }
    }

    /// The controls proposed from every state.
    pub fn movements(&self) -> (r: Vec<Movement>)
        ensures
            r@ == self.controls(),
    {
        let mut r: Vec<Movement> = Vec::new();
        let mut i: usize = 0;
        while i < self.movements.len()
            invariant
                i <= self.movements@.len(),
                r@ == self.movements@.take(i as int),
            decreases self.movements@.len() - i,
        {
            r.push(self.movements[i]);
            assert(self.movements@.take(i + 1) =~= self.movements@.take(i as int).push(
                self.movements@[i as int],
            ));
            i += 1;
        }
        assert(self.movements@.take(self.movements@.len() as int) =~= self.movements@);
        r
    }
}

impl Default for TeleportSampler {
    fn default() -> (r: Self)
        ensures
            r.controls() == walks() + teleports(),
    {
        Self::new()
    }
}

impl Sampler<TurnOptimal> for TeleportSampler {
    closed spec fn spec_sample(&self, model: TurnOptimal, current: Actor) -> Vec<Movement> {
        self.movements
    }

    fn sample(&mut self, model: &TurnOptimal, current: &Actor) -> (r: Vec<Movement>) {
        self.movements()
    }
}

/// Estimates of the turns that remain between two positions.
#[derive(Clone, Copy, Debug, PartialEq, Eq, Structural)]
pub enum Heuristic {
    Manhattan,
    Chebyshev,
    DoubleManhattan,
    Diagonal,
}

pub open spec fn abs_diff(a: int, b: int) -> int {
    if a >= b {
        a - b
    } else {
        b - a
    }
}

pub open spec fn min_int(a: int, b: int) -> int {
    if a <= b {
        a
    } else {
        b
    }
}

impl Heuristic {
    /// The estimate between `current` and `goal`, from `dx` and `dy`, the
    /// absolute differences of their coordinates.
    pub open spec fn spec_calculate(self, current: (int, int), goal: (int, int)) -> int {
        let dx = abs_diff(current.0, goal.0);
        let dy = abs_diff(current.1, goal.1);
        match self {
            Heuristic::Manhattan => 2 * (dx + dy),
            Heuristic::DoubleManhattan => 4 * (dx + dy),
            Heuristic::Chebyshev => dx + dy - min_int(dx, dy),
            Heuristic::Diagonal => 2 * (dx + dy) - min_int(dx, dy),
        }
    }

    pub fn calculate(&self, current: (i64, i64), goal: (i64, i64)) -> (r: u64)
        requires
            0 <= current.0 <= u32::MAX,
            0 <= current.1 <= u32::MAX,
            0 <= goal.0 <= u32::MAX,
            0 <= goal.1 <= u32::MAX,
        ensures
            r == self.spec_calculate((current.0 as int, current.1 as int), (goal.0 as int, goal.1 as int)),
    {
        let dx = if current.0 >= goal.0 {
            current.0 - goal.0
        } else {
            goal.0 - current.0
        };
        let dy = if current.1 >= goal.1 {
            current.1 - goal.1
        } else {
            goal.1 - current.1
        };
        let least = if dx <= dy {
            dx
        } else {
            dy
        };
        let estimate = match self {
            Heuristic::Manhattan => 2 * (dx + dy),
            Heuristic::DoubleManhattan => 4 * (dx + dy),
            Heuristic::Chebyshev => (dx + dy) - least,
            Heuristic::Diagonal => 2 * (dx + dy) - least,
        };
        estimate as u64
    }
}

/// Plans moves of an actor on a map, counting turns: a straight walk or any
/// other movement costs 2, a diagonal walk 3. The goal is reached next to the
/// goal's position (within one step in each coordinate).
#[derive(Clone, Debug)]
pub struct TurnOptimal {
    heuristic: Heuristic,
    map: GameMap,
}

impl TurnOptimal {
    pub closed spec fn spec_map(&self) -> GameMap {
        self.map
    }

    pub closed spec fn spec_heuristic_kind(&self) -> Heuristic {
        self.heuristic
    }

    /// A model over `map`, estimating with the Manhattan heuristic.
    pub fn new(map: GameMap) -> (r: Self)
        ensures
            r.spec_map() == map,
            r.spec_heuristic_kind() == Heuristic::Manhattan,
    {
        TurnOptimal { map, heuristic: Heuristic::Manhattan }
    }

    pub fn set_heuristic(&mut self, heuristic: Heuristic)
        ensures
            final(self).spec_heuristic_kind() == heuristic,
            final(self).spec_map() == old(self).spec_map(),
    {
        self.heuristic = heuristic
    }

    pub fn use_chebyshev(&mut self)
        ensures
            final(self).spec_heuristic_kind() == Heuristic::Chebyshev,
            final(self).spec_map() == old(self).spec_map(),
    {
        self.heuristic = Heuristic::Chebyshev
    }

    pub fn use_manhattan(&mut self)
        ensures
            final(self).spec_heuristic_kind() == Heuristic::Manhattan,
            final(self).spec_map() == old(self).spec_map(),
    {
        self.heuristic = Heuristic::Manhattan
    }

    /// Hands the map back to the caller.
    pub fn return_map(self) -> (r: GameMap)
        ensures
            r == self.spec_map(),
    {
        self.map
    }
}

impl Model for TurnOptimal {
    type State = Actor;

    type Control = Movement;

    open spec fn spec_cost(&self, current: Actor, control: Movement, next: Actor) -> u64 {
        match control {
            Movement::Walk(d) => if d.is_diagonal() {
                3
            } else {
                2
            },
            _ => 2,
        }
    }

    open spec fn spec_converge(&self, current: Actor, goal: Actor) -> bool {
        abs_diff(current.pos.x as int, goal.pos.x as int) <= 1 && abs_diff(
            current.pos.y as int,
            goal.pos.y as int,
        ) <= 1
    }

    open spec fn spec_integrate(&self, previous: Actor, control: Movement) -> Option<Actor> {
        let (next, result) = control.spec_apply(self.spec_map(), previous);
        if result is Ok {
            Some(next)
        } else {
            None
        }
    }

    open spec fn spec_no_op() -> Movement {
        Movement::Stay
    }

    open spec fn spec_init(&self, initial: Actor) -> Self {
        *self
    }

    fn cost(&self, current: &Actor, control: &Movement, next: &Actor) -> (r: u64) {
        match control {
            Movement::Walk(Direction::NorthEast)
            | Movement::Walk(Direction::SouthEast)
            | Movement::Walk(Direction::SouthWest)
            | Movement::Walk(Direction::NorthWest) => 3,
            _ => 2,
        }
    }

    /// Nothing to prepare.
    fn init(&mut self, initial: &Actor) {
    }

    fn converge(&self, current: &Actor, goal: &Actor) -> (r: bool) {
        let (x, y) = (current.pos.x as i64, current.pos.y as i64);
        let (gx, gy) = (goal.pos.x as i64, goal.pos.y as i64);
        let dx = if x >= gx {
            x - gx
        } else {
            gx - x
        };
        let dy = if y >= gy {
            y - gy
        } else {
            gy - y
        };
        dx <= 1 && dy <= 1
    }

    fn integrate(&self, previous: &Actor, control: &Movement) -> (r: Option<Actor>) {
        let mut next = *previous;
        match control.apply(&self.map, &mut next) {
            Ok(()) => Some(next),
            Err(_) => None,
        }
    }

    fn no_op() -> (r: Movement) {
        Movement::Stay
    }
}

impl HeuristicModel for TurnOptimal {
    open spec fn spec_heuristic(&self, current: Actor, goal: Actor) -> u64 {
        self.spec_heuristic_kind().spec_calculate(
            (current.pos.x as int, current.pos.y as int),
            (goal.pos.x as int, goal.pos.y as int),
        ) as u64
    }

    /// An estimate of the turns needed to reach the goal's position.
    fn heuristic(&self, current: &Actor, goal: &Actor) -> (r: u64) {
        self.heuristic.calculate(
            (current.pos.x as i64, current.pos.y as i64),
            (goal.pos.x as i64, goal.pos.y as i64),
        )
    }
}

/// What an actor sets out to do.
pub enum Goal {
    GoTo(Position),
    Do(Movement),
    Idle,
}

impl Goal {
    pub fn new() -> (r: Self)
        ensures
            r == Goal::Idle,
    {
        Goal::Idle
    }

    pub fn go_to(goal: Position) -> (r: Self)
        ensures
            r == Goal::GoTo(goal),
    {
        Goal::GoTo(goal)
    }
}

impl Default for Goal {
    fn default() -> (r: Self)
        ensures
            r == Goal::Idle,
    {
        Goal::Idle
    }
}

impl Actor {
    /// The movement for this turn. `Do` hands its movement back, `Idle`
    /// stays. `GoTo` plans with A* (walks only, Manhattan heuristic) to the
    /// goal position on a copy of the map and returns the control of the
    /// trajectory's first step; that step is the actor's own state, whose
    /// control is the no-op, so the actor stays.
    pub fn take_turn(&mut self, goal: Goal, map: &GameMap) -> (r: Movement)
        ensures
            *final(self) == *old(self),
            r == match goal {
                Goal::Do(m) => m,
                _ => Movement::Stay,
            },
    {
        match goal {
            Goal::GoTo(position) => {
                let mut target = *self;
                target.pos = position;
                let mut planner: AStar<TurnOptimal> = AStar::new();
                let mut walker = WalkSampler::new();
                let mut model = TurnOptimal::new(map.clone());
                let me = *self;
                proof {
                    planner.lemma_fresh();
                }
                match planner.optimize(&mut model, &me, &target, &mut walker) {
                    PathResult::Final(t) => {
                        if t.trajectory.len() > 0 {
                            t.trajectory[0].1
                        } else {
                            Movement::Stay
                        }
                    },
                    _ => Movement::Stay,
                }
            },
            Goal::Do(action) => action,
            Goal::Idle => Movement::Stay,
        }
    }
}

} // verus!
