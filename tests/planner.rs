use game_lib::path::astar::AStar;
use game_lib::path::dijkstra::Dijkstra;
use game_lib::path::{
    HeuristicModel, Model, Optimizer, PathFindingErr, PathResult, Sampler, Trajectory,
};
use game_lib::Position;

#[derive(Clone, Copy, Debug, PartialEq, Eq)]
enum Step {
    Stay,
    Up,
    Down,
    Left,
    Right,
}

/// A grid of `width * height` cells where each of the four steps costs 1.
#[derive(Clone, Debug)]
struct Grid {
    width: u32,
    height: u32,
    walls: Vec<(u32, u32)>,
}

impl Grid {
    fn open(width: u32, height: u32) -> Grid {
        Grid { width, height, walls: Vec::new() }
    }

    fn free(&self, x: i64, y: i64) -> bool {
        x >= 0
            && y >= 0
            && x < self.width as i64
            && y < self.height as i64
            && !self.walls.contains(&(x as u32, y as u32))
    }

    /// Shortest number of steps from `start` to `goal` by breadth-first search.
    fn bfs(&self, start: (u32, u32), goal: (u32, u32)) -> Option<u64> {
        let mut dist = vec![u64::MAX; (self.width * self.height) as usize];
        let idx = |x: u32, y: u32| (y * self.width + x) as usize;
        let mut queue = std::collections::VecDeque::new();
        dist[idx(start.0, start.1)] = 0;
        queue.push_back(start);
        while let Some((x, y)) = queue.pop_front() {
            if (x, y) == goal {
                return Some(dist[idx(x, y)]);
            }
            for (dx, dy) in [(0i64, 1i64), (0, -1), (-1, 0), (1, 0)] {
                let (nx, ny) = (x as i64 + dx, y as i64 + dy);
                if self.free(nx, ny) && dist[idx(nx as u32, ny as u32)] == u64::MAX {
                    dist[idx(nx as u32, ny as u32)] = dist[idx(x, y)] + 1;
                    queue.push_back((nx as u32, ny as u32));
                }
            }
        }
        None
    }
}

impl Model for Grid {
    type State = Position;
    type Control = Step;

    fn spec_cost(&self, current: Position, control: Step, next: Position) -> u64 {
        self.cost(&current, &control, &next)
    }

    fn spec_converge(&self, current: Position, goal: Position) -> bool {
        self.converge(&current, &goal)
    }

    fn spec_integrate(&self, previous: Position, control: Step) -> Option<Position> {
        self.integrate(&previous, &control)
    }

    fn spec_no_op() -> Step {
        Self::no_op()
    }

    fn spec_init(&self, _initial: Position) -> Self {
        self.clone()
    }

    fn cost(&self, _current: &Position, _control: &Step, _next: &Position) -> u64 {
        1
    }

    fn init(&mut self, _initial: &Position) {}

    fn converge(&self, current: &Position, goal: &Position) -> bool {
        current == goal
    }

    fn integrate(&self, previous: &Position, control: &Step) -> Option<Position> {
        let (x, y) = (previous.x as i64, previous.y as i64);
        let (nx, ny) = match control {
            Step::Stay => (x, y),
            Step::Up => (x, y + 1),
            Step::Down => (x, y - 1),
            Step::Left => (x - 1, y),
            Step::Right => (x + 1, y),
        };
        if self.free(nx, ny) {
            Some(Position::new(nx as u32, ny as u32))
        } else {
            None
        }
    }

    fn no_op() -> Step {
        Step::Stay
    }
}

impl HeuristicModel for Grid {
    fn spec_heuristic(&self, current: Position, goal: Position) -> u64 {
        self.heuristic(&current, &goal)
    }

    fn heuristic(&self, current: &Position, goal: &Position) -> u64 {
        (current.x as i64 - goal.x as i64).unsigned_abs()
            + (current.y as i64 - goal.y as i64).unsigned_abs()
    }
}

struct FourWay;

impl Sampler<Grid> for FourWay {
    fn spec_sample(&self, _model: Grid, _current: Position) -> Vec<Step> {
        vec![Step::Up, Step::Right, Step::Down, Step::Left]
    }

    fn sample(&mut self, _model: &Grid, _current: &Position) -> Vec<Step> {
        vec![Step::Up, Step::Right, Step::Down, Step::Left]
    }
}

fn final_trajectory(result: PathResult<Grid>) -> Trajectory<Grid> {
    match result {
        PathResult::Final(t) => t,
        PathResult::Intermediate(_) => panic!("expected a final trajectory, got an intermediate one"),
        PathResult::Error(e) => panic!("expected a final trajectory, got {:?}", e),
    }
}

fn astar_cost(grid: &Grid, start: (u32, u32), goal: (u32, u32)) -> Option<u64> {
    let mut planner: AStar<Grid> = AStar::new();
    let mut model = grid.clone();
    let start = Position::new(start.0, start.1);
    let goal = Position::new(goal.0, goal.1);
    match planner.optimize(&mut model, &start, &goal, &mut FourWay) {
        PathResult::Final(t) => Some(t.cost),
        PathResult::Error(PathFindingErr::Unreachable) => None,
        _ => panic!("unexpected result"),
    }
}

fn dijkstra_cost(grid: &Grid, start: (u32, u32), goal: (u32, u32)) -> Option<u64> {
    let mut planner: Dijkstra<Grid> = Dijkstra::new();
    let mut model = grid.clone();
    let start = Position::new(start.0, start.1);
    let goal = Position::new(goal.0, goal.1);
    match planner.optimize(&mut model, &start, &goal, &mut FourWay) {
        PathResult::Final(t) => Some(t.cost),
        PathResult::Error(PathFindingErr::Unreachable) => None,
        _ => panic!("unexpected result"),
    }
}

fn assert_valid_path(grid: &Grid, t: &Trajectory<Grid>, start: Position, goal: Position) {
    assert_eq!(t.trajectory.first().map(|s| s.0), Some(start));
    assert_eq!(t.trajectory.first().map(|s| s.1), Some(Step::Stay));
    assert_eq!(t.trajectory.last().map(|s| s.0), Some(goal));
    for pair in t.trajectory.windows(2) {
        assert_eq!(grid.integrate(&pair[0].0, &pair[1].1), Some(pair[1].0));
    }
    assert_eq!(t.cost as usize, t.trajectory.len() - 1);
}

/// Walls that spell out a small maze on a 6 x 6 grid.
fn maze() -> Grid {
    let mut grid = Grid::open(6, 6);
    grid.walls = vec![(1, 0), (1, 1), (1, 2), (1, 3), (3, 5), (3, 4), (3, 3), (3, 2), (4, 1), (5, 3)];
    grid
}

#[test]
fn astar_open_grid_goes_corner_to_corner() {
    let grid = Grid::open(5, 5);
    let mut model = grid.clone();
    let mut planner: AStar<Grid> = AStar::new();
    let (start, goal) = (Position::new(0, 0), Position::new(4, 4));
    let t = final_trajectory(planner.optimize(&mut model, &start, &goal, &mut FourWay));
    assert_eq!(t.cost, 8);
    assert_eq!(t.trajectory.len(), 9);
    assert_valid_path(&grid, &t, start, goal);
}

#[test]
fn astar_detours_around_a_wall() {
    let mut grid = Grid::open(5, 5);
    grid.walls = vec![(2, 0), (2, 1), (2, 2), (2, 3)];
    let mut model = grid.clone();
    let mut planner: AStar<Grid> = AStar::new();
    let (start, goal) = (Position::new(0, 0), Position::new(4, 0));
    let t = final_trajectory(planner.optimize(&mut model, &start, &goal, &mut FourWay));
    assert_eq!(t.cost, 12);
    assert_eq!(t.trajectory.len(), 13);
    assert_valid_path(&grid, &t, start, goal);
    assert!(t.trajectory.iter().any(|s| s.0 == Position::new(2, 4)));
}

#[test]
fn dijkstra_open_grid_goes_corner_to_corner() {
    let grid = Grid::open(5, 5);
    let mut model = grid.clone();
    let mut planner: Dijkstra<Grid> = Dijkstra::new();
    let (start, goal) = (Position::new(0, 0), Position::new(4, 4));
    let t = final_trajectory(planner.optimize(&mut model, &start, &goal, &mut FourWay));
    assert_eq!(t.cost, 8);
    assert_eq!(t.trajectory.len(), 9);
    assert_valid_path(&grid, &t, start, goal);
}

#[test]
fn dijkstra_detours_around_a_wall() {
    let mut grid = Grid::open(5, 5);
    grid.walls = vec![(2, 0), (2, 1), (2, 2), (2, 3)];
    assert_eq!(dijkstra_cost(&grid, (0, 0), (4, 0)), Some(12));
}

#[test]
fn astar_matches_breadth_first_search() {
    let grid = maze();
    for start in [(0, 0), (0, 5), (2, 2), (5, 0)] {
        for goal in [(5, 5), (4, 0), (2, 5), (0, 4), (5, 2)] {
            assert_eq!(astar_cost(&grid, start, goal), grid.bfs(start, goal), "{:?} -> {:?}", start, goal);
        }
    }
}

#[test]
fn dijkstra_matches_breadth_first_search() {
    let grid = maze();
    for start in [(0, 0), (0, 5), (2, 2), (5, 0)] {
        for goal in [(5, 5), (4, 0), (2, 5), (0, 4), (5, 2)] {
            assert_eq!(dijkstra_cost(&grid, start, goal), grid.bfs(start, goal), "{:?} -> {:?}", start, goal);
        }
    }
}

#[test]
fn start_at_goal_is_a_single_step() {
    let grid = Grid::open(3, 3);
    let p = Position::new(1, 1);
    let mut a: AStar<Grid> = AStar::new();
    let t = final_trajectory(a.optimize(&mut grid.clone(), &p, &p, &mut FourWay));
    assert_eq!(t.cost, 0);
    assert_eq!(t.trajectory, vec![(p, Step::Stay)]);
    assert!(a.inspect_queue().is_empty());
    assert!(a.inspect_discovered().is_empty());

    let mut d: Dijkstra<Grid> = Dijkstra::new();
    let t = final_trajectory(d.optimize(&mut grid.clone(), &p, &p, &mut FourWay));
    assert_eq!(t.cost, 0);
    assert_eq!(t.trajectory, vec![(p, Step::Stay)]);
}

#[test]
fn walled_in_start_is_unreachable() {
    let mut grid = Grid::open(3, 3);
    grid.walls = vec![(0, 0), (1, 0), (2, 0), (0, 1), (2, 1), (0, 2), (1, 2), (2, 2)];
    let (start, goal) = (Position::new(1, 1), Position::new(2, 2));
    let mut a: AStar<Grid> = AStar::new();
    assert!(matches!(
        a.optimize(&mut grid.clone(), &start, &goal, &mut FourWay),
        PathResult::Error(PathFindingErr::Unreachable)
    ));
    let mut d: Dijkstra<Grid> = Dijkstra::new();
    assert!(matches!(
        d.optimize(&mut grid.clone(), &start, &goal, &mut FourWay),
        PathResult::Error(PathFindingErr::Unreachable)
    ));
}

#[test]
fn stepping_reaches_the_same_cost_as_optimize() {
    let grid = maze();
    let (start, goal) = (Position::new(0, 0), Position::new(5, 5));
    let expected = astar_cost(&grid, (0, 0), (5, 5)).unwrap();

    let mut model = grid.clone();
    let mut a: AStar<Grid> = AStar::new();
    let mut steps = 0;
    let t = loop {
        steps += 1;
        assert!(steps < 1000);
        match a.next_trajectory(&mut model, &start, &goal, &mut FourWay) {
            PathResult::Final(t) => break t,
            PathResult::Intermediate(t) => {
                assert_eq!(t.trajectory[0], (start, Step::Stay));
                assert_eq!(t.cost as usize, t.trajectory.len() - 1);
            }
            PathResult::Error(e) => panic!("{:?}", e),
        }
    };
    assert_eq!(t.cost, expected);
    assert_valid_path(&grid, &t, start, goal);

    let mut d: Dijkstra<Grid> = Dijkstra::new();
    let t = loop {
        match d.next_trajectory(&mut model, &start, &goal, &mut FourWay) {
            PathResult::Final(t) => break t,
            PathResult::Intermediate(_) => {}
            PathResult::Error(e) => panic!("{:?}", e),
        }
    };
    assert_eq!(t.cost, expected);
}

#[test]
fn first_step_returns_the_start() {
    let grid = Grid::open(5, 5);
    let (start, goal) = (Position::new(2, 2), Position::new(4, 4));
    let mut a: AStar<Grid> = AStar::new();
    match a.next_trajectory(&mut grid.clone(), &start, &goal, &mut FourWay) {
        PathResult::Intermediate(t) => {
            assert_eq!(t.cost, 0);
            assert_eq!(t.trajectory, vec![(start, Step::Stay)]);
        }
        _ => panic!("expected an intermediate trajectory"),
    }
    // The four neighbours are now discovered and waiting.
    assert_eq!(a.inspect_queue().len(), 4);
    let mut seen = a.inspect_discovered();
    seen.sort();
    let mut expected: Vec<u64> =
        [(2, 3), (3, 2), (2, 1), (1, 2)].iter().map(|&(x, y)| Position::new(x, y).grid_key()).collect();
    expected.sort();
    assert_eq!(seen, expected);
}

#[test]
fn exhausted_frontier_reports_unreachable() {
    let mut grid = Grid::open(2, 1);
    grid.walls = vec![];
    let (start, goal) = (Position::new(0, 0), Position::new(5, 5));
    let mut a: AStar<Grid> = AStar::new();
    let mut model = grid.clone();
    let mut last = None;
    for _ in 0..10 {
        match a.next_trajectory(&mut model, &start, &goal, &mut FourWay) {
            PathResult::Error(e) => {
                last = Some(e);
                break;
            }
            PathResult::Final(_) => panic!("the goal is off the grid"),
            PathResult::Intermediate(_) => {}
        }
    }
    assert_eq!(last, Some(PathFindingErr::Unreachable));
    assert!(a.inspect_queue().is_empty());
    // An exhausted search stays exhausted until it is cleared.
    let discovered = a.inspect_discovered().len();
    assert!(matches!(
        a.next_trajectory(&mut model, &start, &goal, &mut FourWay),
        PathResult::Error(PathFindingErr::Unreachable)
    ));
    assert_eq!(a.inspect_discovered().len(), discovered);
    a.clear();
    assert!(matches!(
        a.next_trajectory(&mut model, &start, &goal, &mut FourWay),
        PathResult::Intermediate(_)
    ));
}

#[test]
fn discovered_positions_are_listed_once() {
    let grid = maze();
    let mut a: AStar<Grid> = AStar::new();
    let (start, goal) = (Position::new(0, 0), Position::new(5, 5));
    final_trajectory(a.optimize(&mut grid.clone(), &start, &goal, &mut FourWay));
    let mut seen = a.inspect_discovered();
    let n = seen.len();
    seen.sort();
    seen.dedup();
    assert_eq!(seen.len(), n);
    assert!(n > 0);
    for key in seen {
        let p = Position::from_grid_key(key);
        assert!(grid.free(p.x as i64, p.y as i64));
    }
}

#[test]
fn clear_resets_the_engine() {
    let grid = maze();
    let (start, goal) = (Position::new(0, 0), Position::new(5, 5));
    let mut a: AStar<Grid> = AStar::new();
    let first = final_trajectory(a.optimize(&mut grid.clone(), &start, &goal, &mut FourWay));
    assert!(!a.inspect_discovered().is_empty());
    a.clear();
    assert!(a.inspect_queue().is_empty());
    assert!(a.inspect_discovered().is_empty());
    let again = final_trajectory(a.optimize(&mut grid.clone(), &start, &goal, &mut FourWay));
    let mut fresh: AStar<Grid> = AStar::new();
    let new = final_trajectory(fresh.optimize(&mut grid.clone(), &start, &goal, &mut FourWay));
    assert_eq!(again.cost, first.cost);
    assert_eq!(again.trajectory, new.trajectory);
    assert_eq!(a.inspect_discovered().len(), fresh.inspect_discovered().len());

    let mut d: Dijkstra<Grid> = Dijkstra::new();
    final_trajectory(d.optimize(&mut grid.clone(), &start, &goal, &mut FourWay));
    d.clear();
    assert!(d.inspect_queue().is_empty());
    assert!(d.inspect_discovered().is_empty());
}

#[test]
fn default_trajectory_is_empty() {
    let t: Trajectory<Grid> = Trajectory::default();
    assert_eq!(t.cost, 0);
    assert!(t.trajectory.is_empty());
}

/// A small weighted graph: `0 -> 2` costs 5, `0 -> 1` costs 1, `1 -> 2` costs 1.
#[derive(Clone, Copy, Debug)]
struct Detour;

#[derive(Clone, Copy, Debug, PartialEq, Eq)]
struct Node(u32);

impl game_lib::path::State for Node {
    fn spec_grid_position(&self) -> u64 {
        self.0 as u64
    }

    fn grid_position(&self) -> u64 {
        self.0 as u64
    }
}

impl Model for Detour {
    type State = Node;
    type Control = u32;

    fn spec_cost(&self, current: Node, control: u32, next: Node) -> u64 {
        self.cost(&current, &control, &next)
    }

    fn spec_converge(&self, current: Node, goal: Node) -> bool {
        self.converge(&current, &goal)
    }

    fn spec_integrate(&self, previous: Node, control: u32) -> Option<Node> {
        self.integrate(&previous, &control)
    }

    fn spec_no_op() -> u32 {
        Self::no_op()
    }

    fn spec_init(&self, _initial: Node) -> Self {
        *self
    }

    fn cost(&self, current: &Node, _control: &u32, next: &Node) -> u64 {
        match (current.0, next.0) {
            (0, 2) => 5,
            _ => 1,
        }
    }

    fn init(&mut self, _initial: &Node) {}

    fn converge(&self, current: &Node, goal: &Node) -> bool {
        current == goal
    }

    fn integrate(&self, previous: &Node, control: &u32) -> Option<Node> {
        match (previous.0, *control) {
            (0, 2) | (0, 1) | (1, 2) => Some(Node(*control)),
            _ => None,
        }
    }

    fn no_op() -> u32 {
        0
    }
}

impl HeuristicModel for Detour {
    fn spec_heuristic(&self, current: Node, goal: Node) -> u64 {
        self.heuristic(&current, &goal)
    }

    fn heuristic(&self, _current: &Node, _goal: &Node) -> u64 {
        0
    }
}

struct Targets;

impl Sampler<Detour> for Targets {
    fn spec_sample(&self, _model: Detour, _current: Node) -> Vec<u32> {
        vec![2, 1]
    }

    fn sample(&mut self, _model: &Detour, _current: &Node) -> Vec<u32> {
        vec![2, 1]
    }
}

#[test]
fn cheaper_rediscovery_replaces_the_first() {
    let mut d: Dijkstra<Detour> = Dijkstra::new();
    let t = match d.optimize(&mut Detour, &Node(0), &Node(2), &mut Targets) {
        PathResult::Final(t) => t,
        _ => panic!("expected a path"),
    };
    assert_eq!(t.cost, 2);
    assert_eq!(t.trajectory, vec![(Node(0), 0), (Node(1), 1), (Node(2), 2)]);

    let mut a: AStar<Detour> = AStar::new();
    let t = match a.optimize(&mut Detour, &Node(0), &Node(2), &mut Targets) {
        PathResult::Final(t) => t,
        _ => panic!("expected a path"),
    };
    assert_eq!(t.cost, 2);
    assert_eq!(t.trajectory.len(), 3);
    let mut seen = a.inspect_discovered();
    seen.sort();
    assert_eq!(seen, vec![1, 2]);
}

#[test]
fn rediscovery_queues_a_second_copy() {
    // After the start expands, position 2 is known at cost 5 and position 1
    // at cost 1; expanding 1 rediscovers 2 at cost 2, which replaces it.
    let mut a: AStar<Detour> = AStar::new();
    let mut model = Detour;
    let (start, goal) = (Node(0), Node(2));
    assert!(matches!(a.next_trajectory(&mut model, &start, &goal, &mut Targets), PathResult::Intermediate(_)));
    assert_eq!(a.inspect_queue().len(), 2);
    assert!(matches!(a.next_trajectory(&mut model, &start, &goal, &mut Targets), PathResult::Intermediate(_)));
    // The cheaper copy of position 2 joined the frontier beside the stale one.
    assert_eq!(a.inspect_queue().len(), 2);
    match a.next_trajectory(&mut model, &start, &goal, &mut Targets) {
        PathResult::Final(t) => assert_eq!(t.cost, 2),
        _ => panic!("expected the goal"),
    }
}

fn plan_with<O: Optimizer<Grid, FourWay>>(optimizer: &mut O, grid: &Grid) -> Option<u64> {
    let (start, goal) = (Position::new(0, 0), Position::new(5, 5));
    match Optimizer::optimize(optimizer, &mut grid.clone(), &start, &goal, &mut FourWay) {
        PathResult::Final(t) => Some(t.cost),
        _ => None,
    }
}

#[test]
fn optimizer_trait_drives_both_engines() {
    let grid = maze();
    let expected = grid.bfs((0, 0), (5, 5));
    assert!(expected.is_some());
    assert_eq!(plan_with(&mut AStar::<Grid>::new(), &grid), expected);
    assert_eq!(plan_with(&mut Dijkstra::<Grid>::new(), &grid), expected);
}

#[test]
fn boxed_in_start_stays_unreachable_when_stepping() {
    let mut grid = Grid::open(3, 3);
    grid.walls = vec![(0, 0), (1, 0), (2, 0), (0, 1), (2, 1), (0, 2), (1, 2), (2, 2)];
    let (start, goal) = (Position::new(1, 1), Position::new(2, 2));
    let mut a: AStar<Grid> = AStar::new();
    let mut model = grid.clone();
    assert!(matches!(a.next_trajectory(&mut model, &start, &goal, &mut FourWay), PathResult::Intermediate(_)));
    for _ in 0..3 {
        assert!(matches!(
            a.next_trajectory(&mut model, &start, &goal, &mut FourWay),
            PathResult::Error(PathFindingErr::Unreachable)
        ));
    }
}
