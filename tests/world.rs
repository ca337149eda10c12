use game_lib::actor::{
    Action, Actor, Direction, Goal, Heuristic, MoveError, Movement, TeleportSampler, TurnOptimal,
    WalkSampler,
};
use game_lib::map::{GameMap, Tile};
use game_lib::path::astar::AStar;
use game_lib::path::dijkstra::Dijkstra;
use game_lib::path::{Model, PathResult, State};
use game_lib::{Position, Rect};

/// A `width x height` map with floor everywhere inside a border of walls.
fn room(width: u32, height: u32) -> GameMap {
    let mut map = GameMap::new(width, height);
    for y in 1..height - 1 {
        for x in 1..width - 1 {
            assert!(map.set(x, y, Tile::floor()));
        }
    }
    map
}

#[test]
fn position_keys_round_trip() {
    let p = Position::new(3, 5);
    assert_eq!(p.grid_key(), 3 * 4294967296 + 5);
    assert_eq!(Position::from_grid_key(p.grid_key()), p);
    assert_eq!(p.grid_position(), p.grid_key());
    assert_ne!(Position::new(5, 3).grid_key(), p.grid_key());
    assert_eq!(Position::zero(), Position::new(0, 0));
    let far = Position::new(u32::MAX, u32::MAX);
    assert_eq!(Position::from_grid_key(far.grid_key()), far);
}

#[test]
fn rect_transform_moves_inner_positions() {
    let rect = Rect::new(Position::new(10, 10), 10, 10);
    assert_eq!(rect.transform(&Position::new(0, 0)), Some(rect.pos));
    assert_eq!(rect.transform(&Position::new(3, 4)), Some(Position::new(13, 14)));
    let zero = Rect::origin(10, 10);
    assert_eq!(zero.transform(&Position::new(1, 1)), Some(Position::new(1, 1)));
    assert_eq!(zero.transform(&Position::new(10, 10)), Some(Position::new(10, 10)));
    assert_eq!(zero.transform(&Position::new(11, 11)), None);
    assert_eq!(zero.transform(&Position::new(11, 0)), None);
}

#[test]
fn new_map_is_all_walls() {
    let map = GameMap::new(4, 3);
    assert_eq!(map.dimensions(), (4, 3));
    for y in 0..3 {
        for x in 0..4 {
            let t = map.get(x, y).unwrap();
            assert!(t.is_wall() && t.is_blocking() && !t.is_explored());
        }
    }
    assert!(map.get(0, 3).is_none());
    assert!(map.get(4, 2).is_none());
    // Positions past the width are off the map.
    assert!(map.get(4, 0).is_none());
    assert!(map.get(3, 2).is_some());
    assert!(map.pos(&Position::new(3, 2)).is_some());
}

#[test]
fn set_replaces_one_tile() {
    let mut map = GameMap::new(4, 3);
    assert!(map.set(1, 1, Tile::floor()));
    assert!(!map.get(1, 1).unwrap().is_blocking());
    assert!(map.get(2, 1).unwrap().is_blocking());
    assert!(!map.set(0, 3, Tile::floor()));
    assert!(map.set(2, 2, Tile::block()));
    let b = map.get(2, 2).unwrap();
    assert!(b.is_blocking() && !b.is_wall());
}

#[test]
fn count_adjacent_counts_the_window() {
    let map = GameMap::new(5, 5);
    assert_eq!(map.count_adjacent(2, 2, 1, Tile::is_wall), 9);
    assert_eq!(map.count_adjacent(0, 0, 1, Tile::is_wall), 4);
    assert_eq!(map.count_adjacent(2, 2, 2, Tile::is_wall), 25);
    // The window stops at the map's edges.
    assert_eq!(map.count_adjacent(4, 4, 1, Tile::is_wall), 4);
    assert_eq!(map.count_adjacent(4, 2, 1, Tile::is_wall), 6);
    let open = room(5, 5);
    assert_eq!(open.count_adjacent(2, 2, 1, Tile::is_wall), 0);
    assert_eq!(open.count_adjacent(1, 1, 1, Tile::is_wall), 5);
    assert_eq!(open.count_adjacent(1, 1, 1, |t: &Tile| !t.is_wall()), 4);
}

#[test]
fn fold_adjacent_visits_rows_in_order() {
    let mut map = GameMap::new(3, 3);
    map.set(1, 0, Tile::floor());
    map.set(0, 1, Tile::floor());
    let walls = map.fold_adjacent(1, 1, 1, Vec::new(), |t: &Tile, mut acc: Vec<bool>| {
        acc.push(t.is_wall());
        acc
    });
    assert_eq!(walls, vec![true, false, true, false, true, true, true, true, true]);
    let total = map.fold_adjacent(0, 0, 1, 0usize, |_t: &Tile, n: usize| n + 1);
    assert_eq!(total, 4);
}

#[test]
fn directions_step_one_cell() {
    assert_eq!(Direction::North.step_from(3, 3), (3, 4));
    assert_eq!(Direction::NorthEast.step_from(3, 3), (4, 4));
    assert_eq!(Direction::East.step_from(3, 3), (4, 3));
    assert_eq!(Direction::SouthEast.step_from(3, 3), (4, 2));
    assert_eq!(Direction::South.step_from(3, 3), (3, 2));
    assert_eq!(Direction::SouthWest.step_from(3, 3), (2, 2));
    assert_eq!(Direction::West.step_from(3, 3), (2, 3));
    assert_eq!(Direction::NorthWest.step_from(3, 3), (2, 4));
    assert_eq!(Direction::West.checked_step_from(0, 5), None);
    assert_eq!(Direction::North.checked_step_from(0, u32::MAX), None);
    assert_eq!(Direction::NorthEast.checked_step_from(0, 0), Some((1, 1)));
    assert_eq!(Direction::default(), Direction::North);
    assert_eq!(Movement::default(), Movement::Stay);
}

#[test]
fn walking_moves_onto_open_tiles() {
    let map = room(5, 5);
    let mut actor = Actor::new(2, 2, 0, 10);
    assert_eq!(Movement::Walk(Direction::North).apply(&map, &mut actor), Ok(()));
    assert_eq!(actor.pos, Position::new(2, 3));
    assert_eq!(actor.mana, 1);
    assert_eq!(
        Movement::Walk(Direction::North).execute(&map, &mut actor),
        Err(MoveError::Blocked(2, 4))
    );
    assert_eq!(actor.pos, Position::new(2, 3));
    assert_eq!(actor.mana, 2);
    assert_eq!(Movement::Stay.apply(&map, &mut actor), Ok(()));
    assert_eq!(actor.pos, Position::new(2, 3));
    assert_eq!(actor.mana, 3);

    let mut edge = Actor::new(0, 0, 10, 10);
    assert_eq!(
        Movement::Walk(Direction::West).apply(&map, &mut edge),
        Err(MoveError::OffMap(-1, 0))
    );
    assert_eq!(edge.mana, 10);
    let mut open = GameMap::new(5, 5);
    for y in 0..5 {
        for x in 0..5 {
            open.set(x, y, Tile::floor());
        }
    }
    let mut east = Actor::new(4, 2, 0, 0);
    assert_eq!(Movement::Walk(Direction::East).apply(&open, &mut east), Err(MoveError::OffMap(5, 2)));
    assert_eq!(east.pos, Position::new(4, 2));
    let mut top = Actor::new(2, 4, 0, 0);
    assert_eq!(
        Movement::Walk(Direction::North).apply(&map, &mut top),
        Err(MoveError::OffMap(2, 5))
    );
}

#[test]
fn teleporting_costs_mana() {
    let mut map = GameMap::new(15, 3);
    for x in 0..15 {
        map.set(x, 1, Tile::floor());
    }
    let mut actor = Actor::new(0, 1, 10, 10);
    assert_eq!(Movement::Teleport(Direction::East).apply(&map, &mut actor), Ok(()));
    assert_eq!(actor.pos, Position::new(10, 1));
    assert_eq!(actor.mana, 5);

    let mut tired = Actor::new(0, 1, 3, 10);
    assert_eq!(
        Movement::Teleport(Direction::East).apply(&map, &mut tired),
        Err(MoveError::NoMana)
    );
    assert_eq!(tired.pos, Position::new(10, 1));
    assert_eq!(tired.mana, 4);

    let mut blocked = Actor::new(0, 1, 10, 10);
    assert_eq!(
        Movement::Teleport(Direction::North).apply(&map, &mut blocked),
        Err(MoveError::Blocked(0, 2))
    );
    assert_eq!(blocked.pos, Position::new(0, 1));

    // Steps that leave the map are skipped.
    let mut lower = Actor::new(3, 1, 10, 10);
    let open = {
        let mut m = GameMap::new(15, 3);
        for y in 0..3 {
            for x in 0..15 {
                m.set(x, y, Tile::floor());
            }
        }
        m
    };
    assert_eq!(Movement::Teleport(Direction::SouthEast).apply(&open, &mut lower), Ok(()));
    assert_eq!(lower.pos, Position::new(4, 0));
}

#[test]
fn heuristics_estimate_turns() {
    let (c, g) = ((0, 0), (3, 4));
    assert_eq!(Heuristic::Manhattan.calculate(c, g), 14);
    assert_eq!(Heuristic::DoubleManhattan.calculate(c, g), 28);
    assert_eq!(Heuristic::Chebyshev.calculate(c, g), 4);
    assert_eq!(Heuristic::Diagonal.calculate(c, g), 11);
    assert_eq!(Heuristic::Diagonal.calculate(g, c), 11);
    assert_eq!(Heuristic::Manhattan.calculate(g, g), 0);
}

#[test]
fn turn_model_costs_and_convergence() {
    let model = TurnOptimal::new(room(7, 7));
    let a = Actor::new(2, 2, 0, 0);
    assert!(model.converge(&a, &Actor::new(3, 3, 0, 0)));
    assert!(model.converge(&a, &a));
    assert!(!model.converge(&a, &Actor::new(4, 2, 0, 0)));
    assert_eq!(model.cost(&a, &Movement::Walk(Direction::NorthEast), &a), 3);
    assert_eq!(model.cost(&a, &Movement::Walk(Direction::North), &a), 2);
    assert_eq!(model.cost(&a, &Movement::Teleport(Direction::NorthEast), &a), 2);
    assert_eq!(
        model.integrate(&a, &Movement::Walk(Direction::West)).map(|n| n.pos),
        Some(Position::new(1, 2))
    );
    assert_eq!(model.integrate(&Actor::new(1, 1, 0, 0), &Movement::Walk(Direction::West)), None);
    assert_eq!(TurnOptimal::no_op(), Movement::Stay);
    assert_eq!(a.grid_position(), Position::new(2, 2).grid_key());
    let map = model.return_map();
    assert_eq!(map.dimensions(), (7, 7));
}

#[test]
fn samplers_propose_fixed_movements() {
    let walk = WalkSampler::new().movements();
    assert_eq!(walk.len(), 8);
    assert_eq!(walk[0], Movement::Walk(Direction::North));
    assert_eq!(walk[7], Movement::Walk(Direction::NorthWest));
    let tele = TeleportSampler::default().movements();
    assert_eq!(tele.len(), 16);
    assert_eq!(tele[8], Movement::Teleport(Direction::North));
    assert_eq!(&tele[..8], &walk[..]);
}

#[test]
fn planners_walk_diagonally_across_a_room() {
    let start = Actor::new(1, 1, 0, 0);
    let goal = Actor::new(5, 5, 0, 0);

    let mut model = TurnOptimal::new(room(7, 7));
    let mut dijkstra: Dijkstra<TurnOptimal> = Dijkstra::default();
    match dijkstra.optimize(&mut model, &start, &goal, &mut WalkSampler::new()) {
        PathResult::Final(t) => {
            assert_eq!(t.cost, 9);
            assert_eq!(t.trajectory.len(), 4);
            assert_eq!(t.trajectory[3].0.pos, Position::new(4, 4));
        }
        _ => panic!("expected a path"),
    }

    model.use_chebyshev();
    let mut astar: AStar<TurnOptimal> = AStar::default();
    match astar.optimize(&mut model, &start, &goal, &mut WalkSampler::new()) {
        PathResult::Final(t) => assert_eq!(t.cost, 9),
        _ => panic!("expected a path"),
    }
    model.use_manhattan();
    model.set_heuristic(Heuristic::Diagonal);
}

#[test]
fn turns_follow_the_goal() {
    let map = room(7, 7);
    let mut actor = Actor::new(1, 1, 0, 0);
    assert_eq!(actor.take_turn(Goal::new(), &map), Movement::Stay);
    assert_eq!(actor.take_turn(Goal::default(), &map), Movement::Stay);
    assert_eq!(
        actor.take_turn(Goal::Do(Movement::Walk(Direction::East)), &map),
        Movement::Walk(Direction::East)
    );
    assert_eq!(actor.take_turn(Goal::go_to(Position::new(5, 5)), &map), Movement::Stay);
    assert_eq!(actor, Actor::new(1, 1, 0, 0));
}

#[test]
fn flood_select_follows_diagonals() {
    let mut map = GameMap::new(6, 4);
    for (x, y) in [(1, 1), (2, 1), (3, 2), (5, 3)] {
        map.set(x, y, Tile::floor());
    }
    let open = |t: &Tile| !t.is_wall();
    let mut keys: Vec<u64> = map.flood_select(1, 1, open).into_iter().collect();
    keys.sort();
    let mut expected: Vec<u64> =
        [(1, 1), (2, 1), (3, 2)].iter().map(|&(x, y)| Position::new(x, y).grid_key()).collect();
    expected.sort();
    assert_eq!(keys, expected);
    // Starting on a tile that the predicate rejects selects nothing.
    assert!(map.flood_select(0, 0, open).is_empty());
    assert!(map.flood_select(1, 1, Tile::is_wall).len() == 0);
    // A start off the map still looks at its neighbours.
    assert!(map.flood_select(10, 10, open).is_empty());
    let lone: Vec<u64> = map.flood_select(5, 3, open).into_iter().collect();
    assert_eq!(lone, vec![Position::new(5, 3).grid_key()]);
}

#[test]
fn area_walk_reports_tiles_row_by_row() {
    let mut map = GameMap::new(4, 4);
    map.set(2, 2, Tile::floor());
    let mut area = map.iter_rect(Rect::new(Position::new(1, 1), 2, 2));
    let mut seen = Vec::new();
    while let Some((pos, tile)) = area.next() {
        seen.push((pos, tile.is_wall()));
    }
    assert_eq!(
        seen,
        vec![
            (Position::new(0, 0), true),
            (Position::new(1, 0), true),
            (Position::new(2, 0), true),
            (Position::new(0, 1), true),
            (Position::new(1, 1), false),
            (Position::new(2, 1), true),
        ]
    );
    assert!(area.next().is_none());

    // The walk stops at the first position that falls off the map.
    let mut edge = map.iter_rect(Rect::new(Position::new(3, 3), 3, 1));
    assert_eq!(edge.next().map(|(p, _)| p), Some(Position::new(0, 0)));
    assert!(edge.next().is_none());
}

#[test]
fn map_adjacent_visits_the_window() {
    let map = GameMap::new(5, 5);
    let mut walls = 0;
    map.map_adjacent(2, 2, 1, |t: &Tile| {
        if t.is_wall() {
            walls += 1;
        }
    });
    assert_eq!(walls, 9);
    let mut seen = 0;
    map.map_adjacent(4, 4, 1, |_t: &Tile| seen += 1);
    assert_eq!(seen, 4);
}

#[test]
fn flood_replace_fills_the_selected_region() {
    let mut map = GameMap::new(6, 4);
    for (x, y) in [(1, 1), (2, 1), (3, 2), (5, 3)] {
        map.set(x, y, Tile::floor());
    }
    let open = |t: &Tile| !t.is_wall();
    assert_eq!(
        map.flood_replace(1, 1, Tile::is_wall, Tile::wall()),
        Err(game_lib::map::MapError::InfiniteLoop)
    );
    assert_eq!(map.flood_replace(1, 1, open, Tile::wall()), Ok(3));
    for (x, y) in [(1, 1), (2, 1), (3, 2)] {
        assert!(map.get(x, y).unwrap().is_wall());
    }
    // The far cell is not connected and keeps its floor.
    assert!(!map.get(5, 3).unwrap().is_blocking());
    // A rejected start replaces nothing.
    let before = map.clone();
    assert_eq!(map.flood_replace(0, 0, open, Tile::wall()), Ok(0));
    assert_eq!(map, before);
}
