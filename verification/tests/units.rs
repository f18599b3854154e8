use siphasher::sip::SipHasher24;
use sokoban_solver::actions::Actions;
use sokoban_solver::level::{
    intersects, Level, LevelError, CRATE, DEADLOCK, FLOOR, PLAYER, TARGET, TUNNEL, WALL,
};
use sokoban_solver::path_finding::find_path;
use sokoban_solver::position::{manhattan_distance, Action, Direction, Position};
use sokoban_solver::rules::{carry_out, check_solution};
use sokoban_solver::solver::{SolveError, Solver, Strategy};
use sokoban_solver::state::{State, LIMIT};
use sokoban_solver::successors::{append_walk, move_box};
use std::hash::Hasher;

fn tiles_of(rows: &[&str]) -> (i32, i32, Vec<u8>) {
    let height = rows.len() as i32;
    let width = rows.iter().map(|r| r.len()).max().unwrap_or(0) as i32;
    let mut tiles = Vec::new();
    for row in rows {
        let bytes = row.as_bytes();
        for x in 0..width as usize {
            let c = if x < bytes.len() { bytes[x] } else { b' ' };
            tiles.push(match c {
                b'#' => WALL,
                b'@' => FLOOR | PLAYER,
                b'+' => FLOOR | PLAYER | TARGET,
                b'$' => FLOOR | CRATE,
                b'*' => FLOOR | CRATE | TARGET,
                b'.' => FLOOR | TARGET,
                b'-' => FLOOR,
                b'x' => FLOOR | DEADLOCK,
                _ => 0,
            });
        }
    }
    (width, height, tiles)
}

fn grid(rows: &[&str]) -> Level {
    let (width, height, tiles) = tiles_of(rows);
    Level::new(width, height, tiles).unwrap()
}

fn at(x: i32, y: i32) -> Position {
    Position { x, y }
}

fn state_with(solver: &Solver, player: Position, boxes: Vec<Position>, actions: &[Action]) -> State {
    let mut movements = Actions::new();
    for a in actions {
        movements.push(*a);
    }
    State::new(player, boxes, movements, solver)
}

#[test]
fn level_lists_player_boxes_and_targets() {
    let level = grid(&["######", "#.$@*#", "#$--.#", "######"]);
    assert_eq!(level.width(), 6);
    assert_eq!(level.height(), 4);
    assert_eq!(level.player_position, at(3, 1));
    assert_eq!(level.box_positions, vec![at(2, 1), at(4, 1), at(1, 2)]);
    assert_eq!(level.target_positions, vec![at(1, 1), at(4, 1), at(4, 2)]);
    assert_eq!(level.tile_at(at(4, 1)), FLOOR | CRATE | TARGET);
    assert_eq!(level.tile_at(at(0, 0)), WALL);
    assert_eq!(level.cell_index(at(4, 1)), 10);
    assert!(level.contains(at(5, 3)));
    assert!(!level.contains(at(6, 3)));
    assert!(!level.contains(at(0, -1)));
}

#[test]
fn outside_of_the_level_is_wall() {
    let level = grid(&["@-"]);
    assert_eq!(level.tile_at(at(-1, 0)), WALL);
    assert_eq!(level.tile_at(at(2, 0)), WALL);
    assert_eq!(level.tile_at(at(0, 1)), WALL);
    assert!(level.wall_at(at(0, -1)));
    assert!(!level.wall_at(at(1, 0)));
    assert!(level.wall_at(at(i32::MAX, i32::MIN)));
}

#[test]
fn level_errors() {
    assert_eq!(Level::new(-1, 1, vec![]).unwrap_err(), LevelError::Dimensions);
    assert_eq!(Level::new(1, -1, vec![]).unwrap_err(), LevelError::Dimensions);
    assert_eq!(Level::new(2, 2, vec![FLOOR; 3]).unwrap_err(), LevelError::Dimensions);
    assert_eq!(Level::new(0, 0, vec![]).unwrap_err(), LevelError::NoPlayer);
    assert_eq!(Level::new(2, 1, vec![FLOOR, FLOOR]).unwrap_err(), LevelError::NoPlayer);
    assert_eq!(
        Level::new(2, 1, vec![FLOOR | PLAYER, FLOOR | PLAYER]).unwrap_err(),
        LevelError::ManyPlayers
    );
    assert_eq!(Level::new(2, 1, vec![WALL | PLAYER, FLOOR]).unwrap_err(), LevelError::Tile);
    assert_eq!(Level::new(2, 1, vec![WALL | CRATE, PLAYER]).unwrap_err(), LevelError::Tile);
    assert_eq!(Level::new(2, 1, vec![PLAYER | CRATE, FLOOR]).unwrap_err(), LevelError::Tile);
    // A bad tile is reported before a missing player.
    assert_eq!(Level::new(2, 1, vec![WALL | CRATE, FLOOR]).unwrap_err(), LevelError::Tile);
    assert!(Level::new(2, 1, vec![WALL | TARGET, PLAYER]).is_ok());
}

#[test]
fn level_flags() {
    let mut level = grid(&["@$."]);
    level.insert_flag(at(2, 0), DEADLOCK);
    assert_eq!(level.tile_at(at(2, 0)), FLOOR | TARGET | DEADLOCK);
    assert_eq!(level.tile_at(at(1, 0)), FLOOR | CRATE);
    level.clear(PLAYER | CRATE);
    assert_eq!(level.tiles, vec![FLOOR, FLOOR, FLOOR | TARGET | DEADLOCK]);
    assert_eq!(level.box_positions, vec![at(1, 0)]);
    assert!(intersects(FLOOR | TARGET, TARGET));
    assert!(!intersects(FLOOR | TARGET, WALL | CRATE));
}

#[test]
fn directions_and_distances() {
    assert_eq!(at(3, 4).neighbor(Direction::Up), Some(at(3, 3)));
    assert_eq!(at(3, 4).neighbor(Direction::Down), Some(at(3, 5)));
    assert_eq!(at(3, 4).neighbor(Direction::Left), Some(at(2, 4)));
    assert_eq!(at(3, 4).neighbor(Direction::Right), Some(at(4, 4)));
    assert_eq!(at(i32::MAX, 0).neighbor(Direction::Right), None);
    assert_eq!(at(0, i32::MIN).neighbor(Direction::Up), None);
    assert_eq!(Direction::between(at(3, 4), at(3, 3)), Some(Direction::Up));
    assert_eq!(Direction::between(at(3, 4), at(4, 4)), Some(Direction::Right));
    assert_eq!(Direction::between(at(3, 4), at(2, 4)), Some(Direction::Left));
    assert_eq!(Direction::between(at(3, 4), at(3, 5)), Some(Direction::Down));
    assert_eq!(Direction::between(at(3, 4), at(3, 4)), None);
    assert_eq!(Direction::between(at(3, 4), at(4, 5)), None);
    assert_eq!(Direction::between(at(i32::MIN, 0), at(i32::MAX, 0)), None);
    assert_eq!(Direction::Up.reverse(), Direction::Down);
    assert_eq!(Direction::Left.reverse(), Direction::Right);
    for i in 0..4 {
        assert_eq!(Direction::nth(i).reverse().reverse(), Direction::nth(i));
    }
    assert_eq!(
        [Direction::nth(0), Direction::nth(1), Direction::nth(2), Direction::nth(3)],
        [Direction::Up, Direction::Down, Direction::Left, Direction::Right]
    );
    assert_eq!(manhattan_distance(&at(1, 2), &at(4, -2)), 7);
    assert_eq!(manhattan_distance(&at(i32::MIN, i32::MIN), &at(i32::MAX, i32::MAX)), 2 * (u32::MAX as i64));
    assert!(at(5, 1).is_before(&at(0, 2)));
    assert!(at(1, 2).is_before(&at(2, 2)));
    assert!(!at(2, 2).is_before(&at(2, 2)));
}

#[test]
fn actions_count_moves_and_pushes() {
    let mut actions = Actions::new();
    assert_eq!((actions.moves(), actions.pushes()), (0, 0));
    actions.push(Action::Move(Direction::Up));
    actions.push(Action::Push(Direction::Up));
    actions.push(Action::Push(Direction::Left));
    assert_eq!((actions.moves(), actions.pushes()), (3, 2));
    let copy = actions.duplicate();
    assert_eq!(copy.actions, actions.actions);
    assert_eq!(copy.pushes(), 2);
    assert_eq!(
        actions.to_vec(),
        vec![
            Action::Move(Direction::Up),
            Action::Push(Direction::Up),
            Action::Push(Direction::Left)
        ]
    );
}

#[test]
fn shortest_walks() {
    let level = grid(&["#######", "#@----#", "#-###-#", "#-----#", "#######"]);
    let nobody = vec![];
    let path = find_path(&at(1, 1), &at(5, 1), &level, &nobody).unwrap();
    assert_eq!(path, vec![at(1, 1), at(2, 1), at(3, 1), at(4, 1), at(5, 1)]);
    // A box in the way sends the walk around the block.
    let path = find_path(&at(1, 1), &at(5, 1), &level, &vec![at(3, 1)]).unwrap();
    assert_eq!(path.len(), 9);
    assert_eq!(path[0], at(1, 1));
    assert_eq!(path[8], at(5, 1));
    for pair in path.windows(2) {
        assert_eq!(manhattan_distance(&pair[0], &pair[1]), 1);
        assert!(!level.wall_at(pair[1]));
    }
    // Boxes on both ways leave no walk.
    assert_eq!(find_path(&at(1, 1), &at(5, 1), &level, &vec![at(3, 1), at(3, 3)]), None);
    // To itself the walk has no step, even from a cell that holds a box.
    assert_eq!(find_path(&at(1, 1), &at(1, 1), &level, &vec![at(1, 1)]), Some(vec![at(1, 1)]));
    // Walls and the outside cannot be reached.
    assert_eq!(find_path(&at(1, 1), &at(0, 0), &level, &nobody), None);
    assert_eq!(find_path(&at(1, 1), &at(3, 2), &level, &nobody), None);
    assert_eq!(find_path(&at(1, 1), &at(9, 1), &level, &nobody), None);
    assert_eq!(find_path(&at(1, 1), &at(-3, 1), &level, &nobody), None);
    // A walk may start on a wall.
    let path = find_path(&at(0, 1), &at(2, 1), &level, &nobody).unwrap();
    assert_eq!(path, vec![at(0, 1), at(1, 1), at(2, 1)]);
}

#[test]
fn shortest_walk_among_equals_follows_the_order_of_entry() {
    let level = grid(&["#####", "#@--#", "#---#", "#---#", "#####"]);
    let path = find_path(&at(1, 1), &at(3, 3), &level, &vec![]).unwrap();
    assert_eq!(path.len(), 5);
    assert_eq!(path, vec![at(1, 1), at(1, 2), at(1, 3), at(2, 3), at(3, 3)]);
}

#[test]
fn lower_bound_table() {
    let solver = Solver::from(grid(&["#######", "#@-$-.#", "#-#x#-#", "#.----#", "#######"]));
    let table = solver.lower_bounds();
    assert_eq!(table.width, 7);
    assert_eq!(table.height, 5);
    assert_eq!(table.entries.len(), 35);
    // Targets.
    assert_eq!(table.get(&at(5, 1)), Some(0));
    assert_eq!(table.get(&at(1, 3)), Some(0));
    // The nearest target in Manhattan distance, and the walk to it.
    assert_eq!(table.get(&at(4, 1)), Some(1));
    assert_eq!(table.get(&at(3, 1)), Some(2));
    assert_eq!(table.get(&at(1, 1)), Some(2));
    assert_eq!(table.get(&at(2, 3)), Some(1));
    assert_eq!(table.get(&at(5, 3)), Some(2));
    // Of two targets equally near, the first in row-major order counts:
    // (2, 1) is three away from both, and walks to (5, 1).
    assert_eq!(table.get(&at(2, 1)), Some(3));
    // Walls, the border, cells flagged as deadlocks and the outside have no entry.
    assert_eq!(table.get(&at(2, 2)), None);
    assert_eq!(table.get(&at(0, 0)), None);
    assert_eq!(table.get(&at(3, 2)), None);
    assert_eq!(table.get(&at(7, 1)), None);
    assert_eq!(table.get(&at(-1, 1)), None);
    assert!(table.contains_key(&at(4, 3)));
    assert!(!table.contains_key(&at(3, 2)));
}

#[test]
fn lower_bound_table_walks_to_the_target_nearest_in_manhattan_distance() {
    // From (1, 3) the target at (1, 1) is two away in Manhattan distance but
    // six steps by foot; the target at (4, 3) is three steps away.
    let solver = Solver::from(grid(&["######", "#.--@#", "###-##", "#--.-#", "######"]));
    let table = solver.lower_bounds();
    assert_eq!(table.get(&at(1, 3)), Some(6));
    assert_eq!(table.get(&at(2, 3)), Some(1));
}

#[test]
fn lower_bound_table_without_targets_or_without_a_way() {
    let solver = Solver::from(grid(&["#####", "#@--#", "#####"]));
    assert!(solver.lower_bounds().entries.iter().all(|e| e.is_none()));
    let solver = Solver::from(grid(&["######", "#@#-.#", "######"]));
    assert_eq!(solver.lower_bounds().get(&at(1, 1)), None);
    assert_eq!(solver.lower_bounds().get(&at(3, 1)), Some(1));
    // A level too small to have interior cells.
    let solver = Solver::from(grid(&["@."]));
    assert_eq!(solver.lower_bounds().entries, vec![None, None]);
}

#[test]
fn solver_clears_and_marks_the_tiles() {
    let solver = Solver::from(grid(&["#####", "#@$.#", "#---#", "#####"]));
    assert_eq!(solver.strategy(), Strategy::Fast);
    assert_eq!(solver.visited_count(), 0);
    assert_eq!(solver.pressure(), 0);
    assert_eq!(solver.level.player_position, at(1, 1));
    assert_eq!(solver.level.box_positions, vec![at(2, 1)]);
    // The player and the box are cleared off; no cell lies between two walls.
    assert_eq!(solver.level.tile_at(at(1, 1)), FLOOR);
    assert_eq!(solver.level.tile_at(at(2, 1)), FLOOR);
    assert_eq!(solver.level.tile_at(at(3, 1)), FLOOR | TARGET);
    assert_eq!(solver.level.tile_at(at(2, 2)), FLOOR);
    assert_eq!(solver.level.tile_at(at(0, 0)), WALL);
    assert!(!solver.tunnels_contain(at(1, 1), Direction::Up));
    // A cell between walls to its left and right is a tunnel cell for the
    // way up and down, and for no other.
    let solver = Solver::from(grid(&["#####", "#-@-#", "##-##", "#-.-#", "#####"]));
    assert_eq!(solver.level.tile_at(at(2, 2)), FLOOR | TUNNEL);
    assert_eq!(solver.level.tile_at(at(2, 1)), FLOOR);
    assert_eq!(solver.level.tile_at(at(1, 2)), WALL);
    assert!(solver.tunnels_contain(at(2, 2), Direction::Up));
    assert!(solver.tunnels_contain(at(2, 2), Direction::Down));
    assert!(!solver.tunnels_contain(at(2, 2), Direction::Left));
    assert!(!solver.tunnels_contain(at(2, 2), Direction::Right));
    let solver = Solver::from(grid(&["#####", "#@$.#", "#####"]));
    for x in 1..4 {
        assert_eq!(solver.level.tile_at(at(x, 1)) & TUNNEL, TUNNEL);
        assert!(solver.tunnels_contain(at(x, 1), Direction::Left));
        assert!(solver.tunnels_contain(at(x, 1), Direction::Right));
    }
    assert!(!solver.tunnels_contain(at(2, 1), Direction::Up));
    assert!(!solver.tunnels_contain(at(1, 1), Direction::Up));
    assert!(!solver.tunnels_contain(at(0, 1), Direction::Right));
    assert!(!solver.tunnels_contain(at(9, 9), Direction::Right));
}

#[test]
fn heuristic_of_each_strategy() {
    let rows = ["#######", "#@-$-.#", "#-----#", "#.-$--#", "#######"];
    let actions = [
        Action::Move(Direction::Down),
        Action::Push(Direction::Right),
        Action::Move(Direction::Up),
    ];
    let boxes = vec![at(3, 1), at(3, 3)];
    let expected = [
        (Strategy::Fast, 4 * 10_000 + 3),
        (Strategy::Mixed, 4 + 3),
        (Strategy::OptimalMovePush, 3 * 100_000_000 + 10_000 + 4),
        (Strategy::OptimalPushMove, 100_000_000 + 3 * 10_000 + 4),
    ];
    for (strategy, heuristic) in expected {
        let mut solver = Solver::from(grid(&rows));
        solver.initial(strategy);
        assert_eq!(solver.strategy(), strategy);
        let state = state_with(&solver, at(1, 1), boxes.clone(), &actions);
        assert_eq!(state.lower_bound(&solver), 4);
        assert_eq!(state.heuristic(), heuristic);
        assert!(!state.is_solved(&solver));
        assert_eq!(state.player_position, at(1, 1));
        assert_eq!(state.box_positions, boxes);
        assert_eq!(state.movements.actions, actions.to_vec());
        // The opening state has no actions.
        assert_eq!(solver.heap.len(), 1);
        assert_eq!(solver.heap[0].movements.moves(), 0);
        assert_eq!(solver.heap[0].lower_bound(&solver), 4);
    }
}

#[test]
fn lower_bound_of_boxes() {
    let solver = Solver::from(grid(&["#######", "#@-$-.#", "#-#x#-#", "#.----#", "#######"]));
    assert_eq!(State::calculate_lower_bound(&vec![], &solver), 0);
    assert_eq!(State::calculate_lower_bound(&vec![at(3, 1)], &solver), 2);
    assert_eq!(State::calculate_lower_bound(&vec![at(3, 1), at(5, 3)], &solver), 4);
    assert_eq!(State::calculate_lower_bound(&vec![at(5, 1), at(1, 3)], &solver), 0);
    // A box on a cell without an entry gives 9999, whatever the others give.
    assert_eq!(State::calculate_lower_bound(&vec![at(3, 1), at(3, 2)], &solver), 9999);
    assert_eq!(State::calculate_lower_bound(&vec![at(0, 0)], &solver), LIMIT - 1);
    let solved = state_with(&solver, at(1, 1), vec![at(5, 1), at(1, 3)], &[]);
    assert!(solved.is_solved(&solver));
}

#[test]
fn blocked_cells() {
    let solver = Solver::from(grid(&["#######", "#@-$-.#", "#-#x#-#", "#.----#", "#######"]));
    let state = state_with(&solver, at(1, 1), vec![at(3, 1)], &[]);
    assert!(state.can_block_player(at(0, 1), &solver));
    assert!(state.can_block_player(at(3, 1), &solver));
    assert!(!state.can_block_player(at(3, 2), &solver));
    assert!(!state.can_block_player(at(2, 1), &solver));
    assert!(state.can_block_crate(at(0, 1), &solver));
    assert!(state.can_block_crate(at(3, 1), &solver));
    assert!(state.can_block_crate(at(3, 2), &solver));
    assert!(!state.can_block_crate(at(2, 1), &solver));
}

#[test]
fn reachable_area_and_anchor() {
    let solver = Solver::from(grid(&["#######", "#--$--#", "#-#-#@#", "#######"]));
    let state = state_with(&solver, at(5, 2), vec![at(3, 1)], &[]);
    let mut area = state.player_reachable_area(&solver);
    area.sort_by_key(|p| (p.y, p.x));
    assert_eq!(area, vec![at(4, 1), at(5, 1), at(5, 2)]);
    assert_eq!(state.normalized_player_position(&solver), at(4, 1));
    let other = state_with(&solver, at(1, 2), vec![at(3, 1)], &[]);
    let mut area = other.player_reachable_area(&solver);
    area.sort_by_key(|p| (p.y, p.x));
    assert_eq!(area, vec![at(1, 1), at(2, 1), at(1, 2)]);
    assert_eq!(other.normalized_player_position(&solver), at(1, 1));
    // A region of one cell.
    let lone = state_with(&solver, at(3, 2), vec![at(3, 1)], &[]);
    assert_eq!(lone.player_reachable_area(&solver), vec![at(3, 2)]);
    assert_eq!(lone.normalized_player_position(&solver), at(3, 2));
    // The row comes before the column: (5, 1) is before (1, 2).
    let open = state_with(&solver, at(1, 2), vec![], &[]);
    assert_eq!(open.normalized_player_position(&solver), at(1, 1));
    let right = state_with(&solver, at(5, 2), vec![at(2, 1)], &[]);
    assert_eq!(right.normalized_player_position(&solver), at(3, 1));
}

#[test]
fn normalized_states() {
    let mut solver = Solver::from(grid(&["#######", "#--$-.#", "#-#-#@#", "#######"]));
    solver.initial(Strategy::Mixed);
    let state = state_with(&solver, at(5, 2), vec![at(3, 1)], &[Action::Move(Direction::Down)]);
    let normal = state.normalized(&solver);
    assert_eq!(normal.player_position, at(4, 1));
    assert_eq!(normal.box_positions, state.box_positions);
    assert_eq!(normal.movements.actions, state.movements.actions);
    assert_eq!(normal.heuristic(), state.heuristic());
    assert_eq!(normal.lower_bound(&solver), state.lower_bound(&solver));
    // Normalizing again changes nothing.
    let again = normal.normalized(&solver);
    assert!(again == normal);
    assert_eq!(again.player_position, at(4, 1));
    // Another cell of the same region gives the same normalized state.
    let elsewhere = state_with(&solver, at(5, 1), vec![at(3, 1)], &[]);
    assert!(elsewhere.normalized(&solver) == normal);
    assert_eq!(elsewhere.normalized_hash(&solver), state.normalized_hash(&solver));
    assert_eq!(state.normalized_hash(&solver), normal.hash());
    // A cell of another region does not.
    let across = state_with(&solver, at(1, 1), vec![at(3, 1)], &[]);
    assert!(across.normalized(&solver) != normal);
    assert_ne!(across.normalized_hash(&solver), state.normalized_hash(&solver));
    assert!(!solver.has_seen(&state));
    solver.visited.push(normal);
    assert!(solver.has_seen(&state));
    assert!(solver.has_seen(&elsewhere));
    assert!(!solver.has_seen(&across));
}

#[test]
fn equality_and_hash_ignore_actions_and_heuristic() {
    let mut solver = Solver::from(grid(&["#######", "#--$-.#", "#-#-#@#", "#######"]));
    let a = state_with(&solver, at(5, 2), vec![at(3, 1)], &[]);
    solver.initial(Strategy::OptimalMovePush);
    let b = state_with(
        &solver,
        at(5, 2),
        vec![at(3, 1)],
        &[Action::Move(Direction::Up), Action::Move(Direction::Down)],
    );
    assert_ne!(a.heuristic(), b.heuristic());
    assert!(a == b);
    assert_eq!(a.hash(), b.hash());
    let c = state_with(&solver, at(5, 1), vec![at(3, 1)], &[]);
    assert!(a != c);
    assert_ne!(a.hash(), c.hash());
    let d = state_with(&solver, at(5, 2), vec![at(4, 1)], &[]);
    assert!(a != d);
    assert_ne!(a.hash(), d.hash());
    let e = state_with(&solver, at(5, 2), vec![at(3, 1), at(4, 1)], &[]);
    assert!(a != e);
}

#[test]
fn hash_is_sip_hash_of_the_cells() {
    let solver = Solver::from(grid(&["#######", "#--$-.#", "#-#-#@#", "#######"]));
    let state = state_with(&solver, at(5, 2), vec![at(3, 1), at(-1, i32::MAX)], &[]);
    let mut bytes = Vec::new();
    for v in [5i32, 2, 3, 1, -1, i32::MAX] {
        bytes.extend_from_slice(&((v as i64 + 0x8000_0000) as u32).to_le_bytes());
    }
    assert_eq!(bytes.len(), 24);
    assert_eq!(&bytes[0..4], &[5, 0, 0, 0x80]);
    assert_eq!(&bytes[16..24], &[0xff, 0xff, 0xff, 0x7f, 0xff, 0xff, 0xff, 0xff]);
    let mut hasher = SipHasher24::new_with_keys(0, 0);
    hasher.write(&bytes);
    assert_eq!(state.hash(), hasher.finish());
    // SipHash 2-4 of the empty input under the zero key.
    assert_eq!(SipHasher24::new().hash(&[]), 0x1e924b9d737700d7);
    let bare = state_with(&solver, at(0, 0), vec![], &[]);
    assert_eq!(bare.hash(), SipHasher24::new().hash(&[0, 0, 0, 0x80, 0, 0, 0, 0x80]));
    assert_ne!(bare.hash(), 0);
}

#[test]
fn boxes_move_within_the_sorted_list() {
    let boxes = vec![at(1, 1), at(3, 1), at(2, 2)];
    assert_eq!(move_box(&boxes, 0, at(2, 1)), vec![at(2, 1), at(3, 1), at(2, 2)]);
    assert_eq!(move_box(&boxes, 0, at(1, 2)), vec![at(3, 1), at(1, 2), at(2, 2)]);
    assert_eq!(move_box(&boxes, 1, at(3, 2)), vec![at(1, 1), at(2, 2), at(3, 2)]);
    assert_eq!(move_box(&boxes, 2, at(2, 0)), vec![at(2, 0), at(1, 1), at(3, 1)]);
    assert_eq!(move_box(&vec![at(4, 4)], 0, at(4, 5)), vec![at(4, 5)]);
}

#[test]
fn walks_become_moves() {
    let mut actions = Actions::new();
    actions.push(Action::Push(Direction::Left));
    append_walk(&mut actions, &vec![at(1, 1), at(1, 2), at(2, 2), at(2, 1), at(1, 1)]);
    assert_eq!(
        actions.actions,
        vec![
            Action::Push(Direction::Left),
            Action::Move(Direction::Down),
            Action::Move(Direction::Right),
            Action::Move(Direction::Up),
            Action::Move(Direction::Left)
        ]
    );
    assert_eq!(actions.pushes(), 1);
    append_walk(&mut actions, &vec![at(1, 1)]);
    append_walk(&mut actions, &vec![]);
    assert_eq!(actions.moves(), 5);
}

#[test]
fn successors_in_order() {
    let mut solver = Solver::from(grid(&["#######", "#-----#", "#-$-$-#", "#--@--#", "#.---.#", "#######"]));
    solver.initial(Strategy::Mixed);
    let state = &solver.heap[0];
    let successors = state.successors(&solver);
    // The first box up, down, left, right; then the second box.
    let expected: Vec<(Position, Vec<Position>, usize, Direction)> = vec![
        (at(2, 2), vec![at(2, 1), at(4, 2)], 2, Direction::Up),
        (at(2, 2), vec![at(4, 2), at(2, 3)], 4, Direction::Down),
        (at(2, 2), vec![at(1, 2), at(4, 2)], 2, Direction::Left),
        (at(2, 2), vec![at(3, 2), at(4, 2)], 4, Direction::Right),
        (at(4, 2), vec![at(4, 1), at(2, 2)], 2, Direction::Up),
        (at(4, 2), vec![at(2, 2), at(4, 3)], 4, Direction::Down),
        (at(4, 2), vec![at(2, 2), at(3, 2)], 4, Direction::Left),
        (at(4, 2), vec![at(2, 2), at(5, 2)], 2, Direction::Right),
    ];
    assert_eq!(successors.len(), expected.len());
    for (s, (player, boxes, moves, d)) in successors.iter().zip(expected) {
        assert_eq!(s.player_position, player);
        assert_eq!(s.box_positions, boxes);
        assert_eq!(s.movements.moves(), moves);
        assert_eq!(s.movements.pushes(), 1);
        assert_eq!(*s.movements.actions.last().unwrap(), Action::Push(d));
        assert!(s.movements.actions[..moves - 1].iter().all(|a| matches!(a, Action::Move(_))));
        assert_eq!(s.heuristic(), (s.lower_bound(&solver) + moves) as u64);
    }
    // The walk of the third successor: to the right of the first box.
    assert_eq!(
        successors[2].movements.actions,
        vec![Action::Move(Direction::Up), Action::Push(Direction::Left)]
    );
}

#[test]
fn successors_leave_out_what_is_blocked_or_out_of_reach() {
    // The box can go right only: left of it stands the player's only way,
    // above and below are walls.
    let mut solver = Solver::from(grid(&["######", "#@$-.#", "######"]));
    solver.initial(Strategy::Fast);
    let successors = solver.heap[0].successors(&solver);
    assert_eq!(successors.len(), 1);
    assert_eq!(successors[0].box_positions, vec![at(4, 1)]);
    // A box behind a box: the first cannot be pushed onto the second.
    let mut solver = Solver::from(grid(&["#######", "#@$$-.#", "#----.#", "#######"]));
    solver.initial(Strategy::Fast);
    assert_eq!(solver.heap[0].successors(&solver).len(), 0);
    let mut solver =
        Solver::from(grid(&["#######", "#-----#", "#@$$-.#", "#----.#", "#######"]));
    solver.initial(Strategy::Fast);
    let successors = solver.heap[0].successors(&solver);
    let moved: Vec<Vec<Position>> = successors.iter().map(|s| s.box_positions.clone()).collect();
    assert_eq!(
        moved,
        vec![
            vec![at(2, 1), at(3, 2)],
            vec![at(3, 2), at(2, 3)],
            vec![at(3, 1), at(2, 2)],
            vec![at(2, 2), at(3, 3)]
        ]
    );
    // A cell without an entry in the table takes no box.
    let mut solver = Solver::from(grid(&["######", "#@$x.#", "#----#", "######"]));
    solver.initial(Strategy::Fast);
    let successors = solver.heap[0].successors(&solver);
    assert!(successors.iter().all(|s| !s.box_positions.contains(&at(3, 1))));
}

#[test]
fn push_crate_and_settle() {
    let mut solver = Solver::from(grid(&["#######", "#@$--.#", "#######"]));
    solver.initial(Strategy::Fast);
    let state = &solver.heap[0];
    let area = state.player_reachable_area(&solver);
    assert!(state.push_crate(&solver, &area, 0, Direction::Up).is_none());
    assert!(state.push_crate(&solver, &area, 0, Direction::Left).is_none());
    let t = state.push_crate(&solver, &area, 0, Direction::Right).unwrap();
    assert_eq!(t.box_positions, vec![at(5, 1)]);
    let mut one = Actions::new();
    one.push(Action::Push(Direction::Right));
    let u = state.settle(&solver, 0, Direction::Right, at(3, 1), one).unwrap();
    assert_eq!(u.player_position, at(2, 1));
    assert_eq!(u.box_positions, vec![at(3, 1)]);
    assert_eq!(u.lower_bound(&solver), 2);
    assert_eq!(u.heuristic(), 20_001);
}

#[test]
fn states_at_the_limit_are_not_made() {
    let mut solver = Solver::from(grid(&["######", "#@$-.#", "######"]));
    solver.initial(Strategy::Fast);
    let state = &solver.heap[0];
    let mut long = Actions::new();
    for _ in 0..LIMIT - 1 {
        long.push(Action::Move(Direction::Up));
    }
    assert!(state.settle(&solver, 0, Direction::Right, at(3, 1), long.duplicate()).is_some());
    long.push(Action::Move(Direction::Up));
    assert!(state.settle(&solver, 0, Direction::Right, at(3, 1), long).is_none());
}

#[test]
fn best_state_is_the_first_of_least_heuristic() {
    let mut solver = Solver::from(grid(&["#######", "#@-$-.#", "#-----#", "#######"]));
    solver.initial(Strategy::Mixed);
    for (boxes, moves) in [(at(2, 1), 1), (at(4, 1), 1), (at(4, 2), 0)] {
        let actions = vec![Action::Push(Direction::Right); moves];
        let state = state_with(&solver, at(1, 1), vec![boxes], &actions);
        solver.heap.push(state);
    }
    // Heuristics: 2, 4, 2, 2.
    let h: Vec<u64> = solver.heap.iter().map(|s| s.heuristic()).collect();
    assert_eq!(h, vec![2, 4, 2, 2]);
    assert_eq!(solver.best_index(), 0);
    solver.heap.remove(0);
    assert_eq!(solver.best_index(), 1);
}

#[test]
fn expand_lets_new_successors_wait() {
    let mut solver = Solver::from(grid(&["#######", "#@-$-.#", "#-----#", "#######"]));
    solver.initial(Strategy::Fast);
    let state = solver.heap.remove(0);
    assert!(solver.expand(&state).is_none());
    assert_eq!(solver.pressure(), 2);
    // Once their normalized forms are seen, they wait no second time.
    let seen: Vec<State> = solver.heap.iter().map(|s| s.normalized(&solver)).collect();
    solver.visited.extend(seen);
    assert!(solver.expand(&state).is_none());
    assert_eq!(solver.pressure(), 2);
}

#[test]
fn errors_are_distinct() {
    assert_ne!(SolveError::Timeout, SolveError::NoSolution);
    assert_ne!(Strategy::Fast, Strategy::Mixed);
}

#[test]
fn rules_of_moves_and_pushes() {
    let level = grid(&["######", "#@$-.#", "#-$--#", "######"]);
    let mut player = at(1, 1);
    let mut boxes = vec![at(2, 1), at(2, 2)];
    // A move onto a wall or a box is forbidden, and changes nothing.
    assert!(!carry_out(&level, &mut player, &mut boxes, Action::Move(Direction::Up)));
    assert!(!carry_out(&level, &mut player, &mut boxes, Action::Move(Direction::Right)));
    assert_eq!((player, boxes.clone()), (at(1, 1), vec![at(2, 1), at(2, 2)]));
    // A push takes the player onto the cell of the box and the box one further.
    assert!(carry_out(&level, &mut player, &mut boxes, Action::Push(Direction::Right)));
    assert_eq!((player, boxes.clone()), (at(2, 1), vec![at(3, 1), at(2, 2)]));
    // A push needs a box, and room behind it.
    assert!(!carry_out(&level, &mut player, &mut boxes, Action::Push(Direction::Left)));
    assert!(!carry_out(&level, &mut player, &mut boxes, Action::Push(Direction::Down)));
    assert!(carry_out(&level, &mut player, &mut boxes, Action::Move(Direction::Left)));
    assert!(carry_out(&level, &mut player, &mut boxes, Action::Move(Direction::Down)));
    assert!(carry_out(&level, &mut player, &mut boxes, Action::Push(Direction::Right)));
    assert!(carry_out(&level, &mut player, &mut boxes, Action::Push(Direction::Right)));
    assert!(!carry_out(&level, &mut player, &mut boxes, Action::Push(Direction::Right)));
    assert_eq!((player, boxes.clone()), (at(3, 2), vec![at(3, 1), at(4, 2)]));
    // One box cannot be pushed onto another.
    let mut player = at(2, 0);
    let mut boxes = vec![at(2, 1), at(2, 2)];
    assert!(!carry_out(&level, &mut player, &mut boxes, Action::Push(Direction::Down)));
}

#[test]
fn solutions_are_checked_by_replay() {
    let level = grid(&["######", "#@-$.#", "######"]);
    let right = Direction::Right;
    assert!(check_solution(&level, &vec![Action::Move(right), Action::Push(right)]));
    // Too short, too long, forbidden, or a push given as a move.
    assert!(!check_solution(&level, &vec![Action::Move(right)]));
    assert!(!check_solution(&level, &vec![]));
    assert!(!check_solution(
        &level,
        &vec![Action::Move(right), Action::Push(right), Action::Push(right)]
    ));
    assert!(!check_solution(&level, &vec![Action::Move(right), Action::Move(right)]));
    assert!(!check_solution(&level, &vec![Action::Push(right), Action::Push(right)]));
    // A level whose boxes stand on targets is solved by no action at all.
    assert!(check_solution(&grid(&["#####", "#@*-#", "#####"]), &vec![]));
    // A level without boxes as well.
    assert!(check_solution(&grid(&["#####", "#@-.#", "#####"]), &vec![]));
}
