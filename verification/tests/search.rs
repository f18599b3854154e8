use sokoban_solver::actions::Actions;
use sokoban_solver::level::{Level, CRATE, FLOOR, PLAYER, TARGET, WALL};
use sokoban_solver::position::{Action, Direction, Position};
use sokoban_solver::rules::check_solution;
use sokoban_solver::solver::{SolveError, Solver, Strategy};
use sokoban_solver::state::State;
use std::time::Duration;

fn level_of(rows: &[&str]) -> Level {
    let height = rows.len() as i32;
    let width = rows.iter().map(|r| r.len()).max().unwrap_or(0) as i32;
    let mut tiles = Vec::new();
    for row in rows {
        let bytes = row.as_bytes();
        for x in 0..width as usize {
            let c = if x < bytes.len() { bytes[x] } else { b' ' };
            tiles.push(match c {
                b'#' => WALL,
                b'@' => FLOOR | PLAYER,
                b'+' => FLOOR | PLAYER | TARGET,
                b'$' => FLOOR | CRATE,
                b'*' => FLOOR | CRATE | TARGET,
                b'.' => FLOOR | TARGET,
                b'-' => FLOOR,
                _ => 0,
            });
        }
    }
    Level::new(width, height, tiles).unwrap()
}

fn solver_of(rows: &[&str], strategy: Strategy) -> Solver {
    let mut solver = Solver::from(level_of(rows));
    solver.initial(strategy);
    solver
}

fn solve(rows: &[&str], strategy: Strategy, millis: u64) -> Result<Actions, SolveError> {
    solver_of(rows, strategy).solve(Duration::from_millis(millis))
}

fn step(p: Position, d: Direction) -> Position {
    match d {
        Direction::Up => Position { x: p.x, y: p.y - 1 },
        Direction::Down => Position { x: p.x, y: p.y + 1 },
        Direction::Left => Position { x: p.x - 1, y: p.y },
        Direction::Right => Position { x: p.x + 1, y: p.y },
    }
}

/// Replays the actions by the rules of the game; `None` where one is not allowed.
fn replay(level: &Level, actions: &[Action]) -> Option<(Position, Vec<Position>)> {
    let mut player = level.player_position;
    let mut boxes = level.box_positions.clone();
    for action in actions {
        match *action {
            Action::Move(d) => {
                let t = step(player, d);
                if level.wall_at(t) || boxes.contains(&t) {
                    return None;
                }
                player = t;
            }
            Action::Push(d) => {
                let b = step(player, d);
                let t = step(b, d);
                let i = boxes.iter().position(|q| *q == b)?;
                if level.wall_at(t) || boxes.contains(&t) {
                    return None;
                }
                boxes[i] = t;
                player = b;
            }
        }
    }
    Some((player, boxes))
}

fn solves(level: &Level, actions: &[Action]) -> bool {
    let solved = match replay(level, actions) {
        Some((_, boxes)) => boxes.iter().all(|b| level.target_positions.contains(b)),
        None => false,
    };
    assert_eq!(check_solution(level, &actions.to_vec()), solved);
    solved
}

const ALL: [Strategy; 4] =
    [Strategy::Fast, Strategy::Mixed, Strategy::OptimalMovePush, Strategy::OptimalPushMove];

#[test]
fn trivial_push() {
    for strategy in ALL {
        let r = solve(&["#####", "#@$.#", "#####"], strategy, 10_000).unwrap();
        assert_eq!(r.actions, vec![Action::Push(Direction::Right)]);
        assert_eq!(r.moves(), 1);
        assert_eq!(r.pushes(), 1);
    }
}

#[test]
fn walk_then_push() {
    for strategy in ALL {
        let r = solve(&["#####", "#@--#", "#-$.#", "#####"], strategy, 10_000).unwrap();
        assert_eq!(r.actions, vec![Action::Move(Direction::Down), Action::Push(Direction::Right)]);
    }
}

#[test]
fn tunnel_chain() {
    let rows = ["#######", "#@$--.#", "#######"];
    for strategy in ALL {
        let r = solve(&rows, strategy, 10_000).unwrap();
        assert_eq!(r.actions, vec![Action::Push(Direction::Right); 3]);
    }
    let solver = solver_of(&rows, Strategy::Fast);
    assert!(solver.tunnels_contain(Position { x: 3, y: 1 }, Direction::Right));
    assert!(solver.tunnels_contain(Position { x: 4, y: 1 }, Direction::Right));
    assert!(!solver.tunnels_contain(Position { x: 3, y: 1 }, Direction::Up));
    let successors = solver.heap[0].successors(&solver);
    assert_eq!(successors.len(), 1);
    assert_eq!(successors[0].box_positions, vec![Position { x: 5, y: 1 }]);
    assert_eq!(successors[0].player_position, Position { x: 4, y: 1 });
    assert_eq!(successors[0].movements.pushes(), 3);
    assert!(successors[0].is_solved(&solver));
}

#[test]
fn freeze_deadlock_prune() {
    // Pushing the box right takes it into the corner at (4, 1), off the target.
    let rows = ["######", "#.@$-#", "#----#", "######"];
    let solver = solver_of(&rows, Strategy::Fast);
    let successors = solver.heap[0].successors(&solver);
    assert_eq!(successors.len(), 1);
    assert_eq!(successors[0].box_positions, vec![Position { x: 2, y: 1 }]);
    assert_eq!(successors[0].player_position, Position { x: 3, y: 1 });
    let corner = Position { x: 4, y: 1 };
    let mut visited = Vec::new();
    assert!(State::is_freeze_deadlock(&corner, &vec![corner], &solver, &mut visited));
    assert_eq!(visited, vec![corner]);
    // The puzzle is still solved another way.
    let r = solve(&rows, Strategy::Fast, 10_000).unwrap();
    assert!(solves(&level_of(&rows), &r.actions));
}

#[test]
fn freeze_deadlock_in_a_room_of_three_by_three() {
    // A single box in an empty room is frozen exactly in the four corners.
    let rows = ["#####", "#@--#", "#---#", "#---#", "#####"];
    let solver = solver_of(&rows, Strategy::Fast);
    for y in 1..4 {
        for x in 1..4 {
            let p = Position { x, y };
            let corner = (x == 1 || x == 3) && (y == 1 || y == 3);
            let mut visited = Vec::new();
            assert_eq!(State::is_freeze_deadlock(&p, &vec![p], &solver, &mut visited), corner);
        }
    }
}

#[test]
fn freeze_deadlock_of_two_boxes_against_a_wall() {
    let rows = ["######", "#@---#", "#----#", "######"];
    let solver = solver_of(&rows, Strategy::Fast);
    // Side by side along the top wall: each blocks the other.
    let a = Position { x: 2, y: 1 };
    let b = Position { x: 3, y: 1 };
    let mut visited = Vec::new();
    assert!(State::is_freeze_deadlock(&a, &vec![a, b], &solver, &mut visited));
    assert_eq!(visited, vec![a, b]);
    // One above the other in the middle of the top wall: the lower one is free.
    let c = Position { x: 2, y: 2 };
    let mut visited = Vec::new();
    assert!(!State::is_freeze_deadlock(&a, &vec![a, c], &solver, &mut visited));
    // A box that has been visited counts as frozen.
    let mut visited = vec![c];
    assert!(State::is_freeze_deadlock(&c, &vec![a, c], &solver, &mut visited));
}

#[test]
fn no_solution() {
    let rows = ["#####", "#@#$#", "#.###", "#####"];
    for strategy in ALL {
        let mut solver = solver_of(&rows, strategy);
        assert_eq!(solver.pressure(), 1);
        let r = solver.solve(Duration::from_secs(10));
        assert_eq!(r.unwrap_err(), SolveError::NoSolution);
        // One state was taken from the waiting states, and none came after it.
        assert_eq!(solver.visited_count(), 1);
        assert_eq!(solver.pressure(), 0);
    }
}

#[test]
fn no_solution_without_a_waiting_state() {
    let mut solver = Solver::from(level_of(&["#####", "#@$.#", "#####"]));
    assert_eq!(solver.solve(Duration::from_secs(10)).unwrap_err(), SolveError::NoSolution);
    assert_eq!(solver.visited_count(), 0);
}

#[test]
fn timeout() {
    let mut rows = vec!["####################".to_string()];
    for y in 1..17 {
        let mut row = String::from("#");
        for x in 1..19 {
            let c = if y == 1 && x == 1 {
                '@'
            } else if y % 4 == 2 && x % 3 == 2 && y < 14 {
                '$'
            } else if y == 15 && x % 3 == 2 {
                '.'
            } else if y == 16 && x % 3 == 2 && x < 12 {
                '.'
            } else {
                '-'
            };
            row.push(c);
        }
        row.push('#');
        rows.push(row);
    }
    rows.push("####################".to_string());
    let rows: Vec<&str> = rows.iter().map(|r| r.as_str()).collect();
    let mut solver = solver_of(&rows, Strategy::OptimalPushMove);
    let r = solver.solve(Duration::from_millis(1));
    assert_eq!(r.unwrap_err(), SolveError::Timeout);
    assert!(solver.visited_count() >= 1);
}

#[test]
fn timeout_of_zero_ends_the_first_round() {
    let mut solver = solver_of(&["#####", "#@$.#", "#####"], Strategy::Fast);
    let r = solver.solve(Duration::from_millis(0));
    assert_eq!(r.unwrap_err(), SolveError::Timeout);
    assert_eq!(solver.visited_count(), 1);
    assert_eq!(solver.pressure(), 0);
}

#[test]
fn step_by_step() {
    let mut solver = solver_of(&["######", "#@-$.#", "######"], Strategy::Fast);
    // The time is up: the best state leaves, its normalized form is seen.
    let r = solver.step(true);
    assert_eq!(r.unwrap().unwrap_err(), SolveError::Timeout);
    assert_eq!(solver.visited_count(), 1);
    assert_eq!(solver.visited[0].player_position, Position { x: 1, y: 1 });
    assert_eq!(solver.pressure(), 0);
    // No state is waiting.
    let r = solver.step(false);
    assert_eq!(r.unwrap().unwrap_err(), SolveError::NoSolution);
    // A fresh search goes on until the solved successor appears.
    let mut solver = solver_of(&["#######", "#@-$-.#", "#-----#", "#######"], Strategy::Fast);
    let first = solver.step(false);
    assert!(first.is_none());
    assert_eq!(solver.visited_count(), 1);
    assert_eq!(solver.pressure(), 2);
    let second = solver.step(false).unwrap().unwrap();
    assert_eq!(
        second.actions,
        vec![
            Action::Move(Direction::Right),
            Action::Push(Direction::Right),
            Action::Push(Direction::Right)
        ]
    );
}

#[test]
fn solutions_replay_to_solved_levels() {
    let puzzles: Vec<Vec<&str>> = vec![
        vec!["#######", "#-----#", "#-$-$-#", "#.-@-.#", "#-----#", "#######"],
        vec!["########", "#--@---#", "#-$-$--#", "#--.-.-#", "#------#", "########"],
        vec!["#######", "#.---.#", "#-$-$-#", "#--@--#", "#######"],
        vec!["######", "#@---#", "#-$#-#", "#---.#", "######"],
    ];
    for rows in &puzzles {
        let level = level_of(rows);
        for strategy in ALL {
            let r = solve(rows, strategy, 15_000).unwrap();
            assert!(solves(&level, &r.actions), "{:?} {:?}", strategy, r.actions);
            assert_eq!(r.pushes(), r.actions.iter().filter(|a| matches!(a, Action::Push(_))).count());
        }
    }
}

#[test]
fn repeated_solves_agree() {
    let rows = ["########", "#--@---#", "#-$-$--#", "#--.-.-#", "#------#", "########"];
    for strategy in ALL {
        let first = solve(&rows, strategy, 15_000).unwrap();
        let second = solve(&rows, strategy, 15_000).unwrap();
        assert_eq!(first.actions, second.actions);
    }
}

#[test]
fn lower_bound_is_no_more_than_the_pushes_left() {
    let rows = ["########", "#--@---#", "#-$-$--#", "#--.-.-#", "#------#", "########"];
    let level = level_of(&rows);
    let solver = solver_of(&rows, Strategy::OptimalPushMove);
    let start_bound = solver.heap[0].lower_bound(&solver);
    assert_eq!(start_bound, 4);
    let r = solve(&rows, Strategy::OptimalPushMove, 15_000).unwrap();
    assert!(solves(&level, &r.actions));
    // Along the solution the lower bound never exceeds the pushes still to come.
    let mut left = r.pushes();
    assert!(start_bound <= left);
    let mut player = level.player_position;
    let mut boxes = level.box_positions.clone();
    for action in &r.actions {
        match *action {
            Action::Move(d) => player = step(player, d),
            Action::Push(d) => {
                let b = step(player, d);
                let i = boxes.iter().position(|q| *q == b).unwrap();
                boxes[i] = step(b, d);
                player = b;
                left -= 1;
            }
        }
        let mut sorted = boxes.clone();
        sorted.sort_by_key(|p| (p.y, p.x));
        assert!(State::calculate_lower_bound(&sorted, &solver) <= left);
    }
    assert_eq!(left, 0);
}

/// Every placement that the rules allow to follow from the given one.
fn reachable_placements(level: &Level, player: Position, boxes: &[Position]) -> Vec<(Position, Vec<Position>)> {
    let mut sorted = boxes.to_vec();
    sorted.sort_by_key(|p| (p.y, p.x));
    let mut seen = std::collections::HashSet::new();
    seen.insert((player, sorted.clone()));
    let mut queue = std::collections::VecDeque::new();
    queue.push_back((player, sorted));
    let mut all = Vec::new();
    while let Some((player, boxes)) = queue.pop_front() {
        all.push((player, boxes.clone()));
        for d in [Direction::Up, Direction::Down, Direction::Left, Direction::Right] {
            let t = step(player, d);
            if level.wall_at(t) {
                continue;
            }
            let mut next = boxes.clone();
            if let Some(i) = boxes.iter().position(|q| *q == t) {
                let u = step(t, d);
                if level.wall_at(u) || boxes.contains(&u) {
                    continue;
                }
                next[i] = u;
                next.sort_by_key(|p| (p.y, p.x));
            }
            if seen.insert((t, next.clone())) {
                queue.push_back((t, next));
            }
        }
    }
    all
}

fn frozen_boxes_never_move_in(rows: &[&str], most: usize) {
    let solver = solver_of(rows, Strategy::Fast);
    let level = &solver.level;
    let mut free = Vec::new();
    for y in 0..level.height() {
        for x in 0..level.width() {
            let p = Position { x, y };
            if !level.wall_at(p) {
                free.push(p);
            }
        }
    }
    let mut sets: Vec<Vec<Position>> = vec![vec![]];
    let mut grown: Vec<Vec<Position>> = vec![vec![]];
    for _ in 0..most {
        let mut next = Vec::new();
        for set in &grown {
            for p in &free {
                if set.last().map_or(true, |q: &Position| (q.y, q.x) < (p.y, p.x)) {
                    let mut larger = set.clone();
                    larger.push(*p);
                    next.push(larger);
                }
            }
        }
        sets.extend(next.iter().cloned());
        grown = next;
    }
    let mut found = 0;
    for boxes in &sets {
        for b in boxes {
            let mut visited = Vec::new();
            if !State::is_freeze_deadlock(b, boxes, &solver, &mut visited) {
                continue;
            }
            found += 1;
            for player in &free {
                if boxes.contains(player) {
                    continue;
                }
                for (_, later) in reachable_placements(level, *player, boxes) {
                    assert!(later.contains(b), "{:?} moved from {:?} in {:?}", b, boxes, rows);
                }
            }
        }
    }
    assert!(found > 0);
}

#[test]
fn frozen_boxes_never_move_in_a_room() {
    frozen_boxes_never_move_in(&["#####", "#@--#", "#---#", "#---#", "#####"], 3);
}

#[test]
fn frozen_boxes_never_move_around_a_pillar() {
    frozen_boxes_never_move_in(&["######", "#@---#", "#-#--#", "#----#", "######"], 3);
}

#[test]
fn frozen_boxes_never_move_in_a_bent_room() {
    frozen_boxes_never_move_in(&["######", "#@-###", "#----#", "##---#", "######"], 3);
}

#[test]
fn lower_bound_follows_the_target_nearest_in_manhattan_distance() {
    // The target two cells above the box is four steps away by foot, the
    // target to its right three pushes: the lower bound says four.
    let rows = ["########", "#--.---#", "#--#---#", "#@-$--.#", "########"];
    let solver = solver_of(&rows, Strategy::Fast);
    assert_eq!(solver.heap[0].lower_bound(&solver), 4);
    let r = solve(&rows, Strategy::Fast, 15_000).unwrap();
    assert!(solves(&level_of(&rows), &r.actions));
    assert_eq!(r.pushes(), 3);
}

#[test]
fn timeout_discards_the_waiting_states() {
    let rows = ["#######", "#@-$-.#", "#-----#", "#######"];
    let mut solver = solver_of(&rows, Strategy::Fast);
    assert!(solver.step(false).is_none());
    assert_eq!(solver.pressure(), 2);
    let r = solver.step(true);
    assert_eq!(r.unwrap().unwrap_err(), SolveError::Timeout);
    assert_eq!(solver.pressure(), 0);
    assert_eq!(solver.visited_count(), 2);
    // A further search does not take up the old one.
    assert_eq!(solver.solve(Duration::from_secs(10)).unwrap_err(), SolveError::NoSolution);
    assert_eq!(solver.visited_count(), 2);
    // The same through `solve`: a large level, and no time at all.
    let mut solver = solver_of(&rows, Strategy::Fast);
    solver.initial(Strategy::Fast);
    assert_eq!(solver.pressure(), 2);
    assert_eq!(solver.solve(Duration::from_millis(0)).unwrap_err(), SolveError::Timeout);
    assert_eq!(solver.pressure(), 0);
}

#[test]
fn a_normalized_state_is_seen_once() {
    let rows = ["#######", "#@-$-.#", "#-----#", "#######"];
    let mut solver = solver_of(&rows, Strategy::OptimalMovePush);
    solver.initial(Strategy::OptimalMovePush);
    assert_eq!(solver.pressure(), 2);
    assert!(solver.step(false).is_none());
    assert_eq!(solver.visited_count(), 1);
    // The second opening state is the best again: it is expanded, but its
    // normalized form is among the states seen already.
    assert_eq!(solver.heap[solver.best_index()].movements.moves(), 0);
    assert!(solver.step(false).is_none());
    assert_eq!(solver.visited_count(), 1);
    assert!(solver.step(false).is_some() || solver.visited_count() == 2);
}

#[test]
fn solutions_count_their_pushes() {
    let rows = ["########", "#--@---#", "#-$-$--#", "#--.-.-#", "#------#", "########"];
    let r = solve(&rows, Strategy::Mixed, 15_000).unwrap();
    assert_eq!(r.pushes(), 4);
    assert_eq!(r.actions.iter().filter(|a| matches!(a, Action::Push(_))).count(), 4);
    assert_eq!(r.moves(), r.actions.len());
}

#[test]
fn freeze_verdict_that_rests_on_a_revisited_box_can_be_wrong() {
    // The look at the box at (4, 2) comes back to boxes that it has found
    // free before and counts them as frozen: it finds the box frozen. Three
    // pushes move it all the same.
    let rows = [
        "########", "#$@$--$#", "#-$$$-$#", "#$$-$$-#", "#$$$$$-#", "#-$$-$-#", "########",
    ];
    let level = level_of(&rows);
    let solver = Solver::from(level_of(&rows));
    let b = Position { x: 4, y: 2 };
    assert!(level.box_positions.contains(&b));
    let mut visited = Vec::new();
    assert!(State::is_freeze_deadlock(&b, &level.box_positions, &solver, &mut visited));
    let pushes = [
        Action::Push(Direction::Right),
        Action::Push(Direction::Down),
        Action::Push(Direction::Right),
    ];
    let (player, boxes) = replay(&level, &pushes).unwrap();
    assert_eq!(player, b);
    assert!(!boxes.contains(&b));
    assert!(boxes.contains(&Position { x: 5, y: 2 }));
    let mut player = level.player_position;
    let mut boxes = level.box_positions.clone();
    for a in pushes {
        assert!(sokoban_solver::rules::carry_out(&level, &mut player, &mut boxes, a));
    }
    assert!(!boxes.contains(&b));
}
