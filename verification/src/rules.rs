//! The rules of the game: what a move and a push do to the player and the
//! boxes, and what a sequence of actions leads to.

use crate::level::{lemma_update_cells, list_contains, strictly_sorted, Level};
use crate::position::{Action, Position};
use vstd::prelude::*;

verus! {

/// Where the player and the boxes stand.
pub struct Placement {
    pub player: Position,
    pub boxes: Set<Position>,
}

/// The placement after one action, or `None` where the rules forbid it. A
/// move takes the player to a neighbouring cell that holds neither a wall nor
/// a box. A push takes the player to a neighbouring cell that holds a box,
/// and that box one cell further, to a cell that holds neither a wall nor a
/// box.
pub open spec fn act(level: &Level, c: Placement, a: Action) -> Option<Placement> {
    match a {
        Action::Move(d) => {
            let t = c.player.step(d);
            if c.player.can_step(d) && !level.is_wall(t) && !c.boxes.contains(t) {
                Some(Placement { player: t, boxes: c.boxes })
            } else {
                None
            }
        },
        Action::Push(d) => {
            let b = c.player.step(d);
            let t = b.step(d);
            if c.player.can_step(d) && b.can_step(d) && c.boxes.contains(b) && !level.is_wall(t)
                && !c.boxes.contains(t) {
                Some(Placement { player: b, boxes: c.boxes.remove(b).insert(t) })
            } else {
                None
            }
        },
    }
}

/// The placement after a sequence of actions, or `None` where one of them is
/// forbidden.
pub open spec fn replay(level: &Level, c: Placement, actions: Seq<Action>) -> Option<Placement>
    decreases actions.len(),
{
    if actions.len() == 0 {
        Some(c)
    } else {
        match replay(level, c, actions.drop_last()) {
            Some(m) => act(level, m, actions.last()),
            None => None,
        }
    }
}

/// Whether every box of the placement stands on a target.
pub open spec fn solved(level: &Level, c: Placement) -> bool {
    forall|b: Position| #[trigger] c.boxes.contains(b) ==> level.is_target(b)
}

/// Replaying one more action is acting on what the others lead to.
pub proof fn lemma_replay_push(level: &Level, c: Placement, actions: Seq<Action>, a: Action)
    ensures
        replay(level, c, actions.push(a)) == match replay(level, c, actions) {
            Some(m) => act(level, m, a),
            None => None,
        },
{
    assert(actions.push(a).drop_last() =~= actions);
}

/// Replaying a concatenation is replaying its second part from where the
/// first leads.
pub proof fn lemma_replay_concat(level: &Level, c: Placement, a: Seq<Action>, b: Seq<Action>)
    ensures
        replay(level, c, a + b) == match replay(level, c, a) {
            Some(m) => replay(level, m, b),
            None => None,
        },
    decreases b.len(),
{
    if b.len() == 0 {
        assert(a + b =~= a);
    } else {
        assert((a + b).drop_last() =~= a + b.drop_last());
        lemma_replay_concat(level, c, a, b.drop_last());
    }
}

/// Tile flags other than the walls do not matter to the rules.
pub proof fn lemma_replay_same_walls(
    level: &Level,
    other: &Level,
    c: Placement,
    actions: Seq<Action>,
)
    requires
        forall|p: Position| level.is_wall(p) == other.is_wall(p),
    ensures
        replay(level, c, actions) == replay(other, c, actions),
    decreases actions.len(),
{
    if actions.len() > 0 {
        lemma_replay_same_walls(level, other, c, actions.drop_last());
    }
}

/// Where the player and the boxes of the level start.
pub open spec fn opening(level: &Level) -> Placement {
    Placement { player: level.player_position, boxes: level.box_positions@.to_set() }
}

/// Whether replaying the actions from the level's opening is allowed by the
/// rules and leaves every box on a target.
pub open spec fn is_solution(level: &Level, actions: Seq<Action>) -> bool {
    match replay(level, opening(level), actions) {
        Some(c) => solved(level, c),
        None => false,
    }
}

/// A list in row-major order holds no cell twice.
pub proof fn lemma_sorted_no_duplicates(list: Seq<Position>)
    requires
        strictly_sorted(list),
    ensures
        list.no_duplicates(),
{
    assert forall|a: int, b: int| 0 <= a < list.len() && 0 <= b < list.len() && a != b implies list[a]
        != list[b] by {
        if a < b {
            assert(list[a].before(list[b]));
        } else {
            assert(list[b].before(list[a]));
        }
    }
}

/// An action after a forbidden one changes nothing: the sequence stays forbidden.
pub proof fn lemma_replay_stuck(level: &Level, c: Placement, actions: Seq<Action>, k: int)
    requires
        0 <= k <= actions.len(),
        replay(level, c, actions.subrange(0, k)) is None,
    ensures
        replay(level, c, actions) is None,
{
    assert(actions =~= actions.subrange(0, k) + actions.subrange(k, actions.len() as int));
    lemma_replay_concat(level, c, actions.subrange(0, k), actions.subrange(k, actions.len() as int));
}

/// The place of the cell `p` in `list`, if it is there.
fn place_of(list: &Vec<Position>, p: Position) -> (r: Option<usize>)
    ensures
        match r {
            Some(i) => i < list@.len() && list@[i as int] == p,
            None => !list@.contains(p),
        },
{
    let mut i: usize = 0;
    while i < list.len()
        invariant
            i <= list@.len(),
            forall|j: int| 0 <= j < i ==> list@[j] != p,
        decreases list@.len() - i,
    {
        if list[i] == p {
            return Some(i);
        }
        i = i + 1;
    }
    None
}

/// Carries out one action on the player's cell and the list of boxes;
/// `false` where the rules forbid it, and then nothing changes.
pub fn carry_out(level: &Level, player: &mut Position, boxes: &mut Vec<Position>, action: Action) -> (ok:
    bool)
    requires
        level.shape_ok(),
        old(boxes)@.no_duplicates(),
    ensures
        final(boxes)@.no_duplicates(),
        final(boxes)@.len() == old(boxes)@.len(),
        match act(level, Placement { player: *old(player), boxes: old(boxes)@.to_set() }, action) {
            Some(c) => ok && *final(player) == c.player && final(boxes)@.to_set() == c.boxes,
            None => !ok && *final(player) == *old(player) && final(boxes)@ == old(boxes)@,
        },
{
    match action {
        Action::Move(d) => {
            match player.neighbor(d) {
                Some(t) => {
                    if level.wall_at(t) || list_contains(boxes, t) {
                        false
                    } else {
                        *player = t;
                        true
                    }
                },
                None => false,
            }
        },
        Action::Push(d) => {
            let b = match player.neighbor(d) {
                Some(b) => b,
                None => {
                    return false;
                },
            };
            let t = match b.neighbor(d) {
                Some(t) => t,
                None => {
                    return false;
                },
            };
            let i = match place_of(boxes, b) {
                Some(i) => i,
                None => {
                    return false;
                },
            };
            if level.wall_at(t) || list_contains(boxes, t) {
                return false;
            }
            proof {
                lemma_update_cells(boxes@, i as int, t);
                assert(boxes@.contains(b));
            }
            boxes.set(i, t);
            *player = b;
            true
        },
    }
}

/// Decides [`is_solution`]: replays the actions from the level's opening
/// and looks whether every box stands on a target in the end.
pub fn check_solution(level: &Level, actions: &Vec<Action>) -> (b: bool)
    requires
        level.shape_ok(),
        strictly_sorted(level.box_positions@),
    ensures
        b == is_solution(level, actions@),
{
    let mut player = level.player_position;
    let mut boxes = crate::level::copy_list(&level.box_positions);
    let ghost start = opening(level);
    proof {
        lemma_sorted_no_duplicates(level.box_positions@);
        assert(actions@.subrange(0, 0) =~= Seq::<Action>::empty());
    }
    let mut i: usize = 0;
    while i < actions.len()
        invariant
            i <= actions@.len(),
            level.shape_ok(),
            start == opening(level),
            boxes@.no_duplicates(),
            replay(level, start, actions@.subrange(0, i as int)) == Some(
                Placement { player, boxes: boxes@.to_set() },
            ),
        decreases actions@.len() - i,
    {
        proof {
            let next = actions@.subrange(0, i + 1);
            assert(next.drop_last() =~= actions@.subrange(0, i as int));
            assert(next.last() == actions@[i as int]);
        }
        if !carry_out(level, &mut player, &mut boxes, actions[i]) {
            proof {
                lemma_replay_stuck(level, start, actions@, i + 1);
            }
            return false;
        }
        i = i + 1;
    }
    assert(actions@.subrange(0, i as int) =~= actions@);
    let mut j: usize = 0;
    while j < boxes.len()
        invariant
            j <= boxes@.len(),
            start == opening(level),
            replay(level, start, actions@) == Some(Placement { player, boxes: boxes@.to_set() }),
            forall|k: int| 0 <= k < j ==> level.is_target(#[trigger] boxes@[k]),
        decreases boxes@.len() - j,
    {
        if !list_contains(&level.target_positions, boxes[j]) {
            proof {
                let c = Placement { player, boxes: boxes@.to_set() };
                assert(boxes@.contains(boxes@[j as int]));
                assert(c.boxes.contains(boxes@[j as int]));
                assert(!level.is_target(boxes@[j as int]));
                assert(!solved(level, c));
            }
            return false;
        }
        j = j + 1;
    }
    proof {
        assert forall|q: Position| #[trigger] boxes@.to_set().contains(q) implies level.is_target(
            q,
        ) by {
            let k = choose|k: int| 0 <= k < boxes@.len() && boxes@[k] == q;
            assert(level.is_target(boxes@[k]));
        }
    }
    true
}

} // verus!
