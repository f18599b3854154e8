//! Why a search can be repeated: two searches that begin alike and get the
//! same answers from the clock end alike.

use crate::actions::Actions;
use crate::level::Level;
use crate::search::{
    is_best, noted, round, same_cells, searched, seen, sift, stepped,
};
use crate::solver::{SolveError, Solver};
use crate::state::{lemma_anchor_unique, State};
use crate::alike::{
    contexts_alike, lemma_bound_alike, lemma_expected_alike, lemma_obstacles_alike,
};
use crate::search::lemma_ready;
use crate::successors::{emitted, expected, successors_fit};
use crate::walk::obstacles;
use vstd::prelude::*;

verus! {

/// Whether two states agree in all that they hold: the cells, the actions
/// with their count of pushes, the lower bound and the priority.
pub open spec fn alike(a: &State, b: &State) -> bool {
    &&& same_cells(a, b)
    &&& a.movements@ == b.movements@
    &&& a.movements.pushes == b.movements.pushes
    &&& a.lower_bound == b.lower_bound
    &&& a.heuristic == b.heuristic
}

/// Whether two lists of states agree place by place.
pub open spec fn lists_alike(a: Seq<State>, b: Seq<State>) -> bool {
    a.len() == b.len() && forall|i: int| 0 <= i < a.len() ==> alike(#[trigger] &a[i], &b[i])
}

/// Whether two lists of states agree place by place in their cells.
pub open spec fn cells_alike(a: Seq<State>, b: Seq<State>) -> bool {
    a.len() == b.len() && forall|i: int| 0 <= i < a.len() ==> same_cells(#[trigger] &a[i], &b[i])
}

/// Whether two solvers agree in the level, the table and the strategy, in
/// the waiting states, and in the cells of the states seen.
pub open spec fn solvers_alike(a: &Solver, b: &Solver) -> bool {
    &&& contexts_alike(a, b)
    &&& lists_alike(a.heap@, b.heap@)
    &&& cells_alike(a.visited@, b.visited@)
}

/// Whether two rounds end alike: both go on, both fail in the same way, or
/// both return the same actions.
pub open spec fn results_agree(
    a: Option<Result<Actions, SolveError>>,
    b: Option<Result<Actions, SolveError>>,
) -> bool {
    match (a, b) {
        (None, None) => true,
        (Some(Err(x)), Some(Err(y))) => x == y,
        (Some(Ok(m)), Some(Ok(n))) => m@ == n@ && m.pushes == n.pushes,
        _ => false,
    }
}

/// The best waiting state has the same place in lists that are alike.
pub proof fn lemma_best_alike(a: Seq<State>, b: Seq<State>, k: int, j: int)
    requires
        lists_alike(a, b),
        is_best(a, k),
        is_best(b, j),
    ensures
        k == j,
{
    assert(alike(&a[k], &b[k]));
    assert(alike(&a[j], &b[j]));
    if k < j {
        assert(b[j].heuristic < b[k].heuristic);
        assert(a[k].heuristic <= a[j].heuristic);
    } else if j < k {
        assert(a[k].heuristic < a[j].heuristic);
        assert(b[j].heuristic <= b[k].heuristic);
    }
}

/// Whether a state has been seen depends on its cells and on the cells of
/// the states seen alone.
pub proof fn lemma_seen_alike(
    level: &Level,
    other: &Level,
    v: Seq<State>,
    w: Seq<State>,
    s: &State,
    t: &State,
)
    requires
        crate::alike::levels_alike(level, other),
        cells_alike(v, w),
        same_cells(s, t),
    ensures
        seen(level, v, s) == seen(other, w, t),
{
    lemma_obstacles_alike(level, other, s.box_positions@);
    let blocked = obstacles(level, s.box_positions@);
    if seen(level, v, s) {
        let i = choose|i: int|
            0 <= i < v.len() && crate::state::anchor_of(
                blocked,
                s.player_position,
                (#[trigger] v[i]).player_position,
            ) && v[i].box_positions@ == s.box_positions@;
        assert(same_cells(&v[i], &w[i]));
        assert(crate::state::anchor_of(blocked, t.player_position, w[i].player_position));
    }
    if seen(level, w, t) {
        let i = choose|i: int|
            0 <= i < w.len() && crate::state::anchor_of(
                blocked,
                t.player_position,
                (#[trigger] w[i]).player_position,
            ) && w[i].box_positions@ == t.box_positions@;
        assert(same_cells(&v[i], &w[i]));
        assert(crate::state::anchor_of(blocked, s.player_position, v[i].player_position));
    }
}

/// Noting states with the same cells among lists that agree in their cells
/// gives lists that agree in their cells.
pub proof fn lemma_noted_alike(
    level: &Level,
    other: &Level,
    v: Seq<State>,
    v2: Seq<State>,
    w: Seq<State>,
    w2: Seq<State>,
    s: &State,
    t: &State,
)
    requires
        crate::alike::levels_alike(level, other),
        cells_alike(v, w),
        same_cells(s, t),
        noted(level, v, v2, s),
        noted(other, w, w2, t),
    ensures
        cells_alike(v2, w2),
{
    lemma_seen_alike(level, other, v, w, s, t);
    lemma_obstacles_alike(level, other, s.box_positions@);
    if !seen(level, v, s) {
        lemma_anchor_unique(
            obstacles(level, s.box_positions@),
            s.player_position,
            v2.last().player_position,
            w2.last().player_position,
        );
        assert forall|i: int| 0 <= i < v2.len() implies same_cells(#[trigger] &v2[i], &w2[i]) by {
            if i < v.len() {
                assert(v2[i] == v2.drop_last()[i]);
                assert(w2[i] == w2.drop_last()[i]);
                assert(same_cells(&v[i], &w[i]));
            }
        }
    }
}

/// States that are alike have successors that are alike.
pub proof fn lemma_successors_alike(
    a: &Solver,
    b: &Solver,
    s: &State,
    t: &State,
    x: Seq<State>,
    y: Seq<State>,
)
    requires
        contexts_alike(a, b),
        a.level.in_bounds(s.player_position),
        alike(s, t),
        successors_fit(a, s, x),
        successors_fit(b, t, y),
    ensures
        lists_alike(x, y),
{
    reveal(successors_fit);
    let n = 4 * s.box_positions@.len();
    lemma_expected_alike(a, b, s.player_position, s.box_positions@, s.movements@, n);
    let all = expected(a, s.player_position, s.box_positions@, s.movements@, n);
    assert forall|i: int| 0 <= i < x.len() implies alike(#[trigger] &x[i], &y[i]) by {
        assert(emitted(a, s, &x[i], all[i]));
        assert(emitted(b, t, &y[i], all[i]));
        lemma_bound_alike(&a.lower_bounds, &b.lower_bounds, x[i].box_positions@);
    }
}

/// Successors that are alike are sifted alike by lists of seen states that
/// agree in their cells.
pub proof fn lemma_sift_alike(
    level: &Level,
    other: &Level,
    v: Seq<State>,
    w: Seq<State>,
    x: Seq<State>,
    y: Seq<State>,
    n: nat,
)
    requires
        crate::alike::levels_alike(level, other),
        cells_alike(v, w),
        lists_alike(x, y),
        n <= x.len(),
    ensures
        sift(level, v, x, n).0 == sift(other, w, y, n).0,
        lists_alike(sift(level, v, x, n).1, sift(other, w, y, n).1),
    decreases n,
{
    if n > 0 {
        lemma_sift_alike(level, other, v, w, x, y, (n - 1) as nat);
        assert(alike(&x[n - 1], &y[n - 1]));
        lemma_seen_alike(level, other, v, w, &x[n - 1], &y[n - 1]);
        let p = sift(level, v, x, (n - 1) as nat);
        let q = sift(other, w, y, (n - 1) as nat);
        if p.0 is None && !seen(level, v, &x[n - 1]) && x[n - 1].lower_bound != 0 {
            let p2 = p.1.push(x[n - 1]);
            let q2 = q.1.push(y[n - 1]);
            assert forall|i: int| 0 <= i < p2.len() implies alike(#[trigger] &p2[i], &q2[i]) by {
                if i < p.1.len() {
                    assert(alike(&p.1[i], &q.1[i]));
                }
            }
        }
    }
}

/// Taking the same place out of lists that are alike and adding lists that
/// are alike gives lists that are alike.
pub proof fn lemma_lists_alike(a: Seq<State>, b: Seq<State>, k: int, x: Seq<State>, y: Seq<State>)
    requires
        lists_alike(a, b),
        lists_alike(x, y),
        0 <= k < a.len(),
    ensures
        lists_alike(a.remove(k) + x, b.remove(k) + y),
{
    let p = a.remove(k) + x;
    let q = b.remove(k) + y;
    assert forall|i: int| 0 <= i < p.len() implies alike(#[trigger] &p[i], &q[i]) by {
        if i < k {
            assert(alike(&a[i], &b[i]));
        } else if i < a.len() - 1 {
            assert(alike(&a[i + 1], &b[i + 1]));
        } else {
            assert(alike(&x[i - (a.len() - 1)], &y[i - (a.len() - 1)]));
        }
    }
}

/// A round is determined: two rounds that begin with solvers that are
/// alike and get the same answer from the clock end with solvers that are
/// alike, and end alike.
pub proof fn rounds_agree(
    a: &Solver,
    a2: &Solver,
    b: &Solver,
    b2: &Solver,
    late: bool,
    r: Option<Result<Actions, SolveError>>,
    q: Option<Result<Actions, SolveError>>,
)
    requires
        solvers_alike(a, b),
        round(a, a2, late, r),
        round(b, b2, late, q),
    ensures
        solvers_alike(a2, b2),
        results_agree(r, q),
{
    if a.heap@.len() > 0 {
        let (k, x) = choose|k: int, x: Seq<State>| #[trigger] stepped(a, a2, k, x, late, r);
        let (j, y) = choose|j: int, y: Seq<State>| #[trigger] stepped(b, b2, j, y, late, q);
        lemma_best_alike(a.heap@, b.heap@, k, j);
        assert(alike(&a.heap@[k], &b.heap@[k]));
        lemma_ready(a, &a.heap@[k]);
        lemma_noted_alike(
            &a.level,
            &b.level,
            a.visited@,
            a2.visited@,
            b.visited@,
            b2.visited@,
            &a.heap@[k],
            &b.heap@[k],
        );
        if late {
            assert(a2.heap@ =~= b2.heap@);
        } else {
            lemma_successors_alike(a, b, &a.heap@[k], &b.heap@[k], x, y);
            lemma_sift_alike(&a.level, &b.level, a2.visited@, b2.visited@, x, y, x.len());
            let s = sift(&a.level, a2.visited@, x, x.len());
            let t = sift(&b.level, b2.visited@, y, y.len());
            lemma_lists_alike(a.heap@, b.heap@, k, s.1, t.1);
            if let Some(i) = s.0 {
                lemma_sift_index(&a.level, a2.visited@, x, x.len());
                assert(alike(&x[i], &y[i]));
            }
        }
    } else {
        assert forall|i: int| 0 <= i < a2.visited@.len() implies same_cells(
            #[trigger] &a2.visited@[i],
            &b2.visited@[i],
        ) by {
            assert(same_cells(&a.visited@[i], &b.visited@[i]));
        }
    }
}

/// The place of a solved successor that sifting finds lies among the
/// successors looked at.
pub proof fn lemma_sift_index(level: &Level, v: Seq<State>, x: Seq<State>, n: nat)
    ensures
        sift(level, v, x, n).0 matches Some(i) ==> 0 <= i < n,
    decreases n,
{
    if n > 0 {
        lemma_sift_index(level, v, x, (n - 1) as nat);
    }
}

/// Two searches that go side by side are alike round by round.
pub proof fn lemma_side_by_side(
    t: Seq<Solver>,
    l: Seq<bool>,
    r: Result<Actions, SolveError>,
    u: Seq<Solver>,
    m: Seq<bool>,
    q: Result<Actions, SolveError>,
    i: int,
)
    requires
        searched(t, l, r),
        searched(u, m, q),
        solvers_alike(&t[0], &u[0]),
        forall|j: int| 0 <= j < l.len() && j < m.len() ==> l[j] == m[j],
        0 <= i <= t.len() - 2,
        i <= u.len() - 2,
    ensures
        solvers_alike(&t[i], &u[i]),
    decreases i,
{
    if i > 0 {
        lemma_side_by_side(t, l, r, u, m, q, i - 1);
        assert(round(&t[i - 1], &t[i - 1 + 1], l[i - 1], None));
        assert(round(&u[i - 1], &u[i - 1 + 1], m[i - 1], None));
        rounds_agree(&t[i - 1], &t[i], &u[i - 1], &u[i], l[i - 1], None, None);
    }
}

/// A search can be repeated: two searches that begin with solvers that are
/// alike, and to which the clock gives the same answers round by round,
/// take the same number of rounds, end with the same result, and leave
/// solvers that are alike. In particular, two searches on the same level
/// under the same strategy on which the time never runs out return the
/// same actions, or fail both for want of a solution.
pub proof fn searches_agree(
    t: Seq<Solver>,
    l: Seq<bool>,
    r: Result<Actions, SolveError>,
    u: Seq<Solver>,
    m: Seq<bool>,
    q: Result<Actions, SolveError>,
)
    requires
        searched(t, l, r),
        searched(u, m, q),
        solvers_alike(&t[0], &u[0]),
        forall|j: int| 0 <= j < l.len() && j < m.len() ==> l[j] == m[j],
    ensures
        t.len() == u.len(),
        results_agree(Some(r), Some(q)),
        solvers_alike(&t.last(), &u.last()),
{
    let n = if t.len() <= u.len() {
        t.len() - 2
    } else {
        u.len() - 2
    };
    lemma_side_by_side(t, l, r, u, m, q, n);
    if t.len() < u.len() {
        assert(round(&u[n], &u[n + 1], m[n], None));
        rounds_agree(&t[n], &t[n + 1], &u[n], &u[n + 1], l[n], Some(r), None);
    } else if u.len() < t.len() {
        assert(round(&t[n], &t[n + 1], l[n], None));
        rounds_agree(&t[n], &t[n + 1], &u[n], &u[n + 1], l[n], None, Some(q));
    } else {
        rounds_agree(&t[n], &t[n + 1], &u[n], &u[n + 1], l[n], Some(r), Some(q));
    }
}

} // verus!
