//! A* search over the board, moving by jumps of three cells.
use vstd::prelude::*;

use crate::grid::{
    at, chebyshev, compass_step, in_grid, is_jump, is_route, lemma_prefix_cost_step, lemma_remaining_cost,
    lemma_route_chebyshev, positive_steps, route_cost, step_ok, walkable, COLS, ROWS,
};

verus! {

/// An entry of the open set: a position and its priority `g + h`.
///
/// The priority is held in an `i64`, wide enough that `g + h` never
/// overflows whatever the board holds.
#[derive(Clone, Copy)]
struct State {
    cost: i64,
    position: (usize, usize),
}

/// The Chebyshev distance between `a` and `b` divided by the jump size, as an `i32`.
pub open spec fn heuristic_spec(a: (usize, usize), b: (usize, usize)) -> i32 {
    (chebyshev(a, b) / 3) as i32
}

/// Chebyshev distance heuristic, divided by 3 to match the jump size.
pub fn heuristic(a: (usize, usize), b: (usize, usize)) -> (h: i32)
    ensures
        h == heuristic_spec(a, b),
{
    let dr = if a.0 >= b.0 {
        a.0 - b.0
    } else {
        b.0 - a.0
    };
    let dc = if a.1 >= b.1 {
        a.1 - b.1
    } else {
        b.1 - a.1
    };
    let d = if dr >= dc {
        dr
    } else {
        dc
    };
    (d / 3) as i32
}

/// Lexicographic order on positions.
spec fn pos_less(a: (usize, usize), b: (usize, usize)) -> bool {
    a.0 < b.0 || (a.0 == b.0 && a.1 < b.1)
}

/// `a` leaves the open set before `b`: lower priority first, and among equal
/// priorities the greater position first.
spec fn pops_before(a: State, b: State) -> bool {
    a.cost < b.cost || (a.cost == b.cost && pos_less(b.position, a.position))
}

fn pops_before_exec(a: &State, b: &State) -> (r: bool)
    ensures
        r == pops_before(*a, *b),
{
    a.cost < b.cost || (a.cost == b.cost && (b.position.0 < a.position.0 || (b.position.0
        == a.position.0 && b.position.1 < a.position.1)))
}

/// Takes out of the open set the entry that leaves it first.
fn pop_best(open: &mut Vec<State>) -> (res: Option<State>)
    ensures
        res is None <==> old(open)@.len() == 0,
        res is None ==> final(open)@ == old(open)@,
        res matches Some(e) ==> exists|i: int|
            0 <= i < old(open)@.len() && old(open)@[i] == e && final(open)@ == old(open)@.remove(i)
                && forall|j: int| 0 <= j < old(open)@.len() ==> !pops_before(#[trigger] old(open)@[j], e),
{
    if open.len() == 0 {
        return None;
    }
    let mut best: usize = 0;
    let mut i: usize = 1;
    while i < open.len()
        invariant
            1 <= i <= open.len(),
            best < i,
            forall|j: int| 0 <= j < i ==> !pops_before(#[trigger] open@[j], open@[best as int]),
        decreases open.len() - i,
    {
        if pops_before_exec(&open[i], &open[best]) {
            best = i;
        }
        i = i + 1;
    }
    let ghost before = open@;
    let e = open.remove(best);
    assert(before[best as int] == e);
    Some(e)
}

/// The direction in which `q` lies from `u`, for `q` one jump from `u`.
spec fn dir_index(u: (usize, usize), q: (usize, usize)) -> int {
    let dr = (q.0 - u.0) / 3;
    let dc = (q.1 - u.1) / 3;
    if dr == 0 && dc == 1 {
        0
    } else if dr == 1 && dc == 0 {
        1
    } else if dr == 0 && dc == -1 {
        2
    } else if dr == -1 && dc == 0 {
        3
    } else if dr == 1 && dc == 1 {
        4
    } else if dr == -1 && dc == -1 {
        5
    } else if dr == 1 && dc == -1 {
        6
    } else {
        7
    }
}

// ----- sums, for the termination measure -----

spec fn sum_seq(s: Seq<int>) -> int
    decreases s.len(),
{
    if s.len() == 0 {
        0
    } else {
        sum_seq(s.drop_last()) + s.last()
    }
}

proof fn lemma_sum_update(s: Seq<int>, i: int, v: int)
    requires
        0 <= i < s.len(),
    ensures
        sum_seq(s.update(i, v)) == sum_seq(s) - s[i] + v,
    decreases s.len(),
{
    if i == s.len() - 1 {
        assert(s.update(i, v).drop_last() =~= s.drop_last());
    } else {
        assert(s.update(i, v).drop_last() =~= s.drop_last().update(i, v));
        lemma_sum_update(s.drop_last(), i, v);
    }
}

proof fn lemma_sum_nonneg(s: Seq<int>)
    requires
        forall|i: int| 0 <= i < s.len() ==> s[i] >= 0,
    ensures
        sum_seq(s) >= 0,
    decreases s.len(),
{
    if s.len() > 0 {
        lemma_sum_nonneg(s.drop_last());
    }
}

spec fn row_values(row: [i32; COLS]) -> Seq<int> {
    row@.map_values(|x: i32| x as int)
}

spec fn grid_total(g: [[i32; COLS]; ROWS]) -> int {
    sum_seq(g@.map_values(|row: [i32; COLS]| sum_seq(row_values(row))))
}

proof fn lemma_grid_total_update(g: [[i32; COLS]; ROWS], h: [[i32; COLS]; ROWS], p: (usize, usize))
    requires
        in_grid(p),
        forall|q: (usize, usize)| in_grid(q) && q != p ==> #[trigger] at(h, q) == at(g, q),
    ensures
        grid_total(h) == grid_total(g) - at(g, p) + at(h, p),
{
    let r = p.0 as int;
    let c = p.1 as int;
    let f = |row: [i32; COLS]| sum_seq(row_values(row));
    assert(row_values(h[r]) =~= row_values(g[r]).update(c, at(h, p))) by {
        assert forall|j: int| 0 <= j < COLS implies row_values(h[r])[j] == row_values(g[r]).update(
            c,
            at(h, p),
        )[j] by {
            if j != c {
                assert(at(h, (p.0, j as usize)) == at(g, (p.0, j as usize)));
            }
        }
    }
    lemma_sum_update(row_values(g[r]), c, at(h, p));
    assert(h@.map_values(f) =~= g@.map_values(f).update(r, f(h[r]))) by {
        assert forall|i: int| 0 <= i < ROWS implies h@.map_values(f)[i] == g@.map_values(f).update(
            r,
            f(h[r]),
        )[i] by {
            if i != r {
                assert(row_values(h[i]) =~= row_values(g[i])) by {
                    assert forall|j: int| 0 <= j < COLS implies row_values(h[i])[j] == row_values(
                        g[i],
                    )[j] by {
                        assert(at(h, (i as usize, j as usize)) == at(g, (i as usize, j as usize)));
                    }
                }
            }
        }
    }
    lemma_sum_update(g@.map_values(f), r, f(h[r]));
}

proof fn lemma_grid_total_nonneg(g: [[i32; COLS]; ROWS])
    requires
        forall|p: (usize, usize)| in_grid(p) ==> #[trigger] at(g, p) >= 0,
    ensures
        grid_total(g) >= 0,
{
    let f = |row: [i32; COLS]| sum_seq(row_values(row));
    assert forall|i: int| 0 <= i < ROWS implies g@.map_values(f)[i] >= 0 by {
        assert forall|j: int| 0 <= j < COLS implies row_values(g[i])[j] >= 0 by {
            assert(at(g, (i as usize, j as usize)) >= 0);
        }
        lemma_sum_nonneg(row_values(g[i]));
    }
    lemma_sum_nonneg(g@.map_values(f));
}


// ----- the search invariant -----

/// The recorded predecessor of `p`, if any.
spec fn parent(came: [[Option<(usize, usize)>; COLS]; ROWS], p: (usize, usize)) -> Option<(usize, usize)> {
    came[p.0 as int][p.1 as int]
}

/// Every score is between 0 and `i32::MAX`, and the start scores 0 with no predecessor.
spec fn inv_scores(g: [[i32; COLS]; ROWS], came: [[Option<(usize, usize)>; COLS]; ROWS], start: (usize, usize)) -> bool {
    &&& in_grid(start)
    &&& at(g, start) == 0
    &&& parent(came, start) is None
    &&& forall|p: (usize, usize)| in_grid(p) ==> 0 <= #[trigger] at(g, p) <= i32::MAX
}

/// `p` is reached from its predecessor by one jump onto a walkable cell, its score
/// covers the predecessor's score plus its own price, and following predecessors
/// strictly lowers the pair (score, depth).
spec fn tree_link(
    m: [[i32; COLS]; ROWS],
    g: [[i32; COLS]; ROWS],
    came: [[Option<(usize, usize)>; COLS]; ROWS],
    depth: spec_fn((usize, usize)) -> int,
    p: (usize, usize),
) -> bool {
    match parent(came, p) {
        Some(u) => {
            &&& in_grid(u)
            &&& is_jump(u, p)
            &&& walkable(m, p)
            &&& at(g, p) >= at(g, u) + at(m, p)
            &&& (at(g, p) > at(g, u) || depth(p) > depth(u))
        },
        None => false,
    }
}

spec fn inv_tree(
    m: [[i32; COLS]; ROWS],
    g: [[i32; COLS]; ROWS],
    came: [[Option<(usize, usize)>; COLS]; ROWS],
    depth: spec_fn((usize, usize)) -> int,
    start: (usize, usize),
) -> bool {
    &&& forall|p: (usize, usize)| #[trigger] depth(p) >= 0
    &&& forall|p: (usize, usize)|
        in_grid(p) && p != start && at(g, p) < i32::MAX ==> #[trigger] tree_link(m, g, came, depth, p)
}

/// Every entry of the open set names a scored position and a priority no lower than
/// its current score plus its heuristic.
spec fn inv_open(g: [[i32; COLS]; ROWS], open: Seq<State>, goal: (usize, usize)) -> bool {
    forall|i: int|
        0 <= i < open.len() ==> {
            let e = #[trigger] open[i];
            &&& in_grid(e.position)
            &&& at(g, e.position) < i32::MAX
            &&& e.cost >= at(g, e.position) + heuristic_spec(e.position, goal)
        }
}

spec fn has_entry(open: Seq<State>, p: (usize, usize), k: int) -> bool {
    exists|i: int| 0 <= i < open.len() && (#[trigger] open[i]).position == p && open[i].cost == k
}

/// No jump out of `p` would lower a score.
spec fn relaxed(m: [[i32; COLS]; ROWS], g: [[i32; COLS]; ROWS], p: (usize, usize)) -> bool {
    forall|q: (usize, usize)|
        walkable(m, q) && #[trigger] is_jump(p, q) ==> at(g, q) <= at(g, p) + at(m, q)
}

/// `p` waits in the open set with its current priority, or it has been expanded
/// (and then it is not the goal, unless the goal was never reached).
spec fn settled(
    m: [[i32; COLS]; ROWS],
    g: [[i32; COLS]; ROWS],
    open: Seq<State>,
    goal: (usize, usize),
    p: (usize, usize),
) -> bool {
    ||| has_entry(open, p, at(g, p) + heuristic_spec(p, goal))
    ||| (relaxed(m, g, p) && (p == goal ==> at(g, p) == i32::MAX))
}

spec fn frontier_except(
    m: [[i32; COLS]; ROWS],
    g: [[i32; COLS]; ROWS],
    open: Seq<State>,
    goal: (usize, usize),
    u: (usize, usize),
) -> bool {
    forall|p: (usize, usize)| in_grid(p) && p != u ==> #[trigger] settled(m, g, open, goal, p)
}

spec fn frontier(
    m: [[i32; COLS]; ROWS],
    g: [[i32; COLS]; ROWS],
    open: Seq<State>,
    goal: (usize, usize),
) -> bool {
    forall|p: (usize, usize)| in_grid(p) ==> #[trigger] settled(m, g, open, goal, p)
}

/// The jumps out of `u` in the first `k` directions would lower no score.
spec fn partly_relaxed(m: [[i32; COLS]; ROWS], g: [[i32; COLS]; ROWS], u: (usize, usize), k: int) -> bool {
    forall|q: (usize, usize)|
        walkable(m, q) && #[trigger] is_jump(u, q) && dir_index(u, q) < k ==> at(g, q) <= at(g, u) + at(m, q)
}

spec fn inv_core(
    m: [[i32; COLS]; ROWS],
    g: [[i32; COLS]; ROWS],
    came: [[Option<(usize, usize)>; COLS]; ROWS],
    depth: spec_fn((usize, usize)) -> int,
    open: Seq<State>,
    start: (usize, usize),
    goal: (usize, usize),
) -> bool {
    &&& inv_scores(g, came, start)
    &&& inv_tree(m, g, came, depth, start)
    &&& inv_open(g, open, goal)
}

/// Relaxes the jump out of `u` in direction `k`.
fn relax(
    matrix: &[[i32; COLS]; ROWS],
    g: &mut [[i32; COLS]; ROWS],
    came: &mut [[Option<(usize, usize)>; COLS]; ROWS],
    open: &mut Vec<State>,
    u: (usize, usize),
    k: usize,
    start: (usize, usize),
    goal: (usize, usize),
    Ghost(depth): Ghost<spec_fn((usize, usize)) -> int>,
) -> (new_depth: Ghost<spec_fn((usize, usize)) -> int>)
    requires
        k < 8,
        in_grid(u),
        at(*old(g), u) < i32::MAX,
        inv_core(*matrix, *old(g), *old(came), depth, old(open)@, start, goal),
        frontier_except(*matrix, *old(g), old(open)@, goal, u),
        partly_relaxed(*matrix, *old(g), u, k as int),
    ensures
        inv_core(*matrix, *final(g), *final(came), new_depth@, final(open)@, start, goal),
        frontier_except(*matrix, *final(g), final(open)@, goal, u),
        partly_relaxed(*matrix, *final(g), u, k + 1),
        at(*final(g), u) == at(*old(g), u),
        2 * grid_total(*final(g)) + final(open)@.len() <= 2 * grid_total(*old(g)) + old(open)@.len(),
{
    let d = compass_step(k);
    let next_r = u.0 as isize + (d.0 as isize) * 3;
    let next_c = u.1 as isize + (d.1 as isize) * 3;
    if next_r >= 0 && next_r < ROWS as isize && next_c >= 0 && next_c < COLS as isize {
        let r = next_r as usize;
        let c = next_c as usize;
        let v = (r, c);
        assert(is_jump(u, v) && dir_index(u, v) == k);
        let terrain_cost = matrix[r][c];
        if terrain_cost < 0 {
            return Ghost(depth);
        }
        let gu = g[u.0][u.1];
        let tentative = match gu.checked_add(terrain_cost) {
            Some(s) => s,
            None => i32::MAX,
        };
        if tentative < g[r][c] {
            let ghost g0 = *g;
            let ghost came0 = *came;
            let ghost open0 = open@;
            came[r][c] = Some(u);
            g[r][c] = tentative;
            let f_score = tentative as i64 + heuristic(v, goal) as i64;
            open.push(State { cost: f_score, position: v });
            let ghost nd = |p: (usize, usize)| if p == v { depth(u) + 1 } else { depth(p) };
            proof {
                lemma_relax_update(*matrix, g0, *g, came0, *came, depth, nd, open0, open@, u, v, k as int, start, goal);
            }
            return Ghost(nd);
        }
    }
    Ghost(depth)
}


proof fn lemma_relax_update(
    m: [[i32; COLS]; ROWS],
    g0: [[i32; COLS]; ROWS],
    g1: [[i32; COLS]; ROWS],
    came0: [[Option<(usize, usize)>; COLS]; ROWS],
    came1: [[Option<(usize, usize)>; COLS]; ROWS],
    d0: spec_fn((usize, usize)) -> int,
    d1: spec_fn((usize, usize)) -> int,
    open0: Seq<State>,
    open1: Seq<State>,
    u: (usize, usize),
    v: (usize, usize),
    k: int,
    start: (usize, usize),
    goal: (usize, usize),
)
    requires
        in_grid(u),
        at(g0, u) < i32::MAX,
        inv_core(m, g0, came0, d0, open0, start, goal),
        frontier_except(m, g0, open0, goal, u),
        partly_relaxed(m, g0, u, k),
        walkable(m, v),
        is_jump(u, v),
        dir_index(u, v) == k,
        at(g1, v) == at(g0, u) + at(m, v),
        at(g1, v) < at(g0, v),
        forall|q: (usize, usize)| in_grid(q) && q != v ==> #[trigger] at(g1, q) == at(g0, q),
        parent(came1, v) == Some(u),
        forall|q: (usize, usize)| in_grid(q) && q != v ==> #[trigger] parent(came1, q) == parent(came0, q),
        d1 == (|p: (usize, usize)| if p == v { d0(u) + 1 } else { d0(p) }),
        open1 == open0.push(State { cost: (at(g1, v) + heuristic_spec(v, goal)) as i64, position: v }),
    ensures
        inv_core(m, g1, came1, d1, open1, start, goal),
        frontier_except(m, g1, open1, goal, u),
        partly_relaxed(m, g1, u, k + 1),
        2 * grid_total(g1) + open1.len() <= 2 * grid_total(g0) + open0.len(),
{
    assert(v != start) by {
        assert(at(g0, start) == 0);
        assert(at(g0, u) >= 0);
    }
    assert(u != v);
    // scores
    assert forall|p: (usize, usize)| in_grid(p) implies 0 <= #[trigger] at(g1, p) <= i32::MAX by {
        if p != v {
            assert(at(g1, p) == at(g0, p));
        }
    }
    assert(at(g1, start) == 0);
    assert(parent(came1, start) is None);
    // tree
    assert forall|p: (usize, usize)| in_grid(p) && p != start && at(g1, p) < i32::MAX implies #[trigger] tree_link(
        m,
        g1,
        came1,
        d1,
        p,
    ) by {
        if p == v {
            assert(d1(v) == d0(u) + 1);
            assert(d1(u) == d0(u));
            assert(at(g1, u) == at(g0, u));
        } else {
            assert(at(g1, p) == at(g0, p));
            assert(parent(came1, p) == parent(came0, p));
            assert(tree_link(m, g0, came0, d0, p));
            let w = parent(came0, p)->0;
            assert(d1(p) == d0(p));
            if w == v {
                assert(at(g0, p) >= at(g0, v) + at(m, p));
            } else {
                assert(at(g1, w) == at(g0, w));
                assert(d1(w) == d0(w));
            }
        }
    }
    assert forall|p: (usize, usize)| #[trigger] d1(p) >= 0 by {
        assert(d0(p) >= 0);
        assert(d0(u) >= 0);
    }
    // open set
    assert forall|i: int| 0 <= i < open1.len() implies {
        let e = #[trigger] open1[i];
        &&& in_grid(e.position)
        &&& at(g1, e.position) < i32::MAX
        &&& e.cost >= at(g1, e.position) + heuristic_spec(e.position, goal)
    } by {
        if i < open0.len() {
            assert(open1[i] == open0[i]);
            let e = open0[i];
            if e.position != v {
                assert(at(g1, e.position) == at(g0, e.position));
            }
        }
    }
    // frontier
    assert forall|p: (usize, usize)| in_grid(p) && p != u implies #[trigger] settled(m, g1, open1, goal, p) by {
        if p == v {
            let i = open0.len() as int;
            assert(open1[i].position == v);
        } else {
            assert(settled(m, g0, open0, goal, p));
            assert(at(g1, p) == at(g0, p));
            if has_entry(open0, p, at(g0, p) + heuristic_spec(p, goal)) {
                let i = choose|i: int|
                    0 <= i < open0.len() && (#[trigger] open0[i]).position == p && open0[i].cost == at(g0, p)
                        + heuristic_spec(p, goal);
                assert(open1[i] == open0[i]);
            } else {
                assert forall|q: (usize, usize)| walkable(m, q) && #[trigger] is_jump(p, q) implies at(g1, q) <= at(
                    g1,
                    p,
                ) + at(m, q) by {
                    assert(relaxed(m, g0, p));
                    if q != v {
                        assert(at(g1, q) == at(g0, q));
                    }
                }
            }
        }
    }
    // partial relaxation of u
    assert forall|q: (usize, usize)|
        walkable(m, q) && #[trigger] is_jump(u, q) && dir_index(u, q) < k + 1 implies at(g1, q) <= at(g1, u) + at(m, q) by {
        assert(at(g1, u) == at(g0, u));
        if q != v {
            assert(at(g1, q) == at(g0, q));
        }
    }
    // measure
    lemma_grid_total_update(g0, g1, v);
}


/// Walking a route from its start: either every cell of it is scored no higher than
/// the route's price up to that cell, down to the goal, or some cell of it, so scored,
/// waits in the open set with its current priority.
proof fn lemma_frontier_route(
    m: [[i32; COLS]; ROWS],
    g: [[i32; COLS]; ROWS],
    open: Seq<State>,
    goal: (usize, usize),
    q: Seq<(usize, usize)>,
    j: int,
)
    requires
        frontier(m, g, open, goal),
        is_route(m, q, q[0], goal),
        0 <= j < q.len(),
        at(g, q[j]) <= route_cost(m, q.take(j + 1)),
    ensures
        at(g, goal) <= route_cost(m, q) || exists|jj: int|
            j <= jj < q.len() && at(g, q[jj]) <= route_cost(m, q.take(jj + 1)) && has_entry(
                open,
                #[trigger] q[jj],
                at(g, q[jj]) + heuristic_spec(q[jj], goal),
            ),
    decreases q.len() - j,
{
    if j == q.len() - 1 {
        assert(q.take(j + 1) =~= q);
    } else {
        assert(in_grid(q[j])) by {
            if j > 0 {
                assert(step_ok(m, q, j));
            }
        }
        assert(settled(m, g, open, goal, q[j]));
        if has_entry(open, q[j], at(g, q[j]) + heuristic_spec(q[j], goal)) {
        } else {
            assert(step_ok(m, q, j + 1));
            assert(relaxed(m, g, q[j]));
            assert(at(g, q[j + 1]) <= at(g, q[j]) + at(m, q[j + 1]));
            lemma_prefix_cost_step(m, q, j);
            lemma_frontier_route(m, g, open, goal, q, j + 1);
        }
    }
}

/// When the goal leaves the open set first, its score is no higher than the price of
/// any route to it whose steps all cost at least one.
proof fn lemma_goal_optimal(
    m: [[i32; COLS]; ROWS],
    g: [[i32; COLS]; ROWS],
    open: Seq<State>,
    start: (usize, usize),
    goal: (usize, usize),
    e: State,
    q: Seq<(usize, usize)>,
)
    requires
        frontier(m, g, open, goal),
        inv_open(g, open, goal),
        at(g, start) == 0,
        e.position == goal,
        exists|i: int| 0 <= i < open.len() && open[i] == e,
        forall|j: int| 0 <= j < open.len() ==> !pops_before(#[trigger] open[j], e),
        is_route(m, q, start, goal),
        positive_steps(m, q),
    ensures
        at(g, goal) <= route_cost(m, q),
{
    let i0 = choose|i: int| 0 <= i < open.len() && open[i] == e;
    assert(open[i0] == e);
    assert(in_grid(goal));
    assert(chebyshev(goal, goal) == 0);
    assert(heuristic_spec(goal, goal) == 0);
    assert(e.cost >= at(g, goal));
    assert(q.take(1) =~= seq![start]);
    assert(route_cost(m, q.take(1)) == 0);
    lemma_frontier_route(m, g, open, goal, q, 0);
    if at(g, goal) > route_cost(m, q) {
        let jj = choose|jj: int|
            0 <= jj < q.len() && at(g, q[jj]) <= route_cost(m, q.take(jj + 1)) && has_entry(
                open,
                #[trigger] q[jj],
                at(g, q[jj]) + heuristic_spec(q[jj], goal),
            );
        let i = choose|i: int|
            0 <= i < open.len() && (#[trigger] open[i]).position == q[jj] && open[i].cost == at(g, q[jj])
                + heuristic_spec(q[jj], goal);
        lemma_route_chebyshev(m, q, jj);
        lemma_remaining_cost(m, q, jj);
        assert(in_grid(q[jj])) by {
            if jj > 0 {
                assert(step_ok(m, q, jj));
            }
        }
        assert(chebyshev(q[jj], goal) < 90);
        assert(heuristic_spec(q[jj], goal) == chebyshev(q[jj], goal) / 3);
        assert(!pops_before(open[i], e));
    }
}

/// With the open set empty, the goal has been reached by no route cheaper than `i32::MAX`.
proof fn lemma_exhausted(
    m: [[i32; COLS]; ROWS],
    g: [[i32; COLS]; ROWS],
    open: Seq<State>,
    start: (usize, usize),
    goal: (usize, usize),
    q: Seq<(usize, usize)>,
)
    requires
        frontier(m, g, open, goal),
        open.len() == 0,
        at(g, start) == 0,
        forall|p: (usize, usize)| in_grid(p) ==> #[trigger] at(g, p) <= i32::MAX,
        is_route(m, q, start, goal),
    ensures
        route_cost(m, q) >= i32::MAX,
{
    assert(q.take(1) =~= seq![start]);
    assert(route_cost(m, q.take(1)) == 0);
    lemma_frontier_route(m, g, open, goal, q, 0);
    assert(in_grid(goal)) by {
        if q.len() > 1 {
            assert(step_ok(m, q, q.len() - 1));
        }
    }
    assert(settled(m, g, open, goal, goal));
}


/// `a` comes before `b` along predecessor links: a lower score, or the same score and a
/// lower depth.
spec fn ranks_below(g: [[i32; COLS]; ROWS], depth: spec_fn((usize, usize)) -> int, a: (usize, usize), b: (usize, usize)) -> bool {
    at(g, a) < at(g, b) || (at(g, a) == at(g, b) && depth(a) < depth(b))
}

/// Follows the recorded predecessors from `goal` back to `start` and returns the
/// route in walking order.
fn trace_back(
    matrix: &[[i32; COLS]; ROWS],
    g: &[[i32; COLS]; ROWS],
    came: &[[Option<(usize, usize)>; COLS]; ROWS],
    start: (usize, usize),
    goal: (usize, usize),
    Ghost(depth): Ghost<spec_fn((usize, usize)) -> int>,
) -> (path: Vec<(usize, usize)>)
    requires
        inv_scores(*g, *came, start),
        inv_tree(*matrix, *g, *came, depth, start),
        in_grid(goal),
        at(*g, goal) < i32::MAX,
    ensures
        is_route(*matrix, path@, start, goal),
        route_cost(*matrix, path@) <= at(*g, goal),
        goal == start ==> path@ == seq![start],
        path@.no_duplicates(),
{
    let mut rev: Vec<(usize, usize)> = Vec::new();
    let mut current = goal;
    let ghost mut tail: Seq<(usize, usize)> = seq![goal];
    while current.0 != start.0 || current.1 != start.1
        invariant
            inv_scores(*g, *came, start),
            inv_tree(*matrix, *g, *came, depth, start),
            in_grid(current),
            at(*g, current) < i32::MAX,
            tail.len() >= 1,
            tail[0] == current,
            tail[tail.len() - 1] == goal,
            goal == start ==> tail.len() == 1,
            forall|i: int, j: int|
                0 <= i < j < tail.len() ==> #[trigger] ranks_below(*g, depth, tail[i], tail[j]),
            forall|i: int| 1 <= i < tail.len() ==> #[trigger] step_ok(*matrix, tail, i),
            route_cost(*matrix, tail) + at(*g, current) <= at(*g, goal),
            rev@.len() + 1 == tail.len(),
            forall|i: int| 0 <= i < rev@.len() ==> #[trigger] rev@[i] == tail[tail.len() - 1 - i],
        decreases at(*g, current), depth(current),
    {
        rev.push(current);
        assert(tree_link(*matrix, *g, *came, depth, current));
        let u = came[current.0][current.1].unwrap();
        proof {
            let old_tail = tail;
            tail = seq![u].add(old_tail);
            assert(tail.drop_first() =~= old_tail);
            assert forall|i: int| 1 <= i < tail.len() implies #[trigger] step_ok(*matrix, tail, i) by {
                if i > 1 {
                    assert(step_ok(*matrix, old_tail, i - 1));
                }
            }
            assert forall|i: int, j: int| 0 <= i < j < tail.len() implies #[trigger] ranks_below(
                *g,
                depth,
                tail[i],
                tail[j],
            ) by {
                if i > 0 {
                    assert(ranks_below(*g, depth, old_tail[i - 1], old_tail[j - 1]));
                } else if j > 1 {
                    assert(ranks_below(*g, depth, old_tail[0], old_tail[j - 1]));
                }
            }
            assert(depth(u) >= 0);
        }
        current = u;
    }
    rev.push(current);
    let n = rev.len();
    let mut path: Vec<(usize, usize)> = Vec::new();
    let mut i: usize = 0;
    while i < n
        invariant
            n == rev@.len(),
            n == tail.len(),
            i <= n,
            path@.len() == i,
            forall|j: int| 0 <= j < i ==> #[trigger] path@[j] == tail[j],
            forall|j: int| 0 <= j < rev@.len() ==> #[trigger] rev@[j] == tail[tail.len() - 1 - j],
        decreases n - i,
    {
        path.push(rev[n - 1 - i]);
        i = i + 1;
    }
    assert(path@ =~= tail);
    assert(goal == start ==> tail =~= seq![start]);
    assert forall|i: int, j: int| 0 <= i < tail.len() && 0 <= j < tail.len() && i != j implies tail[i] != tail[j] by {
        if i < j {
            assert(ranks_below(*g, depth, tail[i], tail[j]));
        } else {
            assert(ranks_below(*g, depth, tail[j], tail[i]));
        }
    }
    path
}

/// Finds a route of jumps from `start` to `goal` with A*.
///
/// The result is `Some` exactly when some route costs less than `i32::MAX`; the route
/// returned then starts at `start`, ends at `goal`, lands only on walkable cells,
/// visits no cell twice, and costs no more than any route whose landing cells all cost
/// at least one. From `start` to itself the route is `start` alone.
pub fn find_path_macro_grid(
    matrix: &[[i32; COLS]; ROWS],
    start: (usize, usize),
    goal: (usize, usize),
) -> (result: Option<Vec<(usize, usize)>>)
    requires
        in_grid(start),
    ensures
        match result {
            Some(path) => {
                &&& is_route(*matrix, path@, start, goal)
                &&& path@.no_duplicates()
                &&& route_cost(*matrix, path@) < i32::MAX
                &&& forall|q: Seq<(usize, usize)>|
                    is_route(*matrix, q, start, goal) && positive_steps(*matrix, q) ==> route_cost(
                        *matrix,
                        path@,
                    ) <= #[trigger] route_cost(*matrix, q)
            },
            None => forall|q: Seq<(usize, usize)>|
                is_route(*matrix, q, start, goal) ==> #[trigger] route_cost(*matrix, q) >= i32::MAX,
        },
        start == goal ==> (result matches Some(p) && p@ == seq![start]),
{
    let mut g_score = [[i32::MAX; COLS]; ROWS];
    g_score[start.0][start.1] = 0;
    let mut came_from = [[None::<(usize, usize)>; COLS]; ROWS];
    let ghost mut depth: spec_fn((usize, usize)) -> int = |p: (usize, usize)| 0int;
    let mut open_set: Vec<State> = Vec::new();
    open_set.push(State { cost: heuristic(start, goal) as i64, position: start });
    proof {
        assert(inv_scores(g_score, came_from, start)) by {
            assert forall|p: (usize, usize)| in_grid(p) implies 0 <= #[trigger] at(g_score, p) <= i32::MAX by {
            }
        }
        assert forall|p: (usize, usize)| in_grid(p) implies #[trigger] settled(*matrix, g_score, open_set@, goal, p) by {
            if p == start {
                assert(open_set@[0].position == start);
            } else {
                assert(at(g_score, p) == i32::MAX);
                assert forall|q: (usize, usize)| walkable(*matrix, q) && #[trigger] is_jump(p, q) implies at(
                    g_score,
                    q,
                ) <= at(g_score, p) + at(*matrix, q) by {}
            }
        }
        assert(inv_open(g_score, open_set@, goal));
    }
    loop
        invariant
            in_grid(start),
            inv_core(*matrix, g_score, came_from, depth, open_set@, start, goal),
            frontier(*matrix, g_score, open_set@, goal),
        decreases 2 * grid_total(g_score) + open_set@.len(),
    {
        proof {
            lemma_grid_total_nonneg(g_score);
        }
        let ghost open0 = open_set@;
        let ghost measure0 = 2 * grid_total(g_score) + open_set@.len();
        let popped = pop_best(&mut open_set);
        match popped {
            None => {
                proof {
                    assert forall|q: Seq<(usize, usize)>| is_route(*matrix, q, start, goal) implies #[trigger] route_cost(
                        *matrix,
                        q,
                    ) >= i32::MAX by {
                        lemma_exhausted(*matrix, g_score, open0, start, goal, q);
                    }
                    if start == goal {
                        let q = seq![start];
                        assert(is_route(*matrix, q, start, goal));
                        assert(route_cost(*matrix, q) == 0);
                    }
                }
                return None;
            },
            Some(st) => {
                let position = st.position;
                let ghost i0 = choose|i: int|
                    0 <= i < open0.len() && open0[i] == st && open_set@ == open0.remove(i)
                        && forall|j: int| 0 <= j < open0.len() ==> !pops_before(#[trigger] open0[j], st);
                assert(open0[i0] == st);
                if position.0 == goal.0 && position.1 == goal.1 {
                    let path = trace_back(matrix, &g_score, &came_from, start, goal, Ghost(depth));
                    proof {
                        assert forall|q: Seq<(usize, usize)>|
                            is_route(*matrix, q, start, goal) && positive_steps(*matrix, q) implies route_cost(
                            *matrix,
                            path@,
                        ) <= #[trigger] route_cost(*matrix, q) by {
                            lemma_goal_optimal(*matrix, g_score, open0, start, goal, st, q);
                        }
                    }
                    return Some(path);
                }
                proof {
                    lemma_pop_keeps(*matrix, g_score, came_from, depth, open0, open_set@, i0, start, goal);
                }
                let mut k: usize = 0;
                while k < 8
                    invariant
                        k <= 8,
                        in_grid(position),
                        position != goal,
                        at(g_score, position) < i32::MAX,
                        inv_core(*matrix, g_score, came_from, depth, open_set@, start, goal),
                        frontier_except(*matrix, g_score, open_set@, goal, position),
                        partly_relaxed(*matrix, g_score, position, k as int),
                        2 * grid_total(g_score) + open_set@.len() < measure0,
                    decreases 8 - k,
                {
                    let ghost gp = at(g_score, position);
                    let nd = relax(
                        matrix,
                        &mut g_score,
                        &mut came_from,
                        &mut open_set,
                        position,
                        k,
                        start,
                        goal,
                        Ghost(depth),
                    );
                    proof {
                        depth = nd@;
                    }
                    k = k + 1;
                }
                proof {
                    lemma_expanded(*matrix, g_score, open_set@, position, goal);
                    lemma_grid_total_nonneg(g_score);
                }
            },
        }
    }
}

/// Removing one entry for `u` from the open set keeps the invariant, and leaves every
/// other position settled.
proof fn lemma_pop_keeps(
    m: [[i32; COLS]; ROWS],
    g: [[i32; COLS]; ROWS],
    came: [[Option<(usize, usize)>; COLS]; ROWS],
    depth: spec_fn((usize, usize)) -> int,
    open0: Seq<State>,
    open1: Seq<State>,
    i0: int,
    start: (usize, usize),
    goal: (usize, usize),
)
    requires
        0 <= i0 < open0.len(),
        open1 == open0.remove(i0),
        inv_core(m, g, came, depth, open0, start, goal),
        frontier(m, g, open0, goal),
    ensures
        inv_core(m, g, came, depth, open1, start, goal),
        frontier_except(m, g, open1, goal, open0[i0].position),
        in_grid(open0[i0].position),
        at(g, open0[i0].position) < i32::MAX,
        partly_relaxed(m, g, open0[i0].position, 0),
{
    let u = open0[i0].position;
    open0.remove_ensures(i0);
    assert(open0[i0] == open0[i0]);
    assert forall|i: int| 0 <= i < open1.len() implies {
        let e = #[trigger] open1[i];
        &&& in_grid(e.position)
        &&& at(g, e.position) < i32::MAX
        &&& e.cost >= at(g, e.position) + heuristic_spec(e.position, goal)
    } by {
        if i < i0 {
            assert(open1[i] == open0[i]);
        } else {
            assert(open1[i] == open0[i + 1]);
        }
    }
    assert forall|p: (usize, usize)| in_grid(p) && p != u implies #[trigger] settled(m, g, open1, goal, p) by {
        assert(settled(m, g, open0, goal, p));
        if has_entry(open0, p, at(g, p) + heuristic_spec(p, goal)) {
            let i = choose|i: int|
                0 <= i < open0.len() && (#[trigger] open0[i]).position == p && open0[i].cost == at(g, p)
                    + heuristic_spec(p, goal);
            assert(i != i0);
            if i < i0 {
                assert(open1[i] == open0[i]);
            } else {
                assert(open1[i - 1] == open0[i]);
            }
        }
    }
}

/// Once all eight jumps out of `u` are relaxed, `u` is settled again.
proof fn lemma_expanded(
    m: [[i32; COLS]; ROWS],
    g: [[i32; COLS]; ROWS],
    open: Seq<State>,
    u: (usize, usize),
    goal: (usize, usize),
)
    requires
        u != goal,
        frontier_except(m, g, open, goal, u),
        partly_relaxed(m, g, u, 8),
    ensures
        frontier(m, g, open, goal),
{
    assert forall|q: (usize, usize)| walkable(m, q) && #[trigger] is_jump(u, q) implies at(g, q) <= at(g, u) + at(
        m,
        q,
    ) by {
        assert(dir_index(u, q) < 8);
    }
    assert forall|p: (usize, usize)| in_grid(p) implies #[trigger] settled(m, g, open, goal, p) by {
        if p == u {
            assert(relaxed(m, g, u));
        }
    }
}

} // verus!
