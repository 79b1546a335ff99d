//! The game board and what a route across it is.
//!
//! The board is a `ROWS x COLS` matrix of `i32`, indexed `[row][column]`.
//! A cell with a negative value is a wall; any other value is the price of
//! stepping onto that cell.  Heroes move by jumps of exactly three cells in
//! one of the eight compass directions.
use vstd::prelude::*;

verus! {

/// Number of rows of the game board.
pub const ROWS: usize = 90;

/// Number of columns of the game board.
pub const COLS: usize = 51;

/// Length of one jump, in cells.
pub const JUMP: usize = 3;

/// The eight compass directions, as (row, column) offsets, in the order the bot
/// tries them.
pub open spec fn compass(k: int) -> (int, int) {
    if k == 0 {
        (0, 1)
    } else if k == 1 {
        (1, 0)
    } else if k == 2 {
        (0, -1)
    } else if k == 3 {
        (-1, 0)
    } else if k == 4 {
        (1, 1)
    } else if k == 5 {
        (-1, -1)
    } else if k == 6 {
        (1, -1)
    } else {
        (-1, 1)
    }
}

/// Direction `k` of the compass.
pub fn compass_step(k: usize) -> (d: (i32, i32))
    requires
        k < 8,
    ensures
        d.0 == compass(k as int).0,
        d.1 == compass(k as int).1,
{
    if k == 0 {
        (0, 1)
    } else if k == 1 {
        (1, 0)
    } else if k == 2 {
        (0, -1)
    } else if k == 3 {
        (-1, 0)
    } else if k == 4 {
        (1, 1)
    } else if k == 5 {
        (-1, -1)
    } else if k == 6 {
        (1, -1)
    } else {
        (-1, 1)
    }
}

/// A position `(row, column)` lies on the board.
pub open spec fn in_grid(p: (usize, usize)) -> bool {
    p.0 < ROWS && p.1 < COLS
}

/// The value of the board at an on-board position.
pub open spec fn at(m: [[i32; COLS]; ROWS], p: (usize, usize)) -> int {
    m[p.0 as int][p.1 as int] as int
}

/// A position that a hero may land on: on the board and not a wall.
pub open spec fn walkable(m: [[i32; COLS]; ROWS], p: (usize, usize)) -> bool {
    in_grid(p) && at(m, p) >= 0
}

/// An offset of one jump: each coordinate moves by -3, 0 or +3, not both 0.
pub open spec fn is_jump_offset(dr: int, dc: int) -> bool {
    &&& (dr == -3 || dr == 0 || dr == 3)
    &&& (dc == -3 || dc == 0 || dc == 3)
    &&& !(dr == 0 && dc == 0)
}

/// `b` is one jump away from `a`.
pub open spec fn is_jump(a: (usize, usize), b: (usize, usize)) -> bool {
    is_jump_offset(b.0 - a.0, b.1 - a.1)
}

/// Absolute difference of two integers.
pub open spec fn dist1(a: int, b: int) -> int {
    if a >= b {
        a - b
    } else {
        b - a
    }
}

/// Chebyshev distance between two positions.
pub open spec fn chebyshev(a: (usize, usize), b: (usize, usize)) -> int {
    let dr = dist1(a.0 as int, b.0 as int);
    let dc = dist1(a.1 as int, b.1 as int);
    if dr >= dc {
        dr
    } else {
        dc
    }
}

/// Step `i` of `path` (from `path[i - 1]` to `path[i]`) is one jump onto a walkable cell.
pub open spec fn step_ok(m: [[i32; COLS]; ROWS], path: Seq<(usize, usize)>, i: int) -> bool {
    walkable(m, path[i]) && is_jump(path[i - 1], path[i])
}

/// `path` leads from `start` (on the board) to `goal` by jumps onto walkable cells.
pub open spec fn is_route(
    m: [[i32; COLS]; ROWS],
    path: Seq<(usize, usize)>,
    start: (usize, usize),
    goal: (usize, usize),
) -> bool {
    &&& path.len() >= 1
    &&& path[0] == start
    &&& path[path.len() - 1] == goal
    &&& in_grid(start)
    &&& forall|i: int| 1 <= i < path.len() ==> #[trigger] step_ok(m, path, i)
}

/// The price of a route: the sum of the cells it lands on (the first cell is free).
pub open spec fn route_cost(m: [[i32; COLS]; ROWS], path: Seq<(usize, usize)>) -> int
    decreases path.len(),
{
    if path.len() <= 1 {
        0
    } else {
        at(m, path[1]) + route_cost(m, path.drop_first())
    }
}

/// Every cell the route lands on costs at least 1.
pub open spec fn positive_steps(m: [[i32; COLS]; ROWS], path: Seq<(usize, usize)>) -> bool {
    forall|i: int| 1 <= i < path.len() ==> #[trigger] at(m, path[i]) >= 1
}

/// Appending a cell adds its price.
pub proof fn lemma_route_cost_push(
    m: [[i32; COLS]; ROWS],
    path: Seq<(usize, usize)>,
    p: (usize, usize),
)
    requires
        path.len() >= 1,
    ensures
        route_cost(m, path.push(p)) == route_cost(m, path) + at(m, p),
    decreases path.len(),
{
    if path.len() == 1 {
        assert(path.push(p).drop_first() =~= seq![p]);
        assert(path.push(p)[1] == p);
        assert(route_cost(m, seq![p]) == 0);
    } else {
        assert(path.push(p).drop_first() =~= path.drop_first().push(p));
        assert(path.push(p)[1] == path[1]);
        lemma_route_cost_push(m, path.drop_first(), p);
    }
}

/// The price of the first `j + 2` cells is the price of the first `j + 1` plus cell `j + 1`.
pub proof fn lemma_prefix_cost_step(m: [[i32; COLS]; ROWS], path: Seq<(usize, usize)>, j: int)
    requires
        0 <= j,
        j + 1 < path.len(),
    ensures
        route_cost(m, path.take(j + 2)) == route_cost(m, path.take(j + 1)) + at(m, path[j + 1]),
{
    assert(path.take(j + 2) =~= path.take(j + 1).push(path[j + 1]));
    lemma_route_cost_push(m, path.take(j + 1), path[j + 1]);
}

/// On a route with positive steps, the rest of the route after cell `j` costs at least
/// one per remaining jump.
pub proof fn lemma_remaining_cost(m: [[i32; COLS]; ROWS], path: Seq<(usize, usize)>, j: int)
    requires
        0 <= j < path.len(),
        positive_steps(m, path),
    ensures
        route_cost(m, path) - route_cost(m, path.take(j + 1)) >= path.len() - 1 - j,
    decreases path.len() - j,
{
    if j == path.len() - 1 {
        assert(path.take(j + 1) =~= path);
    } else {
        lemma_remaining_cost(m, path, j + 1);
        lemma_prefix_cost_step(m, path, j);
        assert(at(m, path[j + 1]) >= 1);
    }
}

/// Each jump moves the Chebyshev distance to a fixed point by at most three.
pub proof fn lemma_chebyshev_jump(a: (usize, usize), b: (usize, usize), t: (usize, usize))
    requires
        is_jump(a, b),
    ensures
        chebyshev(a, t) <= chebyshev(b, t) + 3,
{
}

/// Along a route, cell `j` is within three cells per remaining jump of the last cell.
pub proof fn lemma_route_chebyshev(m: [[i32; COLS]; ROWS], path: Seq<(usize, usize)>, j: int)
    requires
        0 <= j < path.len(),
        forall|i: int| 1 <= i < path.len() ==> #[trigger] step_ok(m, path, i),
    ensures
        chebyshev(path[j], path[path.len() - 1]) <= 3 * (path.len() - 1 - j),
    decreases path.len() - j,
{
    if j < path.len() - 1 {
        lemma_route_chebyshev(m, path, j + 1);
        assert(step_ok(m, path, j + 1));
        lemma_chebyshev_jump(path[j], path[j + 1], path[path.len() - 1]);
    }
}

} // verus!
