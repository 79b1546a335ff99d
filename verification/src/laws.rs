//! Properties that span the functions of the library.
use vstd::prelude::*;

use crate::astar::heuristic_spec;
use crate::grid::{
    at, chebyshev, in_grid, is_jump, is_route, lemma_remaining_cost, lemma_route_chebyshev,
    positive_steps, route_cost, step_ok, walkable, COLS, ROWS,
};
use crate::helper::{
    base_score, enemies_penalty, first_step, projectiles_penalty, turn_score, wall_covers, walled,
    walls_cover, lemma_enemies_nonneg, lemma_projectiles_nonneg,
};
use crate::helper::{candidate, is_target};
use crate::bot::{
    hostile, opponents, order_for, turn_orders, turn_playable, turn_played, turn_player, Bot, Command, Outgoing, Reaction,
};
use crate::helper::{score_fits, walls_on_board};
use crate::archive::{file_names, ArchiveEntry};
use crate::protocol::{Hero, Projectile, Wall};

verus! {

/// Drawing the same walls a second time changes nothing.
pub proof fn law_walls_idempotent(m: [[i32; COLS]; ROWS], m1: [[i32; COLS]; ROWS], walls: Seq<Wall>)
    requires
        forall|p: (usize, usize)| in_grid(p) ==> #[trigger] at(m1, p) == walled(m, walls, p),
    ensures
        forall|p: (usize, usize)| in_grid(p) ==> #[trigger] walled(m1, walls, p) == at(m1, p),
{
}

/// On a board with walls drawn in, no route lands on a wall or next to one.
pub proof fn law_routes_avoid_walls(
    m: [[i32; COLS]; ROWS],
    m1: [[i32; COLS]; ROWS],
    walls: Seq<Wall>,
    q: Seq<(usize, usize)>,
    start: (usize, usize),
    goal: (usize, usize),
    i: int,
    w: int,
)
    requires
        forall|p: (usize, usize)| in_grid(p) ==> #[trigger] at(m1, p) == walled(m, walls, p),
        is_route(m1, q, start, goal),
        1 <= i < q.len(),
        0 <= w < walls.len(),
    ensures
        !wall_covers(walls[w], q[i].0 as int, q[i].1 as int),
{
    assert(step_ok(m1, q, i));
    if wall_covers(walls[w], q[i].0 as int, q[i].1 as int) {
        assert(walls_cover(walls, walls.len() as int, q[i].0 as int, q[i].1 as int));
        assert(at(m1, q[i]) == -50);
    }
}

/// Enemies and projectiles only ever lower a cell's score.
pub proof fn law_penalties_lower(
    path: [[i32; COLS]; ROWS],
    enemies: Seq<Hero>,
    projectiles: Seq<Projectile>,
    p: (usize, usize),
)
    ensures
        turn_score(path, enemies, projectiles, p) <= base_score(path, p),
{
    lemma_enemies_nonneg(enemies, p.0 as int, p.1 as int);
    lemma_projectiles_nonneg(projectiles, p.0 as int, p.1 as int);
}

/// The heuristic never exceeds the number of jumps of a route to the goal, nor its
/// price when every landing cell costs at least one.
pub proof fn law_heuristic_admissible(
    m: [[i32; COLS]; ROWS],
    q: Seq<(usize, usize)>,
    a: (usize, usize),
    goal: (usize, usize),
)
    requires
        is_route(m, q, a, goal),
    ensures
        heuristic_spec(a, goal) <= q.len() - 1,
        positive_steps(m, q) ==> heuristic_spec(a, goal) <= route_cost(m, q),
{
    lemma_route_chebyshev(m, q, 0);
    assert(in_grid(goal)) by {
        if q.len() > 1 {
            assert(step_ok(m, q, q.len() - 1));
        }
    }
    assert(chebyshev(a, goal) < 90);
    if positive_steps(m, q) {
        lemma_remaining_cost(m, q, 0);
        assert(q.take(1) =~= seq![a]);
        assert(route_cost(m, q.take(1)) == 0);
    }
}

/// One jump lowers the heuristic by at most one.
pub proof fn law_heuristic_consistent(a: (usize, usize), b: (usize, usize), goal: (usize, usize))
    requires
        in_grid(a),
        in_grid(b),
        in_grid(goal),
        is_jump(a, b),
    ensures
        heuristic_spec(a, goal) <= heuristic_spec(b, goal) + 1,
{
    assert(chebyshev(a, goal) <= chebyshev(b, goal) + 3);
}

/// The bot's next cell is where it stands or one jump away onto a walkable cell.
pub proof fn law_next_move_is_one_jump(
    m: [[i32; COLS]; ROWS],
    from: (usize, usize),
    t: (usize, usize),
    next: (usize, usize),
)
    requires
        first_step(m, from, t, next),
    ensures
        next == from || (is_jump(from, next) && walkable(m, next)),
{
    if t != from && next != from {
        let q = choose|q: Seq<(usize, usize)>|
            #[trigger] is_route(m, q, from, t) && q.len() > 1 && q[1] == next && route_cost(m, q) < i32::MAX
                && forall|q2: Seq<(usize, usize)>|
                is_route(m, q2, from, t) && positive_steps(m, q2) ==> route_cost(m, q) <= #[trigger] route_cost(
                    m,
                    q2,
                );
        assert(step_ok(m, q, 1));
    }
}

/// A straight jump (along a row or a column) between two cells outside a wall's block
/// passes over no cell of that block: checking where a jump lands is enough.
pub proof fn law_straight_jump_passes_no_wall(w: Wall, a: (usize, usize), b: (usize, usize), k: int)
    requires
        is_jump(a, b),
        a.0 == b.0 || a.1 == b.1,
        1 <= k <= 2,
        !wall_covers(w, a.0 as int, a.1 as int),
        !wall_covers(w, b.0 as int, b.1 as int),
    ensures
        !wall_covers(w, a.0 + k * ((b.0 - a.0) / 3), a.1 + k * ((b.1 - a.1) / 3)),
{
    if k == 1 {
        assert(a.0 + k * ((b.0 - a.0) / 3) == a.0 + (b.0 - a.0) / 3);
        assert(a.1 + k * ((b.1 - a.1) / 3) == a.1 + (b.1 - a.1) / 3);
    } else {
        assert(a.0 + k * ((b.0 - a.0) / 3) == a.0 + 2 * ((b.0 - a.0) / 3));
        assert(a.1 + k * ((b.1 - a.1) / 3) == a.1 + 2 * ((b.1 - a.1) / 3));
    }
}

/// Absolute difference, for stating laws in plain arithmetic.
pub open spec fn gap(a: int, b: int) -> int {
    if a >= b {
        a - b
    } else {
        b - a
    }
}

/// A cell the bot may aim at, in plain terms: rows and columns 1, 4, 7, ... of the board,
/// open on the path matrix, scoring at least -100.
pub open spec fn aimable(path: [[i32; COLS]; ROWS], score: [[i32; COLS]; ROWS], c: (usize, usize)) -> bool {
    &&& c.0 < ROWS && c.1 < COLS
    &&& c.0 % 3 == 1 && c.1 % 3 == 1
    &&& path[c.0 as int][c.1 as int] > 0
    &&& score[c.0 as int][c.1 as int] >= -100
}

/// The target scores at least as much as any aimable cell; among cells of the same score
/// it is the nearest to the hero by Manhattan distance; among cells of the same score and
/// distance it comes first in row-major order; and it is itself aimable.
pub proof fn law_target_is_best(
    path: [[i32; COLS]; ROWS],
    score: [[i32; COLS]; ROWS],
    from: (usize, usize),
    t: (usize, usize),
    c: (usize, usize),
)
    requires
        is_target(path, score, from, t),
        aimable(path, score, c),
    ensures
        aimable(path, score, t),
        score[c.0 as int][c.1 as int] <= score[t.0 as int][t.1 as int],
        score[c.0 as int][c.1 as int] == score[t.0 as int][t.1 as int] ==> gap(t.0 as int, from.0 as int) + gap(
            t.1 as int,
            from.1 as int,
        ) <= gap(c.0 as int, from.0 as int) + gap(c.1 as int, from.1 as int),
        score[c.0 as int][c.1 as int] == score[t.0 as int][t.1 as int] && gap(t.0 as int, from.0 as int) + gap(
            t.1 as int,
            from.1 as int,
        ) == gap(c.0 as int, from.0 as int) + gap(c.1 as int, from.1 as int) && c != t ==> (t.0 < c.0 || (t.0
            == c.0 && t.1 < c.1)),
{
    assert(candidate(path, score, c));
}

/// With no aimable cell, the target is where the hero stands.
pub proof fn law_target_without_candidates(
    path: [[i32; COLS]; ROWS],
    score: [[i32; COLS]; ROWS],
    from: (usize, usize),
    t: (usize, usize),
)
    requires
        is_target(path, score, from, t),
        forall|c: (usize, usize)| !aimable(path, score, c),
    ensures
        t == from,
{
    if exists|c: (usize, usize)| #[trigger] candidate(path, score, c) {
        let c = choose|c: (usize, usize)| #[trigger] candidate(path, score, c);
        assert(aimable(path, score, c));
    }
}

/// A board with no enemies and no projectiles scores each cell its path value, plus
/// `row / 9` in the upper 45 rows and `(89 - row) / 9` in the lower 45 where that value
/// is positive.
pub proof fn law_score_without_threats(path: [[i32; COLS]; ROWS], p: (usize, usize))
    requires
        in_grid(p),
    ensures
        turn_score(path, Seq::empty(), Seq::empty(), p) == path[p.0 as int][p.1 as int] + if path[p.0 as int][p.1
            as int] > 0 {
            if p.0 < 45 {
                (p.0 as int) / 9
            } else {
                (89 - p.0 as int) / 9
            }
        } else {
            0int
        },
{
}

/// One more enemy lowers a cell's score by 10 on its own cell, by 8 on each of its eight
/// neighbours, and by 8 more within 6 cells (both ways) when its cooldown is at most 1,
/// or within 3 cells when its cooldown is 2.
pub proof fn law_enemy_penalty(
    path: [[i32; COLS]; ROWS],
    enemies: Seq<Hero>,
    projectiles: Seq<Projectile>,
    e: Hero,
    p: (usize, usize),
)
    requires
        in_grid(p),
    ensures
        ({
            let dy = gap(p.0 as int, e.y as int);
            let dx = gap(p.1 as int, e.x as int);
            turn_score(path, enemies.push(e), projectiles, p) == turn_score(path, enemies, projectiles, p) - (if dy
                == 0 && dx == 0 {
                10int
            } else {
                0int
            }) - (if dy <= 1 && dx <= 1 && !(dy == 0 && dx == 0) {
                8int
            } else {
                0int
            }) - (if e.cooldown <= 1 && dy <= 6 && dx <= 6 {
                8int
            } else if e.cooldown == 2 && dy <= 3 && dx <= 3 {
                8int
            } else {
                0int
            })
        }),
{
    assert(enemies.push(e).drop_last() =~= enemies);
}

/// One more projectile at `(py, px)`, fired from `(oy, ox)`, lowers a cell's score by 5 on
/// its own cell and by 10 over a band: when `|px - ox| > |py - oy|`, rows `py..=py+5` if
/// `py > oy` and `py-5..=py` otherwise, columns `px-6..=px+5`; else rows `py-6..=py+5`,
/// columns `px..=px+5` if `px > ox` and `px-5..=px` otherwise.
pub proof fn law_projectile_penalty(
    path: [[i32; COLS]; ROWS],
    enemies: Seq<Hero>,
    projectiles: Seq<Projectile>,
    pr: Projectile,
    p: (usize, usize),
)
    requires
        in_grid(p),
    ensures
        ({
            let y = p.0 as int;
            let x = p.1 as int;
            let py = pr.y as int;
            let px = pr.x as int;
            let dx = px - pr.origin_x;
            let dy = py - pr.origin_y;
            let band = if gap(dx, 0) > gap(dy, 0) {
                px - 6 <= x <= px + 5 && if dy > 0 {
                    py <= y <= py + 5
                } else {
                    py - 5 <= y <= py
                }
            } else {
                py - 6 <= y <= py + 5 && if dx > 0 {
                    px <= x <= px + 5
                } else {
                    px - 5 <= x <= px
                }
            };
            turn_score(path, enemies, projectiles.push(pr), p) == turn_score(path, enemies, projectiles, p) - (if y
                == py && x == px {
                5int
            } else {
                0int
            }) - (if band {
                10int
            } else {
                0int
            })
        }),
{
    assert(projectiles.push(pr).drop_last() =~= projectiles);
}

/// A wall turns into `-50` exactly the cells within one row and one column of it.
pub proof fn law_walls_plain(m: [[i32; COLS]; ROWS], walls: Seq<Wall>, p: (usize, usize))
    requires
        in_grid(p),
    ensures
        (exists|i: int|
            0 <= i < walls.len() && gap(#[trigger] walls[i].y as int, p.0 as int) <= 1 && gap(
                walls[i].x as int,
                p.1 as int,
            ) <= 1) ==> walled(m, walls, p) == -50,
        !(exists|i: int|
            0 <= i < walls.len() && gap(#[trigger] walls[i].y as int, p.0 as int) <= 1 && gap(
                walls[i].x as int,
                p.1 as int,
            ) <= 1) ==> walled(m, walls, p) == m[p.0 as int][p.1 as int],
{
    if exists|i: int|
        0 <= i < walls.len() && gap(#[trigger] walls[i].y as int, p.0 as int) <= 1 && gap(
            walls[i].x as int,
            p.1 as int,
        ) <= 1 {
        let i = choose|i: int|
            0 <= i < walls.len() && gap(#[trigger] walls[i].y as int, p.0 as int) <= 1 && gap(
                walls[i].x as int,
                p.1 as int,
            ) <= 1;
        assert(wall_covers(walls[i], p.0 as int, p.1 as int));
    }
    if walls_cover(walls, walls.len() as int, p.0 as int, p.1 as int) {
        let i = choose|i: int| 0 <= i < walls.len() && #[trigger] wall_covers(walls[i], p.0 as int, p.1 as int);
        assert(gap(walls[i].y as int, p.0 as int) <= 1);
    }
}

/// A hero that is reloading (cooldown not 0), or has no third hero to aim at, is ordered
/// to move; a hero ready to fire with a third hero present shoots at that hero.
pub proof fn law_orders_by_cooldown(
    path: [[i32; COLS]; ROWS],
    score: [[i32; COLS]; ROWS],
    heroes: Seq<Hero>,
    h: Hero,
    o: Outgoing,
)
    requires
        order_for(path, score, heroes, h, o),
    ensures
        h.cooldown != 0 || heroes.len() <= 2 ==> (o matches Outgoing::Order { command, hero_id, .. } && command
            == Command::Move && hero_id == h.id),
        h.cooldown == 0 && heroes.len() > 2 ==> o == (Outgoing::Order {
            command: Command::Shoot,
            hero_id: h.id,
            x: heroes[2].x as i64,
            y: heroes[2].y as i64,
        }),
{
}

/// A turn orders the first hero, and the second too exactly when there is one owned by
/// player 0.
pub proof fn law_turn_order_count(
    path: [[i32; COLS]; ROWS],
    score: [[i32; COLS]; ROWS],
    heroes: Seq<Hero>,
    orders: Seq<Outgoing>,
)
    requires
        turn_orders(path, score, heroes, orders),
    ensures
        orders.len() == if heroes.len() > 1 && heroes[1].owner_id == 0 {
            2int
        } else {
            1int
        },
        orders[0] matches Outgoing::Order { hero_id, .. } && hero_id == heroes[0].id,
        orders.len() == 2 ==> (orders[1] matches Outgoing::Order { hero_id, .. } && hero_id == heroes[1].id),
{
}

/// The enemies of a turn are the heroes not owned by player 0, and its threats the
/// projectiles not owned by player 0, each in the order given.
pub proof fn law_opponents_filter(heroes: Seq<Hero>, projectiles: Seq<Projectile>)
    ensures
        opponents(heroes, turn_player()) == heroes.filter(|h: Hero| h.owner_id != 0),
        hostile(projectiles, turn_player()) == projectiles.filter(|p: Projectile| p.owner_id != 0),
{
    lemma_opponents_filter(heroes);
    lemma_hostile_filter(projectiles);
}

proof fn lemma_opponents_filter(heroes: Seq<Hero>)
    ensures
        opponents(heroes, 0) == heroes.filter(|h: Hero| h.owner_id != 0),
    decreases heroes.len(),
{
    reveal(Seq::filter);
    if heroes.len() > 0 {
        lemma_opponents_filter(heroes.drop_last());
    }
}

proof fn lemma_hostile_filter(projectiles: Seq<Projectile>)
    ensures
        hostile(projectiles, 0) == projectiles.filter(|p: Projectile| p.owner_id != 0),
    decreases projectiles.len(),
{
    reveal(Seq::filter);
    if projectiles.len() > 0 {
        lemma_hostile_filter(projectiles.drop_last());
    }
}

/// The names listed are those of the file entries, in archive order: every file entry's
/// name is listed, and nothing else.
pub proof fn law_listed_names(entries: Seq<ArchiveEntry>)
    ensures
        file_names(entries) == entries.filter(|e: ArchiveEntry| e.is_file).map_values(|e: ArchiveEntry| e.name@),
        forall|i: int| 0 <= i < entries.len() && (#[trigger] entries[i]).is_file ==> file_names(entries).contains(
            entries[i].name@,
        ),
    decreases entries.len(),
{
    reveal(Seq::filter);
    if entries.len() > 0 {
        law_listed_names(entries.drop_last());
        let f = entries.filter(|e: ArchiveEntry| e.is_file);
        let g = entries.drop_last().filter(|e: ArchiveEntry| e.is_file);
        if entries.last().is_file {
            assert(f == g.push(entries.last()));
            assert(f.map_values(|e: ArchiveEntry| e.name@) =~= g.map_values(|e: ArchiveEntry| e.name@).push(
                entries.last().name@,
            ));
        }
        assert forall|i: int| 0 <= i < entries.len() && (#[trigger] entries[i]).is_file implies file_names(
            entries,
        ).contains(entries[i].name@) by {
            if i == entries.len() - 1 {
                assert(file_names(entries).last() == entries[i].name@);
            } else {
                assert(entries.drop_last()[i] == entries[i]);
                let k = choose|k: int|
                    0 <= k < file_names(entries.drop_last()).len() && file_names(entries.drop_last())[k]
                        == entries[i].name@;
                if entries.last().is_file {
                    assert(file_names(entries)[k] == entries[i].name@);
                }
            }
        }
    }
}

/// The steps of a route, in plain terms: each lands on the board, on a cell that is not
/// negative, moving each coordinate by -3, 0 or 3 and not staying put; a route of one
/// cell costs nothing and each landing cell adds its value.
pub proof fn law_route_plain(m: [[i32; COLS]; ROWS], q: Seq<(usize, usize)>, s: (usize, usize), g: (usize, usize), i: int)
    requires
        is_route(m, q, s, g),
        1 <= i < q.len(),
    ensures
        q[i].0 < 90 && q[i].1 < 51,
        m[q[i].0 as int][q[i].1 as int] >= 0,
        ({
            let dr = q[i].0 - q[i - 1].0;
            let dc = q[i].1 - q[i - 1].1;
            (dr == -3 || dr == 0 || dr == 3) && (dc == -3 || dc == 0 || dc == 3) && !(dr == 0 && dc == 0)
        }),
        route_cost(m, seq![s]) == 0,
        route_cost(m, q.take(i + 1)) == route_cost(m, q.take(i)) + m[q[i].0 as int][q[i].1 as int],
{
    assert(step_ok(m, q, i));
    crate::grid::lemma_prefix_cost_step(m, q, i - 1);
}

/// Steps of plain jumps onto non-negative board cells make a route.
pub proof fn law_plain_steps_make_a_route(m: [[i32; COLS]; ROWS], q: Seq<(usize, usize)>)
    requires
        q.len() >= 1,
        q[0].0 < 90 && q[0].1 < 51,
        forall|i: int|
            1 <= i < q.len() ==> {
                let dr = (#[trigger] q[i]).0 - q[i - 1].0;
                let dc = q[i].1 - q[i - 1].1;
                &&& q[i].0 < 90 && q[i].1 < 51
                &&& m[q[i].0 as int][q[i].1 as int] >= 0
                &&& (dr == -3 || dr == 0 || dr == 3) && (dc == -3 || dc == 0 || dc == 3) && !(dr == 0 && dc == 0)
            },
    ensures
        is_route(m, q, q[0], q[q.len() - 1]),
{
    assert forall|i: int| 1 <= i < q.len() implies #[trigger] step_ok(m, q, i) by {
        assert(q[i] == q[i]);
    }
}

/// For cells on the board, the heuristic is the larger coordinate gap divided by 3,
/// rounded down.
pub proof fn law_heuristic_plain(a: (usize, usize), b: (usize, usize))
    requires
        in_grid(a),
        in_grid(b),
    ensures
        ({
            let d = if gap(a.0 as int, b.0 as int) >= gap(a.1 as int, b.1 as int) {
                gap(a.0 as int, b.0 as int)
            } else {
                gap(a.1 as int, b.1 as int)
            };
            3 * heuristic_spec(a, b) <= d < 3 * heuristic_spec(a, b) + 3
        }),
{
}

/// A route has positive steps exactly when every cell it lands on holds at least 1.
pub proof fn law_positive_steps_plain(m: [[i32; COLS]; ROWS], q: Seq<(usize, usize)>)
    ensures
        positive_steps(m, q) <==> forall|i: int| 1 <= i < q.len() ==> m[(#[trigger] q[i]).0 as int][q[i].1 as int] >= 1,
{
    if forall|i: int| 1 <= i < q.len() ==> m[(#[trigger] q[i]).0 as int][q[i].1 as int] >= 1 {
        assert forall|i: int| 1 <= i < q.len() implies #[trigger] at(m, q[i]) >= 1 by {
            assert(m[q[i].0 as int][q[i].1 as int] >= 1);
        }
    }
    if positive_steps(m, q) {
        assert forall|i: int| 1 <= i < q.len() implies m[(#[trigger] q[i]).0 as int][q[i].1 as int] >= 1 by {
            assert(at(m, q[i]) >= 1);
        }
    }
}

/// A move order for a hero on the board names, as `x` and `y`, the row and the column of
/// the hero's cell or of a cell one jump away that is open to walk on.
pub proof fn law_move_is_one_jump(
    path: [[i32; COLS]; ROWS],
    score: [[i32; COLS]; ROWS],
    heroes: Seq<Hero>,
    h: Hero,
    o: Outgoing,
    x: i64,
    y: i64,
    id: i32,
)
    requires
        order_for(path, score, heroes, h, o),
        0 <= h.y < 90,
        0 <= h.x < 51,
        o == (Outgoing::Order { command: Command::Move, hero_id: id, x: x, y: y }),
    ensures
        x - h.y == -3 || x - h.y == 0 || x - h.y == 3,
        y - h.x == -3 || y - h.x == 0 || y - h.x == 3,
        (x != h.y || y != h.x) ==> 0 <= x < 90 && 0 <= y < 51 && path[x as int][y as int] >= 0,
{
    let from = (h.y as usize, h.x as usize);
    let (next, t) = choose|next: (usize, usize), t: (usize, usize)|
        #[trigger] is_target(path, score, from, t) && #[trigger] first_step(path, from, t, next) && o == (
        Outgoing::Order { command: Command::Move, hero_id: h.id, x: next.0 as i64, y: next.1 as i64 });
    law_next_move_is_one_jump(path, from, t, next);
}

/// The turn can be scored exactly when every enemy and projectile stands on the board,
/// each projectile's travel from its origin and that travel's absolute value fit an
/// `i32`, and every cell's score stays within `i32` (its score without threats too).
pub proof fn law_score_fits_plain(path: [[i32; COLS]; ROWS], enemies: Seq<Hero>, projectiles: Seq<Projectile>)
    ensures
        score_fits(path, enemies, projectiles) <==> {
            &&& forall|i: int|
                0 <= i < enemies.len() ==> 0 <= (#[trigger] enemies[i]).y < 90 && 0 <= enemies[i].x < 51
            &&& forall|i: int|
                0 <= i < projectiles.len() ==> {
                    let pr = #[trigger] projectiles[i];
                    &&& 0 <= pr.y < 90 && 0 <= pr.x < 51
                    &&& i32::MIN < pr.x - pr.origin_x <= i32::MAX
                    &&& i32::MIN < pr.y - pr.origin_y <= i32::MAX
                }
            &&& forall|p: (usize, usize)|
                p.0 < 90 && p.1 < 51 ==> #[trigger] turn_score(path, Seq::empty(), Seq::empty(), p) <= i32::MAX
                    && turn_score(path, enemies, projectiles, p) >= i32::MIN
        },
{
    assert forall|p: (usize, usize)| p.0 < 90 && p.1 < 51 implies #[trigger] turn_score(
        path,
        Seq::empty(),
        Seq::empty(),
        p,
    ) == base_score(path, p) by {
        assert(enemies_penalty(Seq::<Hero>::empty(), p.0 as int, p.1 as int) == 0);
        assert(projectiles_penalty(Seq::<Projectile>::empty(), p.0 as int, p.1 as int) == 0);
    }
    assert(forall|p: (usize, usize)| p.0 < 90 && p.1 < 51 ==> #[trigger] base_score(path, p) == turn_score(
        path,
        Seq::empty(),
        Seq::empty(),
        p,
    ));
}

/// Walls can be drawn exactly when each stands on the board.
pub proof fn law_walls_on_board_plain(walls: Seq<Wall>)
    ensures
        walls_on_board(walls) <==> forall|i: int|
            0 <= i < walls.len() ==> 0 <= (#[trigger] walls[i]).y < 90 && 0 <= walls[i].x < 51,
{
}

/// A turn can be played exactly when the board can be scored against the heroes and
/// projectiles not owned by player 0, there is a first hero and it stands on the board,
/// a second hero's row plus 3 fits an `i32`, and a second hero owned by player 0 stands
/// on the board.
pub proof fn law_turn_playable_plain(path: [[i32; COLS]; ROWS], heroes: Seq<Hero>, projectiles: Seq<Projectile>)
    ensures
        turn_playable(path, heroes, projectiles) <==> {
            &&& score_fits(
                path,
                heroes.filter(|h: Hero| h.owner_id != 0),
                projectiles.filter(|p: Projectile| p.owner_id != 0),
            )
            &&& heroes.len() > 0
            &&& 0 <= heroes[0].y < 90 && 0 <= heroes[0].x < 51
            &&& heroes.len() > 1 ==> heroes[1].y <= i32::MAX - 3
            &&& heroes.len() > 1 && heroes[1].owner_id == 0 ==> 0 <= heroes[1].y < 90 && 0 <= heroes[1].x < 51
        },
{
    law_opponents_filter(heroes, projectiles);
}

/// When some route to the target costs less than `i32::MAX`, the hero leaves its cell:
/// it takes the first jump of a route to the target that costs no more than that one
/// whenever that one lands only on cells holding at least 1.
pub proof fn law_first_step_moves(
    m: [[i32; COLS]; ROWS],
    from: (usize, usize),
    t: (usize, usize),
    next: (usize, usize),
    q: Seq<(usize, usize)>,
)
    requires
        first_step(m, from, t, next),
        t != from,
        is_route(m, q, from, t),
        route_cost(m, q) < i32::MAX,
    ensures
        next != from,
        is_jump(from, next),
        exists|q2: Seq<(usize, usize)>|
            #[trigger] is_route(m, q2, from, t) && q2.len() > 1 && q2[1] == next && (positive_steps(m, q)
                ==> route_cost(m, q2) <= route_cost(m, q)),
{
    let q2 = choose|q2: Seq<(usize, usize)>|
        #[trigger] is_route(m, q2, from, t) && q2.len() > 1 && q2[1] == next && route_cost(m, q2) < i32::MAX
            && forall|q3: Seq<(usize, usize)>|
            is_route(m, q3, from, t) && positive_steps(m, q3) ==> route_cost(m, q2) <= #[trigger] route_cost(m, q3);
    assert(step_ok(m, q2, 1));
}

/// A turn never touches the path matrix; when the board can be scored the score matrix
/// becomes the turn's scores against the heroes and projectiles not owned by player 0,
/// and otherwise it stays; a playable turn is answered by orders.
pub proof fn law_turn_effects(before: Bot, after: Bot, heroes: Seq<Hero>, projectiles: Seq<Projectile>, r: Reaction)
    requires
        turn_played(before, after, heroes, projectiles, r),
    ensures
        after.path_matrix == before.path_matrix,
        score_fits(
            before.path_matrix,
            heroes.filter(|h: Hero| h.owner_id != 0),
            projectiles.filter(|p: Projectile| p.owner_id != 0),
        ) ==> forall|p: (usize, usize)|
            p.0 < 90 && p.1 < 51 ==> #[trigger] after.score_matrix[p.0 as int][p.1 as int] == turn_score(
                before.path_matrix,
                heroes.filter(|h: Hero| h.owner_id != 0),
                projectiles.filter(|p: Projectile| p.owner_id != 0),
                p,
            ),
        !score_fits(
            before.path_matrix,
            heroes.filter(|h: Hero| h.owner_id != 0),
            projectiles.filter(|p: Projectile| p.owner_id != 0),
        ) ==> after.score_matrix == before.score_matrix,
        turn_playable(before.path_matrix, heroes, projectiles) ==> r is Send,
{
    law_opponents_filter(heroes, projectiles);
    assert forall|p: (usize, usize)| p.0 < 90 && p.1 < 51 implies at(after.score_matrix, p)
        == #[trigger] after.score_matrix[p.0 as int][p.1 as int] by {}
}

} // verus!
