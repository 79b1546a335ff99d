//! Board preparation, scoring of the board for one turn, and the choice of the
//! next move.
use vstd::prelude::*;

use crate::astar::find_path_macro_grid;
use crate::grid::{at, compass, compass_step, dist1, in_grid, is_route, positive_steps, route_cost, COLS, ROWS};
use crate::protocol::{Hero, Projectile, Wall};

verus! {

/// The value a wall writes into the board.
pub const WALL: i32 = -50;

/// `(y, x)` is the cell of wall `w` or one of its eight neighbours.
pub open spec fn wall_covers(w: Wall, y: int, x: int) -> bool {
    in_box(w.y as int, w.x as int, 1, y, x)
}

/// One of the first `n` walls covers `(y, x)`.
pub open spec fn walls_cover(walls: Seq<Wall>, n: int, y: int, x: int) -> bool {
    exists|i: int| 0 <= i < n && #[trigger] wall_covers(walls[i], y, x)
}

/// Every wall stands on the board.
pub open spec fn walls_on_board(walls: Seq<Wall>) -> bool {
    forall|i: int|
        0 <= i < walls.len() ==> 0 <= (#[trigger] walls[i]).y < ROWS && 0 <= walls[i].x < COLS
}

/// The board `m` once `walls` have been drawn into it, at position `p`.
pub open spec fn walled(m: [[i32; COLS]; ROWS], walls: Seq<Wall>, p: (usize, usize)) -> int {
    if walls_cover(walls, walls.len() as int, p.0 as int, p.1 as int) {
        WALL as int
    } else {
        at(m, p)
    }
}

/// `(y, x)` lies within `r` cells of `(cy, cx)` in both coordinates.
pub open spec fn in_box(cy: int, cx: int, r: int, y: int, x: int) -> bool {
    dist1(cy, y) <= r && dist1(cx, x) <= r
}

/// `(y, x)` is `(cy, cx)` or its neighbour in one of the first `k` compass directions.
spec fn stamped(cy: int, cx: int, k: int, y: int, x: int) -> bool {
    (y == cy && x == cx) || exists|j: int|
        0 <= j < k && y == cy + (#[trigger] compass(j)).0 && x == cx + compass(j).1
}

proof fn lemma_stamped_all(cy: int, cx: int, y: int, x: int)
    ensures
        stamped(cy, cx, 8, y, x) <==> in_box(cy, cx, 1, y, x),
{
    let c0 = compass(0);
    let c1 = compass(1);
    let c2 = compass(2);
    let c3 = compass(3);
    let c4 = compass(4);
    let c5 = compass(5);
    let c6 = compass(6);
    let c7 = compass(7);
    if in_box(cy, cx, 1, y, x) && !(y == cy && x == cx) {
        assert(stamped(cy, cx, 8, y, x));
    }
    if stamped(cy, cx, 8, y, x) && !(y == cy && x == cx) {
        let j = choose|j: int| 0 <= j < 8 && y == cy + (#[trigger] compass(j)).0 && x == cx + compass(j).1;
        assert(0 <= j < 8);
    }
}

/// Stamping direction `k` adds exactly the cell `(cy, cx) + compass(k)`.
proof fn lemma_stamped_next(cy: int, cx: int, k: int, y: int, x: int)
    requires
        0 <= k < 8,
    ensures
        stamped(cy, cx, k + 1, y, x) == (stamped(cy, cx, k, y, x) || (y == cy + compass(k).0 && x == cx
            + compass(k).1)),
{
    if stamped(cy, cx, k + 1, y, x) && !(y == cy && x == cx) {
        let j = choose|j: int| 0 <= j < k + 1 && y == cy + (#[trigger] compass(j)).0 && x == cx + compass(j).1;
        assert(j < k || j == k);
    }
}

/// Draws every wall into the board: the wall's cell and its eight neighbours on the
/// board become `-50`.
pub fn initialize_walls(matrice: &mut [[i32; COLS]; ROWS], walls: &Vec<Wall>)
    requires
        walls_on_board(walls@),
    ensures
        forall|p: (usize, usize)| in_grid(p) ==> #[trigger] at(*final(matrice), p) == walled(*old(matrice), walls@, p),
{
    let ghost m0 = *matrice;
    let mut i: usize = 0;
    while i < walls.len()
        invariant
            i <= walls@.len(),
            walls_on_board(walls@),
            forall|p: (usize, usize)|
                in_grid(p) ==> #[trigger] at(*matrice, p) == if walls_cover(walls@, i as int, p.0 as int, p.1 as int) {
                    WALL as int
                } else {
                    at(m0, p)
                },
        decreases walls@.len() - i,
    {
        let wall = walls[i];
        let ghost before = *matrice;
        matrice[wall.y as usize][wall.x as usize] = WALL;
        proof {
            assert forall|p: (usize, usize)| in_grid(p) implies #[trigger] at(*matrice, p) == if walls_cover(
                walls@,
                i as int,
                p.0 as int,
                p.1 as int,
            ) || stamped(wall.y as int, wall.x as int, 0, p.0 as int, p.1 as int) {
                WALL as int
            } else {
                at(m0, p)
            } by {
                if !(p.0 == wall.y && p.1 == wall.x) {
                    assert(at(*matrice, p) == at(before, p));
                }
            }
        }
        let mut k: usize = 0;
        while k < 8
            invariant
                k <= 8,
                i < walls@.len(),
                wall == walls@[i as int],
                0 <= wall.y < ROWS,
                0 <= wall.x < COLS,
                forall|p: (usize, usize)|
                    in_grid(p) ==> #[trigger] at(*matrice, p) == if walls_cover(walls@, i as int, p.0 as int, p.1 as int)
                        || stamped(wall.y as int, wall.x as int, k as int, p.0 as int, p.1 as int) {
                        WALL as int
                    } else {
                        at(m0, p)
                    },
            decreases 8 - k,
        {
            let d = compass_step(k);
            let ny = wall.y + d.0;
            let nx = wall.x + d.1;
            let ghost mid = *matrice;
            if ny >= 0 && ny < ROWS as i32 && nx >= 0 && nx < COLS as i32 {
                matrice[ny as usize][nx as usize] = WALL;
            }
            proof {
                assert forall|p: (usize, usize)| in_grid(p) && !(p.0 == ny && p.1 == nx) implies #[trigger] at(*matrice, p)
                    == at(mid, p) by {}
                assert forall|p: (usize, usize)| in_grid(p) implies stamped(wall.y as int, wall.x as int, k + 1, p.0 as int, p.1 as int)
                    == (stamped(wall.y as int, wall.x as int, k as int, p.0 as int, p.1 as int) || (p.0 == ny && p.1 == nx)) by {
                    lemma_stamped_next(wall.y as int, wall.x as int, k as int, p.0 as int, p.1 as int);
                }
            }
            k = k + 1;
        }
        proof {
            assert forall|p: (usize, usize)| in_grid(p) implies walls_cover(walls@, i + 1, p.0 as int, p.1 as int)
                == (walls_cover(walls@, i as int, p.0 as int, p.1 as int) || stamped(wall.y as int, wall.x as int, 8, p.0 as int, p.1 as int)) by {
                lemma_stamped_all(wall.y as int, wall.x as int, p.0 as int, p.1 as int);
                if wall_covers(wall, p.0 as int, p.1 as int) {
                    assert(wall_covers(walls@[i as int], p.0 as int, p.1 as int));
                }
            }
        }
        i = i + 1;
    }
}

// ----- scoring the board for a turn -----

/// The bonus of row `y`: rows near either edge of the board are worth more.
pub open spec fn row_bonus(y: int) -> int {
    if y < 45 {
        y / 9
    } else {
        (89 - y) / 9
    }
}

/// The score of a cell before enemies and projectiles are counted: its path value,
/// plus the row bonus where the path value is positive.
pub open spec fn base_score(path: [[i32; COLS]; ROWS], p: (usize, usize)) -> int {
    if at(path, p) > 0 {
        at(path, p) + row_bonus(p.0 as int)
    } else {
        at(path, p)
    }
}

/// The cells an enemy threatens with its next shot: within 6 when its cooldown is at
/// most 1, within 3 when it is 2, none otherwise.
pub open spec fn enemy_zone(e: Hero, y: int, x: int) -> bool {
    if e.cooldown <= 1 {
        in_box(e.y as int, e.x as int, 6, y, x)
    } else if e.cooldown == 2 {
        in_box(e.y as int, e.x as int, 3, y, x)
    } else {
        false
    }
}

/// What an enemy takes off the score of `(y, x)`: 10 on its own cell, 8 on each of its
/// eight neighbours, and 8 more in its threat zone.
pub open spec fn enemy_penalty(e: Hero, y: int, x: int) -> int {
    (if y == e.y && x == e.x {
        10int
    } else {
        0int
    }) + (if in_box(e.y as int, e.x as int, 1, y, x) && !(y == e.y && x == e.x) {
        8int
    } else {
        0int
    }) + (if enemy_zone(e, y, x) {
        8int
    } else {
        0int
    })
}

/// `(y, x)` lies in the rectangle `[y_lo, y_hi] x [x_lo, x_hi]`.
pub open spec fn in_rect(y: int, x: int, y_lo: int, y_hi: int, x_lo: int, x_hi: int) -> bool {
    y_lo <= y <= y_hi && x_lo <= x <= x_hi
}

/// The cells a projectile sweeps: a 6 x 12 band ahead of it, laid out by the way it
/// travels.
pub open spec fn sweep(pr: Projectile, y: int, x: int) -> bool {
    let px = pr.x as int;
    let py = pr.y as int;
    let dx = pr.x - pr.origin_x;
    let dy = pr.y - pr.origin_y;
    if dist1(dx, 0) > dist1(dy, 0) {
        if dy > 0 {
            in_rect(y, x, py, py + 5, px - 6, px + 5)
        } else {
            in_rect(y, x, py - 5, py, px - 6, px + 5)
        }
    } else {
        if dx > 0 {
            in_rect(y, x, py - 6, py + 5, px, px + 5)
        } else {
            in_rect(y, x, py - 6, py + 5, px - 5, px)
        }
    }
}

/// What a projectile takes off the score of `(y, x)`: 5 on its own cell and 10 in its
/// sweep.
pub open spec fn projectile_penalty(pr: Projectile, y: int, x: int) -> int {
    (if y == pr.y && x == pr.x {
        5int
    } else {
        0int
    }) + (if sweep(pr, y, x) {
        10int
    } else {
        0int
    })
}

/// What all `enemies` take off the score of `(y, x)`.
pub open spec fn enemies_penalty(enemies: Seq<Hero>, y: int, x: int) -> int
    decreases enemies.len(),
{
    if enemies.len() == 0 {
        0
    } else {
        enemies_penalty(enemies.drop_last(), y, x) + enemy_penalty(enemies.last(), y, x)
    }
}

/// What all `projectiles` take off the score of `(y, x)`.
pub open spec fn projectiles_penalty(projectiles: Seq<Projectile>, y: int, x: int) -> int
    decreases projectiles.len(),
{
    if projectiles.len() == 0 {
        0
    } else {
        projectiles_penalty(projectiles.drop_last(), y, x) + projectile_penalty(projectiles.last(), y, x)
    }
}

proof fn lemma_enemies_prefix(es: Seq<Hero>, i: int, y: int, x: int)
    requires
        0 <= i <= es.len(),
    ensures
        0 <= enemies_penalty(es.take(i), y, x) <= enemies_penalty(es, y, x),
        i < es.len() ==> enemies_penalty(es.take(i + 1), y, x) == enemies_penalty(es.take(i), y, x)
            + enemy_penalty(es[i], y, x),
    decreases es.len() - i,
{
    if i < es.len() {
        assert(es.take(i + 1).drop_last() =~= es.take(i));
        lemma_enemies_prefix(es, i + 1, y, x);
        lemma_enemies_nonneg(es.take(i), y, x);
    } else {
        assert(es.take(i) =~= es);
        lemma_enemies_nonneg(es, y, x);
    }
}

/// The enemies' penalty of a cell is never negative.
pub proof fn lemma_enemies_nonneg(es: Seq<Hero>, y: int, x: int)
    ensures
        enemies_penalty(es, y, x) >= 0,
    decreases es.len(),
{
    if es.len() > 0 {
        lemma_enemies_nonneg(es.drop_last(), y, x);
    }
}

proof fn lemma_projectiles_prefix(ps: Seq<Projectile>, i: int, y: int, x: int)
    requires
        0 <= i <= ps.len(),
    ensures
        0 <= projectiles_penalty(ps.take(i), y, x) <= projectiles_penalty(ps, y, x),
        i < ps.len() ==> projectiles_penalty(ps.take(i + 1), y, x) == projectiles_penalty(ps.take(i), y, x)
            + projectile_penalty(ps[i], y, x),
    decreases ps.len() - i,
{
    if i < ps.len() {
        assert(ps.take(i + 1).drop_last() =~= ps.take(i));
        lemma_projectiles_prefix(ps, i + 1, y, x);
        lemma_projectiles_nonneg(ps.take(i), y, x);
    } else {
        assert(ps.take(i) =~= ps);
        lemma_projectiles_nonneg(ps, y, x);
    }
}

/// The projectiles' penalty of a cell is never negative.
pub proof fn lemma_projectiles_nonneg(ps: Seq<Projectile>, y: int, x: int)
    ensures
        projectiles_penalty(ps, y, x) >= 0,
    decreases ps.len(),
{
    if ps.len() > 0 {
        lemma_projectiles_nonneg(ps.drop_last(), y, x);
    }
}

/// The turn's score of a cell, with only part of the enemies and projectiles counted.
spec fn partial_score(
    path: [[i32; COLS]; ROWS],
    enemies: Seq<Hero>,
    projectiles: Seq<Projectile>,
    p: (usize, usize),
) -> int {
    base_score(path, p) - enemies_penalty(enemies, p.0 as int, p.1 as int) - projectiles_penalty(
        projectiles,
        p.0 as int,
        p.1 as int,
    )
}

/// What an enemy has taken off `(y, x)` once its own cell and its first `k`
/// neighbours are done.
spec fn enemy_stage(e: Hero, k: int, y: int, x: int) -> int {
    (if y == e.y && x == e.x {
        10int
    } else {
        0int
    }) + (if stamped(e.y as int, e.x as int, k, y, x) && !(y == e.y && x == e.x) {
        8int
    } else {
        0int
    })
}

/// Takes one enemy's penalty off the board.
fn apply_enemy(m: &mut [[i32; COLS]; ROWS], e: Hero)
    requires
        hero_on_board(e),
        forall|p: (usize, usize)|
            in_grid(p) ==> #[trigger] at(*old(m), p) - enemy_penalty(e, p.0 as int, p.1 as int) >= i32::MIN,
    ensures
        forall|p: (usize, usize)|
            in_grid(p) ==> #[trigger] at(*final(m), p) == at(*old(m), p) - enemy_penalty(e, p.0 as int, p.1 as int),
{
    let ghost m0 = *m;
    let ey = e.y as usize;
    let ex = e.x as usize;
    assert(at(*m, (ey, ex)) - enemy_penalty(e, ey as int, ex as int) >= i32::MIN);
    m[ey][ex] = m[ey][ex] - 10;
    proof {
        assert forall|p: (usize, usize)| in_grid(p) implies #[trigger] at(*m, p) == at(m0, p) - enemy_stage(
            e,
            0,
            p.0 as int,
            p.1 as int,
        ) by {
            if p != (ey, ex) {
                assert(at(*m, p) == at(m0, p));
            }
        }
    }
    let mut k: usize = 0;
    while k < 8
        invariant
            k <= 8,
            hero_on_board(e),
            forall|p: (usize, usize)|
                in_grid(p) ==> #[trigger] at(m0, p) - enemy_penalty(e, p.0 as int, p.1 as int) >= i32::MIN,
            forall|p: (usize, usize)|
                in_grid(p) ==> #[trigger] at(*m, p) == at(m0, p) - enemy_stage(e, k as int, p.0 as int, p.1 as int),
        decreases 8 - k,
    {
        let d = compass_step(k);
        let ny = e.y + d.0;
        let nx = e.x + d.1;
        let ghost mid = *m;
        proof {
            assert forall|p: (usize, usize)| in_grid(p) implies #[trigger] enemy_stage(e, k + 1, p.0 as int, p.1 as int)
                == enemy_stage(e, k as int, p.0 as int, p.1 as int) + if p.0 == ny && p.1 == nx {
                8int
            } else {
                0int
            } by {
                lemma_stamped_next(e.y as int, e.x as int, k as int, p.0 as int, p.1 as int);
                lemma_stamped_all(e.y as int, e.x as int, p.0 as int, p.1 as int);
                if stamped(e.y as int, e.x as int, k as int, p.0 as int, p.1 as int) && p.0 == ny && p.1 == nx && !(p.0
                    == e.y && p.1 == e.x) {
                    let j = choose|j: int|
                        0 <= j < k && p.0 == e.y + (#[trigger] compass(j)).0 && p.1 == e.x + compass(j).1;
                    assert(compass(j) != compass(k as int));
                }
            }
        }
        if ny >= 0 && ny < ROWS as i32 && nx >= 0 && nx < COLS as i32 {
            proof {
                let q = (ny as usize, nx as usize);
                lemma_stamped_all(e.y as int, e.x as int, q.0 as int, q.1 as int);
                lemma_stamped_next(e.y as int, e.x as int, k as int, q.0 as int, q.1 as int);
                assert(enemy_stage(e, k + 1, q.0 as int, q.1 as int) <= enemy_penalty(e, q.0 as int, q.1 as int)) by {
                    if stamped(e.y as int, e.x as int, k + 1, q.0 as int, q.1 as int) {
                        assert(stamped(e.y as int, e.x as int, 8, q.0 as int, q.1 as int)) by {
                            let j = choose|j: int|
                                0 <= j < k + 1 && q.0 == e.y + (#[trigger] compass(j)).0 && q.1 == e.x + compass(j).1;
                            if !(q.0 == e.y && q.1 == e.x) {
                                assert(0 <= j < 8);
                            }
                        }
                    }
                }
                assert(at(*m, q) == at(m0, q) - enemy_stage(e, k as int, q.0 as int, q.1 as int));
            }
            m[ny as usize][nx as usize] = m[ny as usize][nx as usize] - 8;
        }
        proof {
            assert forall|p: (usize, usize)| in_grid(p) implies #[trigger] at(*m, p) == at(m0, p) - enemy_stage(
                e,
                k + 1,
                p.0 as int,
                p.1 as int,
            ) by {
                assert(enemy_stage(e, k + 1, p.0 as int, p.1 as int) == enemy_stage(e, k as int, p.0 as int, p.1 as int)
                    + if p.0 == ny && p.1 == nx {
                    8int
                } else {
                    0int
                });
                assert(at(mid, p) == at(m0, p) - enemy_stage(e, k as int, p.0 as int, p.1 as int));
            }
        }
        k = k + 1;
    }
    proof {
        assert forall|p: (usize, usize)| in_grid(p) implies enemy_stage(e, 8, p.0 as int, p.1 as int) + (if enemy_zone(
            e,
            p.0 as int,
            p.1 as int,
        ) {
            8int
        } else {
            0int
        }) == #[trigger] enemy_penalty(e, p.0 as int, p.1 as int) by {
            lemma_stamped_all(e.y as int, e.x as int, p.0 as int, p.1 as int);
        }
    }
    if e.cooldown <= 1 {
        subtract_rect(m, e.y - 6, e.y + 6, e.x - 6, e.x + 6, 8);
    } else if e.cooldown == 2 {
        subtract_rect(m, e.y - 3, e.y + 3, e.x - 3, e.x + 3, 8);
    }
}

/// The score of cell `p` for a turn.
pub open spec fn turn_score(
    path: [[i32; COLS]; ROWS],
    enemies: Seq<Hero>,
    projectiles: Seq<Projectile>,
    p: (usize, usize),
) -> int {
    base_score(path, p) - enemies_penalty(enemies, p.0 as int, p.1 as int) - projectiles_penalty(
        projectiles,
        p.0 as int,
        p.1 as int,
    )
}

/// A hero stands on the board.
pub open spec fn hero_on_board(h: Hero) -> bool {
    0 <= h.y < ROWS && 0 <= h.x < COLS
}

/// A projectile stands on the board, and its travel from its origin is an `i32` whose
/// absolute value is one too.
pub open spec fn projectile_fits(pr: Projectile) -> bool {
    &&& 0 <= pr.y < ROWS
    &&& 0 <= pr.x < COLS
    &&& i32::MIN < pr.x - pr.origin_x <= i32::MAX
    &&& i32::MIN < pr.y - pr.origin_y <= i32::MAX
}

/// The inputs for which the turn's scores can be computed in `i32`: the objects are on
/// the board and every intermediate score fits.
pub open spec fn score_fits(path: [[i32; COLS]; ROWS], enemies: Seq<Hero>, projectiles: Seq<Projectile>) -> bool {
    &&& forall|i: int| 0 <= i < enemies.len() ==> hero_on_board(#[trigger] enemies[i])
    &&& forall|i: int| 0 <= i < projectiles.len() ==> projectile_fits(#[trigger] projectiles[i])
    &&& forall|p: (usize, usize)|
        in_grid(p) ==> #[trigger] base_score(path, p) <= i32::MAX && turn_score(path, enemies, projectiles, p)
            >= i32::MIN
}

/// Subtracts `amount` from every board cell of the rectangle `[y_lo, y_hi] x [x_lo, x_hi]`.
fn subtract_rect(m: &mut [[i32; COLS]; ROWS], y_lo: i32, y_hi: i32, x_lo: i32, x_hi: i32, amount: i32)
    requires
        -100 <= y_lo <= y_hi + 1,
        y_hi <= 200,
        -100 <= x_lo <= x_hi + 1,
        x_hi <= 200,
        0 <= amount <= 100,
        forall|p: (usize, usize)|
            in_grid(p) && in_rect(p.0 as int, p.1 as int, y_lo as int, y_hi as int, x_lo as int, x_hi as int)
                ==> #[trigger] at(*old(m), p) - amount >= i32::MIN,
    ensures
        forall|p: (usize, usize)|
            in_grid(p) ==> #[trigger] at(*final(m), p) == at(*old(m), p) - if in_rect(
                p.0 as int,
                p.1 as int,
                y_lo as int,
                y_hi as int,
                x_lo as int,
                x_hi as int,
            ) {
                amount as int
            } else {
                0
            },
{
    let ghost m0 = *m;
    let mut y = y_lo;
    while y <= y_hi
        invariant
            y_lo <= y <= y_hi + 1,
            y_hi <= 200,
            -100 <= x_lo <= x_hi + 1,
            x_hi <= 200,
            0 <= amount <= 100,
            forall|p: (usize, usize)|
                in_grid(p) && in_rect(p.0 as int, p.1 as int, y_lo as int, y_hi as int, x_lo as int, x_hi as int)
                    ==> #[trigger] at(m0, p) - amount >= i32::MIN,
            forall|p: (usize, usize)|
                in_grid(p) ==> #[trigger] at(*m, p) == at(m0, p) - if in_rect(
                    p.0 as int,
                    p.1 as int,
                    y_lo as int,
                    y - 1,
                    x_lo as int,
                    x_hi as int,
                ) {
                    amount as int
                } else {
                    0
                },
        decreases y_hi + 1 - y,
    {
        let mut x = x_lo;
        while x <= x_hi
            invariant
                y_lo <= y <= y_hi,
                y_hi <= 200,
                x_lo <= x <= x_hi + 1,
                x_hi <= 200,
                0 <= amount <= 100,
                forall|p: (usize, usize)|
                    in_grid(p) && in_rect(p.0 as int, p.1 as int, y_lo as int, y_hi as int, x_lo as int, x_hi as int)
                        ==> #[trigger] at(m0, p) - amount >= i32::MIN,
                forall|p: (usize, usize)|
                    in_grid(p) ==> #[trigger] at(*m, p) == at(m0, p) - if in_rect(
                        p.0 as int,
                        p.1 as int,
                        y_lo as int,
                        y - 1,
                        x_lo as int,
                        x_hi as int,
                    ) || (p.0 == y && x_lo <= p.1 < x) {
                        amount as int
                    } else {
                        0
                    },
            decreases x_hi + 1 - x,
        {
            if y >= 0 && y < ROWS as i32 && x >= 0 && x < COLS as i32 {
                let ghost before = *m;
                assert(at(before, (y as usize, x as usize)) == at(m0, (y as usize, x as usize)));
                m[y as usize][x as usize] = m[y as usize][x as usize] - amount;
                assert forall|p: (usize, usize)| in_grid(p) && p != (y as usize, x as usize) implies #[trigger] at(
                    *m,
                    p,
                ) == at(before, p) by {}
            }
            x = x + 1;
        }
        y = y + 1;
    }
}

/// Takes one projectile's penalty off the board.
fn apply_projectile(m: &mut [[i32; COLS]; ROWS], pr: Projectile)
    requires
        projectile_fits(pr),
        forall|p: (usize, usize)|
            in_grid(p) ==> #[trigger] at(*old(m), p) - projectile_penalty(pr, p.0 as int, p.1 as int) >= i32::MIN,
    ensures
        forall|p: (usize, usize)|
            in_grid(p) ==> #[trigger] at(*final(m), p) == at(*old(m), p) - projectile_penalty(
                pr,
                p.0 as int,
                p.1 as int,
            ),
{
    let ghost m0 = *m;
    let py = pr.y;
    let px = pr.x;
    let c = (py as usize, px as usize);
    assert(at(*m, c) - projectile_penalty(pr, c.0 as int, c.1 as int) >= i32::MIN);
    m[py as usize][px as usize] = m[py as usize][px as usize] - 5;
    assert forall|p: (usize, usize)| in_grid(p) implies #[trigger] at(*m, p) == at(m0, p) - if p == c {
        5int
    } else {
        0int
    } by {}
    let dx = pr.x - pr.origin_x;
    let dy = pr.y - pr.origin_y;
    let adx = if dx >= 0 {
        dx
    } else {
        -dx
    };
    let ady = if dy >= 0 {
        dy
    } else {
        -dy
    };
    if adx > ady {
        if dy > 0 {
            subtract_rect(m, py, py + 5, px - 6, px + 5, 10);
        } else {
            subtract_rect(m, py - 5, py, px - 6, px + 5, 10);
        }
    } else {
        if dx > 0 {
            subtract_rect(m, py - 6, py + 5, px, px + 5, 10);
        } else {
            subtract_rect(m, py - 6, py + 5, px - 5, px, 10);
        }
    }
}

/// Adds the row bonus to every cell whose path value is positive.
fn add_row_bonus(score_matrix: &mut [[i32; COLS]; ROWS], path_matrix: &[[i32; COLS]; ROWS])
    requires
        forall|p: (usize, usize)| in_grid(p) ==> #[trigger] at(*old(score_matrix), p) == at(*path_matrix, p),
        forall|p: (usize, usize)| in_grid(p) ==> #[trigger] base_score(*path_matrix, p) <= i32::MAX,
    ensures
        forall|p: (usize, usize)| in_grid(p) ==> #[trigger] at(*final(score_matrix), p) == base_score(*path_matrix, p),
{
    let mut i: usize = 0;
    while i < 45
        invariant
            i <= 45,
            forall|p: (usize, usize)| in_grid(p) ==> #[trigger] base_score(*path_matrix, p) <= i32::MAX,
            forall|p: (usize, usize)|
                in_grid(p) ==> #[trigger] at(*score_matrix, p) == if p.0 < i || p.0 >= 90 - i {
                    base_score(*path_matrix, p)
                } else {
                    at(*path_matrix, p)
                },
        decreases 45 - i,
    {
        let mut j: usize = 0;
        while j < COLS
            invariant
                i < 45,
                j <= COLS,
                forall|p: (usize, usize)| in_grid(p) ==> #[trigger] base_score(*path_matrix, p) <= i32::MAX,
                forall|p: (usize, usize)|
                    in_grid(p) ==> #[trigger] at(*score_matrix, p) == if p.0 < i || p.0 >= 90 - i || ((p.0 == i || p.0
                        == 89 - i) && p.1 < j) {
                        base_score(*path_matrix, p)
                    } else {
                        at(*path_matrix, p)
                    },
            decreases COLS - j,
        {
            let ghost before = *score_matrix;
            assert(base_score(*path_matrix, (i, j)) <= i32::MAX);
            assert(base_score(*path_matrix, ((89 - i) as usize, j)) <= i32::MAX);
            assert(at(*score_matrix, (i, j)) == at(*path_matrix, (i, j)));
            assert(at(*score_matrix, ((89 - i) as usize, j)) == at(*path_matrix, ((89 - i) as usize, j)));
            if path_matrix[0 + i][j] > 0 {
                score_matrix[0 + i][j] = score_matrix[0 + i][j] + i as i32 / 9;
            }
            if path_matrix[89 - i][j] > 0 {
                score_matrix[89 - i][j] = score_matrix[89 - i][j] + i as i32 / 9;
            }
            assert forall|p: (usize, usize)| in_grid(p) && p != (i, j) && p != ((89 - i) as usize, j) implies #[trigger] at(
                *score_matrix,
                p,
            ) == at(before, p) by {}
            j = j + 1;
        }
        i = i + 1;
    }
}

/// Scores the board for one turn: the path matrix, plus the row bonus on cells with a
/// positive path value, minus what each enemy and each projectile takes off.
pub fn calculate_score(
    score_matrix: &mut [[i32; COLS]; ROWS],
    path_matrix: &[[i32; COLS]; ROWS],
    enemies: Vec<Hero>,
    projectiles: Vec<Projectile>,
)
    requires
        score_fits(*path_matrix, enemies@, projectiles@),
    ensures
        forall|p: (usize, usize)|
            in_grid(p) ==> #[trigger] at(*final(score_matrix), p) == turn_score(*path_matrix, enemies@, projectiles@, p),
{
    *score_matrix = *path_matrix;
    add_row_bonus(score_matrix, path_matrix);
    let mut i: usize = 0;
    while i < enemies.len()
        invariant
            i <= enemies@.len(),
            score_fits(*path_matrix, enemies@, projectiles@),
            forall|p: (usize, usize)|
                in_grid(p) ==> #[trigger] at(*score_matrix, p) == partial_score(
                    *path_matrix,
                    enemies@.take(i as int),
                    Seq::empty(),
                    p,
                ),
        decreases enemies@.len() - i,
    {
        let e = enemies[i];
        proof {
            assert forall|p: (usize, usize)| in_grid(p) implies #[trigger] at(*score_matrix, p) - enemy_penalty(
                e,
                p.0 as int,
                p.1 as int,
            ) >= i32::MIN && at(*score_matrix, p) - enemy_penalty(e, p.0 as int, p.1 as int) == partial_score(
                *path_matrix,
                enemies@.take(i + 1),
                Seq::empty(),
                p,
            ) by {
                lemma_enemies_prefix(enemies@, i as int, p.0 as int, p.1 as int);
                lemma_enemies_prefix(enemies@, i + 1, p.0 as int, p.1 as int);
                lemma_projectiles_nonneg(projectiles@, p.0 as int, p.1 as int);
                assert(turn_score(*path_matrix, enemies@, projectiles@, p) >= i32::MIN);
            }
        }
        apply_enemy(score_matrix, e);
        i = i + 1;
    }
    assert(enemies@.take(enemies@.len() as int) =~= enemies@);
    let mut i: usize = 0;
    while i < projectiles.len()
        invariant
            i <= projectiles@.len(),
            score_fits(*path_matrix, enemies@, projectiles@),
            forall|p: (usize, usize)|
                in_grid(p) ==> #[trigger] at(*score_matrix, p) == partial_score(
                    *path_matrix,
                    enemies@,
                    projectiles@.take(i as int),
                    p,
                ),
        decreases projectiles@.len() - i,
    {
        let pr = projectiles[i];
        proof {
            assert forall|p: (usize, usize)| in_grid(p) implies #[trigger] at(*score_matrix, p) - projectile_penalty(
                pr,
                p.0 as int,
                p.1 as int,
            ) >= i32::MIN && at(*score_matrix, p) - projectile_penalty(pr, p.0 as int, p.1 as int) == partial_score(
                *path_matrix,
                enemies@,
                projectiles@.take(i + 1),
                p,
            ) by {
                lemma_projectiles_prefix(projectiles@, i as int, p.0 as int, p.1 as int);
                lemma_projectiles_prefix(projectiles@, i + 1, p.0 as int, p.1 as int);
                assert(turn_score(*path_matrix, enemies@, projectiles@, p) >= i32::MIN);
            }
        }
        apply_projectile(score_matrix, pr);
        i = i + 1;
    }
    assert(projectiles@.take(projectiles@.len() as int) =~= projectiles@);
}

// ----- checking that a turn can be scored -----

fn abs_diff_i64(a: i64, b: i64) -> (d: i64)
    requires
        -1_000_000_000_000 <= a <= 1_000_000_000_000,
        -1_000_000_000_000 <= b <= 1_000_000_000_000,
    ensures
        d == dist1(a as int, b as int),
{
    if a >= b {
        a - b
    } else {
        b - a
    }
}

fn in_box_exec(cy: i64, cx: i64, r: i64, y: i64, x: i64) -> (b: bool)
    requires
        -1_000_000_000_000 <= cy <= 1_000_000_000_000,
        -1_000_000_000_000 <= cx <= 1_000_000_000_000,
        -1_000_000_000_000 <= y <= 1_000_000_000_000,
        -1_000_000_000_000 <= x <= 1_000_000_000_000,
    ensures
        b == in_box(cy as int, cx as int, r as int, y as int, x as int),
{
    abs_diff_i64(cy, y) <= r && abs_diff_i64(cx, x) <= r
}

fn enemy_penalty_at(e: &Hero, y: i64, x: i64) -> (v: i64)
    requires
        0 <= y < ROWS,
        0 <= x < COLS,
    ensures
        v == enemy_penalty(*e, y as int, x as int),
        0 <= v <= 26,
{
    let ey = e.y as i64;
    let ex = e.x as i64;
    let center = y == ey && x == ex;
    let mut v: i64 = 0;
    if center {
        v = v + 10;
    }
    if in_box_exec(ey, ex, 1, y, x) && !center {
        v = v + 8;
    }
    let zone = if e.cooldown <= 1 {
        in_box_exec(ey, ex, 6, y, x)
    } else if e.cooldown == 2 {
        in_box_exec(ey, ex, 3, y, x)
    } else {
        false
    };
    if zone {
        v = v + 8;
    }
    v
}

fn projectile_penalty_at(pr: &Projectile, y: i64, x: i64) -> (v: i64)
    requires
        0 <= y < ROWS,
        0 <= x < COLS,
    ensures
        v == projectile_penalty(*pr, y as int, x as int),
        0 <= v <= 15,
{
    let px = pr.x as i64;
    let py = pr.y as i64;
    let dx = pr.x as i64 - pr.origin_x as i64;
    let dy = pr.y as i64 - pr.origin_y as i64;
    let adx = if dx >= 0 {
        dx
    } else {
        -dx
    };
    let ady = if dy >= 0 {
        dy
    } else {
        -dy
    };
    let swept = if adx > ady {
        if dy > 0 {
            py <= y && y <= py + 5 && px - 6 <= x && x <= px + 5
        } else {
            py - 5 <= y && y <= py && px - 6 <= x && x <= px + 5
        }
    } else {
        if dx > 0 {
            py - 6 <= y && y <= py + 5 && px <= x && x <= px + 5
        } else {
            py - 6 <= y && y <= py + 5 && px - 5 <= x && x <= px
        }
    };
    let mut v: i64 = 0;
    if y == py && x == px {
        v = v + 5;
    }
    if swept {
        v = v + 10;
    }
    v
}

/// Whether `calculate_score` can score this turn: every enemy stands on the board,
/// every projectile fits, and every cell's score stays within `i32`.
pub fn scores_fit(path_matrix: &[[i32; COLS]; ROWS], enemies: &Vec<Hero>, projectiles: &Vec<Projectile>) -> (b: bool)
    ensures
        b == score_fits(*path_matrix, enemies@, projectiles@),
{
    let mut i: usize = 0;
    while i < enemies.len()
        invariant
            i <= enemies@.len(),
            forall|j: int| 0 <= j < i ==> hero_on_board(#[trigger] enemies@[j]),
        decreases enemies@.len() - i,
    {
        let e = enemies[i];
        if !(0 <= e.y && e.y < ROWS as i32 && 0 <= e.x && e.x < COLS as i32) {
            return false;
        }
        i = i + 1;
    }
    let mut i: usize = 0;
    while i < projectiles.len()
        invariant
            i <= projectiles@.len(),
            forall|j: int| 0 <= j < i ==> projectile_fits(#[trigger] projectiles@[j]),
        decreases projectiles@.len() - i,
    {
        let pr = projectiles[i];
        let dx = pr.x as i64 - pr.origin_x as i64;
        let dy = pr.y as i64 - pr.origin_y as i64;
        if !(0 <= pr.y && pr.y < ROWS as i32 && 0 <= pr.x && pr.x < COLS as i32 && (i32::MIN as i64) < dx && dx
            <= i32::MAX as i64 && (i32::MIN as i64) < dy && dy <= i32::MAX as i64) {
            return false;
        }
        i = i + 1;
    }
    let mut y: usize = 0;
    while y < ROWS
        invariant
            y <= ROWS,
            forall|q: (usize, usize)|
                in_grid(q) && q.0 < y ==> #[trigger] base_score(*path_matrix, q) <= i32::MAX && turn_score(
                    *path_matrix,
                    enemies@,
                    projectiles@,
                    q,
                ) >= i32::MIN,
        decreases ROWS - y,
    {
        let mut x: usize = 0;
        while x < COLS
            invariant
                y < ROWS,
                x <= COLS,
                forall|q: (usize, usize)|
                    in_grid(q) && (q.0 < y || (q.0 == y && q.1 < x)) ==> #[trigger] base_score(*path_matrix, q)
                        <= i32::MAX && turn_score(*path_matrix, enemies@, projectiles@, q) >= i32::MIN,
            decreases COLS - x,
        {
            let ghost p = (y, x);
            let cell = path_matrix[y][x] as i64;
            let base = if cell > 0 {
                if y < 45 {
                    cell + (y / 9) as i64
                } else {
                    cell + ((89 - y) / 9) as i64
                }
            } else {
                cell
            };
            assert(base == base_score(*path_matrix, p));
            if base > i32::MAX as i64 {
                return false;
            }
            let mut v = base;
            let mut i: usize = 0;
            while i < enemies.len()
                invariant
                    y < ROWS,
                    x < COLS,
                    p == (y, x),
                    i <= enemies@.len(),
                    i32::MIN <= v <= i32::MAX,
                    v == base_score(*path_matrix, p) - enemies_penalty(enemies@.take(i as int), y as int, x as int),
                decreases enemies@.len() - i,
            {
                let pen = enemy_penalty_at(&enemies[i], y as i64, x as i64);
                proof {
                    lemma_enemies_prefix(enemies@, i as int, y as int, x as int);
                }
                v = v - pen;
                if v < (i32::MIN as i64) {
                    proof {
                        lemma_enemies_prefix(enemies@, i + 1, y as int, x as int);
                        lemma_projectiles_nonneg(projectiles@, y as int, x as int);
                    }
                    return false;
                }
                i = i + 1;
            }
            assert(enemies@.take(enemies@.len() as int) =~= enemies@);
            let mut i: usize = 0;
            while i < projectiles.len()
                invariant
                    y < ROWS,
                    x < COLS,
                    p == (y, x),
                    i <= projectiles@.len(),
                    i32::MIN <= v <= i32::MAX,
                    v == base_score(*path_matrix, p) - enemies_penalty(enemies@, y as int, x as int)
                        - projectiles_penalty(projectiles@.take(i as int), y as int, x as int),
                decreases projectiles@.len() - i,
            {
                let pen = projectile_penalty_at(&projectiles[i], y as i64, x as i64);
                proof {
                    lemma_projectiles_prefix(projectiles@, i as int, y as int, x as int);
                }
                v = v - pen;
                if v < (i32::MIN as i64) {
                    proof {
                        lemma_projectiles_prefix(projectiles@, i + 1, y as int, x as int);
                    }
                    return false;
                }
                i = i + 1;
            }
            assert(projectiles@.take(projectiles@.len() as int) =~= projectiles@);
            x = x + 1;
        }
        y = y + 1;
    }
    true
}

// ----- choosing the next move -----

/// The cells the bot considers as targets: rows and columns 1, 4, 7, ...
pub open spec fn scan_cell(p: (usize, usize)) -> bool {
    1 <= p.0 < ROWS && p.0 % 3 == 1 && 1 <= p.1 < COLS && p.1 % 3 == 1
}

/// A target the bot may choose: a scanned cell that scores at least -100 and is open
/// on the path matrix.
pub open spec fn candidate(path: [[i32; COLS]; ROWS], score: [[i32; COLS]; ROWS], p: (usize, usize)) -> bool {
    scan_cell(p) && at(score, p) >= -100 && at(path, p) > 0
}

/// Manhattan distance between two positions.
pub open spec fn manhattan(a: (usize, usize), b: (usize, usize)) -> int {
    dist1(a.0 as int, b.0 as int) + dist1(a.1 as int, b.1 as int)
}

/// `a` is a better target than `b` from `from`: a higher score, or the same score
/// closer by.
pub open spec fn outranks(score: [[i32; COLS]; ROWS], from: (usize, usize), a: (usize, usize), b: (usize, usize)) -> bool {
    at(score, a) > at(score, b) || (at(score, a) == at(score, b) && manhattan(a, from) < manhattan(b, from))
}

/// `a` comes before `b` in row-major order.
pub open spec fn scanned_before(a: (usize, usize), b: (usize, usize)) -> bool {
    a.0 < b.0 || (a.0 == b.0 && a.1 < b.1)
}

/// `t` is the target the bot picks from `from`: the first candidate, in row-major
/// order, that no candidate outranks; `from` itself when there is no candidate.
pub open spec fn is_target(
    path: [[i32; COLS]; ROWS],
    score: [[i32; COLS]; ROWS],
    from: (usize, usize),
    t: (usize, usize),
) -> bool {
    if exists|c: (usize, usize)| #[trigger] candidate(path, score, c) {
        &&& candidate(path, score, t)
        &&& forall|c: (usize, usize)|
            #[trigger] candidate(path, score, c) ==> !outranks(score, from, c, t) && (scanned_before(c, t) ==> outranks(
                score,
                from,
                t,
                c,
            ))
    } else {
        t == from
    }
}

/// `next` is the first step from `from` toward `t`: `from` itself when `t` is `from` or
/// when no route to `t` costs less than `i32::MAX`; otherwise the second cell of a
/// route to `t` that costs less than `i32::MAX` and no more than any route whose
/// landing cells all cost at least one.
pub open spec fn first_step(m: [[i32; COLS]; ROWS], from: (usize, usize), t: (usize, usize), next: (usize, usize)) -> bool {
    if t == from {
        next == from
    } else {
        ||| (next == from && forall|q: Seq<(usize, usize)>|
            is_route(m, q, from, t) ==> #[trigger] route_cost(m, q) >= i32::MAX)
        ||| exists|q: Seq<(usize, usize)>|
            #[trigger] is_route(m, q, from, t) && q.len() > 1 && q[1] == next && route_cost(m, q) < i32::MAX
                && forall|q2: Seq<(usize, usize)>|
                is_route(m, q2, from, t) && positive_steps(m, q2) ==> route_cost(m, q) <= #[trigger] route_cost(
                    m,
                    q2,
                )
    }
}

spec fn seen(p: (usize, usize), y: int, x: int) -> bool {
    scan_cell(p) && (p.0 < y || (p.0 == y && p.1 < x))
}

/// Picks the target of the next move, scanning the candidates in row-major order.
fn select_target(
    initial_x: usize,
    initial_y: usize,
    path_matrix: &[[i32; COLS]; ROWS],
    score_matrix: &[[i32; COLS]; ROWS],
) -> (t: (usize, usize))
    requires
        initial_y < ROWS,
        initial_x < COLS,
    ensures
        is_target(*path_matrix, *score_matrix, (initial_y, initial_x), t),
{
    let ghost from = (initial_y, initial_x);
    let mut max_score: i32 = -100;
    let mut min_distance: i32 = i32::MAX;
    let mut final_x = initial_x;
    let mut final_y = initial_y;
    let mut y: usize = 1;
    while y < ROWS
        invariant
            y <= ROWS + 2,
            y % 3 == 1,
            initial_y < ROWS,
            initial_x < COLS,
            from == (initial_y, initial_x),
            (forall|c: (usize, usize)| seen(c, y as int, 0) ==> !candidate(*path_matrix, *score_matrix, c)) ==> (
            max_score == -100 && min_distance == i32::MAX && final_y == initial_y && final_x == initial_x),
            (exists|c: (usize, usize)| seen(c, y as int, 0) && candidate(*path_matrix, *score_matrix, c)) ==> ({
                let f = (final_y, final_x);
                &&& seen(f, y as int, 0)
                &&& candidate(*path_matrix, *score_matrix, f)
                &&& max_score == at(*score_matrix, f)
                &&& min_distance == manhattan(f, from)
                &&& forall|c: (usize, usize)|
                    seen(c, y as int, 0) && #[trigger] candidate(*path_matrix, *score_matrix, c) ==> !outranks(
                        *score_matrix,
                        from,
                        c,
                        f,
                    ) && (scanned_before(c, f) ==> outranks(*score_matrix, from, f, c))
            }),
        decreases ROWS + 2 - y,
    {
        let mut x: usize = 1;
        while x < COLS
            invariant
                y < ROWS,
                y % 3 == 1,
                x <= COLS + 2,
                x % 3 == 1,
                initial_y < ROWS,
                initial_x < COLS,
                from == (initial_y, initial_x),
                (forall|c: (usize, usize)| seen(c, y as int, x as int) ==> !candidate(*path_matrix, *score_matrix, c))
                    ==> (max_score == -100 && min_distance == i32::MAX && final_y == initial_y && final_x
                    == initial_x),
                (exists|c: (usize, usize)| seen(c, y as int, x as int) && candidate(*path_matrix, *score_matrix, c))
                    ==> ({
                    let f = (final_y, final_x);
                    &&& seen(f, y as int, x as int)
                    &&& candidate(*path_matrix, *score_matrix, f)
                    &&& max_score == at(*score_matrix, f)
                    &&& min_distance == manhattan(f, from)
                    &&& forall|c: (usize, usize)|
                        seen(c, y as int, x as int) && #[trigger] candidate(*path_matrix, *score_matrix, c)
                            ==> !outranks(*score_matrix, from, c, f) && (scanned_before(c, f) ==> outranks(
                            *score_matrix,
                            from,
                            f,
                            c,
                        ))
                }),
            decreases COLS + 2 - x,
        {
            let ghost had = exists|c: (usize, usize)|
                seen(c, y as int, x as int) && candidate(*path_matrix, *score_matrix, c);
            let ghost f0 = (final_y, final_x);
            let current_score = score_matrix[y][x];
            if current_score >= max_score && path_matrix[y][x] > 0 {
                let dy = y as i32 - initial_y as i32;
                let dx = x as i32 - initial_x as i32;
                let ady = if dy >= 0 {
                    dy
                } else {
                    -dy
                };
                let adx = if dx >= 0 {
                    dx
                } else {
                    -dx
                };
                let distance = ady + adx;
                if current_score > max_score || (current_score == max_score && distance < min_distance) {
                    max_score = current_score;
                    min_distance = distance;
                    final_x = x;
                    final_y = y;
                }
            }
            proof {
                let cell = (y, x);
                assert(scan_cell(cell));
                assert forall|c: (usize, usize)| #[trigger] seen(c, y as int, x + 3) == (seen(c, y as int, x as int)
                    || c == cell) by {}
                if had {
                    assert(candidate(*path_matrix, *score_matrix, f0));
                }
                if forall|c: (usize, usize)| seen(c, y as int, x + 3) ==> !candidate(*path_matrix, *score_matrix, c) {
                    assert(!candidate(*path_matrix, *score_matrix, cell));
                    if had {
                        let c = choose|c: (usize, usize)| seen(c, y as int, x as int) && candidate(*path_matrix, *score_matrix, c);
                        assert(seen(c, y as int, x + 3));
                    }
                }
            }
            x = x + 3;
        }
        proof {
            assert forall|c: (usize, usize)| #[trigger] seen(c, y + 3, 0) == seen(c, y as int, x as int) by {}
        }
        y = y + 3;
    }
    proof {
        assert forall|c: (usize, usize)| #[trigger] candidate(*path_matrix, *score_matrix, c) implies seen(
            c,
            y as int,
            0,
        ) by {}
    }
    (final_y, final_x)
}

/// Chooses where the hero standing at `(initial_y, initial_x)` moves next: the first
/// jump of a least-cost route to the best-scoring reachable target, or where it
/// stands. The result is a `(row, column)` pair.
pub fn next_move(
    initial_x: usize,
    initial_y: usize,
    path_matrix: &[[i32; COLS]; ROWS],
    score_matrix: &[[i32; COLS]; ROWS],
) -> (next: (usize, usize))
    requires
        initial_y < ROWS,
        initial_x < COLS,
    ensures
        exists|t: (usize, usize)|
            #[trigger] is_target(*path_matrix, *score_matrix, (initial_y, initial_x), t) && first_step(
                *path_matrix,
                (initial_y, initial_x),
                t,
                next,
            ),
{
    let (final_y, final_x) = select_target(initial_x, initial_y, path_matrix, score_matrix);
    let moves = find_path_macro_grid(path_matrix, (initial_y, initial_x), (final_y, final_x));
    match moves {
        Some(path) => {
            if path.len() > 1 {
                return path[1];
            }
            return path[0];
        },
        None => return (initial_y, initial_x),
    }
}

} // verus!
