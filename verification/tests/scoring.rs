use s2::grid::{COLS, ROWS};
use s2::helper::{calculate_score, initialize_walls, next_move, scores_fit};
use s2::protocol::{Hero, Projectile, Wall};

fn open_board() -> [[i32; COLS]; ROWS] {
    [[1; COLS]; ROWS]
}

fn hero(id: i32, owner_id: i32, x: i32, y: i32, cooldown: i32) -> Hero {
    Hero { id, owner_id, x, y, cooldown }
}

fn projectile(x: i32, y: i32, origin_x: i32, origin_y: i32) -> Projectile {
    Projectile { owner_id: 1, x, y, origin_x, origin_y }
}

#[test]
fn wall_marks_its_block() {
    let mut m = open_board();
    initialize_walls(&mut m, &vec![Wall { x: 10, y: 20 }]);
    for y in 0..ROWS {
        for x in 0..COLS {
            let near = (19..=21).contains(&y) && (9..=11).contains(&x);
            assert_eq!(m[y][x], if near { -50 } else { 1 }, "cell ({y}, {x})");
        }
    }
}

#[test]
fn wall_in_a_corner_is_clipped() {
    let mut m = open_board();
    initialize_walls(&mut m, &vec![Wall { x: 0, y: 0 }, Wall { x: 50, y: 89 }]);
    assert_eq!(m[0][0], -50);
    assert_eq!(m[1][1], -50);
    assert_eq!(m[0][1], -50);
    assert_eq!(m[2][2], 1);
    assert_eq!(m[89][50], -50);
    assert_eq!(m[88][49], -50);
    assert_eq!(m[87][50], 1);
}

#[test]
fn walls_twice_are_walls_once() {
    let walls = vec![Wall { x: 5, y: 5 }, Wall { x: 6, y: 7 }];
    let mut once = open_board();
    initialize_walls(&mut once, &walls);
    let mut twice = once;
    initialize_walls(&mut twice, &walls);
    assert_eq!(once, twice);
}

#[test]
fn score_without_threats_is_path_plus_row_bonus() {
    let path = open_board();
    let mut score = [[123; COLS]; ROWS];
    assert!(scores_fit(&path, &vec![], &vec![]));
    calculate_score(&mut score, &path, vec![], vec![]);
    assert_eq!(score[0][0], 1);
    assert_eq!(score[8][3], 1);
    assert_eq!(score[9][3], 2);
    assert_eq!(score[44][3], 5);
    assert_eq!(score[45][3], 5);
    assert_eq!(score[80][3], 2);
    assert_eq!(score[81][3], 1);
    assert_eq!(score[89][50], 1);
}

#[test]
fn walls_get_no_row_bonus() {
    let mut path = open_board();
    initialize_walls(&mut path, &vec![Wall { x: 10, y: 40 }]);
    let mut score = [[0; COLS]; ROWS];
    calculate_score(&mut score, &path, vec![], vec![]);
    assert_eq!(score[40][10], -50);
    assert_eq!(score[40][13], 5);
}

#[test]
fn enemy_ready_to_fire_threatens_wide() {
    let path = [[0; COLS]; ROWS];
    let mut score = [[0; COLS]; ROWS];
    calculate_score(&mut score, &path, vec![hero(1, 1, 20, 30, 0)], vec![]);
    assert_eq!(score[30][20], -18);
    assert_eq!(score[31][21], -16);
    assert_eq!(score[36][26], -8);
    assert_eq!(score[37][20], 0);
    assert_eq!(score[30][27], 0);
}

#[test]
fn enemy_with_cooldown_two_threatens_near() {
    let path = [[0; COLS]; ROWS];
    let mut score = [[0; COLS]; ROWS];
    calculate_score(&mut score, &path, vec![hero(1, 1, 20, 30, 2)], vec![]);
    assert_eq!(score[30][20], -18);
    assert_eq!(score[29][19], -16);
    assert_eq!(score[33][23], -8);
    assert_eq!(score[34][20], 0);
}

#[test]
fn enemy_reloading_only_marks_its_block() {
    let path = [[0; COLS]; ROWS];
    let mut score = [[0; COLS]; ROWS];
    calculate_score(&mut score, &path, vec![hero(1, 1, 0, 0, 5)], vec![]);
    assert_eq!(score[0][0], -10);
    assert_eq!(score[1][1], -8);
    assert_eq!(score[2][2], 0);
}

#[test]
fn projectile_sweeps_ahead() {
    let path = [[0; COLS]; ROWS];
    // Moving along x with y growing less: |dx| > |dy| and dy <= 0, so rows py-5..=py.
    let mut score = [[0; COLS]; ROWS];
    calculate_score(&mut score, &path, vec![], vec![projectile(20, 30, 10, 30)]);
    assert_eq!(score[30][20], -15);
    assert_eq!(score[25][14], -10);
    assert_eq!(score[25][25], -10);
    assert_eq!(score[24][20], 0);
    assert_eq!(score[31][20], 0);
    assert_eq!(score[30][26], 0);
    // |dx| > |dy| and dy > 0: rows py..=py+5.
    let mut score = [[0; COLS]; ROWS];
    calculate_score(&mut score, &path, vec![], vec![projectile(20, 30, 10, 29)]);
    assert_eq!(score[35][20], -10);
    assert_eq!(score[29][20], 0);
    // |dx| <= |dy| and dx > 0: columns px..=px+5, rows py-6..=py+5.
    let mut score = [[0; COLS]; ROWS];
    calculate_score(&mut score, &path, vec![], vec![projectile(20, 30, 19, 20)]);
    assert_eq!(score[24][25], -10);
    assert_eq!(score[35][20], -10);
    assert_eq!(score[30][19], 0);
    assert_eq!(score[36][20], 0);
    // |dx| <= |dy| and dx <= 0: columns px-5..=px.
    let mut score = [[0; COLS]; ROWS];
    calculate_score(&mut score, &path, vec![], vec![projectile(20, 30, 20, 40)]);
    assert_eq!(score[30][15], -10);
    assert_eq!(score[30][21], 0);
}

#[test]
fn score_does_not_depend_on_the_previous_score() {
    let path = open_board();
    let enemies = vec![hero(1, 1, 25, 45, 1)];
    let projectiles = vec![projectile(5, 5, 0, 0)];
    let mut a = [[0; COLS]; ROWS];
    let mut b = [[-77; COLS]; ROWS];
    calculate_score(&mut a, &path, enemies.clone(), projectiles.clone());
    calculate_score(&mut b, &path, enemies, projectiles);
    assert_eq!(a, b);
}

#[test]
fn scores_fit_refuses_what_cannot_be_scored() {
    let path = open_board();
    assert!(scores_fit(&path, &vec![hero(1, 1, 3, 3, 0)], &vec![projectile(1, 1, 0, 0)]));
    assert!(!scores_fit(&path, &vec![hero(1, 1, -1, 3, 0)], &vec![]));
    assert!(!scores_fit(&path, &vec![hero(1, 1, 3, 90, 0)], &vec![]));
    assert!(!scores_fit(&path, &vec![], &vec![projectile(1, 1, i32::MIN, 0)]));
    assert!(!scores_fit(&path, &vec![], &vec![projectile(51, 1, 0, 0)]));
    let mut low = open_board();
    low[10][10] = i32::MIN + 5;
    assert!(scores_fit(&low, &vec![], &vec![]));
    assert!(!scores_fit(&low, &vec![hero(1, 1, 10, 10, 9)], &vec![]));
    let mut high = open_board();
    high[10][10] = i32::MAX;
    assert!(!scores_fit(&high, &vec![], &vec![]));
    high[0][0] = i32::MAX;
    high[10][10] = 1;
    assert!(scores_fit(&high, &vec![], &vec![]));
}

#[test]
fn next_move_heads_for_the_best_row() {
    let path = open_board();
    let mut score = [[0; COLS]; ROWS];
    calculate_score(&mut score, &path, vec![], vec![]);
    // Best score 5 at rows 37..=52 of the scan; nearest from (1, 1) is (37, 1).
    let next = next_move(1, 1, &path, &score);
    assert_eq!(next.0, 4);
    assert!(next.1 == 1 || next.1 == 4);
}

#[test]
fn next_move_stays_when_on_target() {
    let path = open_board();
    let score = [[0; COLS]; ROWS];
    // Every scanned cell scores 0; the nearest is the hero's own cell (1, 1).
    assert_eq!(next_move(1, 1, &path, &score), (1, 1));
}

#[test]
fn next_move_stays_without_candidates() {
    let path = open_board();
    let score = [[-101; COLS]; ROWS];
    assert_eq!(next_move(7, 4, &path, &score), (4, 7));
}

#[test]
fn next_move_stays_when_target_unreachable() {
    let path = open_board();
    let mut score = [[0; COLS]; ROWS];
    score[4][4] = 9;
    // From (0, 0) only rows and columns divisible by 3 can be reached.
    assert_eq!(next_move(0, 0, &path, &score), (0, 0));
}

#[test]
fn next_move_takes_one_jump_toward_target() {
    let path = open_board();
    let mut score = [[0; COLS]; ROWS];
    score[10][1] = 9;
    // Three jumps down; among equal priorities the greater position leaves the open
    // set first, so the route found is (1, 1), (4, 4), (7, 4), (10, 1).
    assert_eq!(next_move(1, 1, &path, &score), (4, 4));
}
