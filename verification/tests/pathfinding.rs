use s2::astar::{find_path_macro_grid, heuristic};
use s2::grid::{COLS, ROWS};
use s2::helper::initialize_walls;
use s2::protocol::Wall;

fn open_board() -> [[i32; COLS]; ROWS] {
    [[1; COLS]; ROWS]
}

fn is_jump(a: (usize, usize), b: (usize, usize)) -> bool {
    let dr = b.0 as i64 - a.0 as i64;
    let dc = b.1 as i64 - a.1 as i64;
    [-3, 0, 3].contains(&dr) && [-3, 0, 3].contains(&dc) && !(dr == 0 && dc == 0)
}

fn route_cost(m: &[[i32; COLS]; ROWS], path: &[(usize, usize)]) -> i64 {
    path[1..].iter().map(|p| m[p.0][p.1] as i64).sum()
}

fn check_route(m: &[[i32; COLS]; ROWS], path: &[(usize, usize)], start: (usize, usize), goal: (usize, usize)) {
    assert_eq!(path[0], start);
    assert_eq!(*path.last().unwrap(), goal);
    for w in path.windows(2) {
        assert!(is_jump(w[0], w[1]));
        assert!(w[1].0 < ROWS && w[1].1 < COLS);
        assert!(m[w[1].0][w[1].1] >= 0);
    }
}

#[test]
fn heuristic_is_chebyshev_over_three() {
    assert_eq!(heuristic((0, 0), (6, 9)), 3);
    assert_eq!(heuristic((6, 9), (0, 0)), 3);
    assert_eq!(heuristic((10, 10), (10, 10)), 0);
    assert_eq!(heuristic((0, 0), (2, 2)), 0);
    assert_eq!(heuristic((89, 0), (0, 50)), 29);
}

#[test]
fn path_to_start_is_start_alone() {
    let m = open_board();
    assert_eq!(find_path_macro_grid(&m, (4, 7), (4, 7)), Some(vec![(4, 7)]));
}

#[test]
fn path_of_one_diagonal_jump() {
    let m = open_board();
    assert_eq!(find_path_macro_grid(&m, (0, 0), (3, 3)), Some(vec![(0, 0), (3, 3)]));
}

#[test]
fn path_ties_leave_by_greater_position() {
    let m = open_board();
    assert_eq!(find_path_macro_grid(&m, (0, 0), (6, 0)), Some(vec![(0, 0), (3, 3), (6, 0)]));
}

#[test]
fn path_is_a_shortest_route_on_an_open_board() {
    let m = open_board();
    let path = find_path_macro_grid(&m, (1, 1), (85, 49)).unwrap();
    check_route(&m, &path, (1, 1), (85, 49));
    // 84 rows in jumps of 3 need 28 jumps.
    assert_eq!(path.len(), 29);
    assert_eq!(route_cost(&m, &path), 28);
}

#[test]
fn goal_off_the_jump_lattice_is_unreachable() {
    let m = open_board();
    assert_eq!(find_path_macro_grid(&m, (0, 0), (1, 0)), None);
}

#[test]
fn goal_off_the_board_is_unreachable() {
    let m = open_board();
    assert_eq!(find_path_macro_grid(&m, (0, 0), (90, 0)), None);
    assert_eq!(find_path_macro_grid(&m, (0, 0), (3, 1000)), None);
}

#[test]
fn walled_goal_is_unreachable() {
    let mut m = open_board();
    initialize_walls(&mut m, &vec![Wall { x: 6, y: 6 }]);
    assert_eq!(find_path_macro_grid(&m, (0, 0), (6, 6)), None);
    assert_eq!(find_path_macro_grid(&m, (0, 0), (6, 7)), None);
}

#[test]
fn path_goes_around_walls() {
    let mut m = open_board();
    // A wall line across column 3, rows 0..=11, leaves row 12 onward open.
    let walls: Vec<Wall> = (0..4).map(|i| Wall { x: 3, y: 1 + 3 * i }).collect();
    initialize_walls(&mut m, &walls);
    let path = find_path_macro_grid(&m, (0, 0), (0, 6)).unwrap();
    check_route(&m, &path, (0, 0), (0, 6));
    for p in &path[1..] {
        assert!(m[p.0][p.1] >= 0);
    }
    // Down to row 12, across, and back up: 4 + 1 + 4 jumps at best, with diagonals 8.
    assert!(path.len() >= 5);
}

#[test]
fn path_prefers_cheap_cells() {
    let mut m = open_board();
    m[3][0] = 100;
    m[3][3] = 100;
    m[0][3] = 1;
    let path = find_path_macro_grid(&m, (0, 0), (6, 0)).unwrap();
    check_route(&m, &path, (0, 0), (6, 0));
    // Around the expensive cells: (0, 3), (3, 6), (6, 3), (6, 0).
    assert_eq!(route_cost(&m, &path), 4);
}

#[test]
fn path_blocked_completely_is_none() {
    let mut m = open_board();
    for r in 0..ROWS {
        for c in 0..COLS {
            if r % 3 == 0 && c % 3 == 0 && (r, c) != (0, 0) {
                m[r][c] = -1;
            }
        }
    }
    assert_eq!(find_path_macro_grid(&m, (0, 0), (3, 3)), None);
}

#[test]
fn costly_routes_are_not_taken() {
    let mut m = open_board();
    m[3][3] = i32::MAX;
    // The only way to (3, 3) costs i32::MAX, which the search cannot afford.
    assert_eq!(find_path_macro_grid(&m, (0, 0), (3, 3)), None);
}
