use maze::{candidate_walls, Direction, Maze};
use std::collections::HashSet;

fn open_pairs(m: &Maze) -> Vec<(u32, u32, u32, u32)> {
    let mut pairs = Vec::new();
    for x in 0..m.width() {
        for y in 0..m.height() {
            if x + 1 < m.width() && m.is_wall_open(x, y, x + 1, y) {
                pairs.push((x, y, x + 1, y));
            }
            if y + 1 < m.height() && m.is_wall_open(x, y, x, y + 1) {
                pairs.push((x, y, x, y + 1));
            }
        }
    }
    pairs
}

#[test]
fn candidate_walls_lists_each_wall_once() {
    let walls = candidate_walls(4, 3);
    assert_eq!(walls.len(), 3 * 3 + 4 * 2);
    let distinct: HashSet<(u32, u32, u32, u32)> = walls.iter().copied().collect();
    assert_eq!(distinct.len(), walls.len());
    for &(x1, y1, x2, y2) in &walls {
        assert!(x1 < 4 && x2 < 4 && y1 < 3 && y2 < 3);
        assert!((x2 == x1 + 1 && y2 == y1) || (x2 == x1 && y2 == y1 + 1));
        assert_eq!(Maze::sort_wall(x1, y1, x2, y2), (x1, y1, x2, y2));
    }
    for x in 0..4 {
        for y in 0..3 {
            if x + 1 < 4 {
                assert!(distinct.contains(&(x, y, x + 1, y)));
            }
            if y + 1 < 3 {
                assert!(distinct.contains(&(x, y, x, y + 1)));
            }
        }
    }
}

#[test]
fn candidate_walls_come_column_by_column() {
    assert_eq!(
        candidate_walls(2, 2),
        vec![(0, 0, 1, 0), (0, 0, 0, 1), (0, 1, 1, 1), (1, 0, 1, 1)]
    );
    assert_eq!(
        candidate_walls(3, 2),
        vec![
            (0, 0, 1, 0),
            (0, 0, 0, 1),
            (0, 1, 1, 1),
            (1, 0, 2, 0),
            (1, 0, 1, 1),
            (1, 1, 2, 1),
            (2, 0, 2, 1)
        ]
    );
}

#[test]
fn draws_are_made_until_every_cell_is_reachable() {
    let mut m = Maze::closed(2, 2);
    let connected = m.gen_with_draws(vec![
        (0, 0, Direction::East),
        (0, 0, Direction::East),
        (0, 0, Direction::West),
        (1, 0, Direction::South),
        (5, 5, Direction::West),
        (1, 1, Direction::West),
        (0, 0, Direction::South),
    ]);
    assert!(connected);
    assert!(m.is_fully_connected());
    assert_eq!(m.open_wall_count(), 6);
    assert!(m.is_wall_open(0, 0, 1, 0));
    assert!(m.is_wall_open(1, 0, 1, 1));
    assert!(m.is_wall_open(0, 1, 1, 1));
    assert!(!m.is_wall_open(0, 0, 0, 1));
}

#[test]
fn draws_that_run_out_leave_the_maze_unconnected() {
    let mut m = Maze::closed(2, 2);
    assert!(!m.gen_with_draws(vec![(0, 0, Direction::South), (1, 1, Direction::East)]));
    assert_eq!(m.open_wall_count(), 2);
    assert!(m.is_wall_open(0, 1, 0, 0));
    assert!(!m.gen_with_draws(vec![]));
    assert_eq!(m.open_wall_count(), 2);
}

#[test]
fn no_draw_is_made_in_a_connected_maze() {
    let mut one = Maze::closed(1, 1);
    assert!(one.gen_with_draws(vec![(0, 0, Direction::East)]));
    assert_eq!(one.open_wall_count(), 0);
    let mut m = Maze::closed(2, 1);
    m.open_wall(0, 0, 1, 0);
    assert!(m.gen_with_draws(vec![(0, 0, Direction::East), (1, 0, Direction::West)]));
    assert_eq!(m.open_wall_count(), 2);
}

#[test]
fn candidate_walls_of_small_grids() {
    assert_eq!(candidate_walls(1, 1), vec![]);
    assert_eq!(candidate_walls(0, 5), vec![]);
    assert_eq!(candidate_walls(5, 0), vec![]);
    assert_eq!(candidate_walls(2, 1), vec![(0, 0, 1, 0)]);
    assert_eq!(candidate_walls(1, 2), vec![(0, 0, 0, 1)]);
}

#[test]
fn gen_stops_at_the_first_wall_that_is_not_needed() {
    let mut m = Maze::closed(2, 2);
    m.gen(vec![(0, 0, 1, 0), (1, 0, 1, 1), (0, 0, 0, 1), (0, 1, 1, 1)]);
    assert!(m.is_dest_reachable());
    assert_eq!(m.open_wall_count(), 4);
    assert!(m.is_wall_open(0, 0, 1, 0));
    assert!(m.is_wall_open(1, 0, 0, 0));
    assert!(m.is_wall_open(1, 0, 1, 1));
    assert!(m.is_wall_open(1, 1, 1, 0));
    assert!(!m.is_wall_open(0, 0, 0, 1));
    assert!(!m.is_wall_open(0, 1, 1, 1));
    assert_eq!(m.get_short_path(), vec![(0, 0), (1, 0), (1, 1)]);
}

#[test]
fn gen_opens_every_wall_until_the_last_one_connects() {
    let mut m = Maze::closed(2, 2);
    m.gen(vec![(0, 0, 0, 1), (0, 0, 1, 0), (0, 1, 1, 1), (1, 0, 1, 1)]);
    assert!(m.is_dest_reachable());
    assert_eq!(m.open_wall_count(), 6);
    assert!(!m.is_wall_open(1, 0, 1, 1));
}

#[test]
fn gen_opens_nothing_in_a_solvable_maze() {
    let mut m = Maze::closed(1, 1);
    m.gen(vec![(0, 0, 1, 0), (0, 0, 0, 1)]);
    assert_eq!(m.open_wall_count(), 0);
    let mut n = Maze::closed(2, 1);
    n.open_wall(0, 0, 1, 0);
    n.gen(vec![(0, 0, 0, 1)]);
    assert_eq!(n.open_wall_count(), 2);
}

#[test]
fn gen_with_too_few_walls_opens_them_all() {
    let mut m = Maze::closed(3, 3);
    m.gen(vec![(0, 0, 1, 0), (1, 0, 2, 0)]);
    assert!(!m.is_dest_reachable());
    assert_eq!(m.open_wall_count(), 4);
    assert_eq!(m.get_short_path(), vec![]);
}

#[test]
fn gen_with_no_wall_changes_nothing() {
    let mut m = Maze::closed(2, 2);
    m.gen(vec![]);
    assert_eq!(m.open_wall_count(), 0);
    assert!(!m.is_dest_reachable());
}

#[test]
fn gen_on_all_walls_in_listed_order_is_solvable() {
    for (w, h) in [(1, 1), (1, 4), (4, 1), (2, 2), (5, 3), (8, 8)] {
        let mut m = Maze::closed(w, h);
        let walls = candidate_walls(w, h);
        let all = 2 * walls.len();
        m.gen(walls);
        assert!(m.is_dest_reachable());
        assert!(m.open_wall_count() <= all);
    }
}

#[test]
fn new_maze_is_solvable_and_opens_no_more_than_all_walls() {
    for (w, h) in [(1u32, 1u32), (1, 5), (5, 1), (2, 2), (7, 4), (12, 12)] {
        let m = Maze::new(w, h);
        assert_eq!(m.width(), w);
        assert_eq!(m.height(), h);
        assert!(m.is_dest_reachable());
        let all = 2 * candidate_walls(w, h).len();
        assert!(m.open_wall_count() <= all);
        assert_eq!(m.open_wall_count(), 2 * open_pairs(&m).len());
        let path = m.get_short_path();
        assert_eq!(path.first(), Some(&(0, 0)));
        assert_eq!(path.last(), Some(&(w - 1, h - 1)));
    }
}

#[test]
fn new_maze_keeps_openness_symmetric() {
    let m = Maze::new(6, 6);
    for x in 0..6 {
        for y in 0..6 {
            assert_eq!(m.is_wall_open(x, y, x + 1, y), m.is_wall_open(x + 1, y, x, y));
            assert_eq!(m.is_wall_open(x, y, x, y + 1), m.is_wall_open(x, y + 1, x, y));
        }
    }
}

#[test]
fn new_mazes_differ_from_run_to_run() {
    let first = open_pairs(&Maze::new(8, 8));
    let mut differs = false;
    for _ in 0..30 {
        if open_pairs(&Maze::new(8, 8)) != first {
            differs = true;
        }
    }
    assert!(differs);
}

#[test]
fn new_maze_closes_the_last_wall_it_did_not_need() {
    // The generator stops as soon as the destination is reachable, so in a
    // grid with more walls than a path needs some wall stays closed.
    let m = Maze::new(10, 10);
    assert!(open_pairs(&m).len() < candidate_walls(10, 10).len());
}

#[test]
fn open_toward_opens_a_closed_wall_inside_the_grid() {
    let mut m = Maze::closed(3, 3);
    assert!(m.open_toward(1, 1, Direction::East));
    assert!(m.is_wall_open(1, 1, 2, 1));
    assert!(m.is_wall_open(2, 1, 1, 1));
    assert_eq!(m.open_wall_count(), 2);
    assert!(m.open_toward(1, 1, Direction::North));
    assert!(m.is_wall_open(1, 0, 1, 1));
    assert!(m.open_toward(1, 1, Direction::West));
    assert!(m.is_wall_open(0, 1, 1, 1));
    assert!(m.open_toward(1, 1, Direction::South));
    assert!(m.is_wall_open(1, 2, 1, 1));
    assert_eq!(m.open_wall_count(), 8);
}

#[test]
fn open_toward_refuses_an_open_wall() {
    let mut m = Maze::closed(3, 3);
    assert!(m.open_toward(1, 1, Direction::East));
    assert!(!m.open_toward(1, 1, Direction::East));
    assert!(!m.open_toward(2, 1, Direction::West));
    assert_eq!(m.open_wall_count(), 2);
}

#[test]
fn open_toward_refuses_the_border_and_cells_outside() {
    let mut m = Maze::closed(2, 2);
    assert!(!m.open_toward(0, 0, Direction::West));
    assert!(!m.open_toward(0, 0, Direction::North));
    assert!(!m.open_toward(1, 1, Direction::East));
    assert!(!m.open_toward(1, 1, Direction::South));
    assert!(!m.open_toward(2, 0, Direction::West));
    assert!(!m.open_toward(0, 2, Direction::North));
    assert!(!m.open_toward(7, 7, Direction::West));
    assert_eq!(m.open_wall_count(), 0);
}

#[test]
fn random_walk_connects_every_cell() {
    for (w, h) in [(1u32, 1u32), (1, 6), (6, 1), (2, 2), (5, 4), (9, 9)] {
        let mut m = Maze::closed(w, h);
        assert!(m.gen_random_walk(u64::MAX));
        assert!(m.is_fully_connected());
        assert!(m.is_dest_reachable());
        for x in 0..w {
            for y in 0..h {
                assert!(m.is_reachable(x, y));
            }
        }
        assert!(!m.get_short_path().is_empty());
        assert_eq!(m.open_wall_count(), 2 * open_pairs(&m).len());
    }
}

#[test]
fn random_walk_without_draws_changes_nothing() {
    let mut m = Maze::closed(3, 3);
    assert!(!m.gen_random_walk(0));
    assert_eq!(m.open_wall_count(), 0);
    let mut one = Maze::closed(1, 1);
    assert!(one.gen_random_walk(0));
    assert_eq!(one.open_wall_count(), 0);
}

#[test]
fn random_walk_with_few_draws_may_stop_early() {
    let mut m = Maze::closed(6, 6);
    let connected = m.gen_random_walk(3);
    assert!(!connected);
    assert!(m.open_wall_count() <= 6);
    assert_eq!(connected, m.is_fully_connected());
}

#[test]
fn random_walk_leaves_a_connected_maze_alone() {
    let mut m = Maze::closed(2, 2);
    m.open_wall(0, 0, 1, 0);
    m.open_wall(1, 0, 1, 1);
    m.open_wall(1, 1, 0, 1);
    assert!(m.gen_random_walk(1000));
    assert_eq!(m.open_wall_count(), 6);
    assert!(!m.is_wall_open(0, 0, 0, 1));
}

#[test]
fn random_walks_differ_from_run_to_run() {
    let mut first = Maze::closed(8, 8);
    assert!(first.gen_random_walk(u64::MAX));
    let first = open_pairs(&first);
    let mut differs = false;
    for _ in 0..30 {
        let mut m = Maze::closed(8, 8);
        assert!(m.gen_random_walk(u64::MAX));
        if open_pairs(&m) != first {
            differs = true;
        }
    }
    assert!(differs);
}

#[test]
fn random_walk_opens_only_walls_of_the_grid() {
    let mut m = Maze::closed(4, 4);
    assert!(m.gen_random_walk(u64::MAX));
    for x in 0..4 {
        assert!(!m.is_wall_open(x, 3, x, 4));
        assert!(!m.is_wall_open(x, 4, x, 3));
    }
    for y in 0..4 {
        assert!(!m.is_wall_open(3, y, 4, y));
        assert!(!m.is_wall_open(4, y, 3, y));
    }
    assert!(m.open_wall_count() <= 2 * candidate_walls(4, 4).len());
}
