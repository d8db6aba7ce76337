use maze::{candidate_walls, Maze};
use std::collections::{HashSet, VecDeque};

fn distance_to_destination(m: &Maze) -> Option<usize> {
    let goal = (m.width() - 1, m.height() - 1);
    let mut seen: HashSet<(u32, u32)> = HashSet::new();
    let mut queue: VecDeque<((u32, u32), usize)> = VecDeque::new();
    seen.insert((0, 0));
    queue.push_back(((0, 0), 0));
    while let Some(((x, y), d)) = queue.pop_front() {
        if (x, y) == goal {
            return Some(d);
        }
        let mut next: Vec<(u32, u32)> = Vec::new();
        if x > 0 {
            next.push((x - 1, y));
        }
        if x + 1 < m.width() {
            next.push((x + 1, y));
        }
        if y > 0 {
            next.push((x, y - 1));
        }
        if y + 1 < m.height() {
            next.push((x, y + 1));
        }
        for n in next {
            if m.is_wall_open(x, y, n.0, n.1) && seen.insert(n) {
                queue.push_back((n, d + 1));
            }
        }
    }
    None
}

fn assert_is_shortest_solution(m: &Maze, path: &[(u32, u32)]) {
    assert_eq!(path.first(), Some(&(0, 0)));
    assert_eq!(path.last(), Some(&(m.width() - 1, m.height() - 1)));
    for step in path.windows(2) {
        let (a, b) = (step[0], step[1]);
        let dx = a.0.abs_diff(b.0);
        let dy = a.1.abs_diff(b.1);
        assert_eq!(dx + dy, 1);
        assert!(m.is_wall_open(a.0, a.1, b.0, b.1));
        assert!(m.is_wall_open(b.0, b.1, a.0, a.1));
    }
    assert_eq!(Some(path.len()), distance_to_destination(m).map(|d| d + 1));
}

#[test]
fn two_by_two_with_two_walls_open() {
    let mut m = Maze::closed(2, 2);
    m.open_wall(0, 0, 1, 0);
    m.open_wall(1, 0, 1, 1);
    assert_eq!(m.get_short_path(), vec![(0, 0), (1, 0), (1, 1)]);
    assert!(m.is_dest_reachable());
    assert!(!m.is_fully_connected());
    assert!(!m.is_reachable(0, 1));
}

#[test]
fn single_cell_is_connected_and_solved() {
    let m = Maze::closed(1, 1);
    assert!(m.is_fully_connected());
    assert!(m.is_dest_reachable());
    assert!(m.is_reachable(0, 0));
    assert_eq!(m.get_short_path(), vec![(0, 0)]);
}

#[test]
fn closed_maze_has_no_path() {
    let m = Maze::closed(3, 3);
    assert_eq!(m.get_short_path(), vec![]);
    assert!(!m.is_dest_reachable());
    assert!(!m.is_fully_connected());
    assert!(m.is_reachable(0, 0));
    assert!(!m.is_reachable(1, 0));
}

#[test]
fn closed_row_and_column_have_no_path() {
    assert_eq!(Maze::closed(2, 1).get_short_path(), vec![]);
    assert_eq!(Maze::closed(1, 2).get_short_path(), vec![]);
}

#[test]
fn cell_outside_the_grid_is_not_reachable() {
    let mut m = Maze::closed(2, 2);
    m.open_wall(0, 0, 1, 0);
    m.open_wall(1, 0, 2, 0);
    assert!(m.is_reachable(1, 0));
    assert!(!m.is_reachable(2, 0));
    assert!(!m.is_reachable(5, 5));
}

#[test]
fn wall_between_distant_cells_is_no_passage() {
    let mut m = Maze::closed(3, 3);
    m.open_wall(0, 0, 2, 2);
    assert!(m.is_wall_open(0, 0, 2, 2));
    assert!(!m.is_dest_reachable());
    assert_eq!(m.get_short_path(), vec![]);
}

#[test]
fn path_is_the_same_each_time() {
    let mut m = Maze::closed(3, 3);
    for w in candidate_walls(3, 3) {
        m.open_wall(w.0, w.1, w.2, w.3);
    }
    let first = m.get_short_path();
    assert_eq!(m.get_short_path(), first);
    assert_eq!(m.get_short_path(), first);
}

#[test]
fn of_two_shortest_paths_the_one_tried_first_wins() {
    let mut m = Maze::closed(2, 2);
    for w in candidate_walls(2, 2) {
        m.open_wall(w.0, w.1, w.2, w.3);
    }
    assert_eq!(m.get_short_path(), vec![(0, 0), (1, 0), (1, 1)]);
}

#[test]
fn open_grid_is_crossed_east_first_then_south() {
    let mut m = Maze::closed(3, 3);
    for w in candidate_walls(3, 3) {
        m.open_wall(w.0, w.1, w.2, w.3);
    }
    assert!(m.is_fully_connected());
    assert_eq!(m.get_short_path(), vec![(0, 0), (1, 0), (2, 0), (2, 1), (2, 2)]);
}

#[test]
fn shorter_path_wins_over_the_direction_tried_first() {
    // East of the origin a long detour leads to the destination; south of it
    // a short way does.
    let mut m = Maze::closed(3, 2);
    m.open_wall(0, 0, 0, 1);
    m.open_wall(0, 1, 1, 1);
    m.open_wall(1, 1, 2, 1);
    m.open_wall(0, 0, 1, 0);
    let path = m.get_short_path();
    assert_eq!(path, vec![(0, 0), (0, 1), (1, 1), (2, 1)]);
    assert_is_shortest_solution(&m, &path);
}

#[test]
fn path_winds_through_a_corridor() {
    let mut m = Maze::closed(3, 3);
    m.open_wall(0, 0, 0, 1);
    m.open_wall(0, 1, 0, 2);
    m.open_wall(0, 2, 1, 2);
    m.open_wall(1, 2, 1, 1);
    m.open_wall(1, 1, 1, 0);
    m.open_wall(1, 0, 2, 0);
    m.open_wall(2, 0, 2, 1);
    m.open_wall(2, 1, 2, 2);
    let path = m.get_short_path();
    assert_eq!(
        path,
        vec![(0, 0), (0, 1), (0, 2), (1, 2), (1, 1), (1, 0), (2, 0), (2, 1), (2, 2)]
    );
    assert_is_shortest_solution(&m, &path);
    assert!(m.is_fully_connected());
}

#[test]
fn path_length_is_the_distance_plus_one() {
    for _ in 0..20 {
        let m = Maze::new(9, 7);
        let path = m.get_short_path();
        assert_is_shortest_solution(&m, &path);
    }
}

#[test]
fn full_connection_needs_every_cell() {
    let mut m = Maze::closed(2, 2);
    m.open_wall(0, 0, 1, 0);
    m.open_wall(1, 0, 1, 1);
    assert!(!m.is_fully_connected());
    m.open_wall(1, 1, 0, 1);
    assert!(m.is_fully_connected());
    for x in 0..2 {
        for y in 0..2 {
            assert!(m.is_reachable(x, y));
        }
    }
}
