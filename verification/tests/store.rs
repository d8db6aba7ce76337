use maze::{key_of_cell, key_of_wall, Direction, Maze};

#[test]
fn cell_key_is_x_times_two_to_the_32_plus_y() {
    assert_eq!(key_of_cell(0, 0), 0);
    assert_eq!(key_of_cell(0, 7), 7);
    assert_eq!(key_of_cell(1, 2), 4_294_967_298);
    assert_eq!(key_of_cell(u32::MAX, u32::MAX), u64::MAX);
}

#[test]
fn wall_key_puts_the_first_cell_in_the_high_half() {
    assert_eq!(key_of_wall(0, 0, 0, 0), 0);
    assert_eq!(key_of_wall(0, 0, 1, 2), 4_294_967_298);
    assert_eq!(
        key_of_wall(1, 2, 3, 4),
        (4_294_967_298u128 << 64) + 12_884_901_892u128
    );
    assert_eq!(key_of_wall(u32::MAX, u32::MAX, u32::MAX, u32::MAX), u128::MAX);
    assert_ne!(key_of_wall(0, 1, 1, 1), key_of_wall(1, 1, 0, 1));
}

#[test]
fn direction_from_index_follows_trial_order() {
    assert_eq!(Direction::from_index(0), Direction::West);
    assert_eq!(Direction::from_index(1), Direction::East);
    assert_eq!(Direction::from_index(2), Direction::North);
    assert_eq!(Direction::from_index(3), Direction::South);
    assert_eq!(Direction::from_index(4), Direction::West);
    assert_eq!(Direction::from_index(7), Direction::South);
}

#[test]
fn sort_wall_puts_the_smaller_cell_first() {
    assert_eq!(Maze::sort_wall(1, 0, 0, 0), (0, 0, 1, 0));
    assert_eq!(Maze::sort_wall(0, 0, 1, 0), (0, 0, 1, 0));
    assert_eq!(Maze::sort_wall(2, 5, 2, 4), (2, 4, 2, 5));
    assert_eq!(Maze::sort_wall(2, 4, 2, 5), (2, 4, 2, 5));
    assert_eq!(Maze::sort_wall(3, 3, 3, 3), (3, 3, 3, 3));
    assert_eq!(Maze::sort_wall(1, 9, 2, 0), (1, 9, 2, 0));
    assert_eq!(Maze::sort_wall(2, 0, 1, 9), (1, 9, 2, 0));
}

#[test]
fn closed_maze_has_its_size_and_no_open_wall() {
    let m = Maze::closed(4, 3);
    assert_eq!(m.width(), 4);
    assert_eq!(m.height(), 3);
    assert_eq!(m.open_wall_count(), 0);
    for x in 0..4 {
        for y in 0..3 {
            assert!(!m.is_wall_open(x, y, x + 1, y));
            assert!(!m.is_wall_open(x, y, x, y + 1));
        }
    }
}

#[test]
fn open_wall_records_both_sides() {
    let mut m = Maze::closed(3, 3);
    assert!(m.open_wall(0, 0, 1, 0));
    assert!(m.is_wall_open(0, 0, 1, 0));
    assert!(m.is_wall_open(1, 0, 0, 0));
    assert!(!m.is_wall_open(0, 0, 0, 1));
    assert!(!m.is_wall_open(1, 0, 1, 1));
    assert_eq!(m.open_wall_count(), 2);
}

#[test]
fn open_wall_says_whether_the_wall_was_closed() {
    let mut m = Maze::closed(3, 3);
    assert!(m.open_wall(1, 1, 1, 2));
    assert!(!m.open_wall(1, 1, 1, 2));
    assert!(!m.open_wall(1, 2, 1, 1));
    assert_eq!(m.open_wall_count(), 2);
    assert!(m.open_wall(1, 1, 2, 1));
    assert_eq!(m.open_wall_count(), 4);
}

#[test]
fn openness_is_symmetric_for_every_pair() {
    let mut m = Maze::closed(4, 4);
    m.open_wall(0, 0, 0, 1);
    m.open_wall(2, 1, 1, 1);
    m.open_wall(3, 3, 3, 2);
    for x1 in 0..4 {
        for y1 in 0..4 {
            for x2 in 0..4 {
                for y2 in 0..4 {
                    assert_eq!(m.is_wall_open(x1, y1, x2, y2), m.is_wall_open(x2, y2, x1, y1));
                }
            }
        }
    }
    assert!(m.is_wall_open(0, 1, 0, 0));
    assert!(m.is_wall_open(1, 1, 2, 1));
    assert!(m.is_wall_open(3, 2, 3, 3));
}

#[test]
fn is_wall_open_gives_the_same_answer_each_time() {
    let mut m = Maze::closed(2, 2);
    m.open_wall(0, 0, 1, 0);
    for _ in 0..3 {
        assert!(m.is_wall_open(0, 0, 1, 0));
        assert!(!m.is_wall_open(0, 0, 0, 1));
    }
}

#[test]
fn neighbor_stops_at_the_border() {
    let m = Maze::closed(3, 2);
    assert_eq!(m.neighbor(0, 0, Direction::West), None);
    assert_eq!(m.neighbor(0, 0, Direction::North), None);
    assert_eq!(m.neighbor(0, 0, Direction::East), Some((1, 0)));
    assert_eq!(m.neighbor(0, 0, Direction::South), Some((0, 1)));
    assert_eq!(m.neighbor(2, 1, Direction::East), None);
    assert_eq!(m.neighbor(2, 1, Direction::South), None);
    assert_eq!(m.neighbor(2, 1, Direction::West), Some((1, 1)));
    assert_eq!(m.neighbor(2, 1, Direction::North), Some((2, 0)));
}

#[test]
fn single_cell_has_no_neighbor() {
    let m = Maze::closed(1, 1);
    assert_eq!(m.neighbor(0, 0, Direction::West), None);
    assert_eq!(m.neighbor(0, 0, Direction::East), None);
    assert_eq!(m.neighbor(0, 0, Direction::North), None);
    assert_eq!(m.neighbor(0, 0, Direction::South), None);
    assert_eq!(m.exits(0, 0), vec![]);
}

#[test]
fn exits_come_in_trial_order() {
    let mut m = Maze::closed(3, 3);
    m.open_wall(1, 1, 1, 2);
    m.open_wall(1, 1, 1, 0);
    m.open_wall(1, 1, 2, 1);
    m.open_wall(1, 1, 0, 1);
    assert_eq!(m.exits(1, 1), vec![(0, 1), (2, 1), (1, 0), (1, 2)]);
    assert_eq!(m.exits(0, 1), vec![(1, 1)]);
    assert_eq!(m.exits(0, 0), vec![]);
}

#[test]
fn exits_skip_closed_walls() {
    let mut m = Maze::closed(3, 3);
    m.open_wall(1, 1, 1, 2);
    m.open_wall(1, 1, 2, 1);
    assert_eq!(m.exits(1, 1), vec![(2, 1), (1, 2)]);
}
