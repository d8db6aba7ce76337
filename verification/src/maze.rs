//! The maze itself: a grid of fixed size and the store of its open walls.

use std::collections::HashSet;
use vstd::prelude::*;
use vstd::std_specs::hash::group_hash_axioms;
use crate::grid::{key_of_wall, lemma_wall_key_injective, mirror, wall_key, Cell, Direction, Wall};
use crate::model::MazeModel;

verus! {

broadcast use group_hash_axioms;

/// A rectangular maze. Walls start closed and, once opened, stay open.
pub struct Maze {
    width: u32,
    height: u32,
    open_walls: HashSet<u128>,
}

impl View for Maze {
    type V = MazeModel;

    closed spec fn view(&self) -> MazeModel {
        MazeModel {
            width: self.width,
            height: self.height,
            open: Set::new(|w: Wall| self.open_walls@.contains(wall_key(w))),
        }
    }
}

/// The wall `(x1, y1, x2, y2)` with its smaller cell first, cells ordered by
/// `x` and then by `y`.
pub open spec fn sorted_wall(w: Wall) -> Wall {
    if w.0 > w.2 || (w.0 == w.2 && w.1 > w.3) {
        mirror(w)
    } else {
        w
    }
}

impl Maze {
    /// The store holds exactly one key for each open wall.
    pub closed spec fn store_matches(&self) -> bool {
        &&& self.open_walls@.finite()
        &&& self.open_walls@.len() == self@.open.len()
    }

    /// The maze is well formed: its model is valid and its store matches it.
    pub open spec fn wf(&self) -> bool {
        &&& self@.valid()
        &&& self.store_matches()
    }

    /// A maze of the given size with every wall closed.
    pub fn closed(width: u32, height: u32) -> (maze: Maze)
        requires
            width >= 1,
            height >= 1,
        ensures
            maze.wf(),
            maze@ == MazeModel::closed(width, height),
    {
        let maze = Maze { width, height, open_walls: HashSet::new() };
        proof {
            assert(maze@.open =~= Set::<Wall>::empty());
        }
        maze
    }

    /// The number of columns.
    pub fn width(&self) -> (w: u32)
        ensures
            w == self@.width,
    {
        self.width
    }

    /// The number of rows.
    pub fn height(&self) -> (h: u32)
        ensures
            h == self@.height,
    {
        self.height
    }

    /// The number of ordered cell pairs recorded as open: two for each wall
    /// between distinct cells.
    pub fn open_wall_count(&self) -> (n: usize)
        requires
            self.wf(),
        ensures
            n == self@.open.len(),
    {
        self.open_walls.len()
    }

    /// Puts the smaller cell of a wall first.
    pub fn sort_wall(x1: u32, y1: u32, x2: u32, y2: u32) -> (w: Wall)
        ensures
            w == sorted_wall((x1, y1, x2, y2)),
    {
        if x1 > x2 || (x1 == x2 && y1 > y2) {
            (x2, y2, x1, y1)
        } else {
            (x1, y1, x2, y2)
        }
    }

    /// Records one ordered pair as open.
    fn record(&mut self, x1: u32, y1: u32, x2: u32, y2: u32) -> (fresh: bool)
        requires
            old(self).store_matches(),
            old(self)@.open.finite(),
        ensures
            final(self).store_matches(),
            final(self)@ == (MazeModel { open: old(self)@.open.insert((x1, y1, x2, y2)), ..old(self)@ }),
            fresh == !old(self)@.open.contains((x1, y1, x2, y2)),
    {
        let k: u128 = key_of_wall(x1, y1, x2, y2);
        let fresh = self.open_walls.insert(k);
        proof {
            let w: Wall = (x1, y1, x2, y2);
            assert forall|v: Wall|
                self.open_walls@.contains(wall_key(v)) == old(self)@.open.insert(w).contains(
                    v,
                ) by {
                lemma_wall_key_injective(v, w);
            }
            assert(self@.open =~= old(self)@.open.insert(w));
        }
        fresh
    }

    /// Opens the wall between `(x1, y1)` and `(x2, y2)`, from both sides, and
    /// says whether it was closed before.
    pub fn open_wall(&mut self, x1: u32, y1: u32, x2: u32, y2: u32) -> (changed: bool)
        requires
            old(self).wf(),
        ensures
            final(self).wf(),
            final(self)@ == old(self)@.with_wall((x1, y1, x2, y2)),
            changed == !old(self)@.open.contains((x1, y1, x2, y2)),
    {
        let a = self.record(x1, y1, x2, y2);
        let b = self.record(x2, y2, x1, y1);
        proof {
            let w: Wall = (x1, y1, x2, y2);
            assert(old(self)@.open.contains(w) ==> old(self)@.open.contains(mirror(w)));
            assert(old(self)@.open.contains(mirror(w)) ==> old(self)@.open.contains(
                mirror(mirror(w)),
            ));
            assert forall|v: Wall| self@.open.contains(v) implies #[trigger] self@.open.contains(
                mirror(v),
            ) by {
                if old(self)@.open.contains(v) {
                    assert(old(self)@.open.contains(mirror(v)));
                }
            }
        }
        a || b
    }

    /// Whether the wall from `(x1, y1)` to `(x2, y2)` is open.
    pub fn is_wall_open(&self, x1: u32, y1: u32, x2: u32, y2: u32) -> (open: bool)
        ensures
            open == self@.open.contains((x1, y1, x2, y2)),
    {
        let k: u128 = key_of_wall(x1, y1, x2, y2);
        self.open_walls.contains(&k)
    }

    /// The neighbour of `(x, y)` in direction `d`, unless the grid ends there.
    pub fn neighbor(&self, x: u32, y: u32, d: Direction) -> (n: Option<Cell>)
        requires
            self.wf(),
        ensures
            n == self@.neighbor((x, y), d),
    {
        match d {
            Direction::West => if x > 0 {
                Some((x - 1, y))
            } else {
                None
            },
            Direction::East => if x < self.width - 1 {
                Some((x + 1, y))
            } else {
                None
            },
            Direction::North => if y > 0 {
                Some((x, y - 1))
            } else {
                None
            },
            Direction::South => if y < self.height - 1 {
                Some((x, y + 1))
            } else {
                None
            },
        }
    }

    /// Appends to `out` the neighbour of `(x, y)` in direction `d`, where the
    /// grid has one and the wall towards it is open.
    fn push_exit(&self, out: &mut Vec<Cell>, x: u32, y: u32, d: Direction)
        requires
            self.wf(),
        ensures
            final(out)@ == old(out)@ + self@.exit((x, y), d),
    {
        match self.neighbor(x, y, d) {
            Some(n) => {
                if self.is_wall_open(x, y, n.0, n.1) {
                    out.push(n);
                    proof {
                        assert(out@ =~= old(out)@ + self@.exit((x, y), d));
                    }
                } else {
                    proof {
                        assert(out@ =~= old(out)@ + self@.exit((x, y), d));
                    }
                }
            },
            None => {
                proof {
                    assert(out@ =~= old(out)@ + self@.exit((x, y), d));
                }
            },
        }
    }

    /// The cells to which one can step from `(x, y)`, in trial order.
    pub fn exits(&self, x: u32, y: u32) -> (out: Vec<Cell>)
        requires
            self.wf(),
        ensures
            out@ == self@.exits((x, y)),
    {
        let mut out: Vec<Cell> = Vec::new();
        self.push_exit(&mut out, x, y, Direction::West);
        self.push_exit(&mut out, x, y, Direction::East);
        self.push_exit(&mut out, x, y, Direction::North);
        self.push_exit(&mut out, x, y, Direction::South);
        proof {
            assert(out@ =~= self@.exits((x, y)));
        }
        out
    }
}

} // verus!
