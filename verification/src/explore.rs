//! Reachability by flood fill from the origin.

use std::collections::HashSet;
use vstd::prelude::*;
use vstd::std_specs::hash::group_hash_axioms;
use crate::grid::{
    cell_key, grid_keys, key_cell, key_of_cell, lemma_cell_key_injective, lemma_cell_key_inverse,
    lemma_grid_keys_len, lemma_key_cell_inverse, Cell,
};
use crate::maze::Maze;
use crate::model::{
    lemma_exits, lemma_reach_step, lemma_route_end_in_grid, lemma_walk_stays_inside, MazeModel,
};

verus! {

broadcast use group_hash_axioms;

/// The keys of the cells that can be reached from the origin.
pub open spec fn reach_keys(m: MazeModel) -> Set<u64> {
    Set::new(|k: u64| m.reachable(m.origin(), key_cell(k)))
}

/// The origin is reachable from itself.
pub proof fn lemma_origin_reachable(m: MazeModel)
    requires
        m.width >= 1,
        m.height >= 1,
    ensures
        m.reachable(m.origin(), m.origin()),
{
    assert(m.is_route(seq![m.origin()], m.origin(), m.origin()));
}

/// Every reachable cell lies in the grid.
pub proof fn lemma_reachable_in_grid(m: MazeModel, from: Cell, to: Cell)
    requires
        m.reachable(from, to),
    ensures
        m.has_cell(to),
{
    let p = choose|p: Seq<Cell>| m.is_route(p, from, to);
    lemma_route_end_in_grid(m, p, from, to);
}

/// A set of keys that holds the origin and is closed under passages holds
/// every reachable cell.
proof fn lemma_closed_holds_reachable(m: MazeModel, keys: Set<u64>, c: Cell)
    requires
        keys.contains(cell_key(m.origin())),
        forall|a: Cell, b: Cell|
            keys.contains(cell_key(a)) && #[trigger] m.passage(a, b) ==> keys.contains(cell_key(b)),
        m.reachable(m.origin(), c),
    ensures
        keys.contains(cell_key(c)),
{
    let p = choose|p: Seq<Cell>| m.is_route(p, m.origin(), c);
    let inside = Set::new(|a: Cell| keys.contains(cell_key(a)));
    lemma_walk_stays_inside(m, inside, p, p.len() - 1);
}

/// The reachable cells of a valid maze lie in the grid, so they are at most
/// as many as the grid has cells; they are as many exactly when the maze is
/// fully connected.
pub proof fn lemma_reach_count(m: MazeModel)
    requires
        m.width >= 1,
        m.height >= 1,
    ensures
        reach_keys(m).finite(),
        reach_keys(m).len() <= m.width * m.height,
        reach_keys(m).len() == m.width * m.height <==> m.fully_connected(),
{
    let grid = grid_keys(m.width as nat, m.height as nat);
    let reach = reach_keys(m);
    lemma_grid_keys_len(m.width as nat, m.height as nat);
    assert forall|k: u64| reach.contains(k) implies grid.contains(k) by {
        lemma_reachable_in_grid(m, m.origin(), key_cell(k));
    }
    vstd::set_lib::lemma_len_subset(reach, grid);
    if reach.len() == grid.len() {
        vstd::set_lib::lemma_subset_equality(reach, grid);
        assert forall|c: Cell| m.has_cell(c) implies m.reachable(m.origin(), c) by {
            lemma_cell_key_inverse(c);
            assert(grid.contains(cell_key(c)));
        }
    }
    if m.fully_connected() {
        assert forall|k: u64| grid.contains(k) implies reach.contains(k) by {
            assert(m.has_cell(key_cell(k)));
        }
        assert(reach =~= grid);
    }
}

impl Maze {
    /// Flood fill from the origin over open walls. With a target, stops as
    /// soon as the target is taken from the frontier; else, or where the
    /// target is never met, visits every reachable cell and counts them.
    fn flood(&self, target: Option<Cell>) -> (r: (bool, usize))
        requires
            self.wf(),
        ensures
            r.0 == (target matches Some(t) && self@.reachable(self@.origin(), t)),
            !r.0 ==> r.1 == reach_keys(self@).len(),
    {
        let ghost m = self@;
        let ghost grid = grid_keys(m.width as nat, m.height as nat);
        let mut visited: HashSet<u64> = HashSet::new();
        let mut stack: Vec<Cell> = Vec::new();
        stack.push((0, 0));
        proof {
            lemma_grid_keys_len(m.width as nat, m.height as nat);
            lemma_origin_reachable(m);
            assert(stack@[0] == m.origin());
        }
        while stack.len() > 0
            invariant
                self.wf(),
                m == self@,
                grid == grid_keys(m.width as nat, m.height as nat),
                grid.finite(),
                visited@.finite(),
                visited@.subset_of(grid),
                forall|i: int| 0 <= i < stack@.len() ==> m.reachable(m.origin(), #[trigger] stack@[i]),
                forall|k: u64| #[trigger]
                    visited@.contains(k) ==> m.reachable(m.origin(), key_cell(k)),
                forall|a: Cell, b: Cell|
                    visited@.contains(cell_key(a)) && #[trigger] m.passage(a, b)
                        ==> visited@.contains(cell_key(b)) || stack@.contains(b),
                visited@.contains(cell_key(m.origin())) || stack@.contains(m.origin()),
                target matches Some(t) ==> !visited@.contains(cell_key(t)),
            decreases grid.len() - visited@.len(), stack@.len(),
        {
            let ghost before = stack@;
            let ghost seen = visited@;
            proof {
                vstd::set_lib::lemma_len_subset(seen, grid);
            }
            let c = stack.pop().unwrap();
            let x: u32 = c.0;
            let y: u32 = c.1;
            proof {
                assert(c == before[before.len() - 1]);
                assert(m.reachable(m.origin(), c));
                lemma_reachable_in_grid(m, m.origin(), c);
                assert forall|b: Cell| before.contains(b) implies b == c || stack@.contains(b) by {
                    let i = choose|i: int| 0 <= i < before.len() && before[i] == b;
                    if i < before.len() - 1 {
                        assert(stack@[i] == b);
                    }
                }
                assert forall|i: int| 0 <= i < stack@.len() implies m.reachable(
                    m.origin(),
                    #[trigger] stack@[i],
                ) by {
                    assert(stack@[i] == before[i]);
                }
            }
            match target {
                Some(t) => {
                    if t.0 == x && t.1 == y {
                        return (true, 0);
                    }
                },
                None => {},
            }
            let k: u64 = key_of_cell(x, y);
            let fresh = visited.insert(k);
            if fresh {
                let mut found = self.exits(x, y);
                let ghost kept = stack@;
                stack.append(&mut found);
                proof {
                    let ex = m.exits(c);
                    lemma_exits(m, c);
                    lemma_cell_key_inverse(c);
                    assert(grid.contains(k));
                    vstd::set_lib::lemma_len_subset(visited@, grid);
                    assert(stack@ == kept + ex);
                    assert forall|b: Cell| kept.contains(b) || ex.contains(b) implies stack@.contains(
                        b,
                    ) by {
                        if kept.contains(b) {
                            let i = choose|i: int| 0 <= i < kept.len() && kept[i] == b;
                            assert(stack@[i] == b);
                        } else {
                            let i = choose|i: int| 0 <= i < ex.len() && ex[i] == b;
                            assert(stack@[kept.len() + i] == b);
                        }
                    }
                    assert forall|i: int| 0 <= i < stack@.len() implies m.reachable(
                        m.origin(),
                        #[trigger] stack@[i],
                    ) by {
                        if i < kept.len() {
                            assert(stack@[i] == kept[i]);
                        } else {
                            let b = ex[i - kept.len()];
                            assert(stack@[i] == b);
                            assert(ex.contains(b));
                            lemma_reach_step(m, m.origin(), c, b);
                        }
                    }
                    assert forall|j: u64| #[trigger] visited@.contains(j) implies m.reachable(
                        m.origin(),
                        key_cell(j),
                    ) by {
                        if j == k {
                            assert(key_cell(j) == c);
                        }
                    }
                    assert forall|a: Cell, b: Cell|
                        visited@.contains(cell_key(a)) && #[trigger] m.passage(
                            a,
                            b,
                        ) implies visited@.contains(cell_key(b)) || stack@.contains(b) by {
                        lemma_cell_key_injective(a, c);
                        if a == c {
                            assert(ex.contains(b));
                        } else {
                            assert(seen.contains(cell_key(a)));
                            assert(seen.contains(cell_key(b)) || before.contains(b));
                        }
                    }
                    match target {
                        Some(t) => {
                            lemma_cell_key_injective(t, c);
                        },
                        None => {},
                    }
                }
            } else {
                proof {
                    assert(visited@ =~= seen);
                    assert forall|a: Cell, b: Cell|
                        visited@.contains(cell_key(a)) && #[trigger] m.passage(
                            a,
                            b,
                        ) implies visited@.contains(cell_key(b)) || stack@.contains(b) by {
                        assert(seen.contains(cell_key(b)) || before.contains(b));
                    }
                }
            }
        }
        proof {
            assert(stack@.len() == 0);
            assert forall|a: Cell, b: Cell|
                visited@.contains(cell_key(a)) && #[trigger] m.passage(
                    a,
                    b,
                ) implies visited@.contains(cell_key(b)) by {
                assert(visited@.contains(cell_key(b)) || stack@.contains(b));
            }
            assert forall|j: u64| reach_keys(m).contains(j) implies visited@.contains(j) by {
                lemma_closed_holds_reachable(m, visited@, key_cell(j));
                lemma_key_cell_inverse(j);
            }
            assert(visited@ =~= reach_keys(m));
            match target {
                Some(t) => {
                    if m.reachable(m.origin(), t) {
                        lemma_closed_holds_reachable(m, visited@, t);
                    }
                },
                None => {},
            }
        }
        (false, visited.len())
    }

    /// Whether the cell `(x, y)` can be reached from the origin.
    pub fn is_reachable(&self, x: u32, y: u32) -> (reached: bool)
        requires
            self.wf(),
        ensures
            reached == self@.reachable(self@.origin(), (x, y)),
    {
        self.flood(Some((x, y))).0
    }

    /// Whether the destination can be reached from the origin.
    pub fn is_dest_reachable(&self) -> (reached: bool)
        requires
            self.wf(),
        ensures
            reached == self@.solvable(),
    {
        self.flood(Some((self.width() - 1, self.height() - 1))).0
    }

    /// Whether every cell can be reached from the origin.
    pub fn is_fully_connected(&self) -> (connected: bool)
        requires
            self.wf(),
        ensures
            connected == self@.fully_connected(),
    {
        let r = self.flood(None);
        let w: u64 = self.width() as u64;
        let h: u64 = self.height() as u64;
        proof {
            lemma_reach_count(self@);
            assert(w * h <= 0xFFFF_FFFF * 0xFFFF_FFFF) by (nonlinear_arith)
                requires
                    0 <= w <= 0xFFFF_FFFF,
                    0 <= h <= 0xFFFF_FFFF,
            ;
        }
        let cells: u64 = w * h;
        (r.1 as u64) == cells
    }
}

} // verus!
