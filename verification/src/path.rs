//! The solver: breadth-first search from the origin to the destination.

use std::collections::{HashMap, HashSet, VecDeque};
use vstd::prelude::*;
use vstd::std_specs::hash::group_hash_axioms;
use crate::grid::{
    cell_key, grid_keys, key_of_cell, lemma_cell_key_injective, lemma_cell_key_inverse,
    lemma_grid_keys_len, Cell,
};
use crate::maze::Maze;
use crate::model::MazeModel;
use crate::search::{
    lemma_discover, lemma_exhausted, lemma_finish, lemma_first_is_preferred, lemma_pop_fresh,
    lemma_pop_seen, lemma_start, Search,
};

verus! {

broadcast use group_hash_axioms;

/// The cells of `v` from the last to the first.
fn reversed(v: &Vec<Cell>) -> (r: Vec<Cell>)
    ensures
        r@ == v@.reverse(),
{
    let mut r: Vec<Cell> = Vec::new();
    let mut i: usize = v.len();
    while i > 0
        invariant
            i <= v.len(),
            r@.len() == v.len() - i,
            forall|j: int| 0 <= j < r@.len() ==> r@[j] == v@[v.len() - 1 - j],
        decreases i,
    {
        i -= 1;
        r.push(v[i]);
    }
    proof {
        assert(r@ =~= v@.reverse());
    }
    r
}

/// One step back along a route: the route up to `p`, then the cells walked
/// back so far in reverse, is the same before and after `p` joins them.
proof fn lemma_step_back(route: Seq<Cell>, p: Cell, cur: Cell, back: Seq<Cell>)
    requires
        route.len() >= 1,
        route.last() == p,
    ensures
        route.push(cur).drop_last() + back.reverse() == route.drop_last() + back.push(p).reverse(),
{
    assert(route.push(cur).drop_last() =~= route);
    assert(route =~= route.drop_last().push(p));
    assert(back.push(p).reverse() =~= seq![p] + back.reverse());
    assert(route.drop_last() + (seq![p] + back.reverse()) =~= route + back.reverse());
}

/// Walks the predecessors back from `last` to the origin and returns the
/// cells met, from the origin to `last`.
fn trace_back(
    prevs: HashMap<u64, Cell>,
    last: Cell,
    Ghost(m): Ghost<MazeModel>,
    Ghost(s): Ghost<Search>,
) -> (path: Vec<Cell>)
    requires
        s.routes_ok(m),
        s.prevs_ok(m),
        prevs@ == s.prevs,
        s.found(last),
    ensures
        path@ == s.routes[last],
{
    let mut prevs = prevs;
    let origin_key: u64 = key_of_cell(0, 0);
    prevs.remove(&origin_key);
    let mut back: Vec<Cell> = Vec::new();
    back.push(last);
    let mut cur: Cell = last;
    let mut k: u64 = key_of_cell(cur.0, cur.1);
    proof {
        let whole = s.routes[last];
        assert(m.is_route(whole, m.origin(), last));
        assert(back@ =~= seq![last]);
        assert(back@.reverse() =~= seq![last]);
        assert(whole =~= whole.drop_last() + seq![last]);
    }
    while prevs.contains_key(&k)
        invariant
            s.routes_ok(m),
            s.prevs_ok(m),
            prevs@ == s.prevs.remove(cell_key(m.origin())),
            s.found(cur),
            k == cell_key(cur),
            s.routes[last] == s.routes[cur].drop_last() + back@.reverse(),
        decreases s.routes[cur].len(),
    {
        let p: Cell = *prevs.get(&k).unwrap();
        proof {
            assert(cur != m.origin());
            assert(s.prevs.contains_key(cell_key(cur)));
            assert(p == s.prevs[cell_key(cur)]);
            assert(s.found(p));
            assert(s.routes[cur] == s.routes[p].push(cur));
            assert(m.is_route(s.routes[p], m.origin(), p));
            lemma_step_back(s.routes[p], p, cur, back@);
        }
        back.push(p);
        cur = p;
        k = key_of_cell(p.0, p.1);
    }
    proof {
        lemma_cell_key_injective(cur, m.origin());
        if cur != m.origin() {
            assert(s.prevs.contains_key(cell_key(cur)));
        }
        assert(s.routes[cur] == seq![m.origin()]);
        assert(s.routes[cur].drop_last() + back@.reverse() =~= back@.reverse());
    }
    reversed(&back)
}

impl Maze {
    /// The preferred solution: the shortest route from the origin to the
    /// destination, and among the shortest the one that, where they part,
    /// goes west rather than east, east rather than north, north rather than
    /// south. No cell at all where the destination cannot be reached.
    pub fn get_short_path(&self) -> (path: Vec<Cell>)
        requires
            self.wf(),
        ensures
            self@.solvable() ==> self@.is_preferred_solution(path@),
            !self@.solvable() ==> path@.len() == 0,
    {
        let ghost m = self@;
        let ghost grid = grid_keys(m.width as nat, m.height as nat);
        let dest_x: u32 = self.width() - 1;
        let dest_y: u32 = self.height() - 1;
        let mut visited: HashSet<u64> = HashSet::new();
        let mut queue: VecDeque<Cell> = VecDeque::new();
        queue.push_back((0, 0));
        let mut prevs: HashMap<u64, Cell> = HashMap::new();
        let ghost mut s = Search::start(m);
        proof {
            lemma_start(m);
            lemma_grid_keys_len(m.width as nat, m.height as nat);
            assert(queue@ =~= s.queue);
            assert(prevs@ =~= s.prevs);
        }
        while queue.len() > 0
            invariant
                self.wf(),
                m == self@,
                grid == grid_keys(m.width as nat, m.height as nat),
                grid.finite(),
                visited@.finite(),
                visited@.subset_of(grid),
                s.inv(m),
                s.visited == visited@,
                s.queue == queue@,
                s.prevs == prevs@,
                (dest_x, dest_y) == m.destination(),
            decreases grid.len() - visited@.len(), queue@.len(),
        {
            let ghost before = s;
            let c: Cell = queue.pop_front().unwrap();
            let x: u32 = c.0;
            let y: u32 = c.1;
            proof {
                vstd::set_lib::lemma_len_subset(visited@, grid);
                assert(c == before.queue[0]);
                assert(queue@ == before.popped().queue);
            }
            if x == dest_x && y == dest_y {
                proof {
                    lemma_first_is_preferred(m, before);
                    assert(before.found(c));
                    assert(m.is_solution(before.routes[c]));
                }
                return trace_back(prevs, c, Ghost(m), Ghost(before));
            }
            let k: u64 = key_of_cell(x, y);
            let fresh = visited.insert(k);
            if fresh {
                proof {
                    lemma_pop_fresh(m, before);
                    s = before.popped().marked(c);
                    lemma_cell_key_inverse(c);
                    assert(grid.contains(k));
                    vstd::set_lib::lemma_len_subset(visited@, grid);
                }
                let found = self.exits(x, y);
                let ghost marked = visited@;
                let mut i: usize = 0;
                while i < found.len()
                    invariant
                        0 <= i <= found@.len(),
                        found@ == m.exits(c),
                        s.mid(m, c, i as int),
                        visited@ == marked,
                        s.visited == visited@,
                        s.queue == queue@,
                        s.prevs == prevs@,
                    decreases found@.len() - i,
                {
                    let n: Cell = found[i];
                    let kn: u64 = key_of_cell(n.0, n.1);
                    queue.push_back(n);
                    if !prevs.contains_key(&kn) {
                        prevs.insert(kn, c);
                    }
                    proof {
                        lemma_discover(m, s, c, i as int);
                        s = s.discovered(c, n);
                        assert(s.prevs =~= prevs@);
                    }
                    i += 1;
                }
                proof {
                    lemma_finish(m, s, c);
                }
            } else {
                proof {
                    lemma_pop_seen(m, before);
                    s = before.popped();
                    assert(visited@ =~= before.visited);
                }
            }
        }
        proof {
            lemma_exhausted(m, s);
        }
        Vec::new()
    }
}

} // verus!
