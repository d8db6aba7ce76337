//! The state of a breadth-first search from the origin, the invariant that
//! the search keeps, and why the first route found to a cell is the
//! preferred one.

use vstd::prelude::*;
use crate::grid::{adjacent, cell_key, lemma_cell_key_injective, turn, Cell};
use crate::model::{
    is_path, lemma_code_bounds, lemma_code_injective, lemma_code_orders_length, lemma_exits,
    lemma_extend_route, lemma_route_end_in_grid, lemma_walk_stays_inside, route_code, MazeModel,
};

verus! {

/// A breadth-first search in progress.
pub struct Search {
    /// For each cell found so far, the route on which it was found.
    pub routes: Map<Cell, Seq<Cell>>,
    /// For each cell found so far but the origin, by key, the cell from which
    /// it was found.
    pub prevs: Map<u64, Cell>,
    /// The keys of the cells whose exits have been followed.
    pub visited: Set<u64>,
    /// The cells that wait for their turn; a cell may wait more than once.
    pub queue: Seq<Cell>,
    /// The greatest code of a route found so far.
    pub top: int,
}

impl Search {
    /// The search before its first step: only the origin is found and waits.
    pub open spec fn start(m: MazeModel) -> Search {
        Search {
            routes: Map::empty().insert(m.origin(), seq![m.origin()]),
            prevs: Map::empty(),
            visited: Set::empty(),
            queue: seq![m.origin()],
            top: 0,
        }
    }

    /// The search has found a route to the cell.
    pub open spec fn found(self, c: Cell) -> bool {
        self.routes.contains_key(c)
    }

    /// The code of the route on which the cell was found.
    pub open spec fn code(self, c: Cell) -> int {
        route_code(self.routes[c])
    }

    /// The exits of the cell have been followed.
    pub open spec fn seen(self, c: Cell) -> bool {
        self.visited.contains(cell_key(c))
    }

    /// The cell is found and its exits are yet to be followed.
    pub open spec fn waiting(self, c: Cell) -> bool {
        self.found(c) && !self.seen(c)
    }

    /// The cell occurs in the queue before position `j`.
    pub open spec fn ahead(self, j: int, c: Cell) -> bool {
        exists|i: int| 0 <= i < j && i < self.queue.len() && self.queue[i] == c
    }

    /// The step from `a` to `b` has been followed: `b` is found, on a route
    /// that is no worse than the one through `a`.
    pub open spec fn settled(self, a: Cell, b: Cell) -> bool {
        self.found(b) && self.code(b) <= 5 * self.code(a) + turn(a, b)
    }

    /// The origin is found on the route that holds it alone, and every found
    /// cell on a route from the origin whose code is at most `top`.
    pub open spec fn routes_ok(self, m: MazeModel) -> bool {
        &&& self.found(m.origin())
        &&& self.routes[m.origin()] == seq![m.origin()]
        &&& forall|c: Cell| #[trigger]
            self.found(c) ==> m.is_route(self.routes[c], m.origin(), c) && self.code(c)
                <= self.top
    }

    /// Every found cell but the origin has a predecessor, whose route it
    /// extends by one step; only found cells have one.
    pub open spec fn prevs_ok(self, m: MazeModel) -> bool {
        &&& forall|c: Cell| #[trigger]
            self.found(c) && c != m.origin() ==> {
                &&& self.prevs.contains_key(cell_key(c))
                &&& self.found(self.prevs[cell_key(c)])
                &&& self.routes[c] == self.routes[self.prevs[cell_key(c)]].push(c)
            }
        &&& forall|c: Cell| #[trigger] self.prevs.contains_key(cell_key(c)) ==> self.found(c)
    }

    /// Only found cells are visited, and the destination never is.
    pub open spec fn visited_ok(self, m: MazeModel) -> bool {
        &&& forall|c: Cell| #[trigger] self.seen(c) ==> self.found(c)
        &&& !self.seen(m.destination())
    }

    /// The queue holds found cells only and every waiting cell; a waiting
    /// cell with a smaller code stands, at least once, ahead of one with a
    /// greater code; and no route of a waiting cell, extended by one step,
    /// has a code below `top`.
    pub open spec fn queue_ok(self) -> bool {
        &&& forall|i: int| 0 <= i < self.queue.len() ==> self.found(#[trigger] self.queue[i])
        &&& forall|c: Cell| #[trigger] self.waiting(c) ==> self.queue.contains(c)
        &&& forall|j: int, c: Cell|
            0 <= j < self.queue.len() && self.waiting(self.queue[j]) && self.waiting(c)
                && self.code(c) < self.code(self.queue[j]) ==> #[trigger] self.ahead(j, c)
        &&& forall|c: Cell| #[trigger] self.waiting(c) ==> self.top <= 5 * self.code(c)
    }

    /// What holds between two steps of the search.
    pub open spec fn inv(self, m: MazeModel) -> bool {
        &&& m.width >= 1
        &&& m.height >= 1
        &&& self.routes_ok(m)
        &&& self.prevs_ok(m)
        &&& self.visited_ok(m)
        &&& self.queue_ok()
        &&& forall|a: Cell, b: Cell| self.seen(a) && #[trigger] m.passage(a, b) ==> self.settled(a, b)
    }

    /// The turn of the exit of `u` that was followed last, 0 before the first.
    pub open spec fn last_turn(m: MazeModel, u: Cell, done: int) -> int {
        if done <= 0 {
            0
        } else {
            turn(u, m.exits(u)[done - 1])
        }
    }

    /// What holds while the exits of `u` are followed, `done` of them so far.
    pub open spec fn mid(self, m: MazeModel, u: Cell, done: int) -> bool {
        &&& m.width >= 1
        &&& m.height >= 1
        &&& self.routes_ok(m)
        &&& self.prevs_ok(m)
        &&& self.visited_ok(m)
        &&& self.queue_ok()
        &&& forall|a: Cell, b: Cell|
            self.seen(a) && a != u && #[trigger] m.passage(a, b) ==> self.settled(a, b)
        &&& 0 <= done <= m.exits(u).len()
        &&& forall|j: int| 0 <= j < done ==> self.settled(u, #[trigger] m.exits(u)[j])
        &&& self.seen(u)
        &&& m.has_cell(u)
        &&& forall|c: Cell| #[trigger] self.waiting(c) ==> self.code(u) < self.code(c)
        &&& self.top <= 5 * self.code(u) + Self::last_turn(m, u, done)
    }

    /// The search after the first cell of the queue has been taken off.
    pub open spec fn popped(self) -> Search {
        Search { queue: self.queue.subrange(1, self.queue.len() as int), ..self }
    }

    /// The search after `u` has been marked as visited.
    pub open spec fn marked(self, u: Cell) -> Search {
        Search { visited: self.visited.insert(cell_key(u)), ..self }
    }

    /// The search after the step from `u` to its exit `n` has been followed.
    pub open spec fn discovered(self, u: Cell, n: Cell) -> Search {
        Search {
            queue: self.queue.push(n),
            prevs: if self.prevs.contains_key(cell_key(n)) {
                self.prevs
            } else {
                self.prevs.insert(cell_key(n), u)
            },
            routes: if self.found(n) {
                self.routes
            } else {
                self.routes.insert(n, self.routes[u].push(n))
            },
            top: if self.found(n) {
                self.top
            } else {
                5 * self.code(u) + turn(u, n)
            },
            ..self
        }
    }
}

/// The search starts in a state that meets its invariant.
pub proof fn lemma_start(m: MazeModel)
    requires
        m.width >= 1,
        m.height >= 1,
    ensures
        Search::start(m).inv(m),
{
    let s = Search::start(m);
    let o = m.origin();
    assert(s.routes[o] == seq![o]);
    assert(m.is_route(seq![o], o, o));
    assert(s.queue[0] == o);
    assert forall|j: int, c: Cell|
        0 <= j < s.queue.len() && s.waiting(s.queue[j]) && s.waiting(c) && s.code(c) < s.code(
            s.queue[j],
        ) implies #[trigger] s.ahead(j, c) by {
        assert(c == o);
    }
}

/// Taking a visited cell off the queue keeps the invariant.
pub proof fn lemma_pop_seen(m: MazeModel, s: Search)
    requires
        s.inv(m),
        s.queue.len() > 0,
        s.seen(s.queue[0]),
    ensures
        s.popped().inv(m),
{
    let t = s.popped();
    lemma_popped_queue(m, s, t);
    lemma_same_cells(m, s, t, None);
}

/// What the invariant says of routes, predecessors and followed steps still
/// holds when the queue changes and, at most, one found cell that is not the
/// destination is marked as visited; the steps from that cell excepted.
proof fn lemma_same_cells(m: MazeModel, s: Search, t: Search, marked: Option<Cell>)
    requires
        s.inv(m),
        t.routes == s.routes,
        t.prevs == s.prevs,
        t.top == s.top,
        match marked {
            Some(u) => t.visited == s.visited.insert(cell_key(u)) && s.found(u) && u
                != m.destination(),
            None => t.visited == s.visited,
        },
    ensures
        t.routes_ok(m),
        t.prevs_ok(m),
        t.visited_ok(m),
        forall|a: Cell, b: Cell|
            t.seen(a) && Some(a) != marked && #[trigger] m.passage(a, b) ==> t.settled(a, b),
{
    assert forall|c: Cell| #[trigger] t.found(c) implies m.is_route(t.routes[c], m.origin(), c)
        && t.code(c) <= t.top by {
        assert(s.found(c));
        assert(t.code(c) == s.code(c));
    }
    assert forall|c: Cell| #[trigger] t.found(c) && c != m.origin() implies {
        &&& t.prevs.contains_key(cell_key(c))
        &&& t.found(t.prevs[cell_key(c)])
        &&& t.routes[c] == t.routes[t.prevs[cell_key(c)]].push(c)
    } by {
        assert(s.found(c));
    }
    assert forall|c: Cell| #[trigger] t.prevs.contains_key(cell_key(c)) implies t.found(c) by {
        assert(s.prevs.contains_key(cell_key(c)));
    }
    assert forall|c: Cell| #[trigger] t.seen(c) implies t.found(c) by {
        match marked {
            Some(u) => {
                lemma_cell_key_injective(c, u);
                if c != u {
                    assert(s.seen(c));
                }
            },
            None => {
                assert(s.seen(c));
            },
        }
    }
    assert(!t.seen(m.destination())) by {
        match marked {
            Some(u) => {
                lemma_cell_key_injective(m.destination(), u);
            },
            None => {},
        }
        assert(!s.seen(m.destination()));
    }
    assert forall|a: Cell, b: Cell|
        t.seen(a) && Some(a) != marked && #[trigger] m.passage(a, b) implies t.settled(a, b) by {
        match marked {
            Some(u) => {
                lemma_cell_key_injective(a, u);
            },
            None => {},
        }
        assert(s.seen(a));
        assert(s.settled(a, b));
    }
}

/// The queue's part of the invariant after the first cell, which does not
/// wait any more, has been taken off.
proof fn lemma_popped_queue(m: MazeModel, s: Search, t: Search)
    requires
        s.queue_ok(),
        s.queue.len() > 0,
        t.queue == s.queue.subrange(1, s.queue.len() as int),
        t.routes == s.routes,
        t.top == s.top,
        forall|c: Cell| t.seen(c) == (s.seen(c) || c == s.queue[0]),
        t.seen(s.queue[0]),
    ensures
        t.queue_ok(),
{
    assert forall|i: int| 0 <= i < t.queue.len() implies t.found(#[trigger] t.queue[i]) by {
        assert(t.queue[i] == s.queue[i + 1]);
    }
    assert forall|c: Cell| #[trigger] t.waiting(c) implies t.queue.contains(c) by {
        assert(s.waiting(c));
        let i = choose|i: int| 0 <= i < s.queue.len() && s.queue[i] == c;
        assert(t.queue[i - 1] == c);
    }
    assert forall|j: int, c: Cell|
        0 <= j < t.queue.len() && t.waiting(t.queue[j]) && t.waiting(c) && t.code(c) < t.code(
            t.queue[j],
        ) implies #[trigger] t.ahead(j, c) by {
        assert(t.queue[j] == s.queue[j + 1]);
        assert(s.waiting(c) && s.waiting(s.queue[j + 1]));
        assert(s.ahead(j + 1, c));
        let i = choose|i: int| 0 <= i < j + 1 && i < s.queue.len() && s.queue[i] == c;
        assert(t.queue[i - 1] == c);
    }
    assert forall|c: Cell| #[trigger] t.waiting(c) implies t.top <= 5 * t.code(c) by {
        assert(s.waiting(c));
    }
}

/// Taking a waiting cell off the queue and marking it as visited leads to the
/// state in which its exits are followed.
pub proof fn lemma_pop_fresh(m: MazeModel, s: Search)
    requires
        s.inv(m),
        s.queue.len() > 0,
        !s.seen(s.queue[0]),
        s.queue[0] != m.destination(),
    ensures
        s.popped().marked(s.queue[0]).mid(m, s.queue[0], 0),
        m.has_cell(s.queue[0]),
{
    let u = s.queue[0];
    let t = s.popped().marked(u);
    assert(s.found(u));
    assert(s.waiting(u));
    assert forall|c: Cell| t.seen(c) == (s.seen(c) || c == u) by {
        lemma_cell_key_injective(c, u);
    }
    lemma_popped_queue(m, s, t);
    lemma_same_cells(m, s, t, Some(u));
    assert(t.top <= 5 * t.code(u)) by {
        assert(s.top <= 5 * s.code(u));
    }
    assert forall|c: Cell| #[trigger] t.waiting(c) implies t.code(u) < t.code(c) by {
        assert(s.waiting(c));
        if s.code(c) < s.code(u) {
            assert(s.ahead(0, c));
        }
        if s.code(c) == s.code(u) {
            lemma_route_is_path(m, s.routes[c]);
            lemma_route_is_path(m, s.routes[u]);
            lemma_code_injective(s.routes[c], s.routes[u]);
        }
    }
    lemma_route_end_in_grid(m, s.routes[u], m.origin(), u);
    lemma_exits(m, u);
}

/// A walk through passages is a path.
pub proof fn lemma_route_is_path(m: MazeModel, p: Seq<Cell>)
    requires
        m.is_walk(p),
    ensures
        is_path(p),
{
    assert forall|i: int| 0 <= i < p.len() - 1 implies adjacent(
        #[trigger] p[i],
        p[i + 1],
    ) by {
        assert(m.passage(p[i], p[i + 1]));
    }
}

/// Following the next exit of `u` keeps the state in which its exits are
/// followed.
pub proof fn lemma_discover(m: MazeModel, s: Search, u: Cell, done: int)
    requires
        s.mid(m, u, done),
        done < m.exits(u).len(),
    ensures
        s.discovered(u, m.exits(u)[done]).mid(m, u, done + 1),
        s.found(m.exits(u)[done]) <==> s.prevs.contains_key(cell_key(m.exits(u)[done]))
            || m.exits(u)[done] == m.origin(),
{
    let n = m.exits(u)[done];
    let t = s.discovered(u, n);
    lemma_exits(m, u);
    assert(m.exits(u).contains(n));
    assert(m.passage(u, n));
    assert(s.found(u));
    lemma_route_is_path(m, s.routes[u]);
    lemma_code_bounds(s.routes[u]);
    assert(1 <= turn(u, n) <= 4);
    assert(Search::last_turn(m, u, done) < turn(u, n)) by {
        if done > 0 {
            assert(turn(u, m.exits(u)[done - 1]) < turn(u, m.exits(u)[done]));
        }
    }
    if !s.found(n) {
        lemma_extend_route(m, s.routes[u], m.origin(), u, n);
        assert(!s.prevs.contains_key(cell_key(n)));
        assert(t.routes[n] == s.routes[u].push(n));
    }
    assert forall|c: Cell| t.found(c) == (s.found(c) || c == n) by {}
    assert forall|c: Cell| s.found(c) implies t.routes[c] == s.routes[c] by {}
    assert forall|c: Cell| t.seen(c) == s.seen(c) by {}
    // The routes: the new one extends the route of `u` by one passage.
    assert(t.routes_ok(m)) by {
        assert forall|c: Cell| #[trigger] t.found(c) implies m.is_route(
            t.routes[c],
            m.origin(),
            c,
        ) && t.code(c) <= t.top by {
            if s.found(c) {
                assert(t.code(c) == s.code(c));
            }
        }
    }
    // The predecessors: only `n` can have got one.
    assert(t.prevs_ok(m)) by {
        assert forall|c: Cell| #[trigger] t.found(c) && c != m.origin() implies {
            &&& t.prevs.contains_key(cell_key(c))
            &&& t.found(t.prevs[cell_key(c)])
            &&& t.routes[c] == t.routes[t.prevs[cell_key(c)]].push(c)
        } by {
            lemma_cell_key_injective(c, n);
            if s.found(c) {
                assert(s.prevs.contains_key(cell_key(c)));
                assert(t.prevs[cell_key(c)] == s.prevs[cell_key(c)]);
            }
        }
        assert forall|c: Cell| #[trigger] t.prevs.contains_key(cell_key(c)) implies t.found(c) by {
            lemma_cell_key_injective(c, n);
        }
    }
    assert(t.visited_ok(m)) by {
        assert forall|c: Cell| #[trigger] t.seen(c) implies t.found(c) by {
            assert(s.seen(c));
        }
    }
    // The queue: `n` stands at its end, behind every cell that waited.
    assert(t.queue_ok()) by {
        assert forall|i: int| 0 <= i < t.queue.len() implies t.found(#[trigger] t.queue[i]) by {
            if i < s.queue.len() {
                assert(t.queue[i] == s.queue[i]);
            }
        }
        assert forall|c: Cell| #[trigger] t.waiting(c) implies t.queue.contains(c) by {
            if c == n {
                assert(t.queue[s.queue.len() as int] == n);
            } else {
                assert(s.waiting(c));
                let i = choose|i: int| 0 <= i < s.queue.len() && s.queue[i] == c;
                assert(t.queue[i] == c);
            }
        }
        assert forall|j: int, c: Cell|
            0 <= j < t.queue.len() && t.waiting(t.queue[j]) && t.waiting(c) && t.code(c) < t.code(
                t.queue[j],
            ) implies #[trigger] t.ahead(j, c) by {
            if j < s.queue.len() {
                assert(t.queue[j] == s.queue[j]);
                assert(s.found(s.queue[j]));
                assert(s.waiting(s.queue[j]));
                if s.found(c) {
                    assert(s.waiting(c));
                    assert(s.ahead(j, c));
                    let i = choose|i: int| 0 <= i < j && i < s.queue.len() && s.queue[i] == c;
                    assert(t.queue[i] == c);
                } else {
                    assert(c == n);
                    assert(s.code(s.queue[j]) <= s.top);
                }
            } else {
                assert(t.queue[j] == n);
                assert(c != n);
                assert(s.waiting(c));
                let i = choose|i: int| 0 <= i < s.queue.len() && s.queue[i] == c;
                assert(t.queue[i] == c);
            }
        }
        assert forall|c: Cell| #[trigger] t.waiting(c) implies t.top <= 5 * t.code(c) by {
            if s.found(c) {
                assert(s.waiting(c));
            }
        }
    }
    assert forall|a: Cell, b: Cell|
        t.seen(a) && a != u && #[trigger] m.passage(a, b) implies t.settled(a, b) by {
        assert(s.settled(a, b));
        assert(s.found(a));
    }
    assert forall|j: int| 0 <= j < done + 1 implies t.settled(u, #[trigger] m.exits(u)[j]) by {
        if j < done {
            assert(s.settled(u, m.exits(u)[j]));
        } else {
            if s.found(n) {
                assert(s.code(n) <= s.top);
            }
        }
    }
    assert forall|c: Cell| #[trigger] t.waiting(c) implies t.code(u) < t.code(c) by {
        if s.found(c) {
            assert(s.waiting(c));
        }
    }
}

/// Once all exits of `u` have been followed, the invariant holds again.
pub proof fn lemma_finish(m: MazeModel, s: Search, u: Cell)
    requires
        s.mid(m, u, m.exits(u).len() as int),
    ensures
        s.inv(m),
{
    lemma_exits(m, u);
    assert forall|a: Cell, b: Cell| s.seen(a) && #[trigger] m.passage(a, b) implies s.settled(
        a,
        b,
    ) by {
        if a == u {
            assert(m.exits(u).contains(b));
            let j = choose|j: int| 0 <= j < m.exits(u).len() && m.exits(u)[j] == b;
            assert(s.settled(u, m.exits(u)[j]));
        }
    }
}

/// The code of the first cells of a path is at most the code of the path.
pub proof fn lemma_code_prefix(q: Seq<Cell>, n: int)
    requires
        is_path(q),
        1 <= n <= q.len(),
    ensures
        route_code(q.take(n)) <= route_code(q),
        is_path(q.take(n)),
    decreases q.len() - n,
{
    assert(is_path(q.take(n))) by {
        assert forall|i: int| 0 <= i < q.take(n).len() - 1 implies adjacent(
            #[trigger] q.take(n)[i],
            q.take(n)[i + 1],
        ) by {
            assert(adjacent(q[i], q[i + 1]));
        }
    }
    if n == q.len() {
        assert(q.take(n) =~= q);
    } else {
        lemma_code_prefix(q, n + 1);
        assert(q.take(n + 1).drop_last() =~= q.take(n));
        lemma_code_bounds(q.take(n));
    }
}

/// Along a walk from the origin, up to position `i`, there is a found cell
/// whose route is no worse than the walk up to it, and which either is the
/// cell at `i` or still waits.
pub proof fn lemma_trace(m: MazeModel, s: Search, q: Seq<Cell>, i: int) -> (j: int)
    requires
        s.inv(m),
        m.is_walk(q),
        q.len() > 0,
        q[0] == m.origin(),
        0 <= i < q.len(),
    ensures
        0 <= j <= i,
        s.found(q[j]),
        s.code(q[j]) <= route_code(q.take(j + 1)),
        j == i || !s.seen(q[j]),
    decreases i,
{
    if i == 0 {
        assert(q.take(1).len() == 1);
        0
    } else {
        let j0 = lemma_trace(m, s, q, i - 1);
        if j0 < i - 1 || !s.seen(q[j0]) {
            j0
        } else {
            assert(m.passage(q[i - 1], q[i - 1 + 1]));
            assert(s.settled(q[i - 1], q[i]));
            let head = q.take(i + 1);
            assert(head.drop_last() =~= q.take(i));
            assert(head[head.len() - 2] == q[i - 1]);
            assert(head.last() == q[i]);
            i
        }
    }
}

/// When the destination is first in the queue, the route on which it was
/// found is the preferred solution.
pub proof fn lemma_first_is_preferred(m: MazeModel, s: Search)
    requires
        s.inv(m),
        s.queue.len() > 0,
        s.queue[0] == m.destination(),
    ensures
        m.is_preferred_solution(s.routes[m.destination()]),
{
    let d = m.destination();
    let best = s.routes[d];
    assert(s.found(d));
    lemma_route_is_path(m, best);
    assert forall|q: Seq<Cell>| #[trigger] m.is_solution(q) implies best.len() <= q.len()
        && route_code(best) <= route_code(q) by {
        lemma_route_is_path(m, q);
        let j = lemma_trace(m, s, q, q.len() - 1);
        lemma_code_prefix(q, j + 1);
        if j == q.len() - 1 {
            assert(q.take(j + 1) =~= q);
        } else {
            assert(s.waiting(q[j]));
            assert(s.waiting(d));
            if s.code(q[j]) < s.code(d) {
                assert(s.ahead(0, q[j]));
            }
        }
        lemma_code_orders_length(best, q);
    }
}

/// When no cell waits any more, the destination cannot be reached.
pub proof fn lemma_exhausted(m: MazeModel, s: Search)
    requires
        s.inv(m),
        s.queue.len() == 0,
    ensures
        !m.solvable(),
{
    if m.solvable() {
        let q = choose|q: Seq<Cell>| m.is_route(q, m.origin(), m.destination());
        let inside = Set::new(|c: Cell| s.seen(c));
        assert forall|c: Cell| s.found(c) implies s.seen(c) by {
            if !s.seen(c) {
                assert(s.waiting(c));
                assert(s.queue.contains(c));
            }
        }
        assert forall|a: Cell, b: Cell| inside.contains(a) && m.passage(a, b) implies inside.contains(
            b,
        ) by {
            assert(s.settled(a, b));
        }
        lemma_walk_stays_inside(m, inside, q, q.len() - 1);
    }
}

} // verus!
