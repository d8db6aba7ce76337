//! The mathematical model of a maze: its size, its set of open walls, and
//! what routes, reachability and the preferred shortest route mean.

use vstd::prelude::*;
use crate::grid::{adjacent, mirror, turn, wall_between, Cell, Direction, Draw, Wall};

verus! {

/// What a maze is to the contracts: the grid's size and the set of ordered
/// cell pairs whose wall is open.
pub struct MazeModel {
    pub width: u32,
    pub height: u32,
    pub open: Set<Wall>,
}

impl MazeModel {
    /// The maze of the given size in which no wall is open.
    pub open spec fn closed(width: u32, height: u32) -> MazeModel {
        MazeModel { width, height, open: Set::empty() }
    }

    /// A maze has at least one cell, finitely many open walls, and every open
    /// wall is open from both sides.
    pub open spec fn valid(self) -> bool {
        &&& self.width >= 1
        &&& self.height >= 1
        &&& self.open.finite()
        &&& forall|w: Wall| self.open.contains(w) ==> #[trigger] self.open.contains(mirror(w))
    }

    /// The cell lies inside the grid.
    pub open spec fn has_cell(self, c: Cell) -> bool {
        c.0 < self.width && c.1 < self.height
    }

    /// The cell at which every route starts.
    pub open spec fn origin(self) -> Cell {
        (0u32, 0u32)
    }

    /// The cell at which the solution ends: the corner opposite the origin.
    pub open spec fn destination(self) -> Cell {
        ((self.width - 1) as u32, (self.height - 1) as u32)
    }

    /// One can step from `a` to `b`: both lie in the grid, they are adjacent,
    /// and the wall from `a` to `b` is open.
    pub open spec fn passage(self, a: Cell, b: Cell) -> bool {
        &&& self.has_cell(a)
        &&& self.has_cell(b)
        &&& adjacent(a, b)
        &&& self.open.contains(wall_between(a, b))
    }

    /// `p` is a walk through passages, whatever its ends.
    pub open spec fn is_walk(self, p: Seq<Cell>) -> bool {
        forall|i: int| 0 <= i < p.len() - 1 ==> self.passage(#[trigger] p[i], p[i + 1])
    }

    /// `p` leads from `from` to `to` through passages; `from` lies in the grid.
    pub open spec fn is_route(self, p: Seq<Cell>, from: Cell, to: Cell) -> bool {
        &&& p.len() >= 1
        &&& p[0] == from
        &&& p.last() == to
        &&& self.has_cell(from)
        &&& self.is_walk(p)
    }

    /// Some route leads from `from` to `to`.
    pub open spec fn reachable(self, from: Cell, to: Cell) -> bool {
        exists|p: Seq<Cell>| self.is_route(p, from, to)
    }

    /// The destination can be reached from the origin.
    pub open spec fn solvable(self) -> bool {
        self.reachable(self.origin(), self.destination())
    }

    /// Every cell of the grid can be reached from the origin.
    pub open spec fn fully_connected(self) -> bool {
        forall|c: Cell| self.has_cell(c) ==> self.reachable(self.origin(), c)
    }

    /// `p` is a solution: a route from the origin to the destination.
    pub open spec fn is_solution(self, p: Seq<Cell>) -> bool {
        self.is_route(p, self.origin(), self.destination())
    }

    /// `p` is the preferred solution: no solution has fewer cells, and among
    /// those of equal length none has a smaller code, that is, at the first
    /// step where two of them part, `p` takes the direction tried first.
    pub open spec fn is_preferred_solution(self, p: Seq<Cell>) -> bool {
        &&& self.is_solution(p)
        &&& forall|q: Seq<Cell>| #[trigger]
            self.is_solution(q) ==> p.len() <= q.len() && route_code(p) <= route_code(q)
    }

    /// The maze after the wall `w` has been opened, from both sides.
    pub open spec fn with_wall(self, w: Wall) -> MazeModel {
        MazeModel { open: self.open.insert(w).insert(mirror(w)), ..self }
    }

    /// The maze after the walls of `ws` have been opened in turn.
    pub open spec fn with_walls(self, ws: Seq<Wall>) -> MazeModel
        decreases ws.len(),
    {
        if ws.len() == 0 {
            self
        } else {
            self.with_walls(ws.drop_last()).with_wall(ws.last())
        }
    }

    /// The least `k >= from` such that the maze is solvable once the first
    /// `k` walls of `ws` are open; the length of `ws` if there is none.
    pub open spec fn first_solvable(self, ws: Seq<Wall>, from: nat) -> nat
        decreases ws.len() - from,
    {
        if from >= ws.len() || self.with_walls(ws.take(from as int)).solvable() {
            from
        } else {
            self.first_solvable(ws, from + 1)
        }
    }

    /// How many walls of `ws` the ordered-edge generator opens: it stops
    /// before the first wall at which the maze is already solvable.
    pub open spec fn carve_count(self, ws: Seq<Wall>) -> nat {
        self.first_solvable(ws, 0)
    }

    /// Every wall between adjacent cells of the grid is open.
    pub open spec fn all_open(self) -> bool {
        forall|a: Cell, b: Cell|
            self.has_cell(a) && self.has_cell(b) && adjacent(a, b) ==> self.open.contains(
                #[trigger] wall_between(a, b),
            )
    }
}

impl MazeModel {
    /// The neighbour of `c` in direction `d`, where the grid has one.
    pub open spec fn neighbor(self, c: Cell, d: Direction) -> Option<Cell> {
        match d {
            Direction::West => if c.0 > 0 {
                Some(((c.0 - 1) as u32, c.1))
            } else {
                None
            },
            Direction::East => if c.0 < self.width - 1 {
                Some(((c.0 + 1) as u32, c.1))
            } else {
                None
            },
            Direction::North => if c.1 > 0 {
                Some((c.0, (c.1 - 1) as u32))
            } else {
                None
            },
            Direction::South => if c.1 < self.height - 1 {
                Some((c.0, (c.1 + 1) as u32))
            } else {
                None
            },
        }
    }

    /// The neighbour of `c` in direction `d` as a sequence of one cell, where
    /// the grid has one and the wall towards it is open; else no cell.
    pub open spec fn exit(self, c: Cell, d: Direction) -> Seq<Cell> {
        match self.neighbor(c, d) {
            Some(b) => if self.open.contains(wall_between(c, b)) {
                seq![b]
            } else {
                Seq::empty()
            },
            None => Seq::empty(),
        }
    }

    /// The cells to which one can step from `c`, in trial order: west, east,
    /// north, south.
    pub open spec fn exits(self, c: Cell) -> Seq<Cell> {
        self.exit(c, Direction::West) + self.exit(c, Direction::East) + self.exit(
            c,
            Direction::North,
        ) + self.exit(c, Direction::South)
    }
}

/// The exits of a cell of the grid are the cells to which a passage leads
/// from it, each once, in the order of their directions.
pub proof fn lemma_exits(m: MazeModel, c: Cell)
    requires
        m.width >= 1,
        m.height >= 1,
        m.has_cell(c),
    ensures
        forall|b: Cell| m.passage(c, b) <==> m.exits(c).contains(b),
        forall|i: int, j: int|
            0 <= i < j < m.exits(c).len() ==> turn(c, m.exits(c)[i]) < turn(c, m.exits(c)[j]),
        m.exits(c).len() <= 4,
{
    let w = m.exit(c, Direction::West);
    let e = m.exit(c, Direction::East);
    let n = m.exit(c, Direction::North);
    let s = m.exit(c, Direction::South);
    let all = m.exits(c);
    assert(all == w + e + n + s);
    assert forall|b: Cell| all.contains(b) implies m.passage(c, b) by {
        let i = choose|i: int| 0 <= i < all.len() && all[i] == b;
        assert(w.contains(b) || e.contains(b) || n.contains(b) || s.contains(b));
    }
    assert forall|b: Cell| m.passage(c, b) implies all.contains(b) by {
        if turn(c, b) == 1 {
            assert(w[0] == b);
            assert(all[0] == b);
        } else if turn(c, b) == 2 {
            assert(e[0] == b);
            assert(all[w.len() as int] == b);
        } else if turn(c, b) == 3 {
            assert(n[0] == b);
            assert(all[(w.len() + e.len()) as int] == b);
        } else {
            assert(s[0] == b);
            assert(all[(w.len() + e.len() + n.len()) as int] == b);
        }
    }
}

/// A route ends in the grid.
pub proof fn lemma_route_end_in_grid(m: MazeModel, p: Seq<Cell>, from: Cell, to: Cell)
    requires
        m.is_route(p, from, to),
    ensures
        m.has_cell(to),
{
    if p.len() > 1 {
        assert(m.passage(p[p.len() - 2], p[p.len() - 2 + 1]));
    }
}

/// A route followed by one more passage is a route.
pub proof fn lemma_extend_route(m: MazeModel, p: Seq<Cell>, from: Cell, to: Cell, next: Cell)
    requires
        m.is_route(p, from, to),
        m.passage(to, next),
    ensures
        m.is_route(p.push(next), from, next),
        route_code(p.push(next)) == 5 * route_code(p) + turn(to, next),
{
    let q = p.push(next);
    assert forall|i: int| 0 <= i < q.len() - 1 implies m.passage(#[trigger] q[i], q[i + 1]) by {
        if i < p.len() - 1 {
            assert(m.passage(p[i], p[i + 1]));
        }
    }
    assert(q.drop_last() =~= p);
}

/// Where a passage leads on from a reachable cell, that cell is reachable.
pub proof fn lemma_reach_step(m: MazeModel, from: Cell, to: Cell, next: Cell)
    requires
        m.reachable(from, to),
        m.passage(to, next),
    ensures
        m.reachable(from, next),
{
    let p = choose|p: Seq<Cell>| m.is_route(p, from, to);
    lemma_extend_route(m, p, from, to, next);
}

/// A set of cells that holds `from` and every cell to which a passage leads
/// from one of its cells holds each cell of a walk that starts at `from`.
pub proof fn lemma_walk_stays_inside(m: MazeModel, inside: Set<Cell>, p: Seq<Cell>, i: int)
    requires
        m.is_walk(p),
        0 <= i < p.len(),
        inside.contains(p[0]),
        forall|a: Cell, b: Cell| inside.contains(a) && m.passage(a, b) ==> inside.contains(b),
    ensures
        inside.contains(p[i]),
    decreases i,
{
    if i > 0 {
        lemma_walk_stays_inside(m, inside, p, i - 1);
        assert(m.passage(p[i - 1], p[i - 1 + 1]));
    }
}

/// The code of a route: its steps read as a number in base five, a step to
/// the west counting 1, east 2, north 3 and south 4. Of two routes from one
/// cell the shorter has the smaller code, and of two of equal length the one
/// that takes the direction tried first where they part.
pub open spec fn route_code(p: Seq<Cell>) -> int
    decreases p.len(),
{
    if p.len() <= 1 {
        0
    } else {
        5 * route_code(p.drop_last()) + turn(p[p.len() - 2], p.last())
    }
}

/// The least code of a route of `steps` steps.
pub open spec fn least_code(steps: nat) -> int
    decreases steps,
{
    if steps == 0 {
        0
    } else {
        5 * least_code((steps - 1) as nat) + 1
    }
}

/// The greatest code of a route of `steps` steps.
pub open spec fn greatest_code(steps: nat) -> int
    decreases steps,
{
    if steps == 0 {
        0
    } else {
        5 * greatest_code((steps - 1) as nat) + 4
    }
}

/// Each step of `p` leads to an adjacent cell.
pub open spec fn is_path(p: Seq<Cell>) -> bool {
    forall|i: int| 0 <= i < p.len() - 1 ==> adjacent(#[trigger] p[i], p[i + 1])
}

/// The code of a path lies between the least and the greatest code of its
/// number of steps.
pub proof fn lemma_code_bounds(p: Seq<Cell>)
    requires
        is_path(p),
        p.len() >= 1,
    ensures
        least_code((p.len() - 1) as nat) <= route_code(p) <= greatest_code((p.len() - 1) as nat),
        0 <= route_code(p),
    decreases p.len(),
{
    if p.len() > 1 {
        let q = p.drop_last();
        assert(is_path(q)) by {
            assert forall|i: int| 0 <= i < q.len() - 1 implies adjacent(#[trigger] q[i], q[i + 1]) by {
                assert(q[i] == p[i] && q[i + 1] == p[i + 1]);
            }
        }
        lemma_code_bounds(q);
        assert(adjacent(p[p.len() - 2], p[p.len() - 2 + 1]));
    }
}

/// A longer path has a code above every code of a shorter one.
pub proof fn lemma_code_ranges(a: nat, b: nat)
    requires
        a < b,
    ensures
        greatest_code(a) < least_code(b),
        0 <= least_code(a) <= greatest_code(a),
    decreases b,
{
    if a == 0 {
        if b > 1 {
            lemma_code_ranges(0, (b - 1) as nat);
        }
    } else {
        lemma_code_ranges((a - 1) as nat, (b - 1) as nat);
    }
}

/// Of two paths the one with the smaller code is not the longer.
pub proof fn lemma_code_orders_length(p: Seq<Cell>, q: Seq<Cell>)
    requires
        is_path(p),
        is_path(q),
        p.len() >= 1,
        q.len() >= 1,
        route_code(p) <= route_code(q),
    ensures
        p.len() <= q.len(),
{
    lemma_code_bounds(p);
    lemma_code_bounds(q);
    if p.len() > q.len() {
        lemma_code_ranges((q.len() - 1) as nat, (p.len() - 1) as nat);
    }
}

/// Two paths from one cell with the same code are the same path.
pub proof fn lemma_code_injective(p: Seq<Cell>, q: Seq<Cell>)
    requires
        is_path(p),
        is_path(q),
        p.len() >= 1,
        q.len() >= 1,
        p[0] == q[0],
        route_code(p) == route_code(q),
    ensures
        p == q,
    decreases p.len(),
{
    lemma_code_bounds(p);
    lemma_code_bounds(q);
    if p.len() != q.len() {
        if p.len() < q.len() {
            lemma_code_ranges((p.len() - 1) as nat, (q.len() - 1) as nat);
        } else {
            lemma_code_ranges((q.len() - 1) as nat, (p.len() - 1) as nat);
        }
    }
    if p.len() > 1 {
        let p_front = p.drop_last();
        let q_front = q.drop_last();
        assert(is_path(p_front)) by {
            assert forall|i: int| 0 <= i < p_front.len() - 1 implies adjacent(#[trigger] p_front[i], p_front[i + 1]) by {
                assert(p_front[i] == p[i] && p_front[i + 1] == p[i + 1]);
            }
        }
        assert(is_path(q_front)) by {
            assert forall|i: int| 0 <= i < q_front.len() - 1 implies adjacent(#[trigger] q_front[i], q_front[i + 1]) by {
                assert(q_front[i] == q[i] && q_front[i + 1] == q[i + 1]);
            }
        }
        assert(adjacent(p[p.len() - 2], p[p.len() - 2 + 1]));
        assert(adjacent(q[q.len() - 2], q[q.len() - 2 + 1]));
        lemma_code_injective(p_front, q_front);
        assert(p[p.len() - 2] == p_front[p.len() - 2]);
        assert(q[q.len() - 2] == q_front[q.len() - 2]);
        assert(p.last() == q.last());
        assert(p =~= p_front.push(p.last()));
        assert(q =~= q_front.push(q.last()));
    } else {
        assert(p =~= q);
    }
}

impl MazeModel {
    /// For every two adjacent cells of the grid, `ws` holds the wall between
    /// them, from one side or the other.
    pub open spec fn offers_every_wall(self, ws: Seq<Wall>) -> bool {
        forall|a: Cell, b: Cell|
            self.has_cell(a) && self.has_cell(b) && adjacent(a, b) ==> ws.contains(
                #[trigger] wall_between(a, b),
            ) || ws.contains(wall_between(b, a))
    }

    /// The wall joins two adjacent cells of the grid.
    pub open spec fn joins_cells(self, w: Wall) -> bool {
        &&& self.has_cell((w.0, w.1))
        &&& self.has_cell((w.2, w.3))
        &&& adjacent((w.0, w.1), (w.2, w.3))
    }

    /// The wall that a draw of the cell `c` and the direction `d` opens: the
    /// one from `c` to its neighbour in that direction, where `c` lies in the
    /// grid, has such a neighbour, and the wall is still closed.
    pub open spec fn closed_wall_toward(self, c: Cell, d: Direction) -> Option<Wall> {
        match self.neighbor(c, d) {
            Some(n) => if self.has_cell(c) && !self.open.contains(wall_between(c, n)) {
                Some(wall_between(c, n))
            } else {
                None
            },
            None => None,
        }
    }

    /// The maze after the draw of the cell `c` and the direction `d`.
    pub open spec fn with_draw(self, c: Cell, d: Direction) -> MazeModel {
        match self.closed_wall_toward(c, d) {
            Some(w) => self.with_wall(w),
            None => self,
        }
    }

    /// The maze after the draws of `draws` have been made in turn.
    pub open spec fn with_draws(self, draws: Seq<Draw>) -> MazeModel
        decreases draws.len(),
    {
        if draws.len() == 0 {
            self
        } else {
            self.with_draws(draws.drop_last()).with_draw(
                (draws.last().0, draws.last().1),
                draws.last().2,
            )
        }
    }

    /// The least `k >= from` such that the maze is fully connected once the
    /// first `k` draws of `draws` have been made; the length of `draws` if
    /// there is none.
    pub open spec fn first_connected(self, draws: Seq<Draw>, from: nat) -> nat
        decreases draws.len() - from,
    {
        if from >= draws.len() || self.with_draws(draws.take(from as int)).fully_connected() {
            from
        } else {
            self.first_connected(draws, from + 1)
        }
    }

    /// How many draws of `draws` the random-walk generator makes: it stops
    /// before the first draw at which the maze is already fully connected.
    pub open spec fn draw_count(self, draws: Seq<Draw>) -> nat {
        self.first_connected(draws, 0)
    }

    /// `draws` is a run of the random-walk generator of at most `limit`
    /// draws that leads to `after`: each draw names a cell of the grid, the
    /// maze was not fully connected before any of them, `after` is the maze
    /// once all of them are made, and the run ended because `after` is fully
    /// connected or the limit was reached.
    pub open spec fn walked_to(self, draws: Seq<Draw>, limit: nat, after: MazeModel) -> bool {
        &&& draws.len() <= limit
        &&& forall|i: int| 0 <= i < draws.len() ==> self.has_cell((#[trigger] draws[i].0, draws[i].1))
        &&& self.draw_count(draws) == draws.len()
        &&& after == self.with_draws(draws)
        &&& after.fully_connected() || draws.len() == limit
    }

    /// This maze has grown out of `before`: it has the same size, every wall
    /// that was open is open, and each wall opened since joins two adjacent
    /// cells of the grid.
    pub open spec fn grown_from(self, before: MazeModel) -> bool {
        &&& self.width == before.width
        &&& self.height == before.height
        &&& before.open.subset_of(self.open)
        &&& forall|w: Wall|
            self.open.contains(w) && !before.open.contains(w) ==> #[trigger] self.joins_cells(w)
    }
}

/// Opening one more wall of a list, after the first `i` of them.
pub proof fn lemma_with_walls_next(m: MazeModel, ws: Seq<Wall>, i: int)
    requires
        0 <= i < ws.len(),
    ensures
        m.with_walls(ws.take(i + 1)) == m.with_walls(ws.take(i)).with_wall(ws[i]),
{
    assert(ws.take(i + 1).drop_last() =~= ws.take(i));
    assert(ws.take(i + 1).last() == ws[i]);
}

/// Opening the walls of a list keeps the size and the validity of the maze,
/// and opens exactly the listed walls, from both sides, besides those that
/// were open.
pub proof fn lemma_with_walls(m: MazeModel, ws: Seq<Wall>)
    ensures
        m.with_walls(ws).width == m.width,
        m.with_walls(ws).height == m.height,
        m.valid() ==> m.with_walls(ws).valid(),
        forall|w: Wall| #[trigger]
            m.with_walls(ws).open.contains(w) <==> m.open.contains(w) || ws.contains(w)
                || ws.contains(mirror(w)),
    decreases ws.len(),
{
    if ws.len() > 0 {
        let front = ws.drop_last();
        let last = ws.last();
        lemma_with_walls(m, front);
        let before = m.with_walls(front);
        let after = before.with_wall(last);
        assert(after == m.with_walls(ws));
        assert forall|w: Wall|
            after.open.contains(w) <==> m.open.contains(w) || ws.contains(w) || ws.contains(
                mirror(w),
            ) by {
            assert(mirror(mirror(w)) == w);
            assert(mirror(mirror(last)) == last);
            assert(ws[ws.len() - 1] == last);
            assert(before.open.contains(w) <==> m.open.contains(w) || front.contains(w)
                || front.contains(mirror(w)));
            assert(after.open.contains(w) <==> before.open.contains(w) || w == last || w
                == mirror(last));
            if front.contains(w) {
                let i = choose|i: int| 0 <= i < front.len() && front[i] == w;
                assert(ws[i] == w);
            }
            if front.contains(mirror(w)) {
                let i = choose|i: int| 0 <= i < front.len() && front[i] == mirror(w);
                assert(ws[i] == mirror(w));
            }
            if ws.contains(w) && w != last {
                let i = choose|i: int| 0 <= i < ws.len() && ws[i] == w;
                assert(front[i] == w);
            }
            if ws.contains(mirror(w)) && mirror(w) != last {
                let i = choose|i: int| 0 <= i < ws.len() && ws[i] == mirror(w);
                assert(front[i] == mirror(w));
            }
        }
        if m.valid() {
            assert forall|w: Wall| after.open.contains(w) implies #[trigger] after.open.contains(
                mirror(w),
            ) by {
                assert(mirror(mirror(w)) == w);
                if before.open.contains(w) {
                    assert(before.open.contains(mirror(w)));
                }
            }
        }
    }
}

/// The walls open after the first `k` of a list are open after all of it.
pub proof fn lemma_with_walls_grows(m: MazeModel, ws: Seq<Wall>, k: int)
    requires
        0 <= k <= ws.len(),
    ensures
        m.open.subset_of(m.with_walls(ws.take(k)).open),
        m.with_walls(ws.take(k)).open.subset_of(m.with_walls(ws).open),
{
    lemma_with_walls(m, ws);
    lemma_with_walls(m, ws.take(k));
    let part = ws.take(k);
    assert forall|w: Wall| part.contains(w) implies ws.contains(w) by {
        let i = choose|i: int| 0 <= i < part.len() && part[i] == w;
        assert(ws[i] == w);
    }
    assert forall|w: Wall| m.with_walls(part).open.contains(w) implies m.with_walls(
        ws,
    ).open.contains(w) by {
        if part.contains(w) {
            assert(ws.contains(w));
        }
        if part.contains(mirror(w)) {
            assert(ws.contains(mirror(w)));
        }
    }
    assert forall|w: Wall| m.open.contains(w) implies m.with_walls(part).open.contains(w) by {}
}

/// What the number of walls that the ordered-edge generator opens is: the
/// first count at which the maze is solvable, or that of all walls.
pub proof fn lemma_first_solvable(m: MazeModel, ws: Seq<Wall>, from: nat)
    requires
        from <= ws.len(),
    ensures
        from <= m.first_solvable(ws, from) <= ws.len(),
        m.first_solvable(ws, from) < ws.len() ==> m.with_walls(
            ws.take(m.first_solvable(ws, from) as int),
        ).solvable(),
        forall|j: int|
            from <= j < m.first_solvable(ws, from) ==> !(#[trigger] m.with_walls(
                ws.take(j),
            )).solvable(),
    decreases ws.len() - from,
{
    if from >= ws.len() || m.with_walls(ws.take(from as int)).solvable() {
    } else {
        lemma_first_solvable(m, ws, from + 1);
    }
}

/// Where every wall of the grid is open, every cell is reachable.
pub proof fn lemma_all_open_reaches(m: MazeModel, c: Cell)
    requires
        m.width >= 1,
        m.height >= 1,
        m.all_open(),
        m.has_cell(c),
    ensures
        m.reachable(m.origin(), c),
    decreases c.0 + c.1,
{
    if c == m.origin() {
        assert(m.is_route(seq![m.origin()], m.origin(), m.origin()));
    } else if c.0 > 0 {
        let a: Cell = ((c.0 - 1) as u32, c.1);
        lemma_all_open_reaches(m, a);
        assert(m.open.contains(wall_between(a, c)));
        lemma_reach_step(m, m.origin(), a, c);
    } else {
        let a: Cell = (c.0, (c.1 - 1) as u32);
        lemma_all_open_reaches(m, a);
        assert(m.open.contains(wall_between(a, c)));
        lemma_reach_step(m, m.origin(), a, c);
    }
}

/// Once a list that offers every wall of the grid has been opened, the maze
/// is fully connected, and so solvable.
pub proof fn lemma_every_wall_connects(m: MazeModel, ws: Seq<Wall>)
    requires
        m.width >= 1,
        m.height >= 1,
        m.offers_every_wall(ws),
    ensures
        m.with_walls(ws).fully_connected(),
        m.with_walls(ws).solvable(),
{
    let r = m.with_walls(ws);
    lemma_with_walls(m, ws);
    assert forall|a: Cell, b: Cell|
        r.has_cell(a) && r.has_cell(b) && adjacent(a, b) implies r.open.contains(
            #[trigger] wall_between(a, b),
        ) by {
        assert(m.has_cell(a) && m.has_cell(b));
        let w = wall_between(a, b);
        assert(ws.contains(w) || ws.contains(wall_between(b, a)));
        assert(mirror(w) == wall_between(b, a));
        assert(r.open.contains(w) <==> m.open.contains(w) || ws.contains(w) || ws.contains(
            mirror(w),
        ));
    }
    assert forall|c: Cell| r.has_cell(c) implies r.reachable(r.origin(), c) by {
        lemma_all_open_reaches(r, c);
    }
    assert(r.has_cell(r.destination()));
}

/// Making one more draw of a list, after the first `i` of them.
pub proof fn lemma_with_draws_next(m: MazeModel, draws: Seq<Draw>, i: int)
    requires
        0 <= i < draws.len(),
    ensures
        m.with_draws(draws.take(i + 1)) == m.with_draws(draws.take(i)).with_draw(
            (draws[i].0, draws[i].1),
            draws[i].2,
        ),
{
    assert(draws.take(i + 1).drop_last() =~= draws.take(i));
    assert(draws.take(i + 1).last() == draws[i]);
}

/// What the number of draws that the random-walk generator makes is: the
/// first count at which the maze is fully connected, or that of all draws.
pub proof fn lemma_first_connected(m: MazeModel, draws: Seq<Draw>, from: nat)
    requires
        from <= draws.len(),
    ensures
        from <= m.first_connected(draws, from) <= draws.len(),
        m.first_connected(draws, from) < draws.len() ==> m.with_draws(
            draws.take(m.first_connected(draws, from) as int),
        ).fully_connected(),
        forall|j: int|
            from <= j < m.first_connected(draws, from) ==> !(#[trigger] m.with_draws(
                draws.take(j),
            )).fully_connected(),
    decreases draws.len() - from,
{
    if from >= draws.len() || m.with_draws(draws.take(from as int)).fully_connected() {
    } else {
        lemma_first_connected(m, draws, from + 1);
    }
}

/// Where the maze is fully connected after none of the first draws, the
/// generator makes all draws of the list.
pub proof fn lemma_draws_all_made(m: MazeModel, draws: Seq<Draw>, from: nat)
    requires
        from <= draws.len(),
        forall|j: int|
            from <= j < draws.len() ==> !(#[trigger] m.with_draws(draws.take(j))).fully_connected(),
    ensures
        m.first_connected(draws, from) == draws.len(),
    decreases draws.len() - from,
{
    if from < draws.len() {
        assert(!m.with_draws(draws.take(from as int)).fully_connected());
        lemma_draws_all_made(m, draws, from + 1);
    }
}

/// A draw lets the maze grow: it opens at most one wall, between adjacent
/// cells of the grid, and keeps a valid maze valid.
pub proof fn lemma_draw_grows(m: MazeModel, c: Cell, d: Direction)
    requires
        m.valid(),
    ensures
        m.with_draw(c, d).valid(),
        m.with_draw(c, d).grown_from(m),
{
    let r = m.with_draw(c, d);
    match m.closed_wall_toward(c, d) {
        Some(w) => {
            assert forall|v: Wall| r.open.contains(v) implies #[trigger] r.open.contains(
                mirror(v),
            ) by {
                assert(mirror(mirror(w)) == w);
                if m.open.contains(v) {
                    assert(m.open.contains(mirror(v)));
                }
            }
            assert forall|v: Wall| r.open.contains(v) && !m.open.contains(v) implies #[trigger] r.joins_cells(
                v,
            ) by {
                assert(v == w || v == mirror(w));
            }
        },
        None => {},
    }
}

} // verus!
