//! What holds of every maze, stated over the model and proved.

use vstd::prelude::*;
use crate::grid::{adjacent, mirror, wall_between, Cell, Wall};
use crate::model::{
    lemma_code_bounds, lemma_code_injective, lemma_route_end_in_grid, route_code, MazeModel,
};
use crate::search::lemma_route_is_path;

verus! {

/// Openness is symmetric: in a valid maze the wall from `a` to `b` is open
/// exactly when the wall from `b` to `a` is.
pub proof fn lemma_open_is_symmetric(m: MazeModel, a: Cell, b: Cell)
    requires
        m.valid(),
    ensures
        m.open.contains(wall_between(a, b)) == m.open.contains(wall_between(b, a)),
{
    assert(mirror(wall_between(a, b)) == wall_between(b, a));
    assert(mirror(wall_between(b, a)) == wall_between(a, b));
    if m.open.contains(wall_between(a, b)) {
        assert(m.open.contains(mirror(wall_between(a, b))));
    }
    if m.open.contains(wall_between(b, a)) {
        assert(m.open.contains(mirror(wall_between(b, a))));
    }
}

/// A wall that has been opened is open from both sides, and opening it
/// again changes nothing.
pub proof fn lemma_opened_both_sides(m: MazeModel, w: Wall)
    ensures
        m.with_wall(w).open.contains(w),
        m.with_wall(w).open.contains(mirror(w)),
        m.with_wall(w).with_wall(w) == m.with_wall(w),
        m.open.subset_of(m.with_wall(w).open),
{
    assert(m.with_wall(w).with_wall(w).open =~= m.with_wall(w).open);
}

/// In a valid maze a passage can be walked both ways.
pub proof fn lemma_passage_both_ways(m: MazeModel, a: Cell, b: Cell)
    requires
        m.valid(),
        m.passage(a, b),
    ensures
        m.passage(b, a),
{
    lemma_open_is_symmetric(m, a, b);
}

/// In a valid maze a route walked backwards is a route.
pub proof fn lemma_route_reversed(m: MazeModel, p: Seq<Cell>, from: Cell, to: Cell)
    requires
        m.valid(),
        m.is_route(p, from, to),
    ensures
        m.is_route(p.reverse(), to, from),
{
    let r = p.reverse();
    lemma_route_end_in_grid(m, p, from, to);
    assert forall|i: int| 0 <= i < r.len() - 1 implies m.passage(#[trigger] r[i], r[i + 1]) by {
        let j = p.len() - 2 - i;
        assert(r[i] == p[j + 1]);
        assert(r[i + 1] == p[j]);
        assert(m.passage(p[j], p[j + 1]));
        lemma_passage_both_ways(m, p[j], p[j + 1]);
    }
}

/// A route to a cell and a route on from it make a route.
pub proof fn lemma_routes_joined(
    m: MazeModel,
    p: Seq<Cell>,
    q: Seq<Cell>,
    from: Cell,
    via: Cell,
    to: Cell,
)
    requires
        m.is_route(p, from, via),
        m.is_route(q, via, to),
    ensures
        m.is_route(p + q.drop_first(), from, to),
{
    let r = p + q.drop_first();
    assert forall|i: int| 0 <= i < r.len() - 1 implies m.passage(#[trigger] r[i], r[i + 1]) by {
        if i < p.len() - 1 {
            assert(m.passage(p[i], p[i + 1]));
        } else {
            let j = i - (p.len() - 1);
            assert(m.passage(q[j], q[j + 1]));
            assert(r[i] == q[j]);
            assert(r[i + 1] == q[j + 1]);
        }
    }
    if q.len() == 1 {
        assert(r =~= p);
    } else {
        assert(r.last() == q.last());
    }
}

/// In a fully connected maze a route leads from every cell of the grid to
/// every other.
pub proof fn lemma_fully_connected_joins_all(m: MazeModel, a: Cell, b: Cell)
    requires
        m.valid(),
        m.fully_connected(),
        m.has_cell(a),
        m.has_cell(b),
    ensures
        m.reachable(a, b),
        exists|p: Seq<Cell>| m.is_route(p, a, b) && p.len() >= 1,
{
    let to_a = choose|p: Seq<Cell>| m.is_route(p, m.origin(), a);
    let to_b = choose|p: Seq<Cell>| m.is_route(p, m.origin(), b);
    lemma_route_reversed(m, to_a, m.origin(), a);
    lemma_routes_joined(m, to_a.reverse(), to_b, a, m.origin(), b);
    assert(m.is_route(to_a.reverse() + to_b.drop_first(), a, b));
}

/// What the preferred solution is, spelled out: it starts at the origin and
/// ends at the destination, each of its steps leads to an adjacent cell
/// through an open wall, and no solution is shorter.
pub proof fn lemma_preferred_is_shortest(m: MazeModel, p: Seq<Cell>)
    requires
        m.is_preferred_solution(p),
    ensures
        p.len() >= 1,
        p[0] == m.origin(),
        p.last() == m.destination(),
        forall|i: int|
            0 <= i < p.len() - 1 ==> adjacent(#[trigger] p[i], p[i + 1]) && m.open.contains(
                wall_between(p[i], p[i + 1]),
            ),
        forall|i: int| 0 <= i < p.len() ==> m.has_cell(#[trigger] p[i]),
        forall|q: Seq<Cell>| #[trigger] m.is_solution(q) ==> p.len() <= q.len(),
{
    assert forall|i: int| 0 <= i < p.len() - 1 implies adjacent(#[trigger] p[i], p[i + 1])
        && m.open.contains(wall_between(p[i], p[i + 1])) by {
        assert(m.passage(p[i], p[i + 1]));
    }
    assert forall|i: int| 0 <= i < p.len() implies m.has_cell(#[trigger] p[i]) by {
        if i > 0 {
            assert(m.passage(p[i - 1], p[i - 1 + 1]));
        }
    }
}

/// A maze has at most one preferred solution.
pub proof fn lemma_preferred_is_unique(m: MazeModel, p: Seq<Cell>, q: Seq<Cell>)
    requires
        m.is_preferred_solution(p),
        m.is_preferred_solution(q),
    ensures
        p == q,
{
    assert(m.is_solution(p) && m.is_solution(q));
    assert(route_code(p) <= route_code(q));
    assert(route_code(q) <= route_code(p));
    lemma_route_is_path(m, p);
    lemma_route_is_path(m, q);
    lemma_code_injective(p, q);
}

/// Asking twice gives the same answer: two sequences that both are what the
/// solver may return for one maze are equal.
pub proof fn lemma_same_answer(m: MazeModel, p: Seq<Cell>, q: Seq<Cell>)
    requires
        m.solvable() ==> m.is_preferred_solution(p) && m.is_preferred_solution(q),
        !m.solvable() ==> p.len() == 0 && q.len() == 0,
    ensures
        p == q,
{
    if m.solvable() {
        lemma_preferred_is_unique(m, p, q);
    } else {
        assert(p =~= q);
    }
}

/// A maze with more than one cell and no open wall is not solvable.
pub proof fn lemma_closed_is_unsolvable(width: u32, height: u32)
    requires
        width >= 1,
        height >= 1,
        width > 1 || height > 1,
    ensures
        !MazeModel::closed(width, height).solvable(),
{
    let m = MazeModel::closed(width, height);
    if m.solvable() {
        let p = choose|p: Seq<Cell>| m.is_route(p, m.origin(), m.destination());
        assert(m.passage(p[0int], p[0int + 1]));
    }
}

/// A maze of one cell is fully connected, and its only solution is that cell.
pub proof fn lemma_single_cell(m: MazeModel, p: Seq<Cell>)
    requires
        m.width == 1,
        m.height == 1,
    ensures
        m.fully_connected(),
        m.solvable(),
        m.is_preferred_solution(p) <==> p == seq![(0u32, 0u32)],
{
    let only: Seq<Cell> = seq![(0u32, 0u32)];
    assert(m.is_route(only, m.origin(), m.origin()));
    assert forall|c: Cell| m.has_cell(c) implies m.reachable(m.origin(), c) by {
        assert(c == m.origin());
    }
    assert(m.is_solution(only));
    assert(route_code(only) == 0);
    assert forall|q: Seq<Cell>| #[trigger] m.is_solution(q) implies only.len() <= q.len()
        && route_code(only) <= route_code(q) by {
        lemma_route_is_path(m, q);
        lemma_code_bounds(q);
    }
    assert(m.is_preferred_solution(only));
    if m.is_preferred_solution(p) {
        lemma_preferred_is_unique(m, p, only);
    }
}

} // verus!
