//! The two generators: opening the walls of a shuffled list until the maze
//! is solvable, and opening walls drawn at random until it is fully
//! connected.

use rand::rngs::ThreadRng;
use rand::seq::SliceRandom;
use rand::Rng;
use vstd::prelude::*;
use crate::grid::{adjacent, mirror, turn, wall_between, Cell, Direction, Draw, Wall};
use crate::maze::Maze;
use crate::model::{
    lemma_draw_grows, lemma_draws_all_made, lemma_every_wall_connects, lemma_first_connected,
    lemma_first_solvable, lemma_with_draws_next, lemma_with_walls, lemma_with_walls_grows,
    lemma_with_walls_next, MazeModel,
};

verus! {

/// The generator that `rand` keeps for each thread. Nothing is known of its
/// state.
#[verifier::external_type_specification]
#[verifier::external_body]
pub struct ExThreadRng(ThreadRng);

/// `rand::thread_rng` hands out the calling thread's generator. Nothing is
/// claimed of it.
pub assume_specification[ rand::thread_rng ]() -> (rng: ThreadRng)
;

/// `rand::seq::SliceRandom::shuffle` reorders the list in place by swapping
/// elements: whatever order results, the list holds the same walls, each as
/// often as before.
#[verifier::external_body]
fn shuffle_walls(walls: &mut Vec<Wall>, rng: &mut ThreadRng)
    ensures
        final(walls)@.to_multiset() == old(walls)@.to_multiset(),
{
    walls.shuffle(rng);
}

/// `rand::Rng::gen_range` on the range from 0 up to, not including, `bound`
/// returns some number of that range. It panics on an empty range, so the
/// bound is positive.
#[verifier::external_body]
fn random_below(rng: &mut ThreadRng, bound: u32) -> (r: u32)
    requires
        bound > 0,
    ensures
        r < bound,
{
    rng.gen_range(0..bound)
}

/// A wall of the grid as the candidate list holds it: between two cells of
/// the grid, from a cell to its eastern or southern neighbour.
pub open spec fn is_grid_wall(width: u32, height: u32, w: Wall) -> bool {
    &&& w.0 < width
    &&& w.2 < width
    &&& w.1 < height
    &&& w.3 < height
    &&& (turn((w.0, w.1), (w.2, w.3)) == 2 || turn((w.0, w.1), (w.2, w.3)) == 4)
}

/// `ws` lists every wall of the grid once.
pub open spec fn lists_grid_walls(width: u32, height: u32, ws: Seq<Wall>) -> bool {
    &&& ws.no_duplicates()
    &&& forall|w: Wall| ws.contains(w) <==> is_grid_wall(width, height, w)
}

/// `v` comes before `w` in the candidate list: its first cell lies further
/// west, or in the same column further north, or both walls start at one
/// cell and `v` is the one to the east.
pub open spec fn wall_precedes(v: Wall, w: Wall) -> bool {
    v.0 < w.0 || (v.0 == w.0 && (v.1 < w.1 || (v.1 == w.1 && v.3 < w.3)))
}

/// The walls of `ws` stand in the order of the candidate list.
pub open spec fn in_grid_order(ws: Seq<Wall>) -> bool {
    forall|i: int, j: int| 0 <= i < j < ws.len() ==> wall_precedes(ws[i], ws[j])
}

/// An ordered list with one more wall behind all of its walls is ordered.
proof fn lemma_push_ordered(ws: Seq<Wall>, w: Wall)
    requires
        in_grid_order(ws),
        forall|v: Wall| ws.contains(v) ==> wall_precedes(v, w),
    ensures
        in_grid_order(ws.push(w)),
        !ws.contains(w),
{
    let after = ws.push(w);
    assert forall|i: int, j: int| 0 <= i < j < after.len() implies wall_precedes(
        after[i],
        after[j],
    ) by {
        if j == ws.len() {
            assert(ws.contains(ws[i]));
        }
    }
}

/// A list of walls with one more wall that it did not hold.
proof fn lemma_push_new(ws: Seq<Wall>, w: Wall)
    requires
        ws.no_duplicates(),
        !ws.contains(w),
    ensures
        ws.push(w).no_duplicates(),
        forall|v: Wall| ws.push(w).contains(v) <==> ws.contains(v) || v == w,
{
    let after = ws.push(w);
    assert forall|v: Wall| after.contains(v) <==> ws.contains(v) || v == w by {
        if ws.contains(v) {
            let i = choose|i: int| 0 <= i < ws.len() && ws[i] == v;
            assert(after[i] == v);
        }
        if v == w {
            assert(after[ws.len() as int] == v);
        }
    }
    assert forall|i: int, j: int| 0 <= i < after.len() && 0 <= j < after.len() && i != j implies after[i]
        != after[j] by {
        if i < ws.len() && j < ws.len() {
        } else if i < ws.len() {
            assert(ws.contains(ws[i]));
        } else {
            assert(ws.contains(ws[j]));
        }
    }
}

/// A list in another order lists the walls of the grid as well.
proof fn lemma_reordered(width: u32, height: u32, before: Seq<Wall>, after: Seq<Wall>)
    requires
        lists_grid_walls(width, height, before),
        after.to_multiset() == before.to_multiset(),
    ensures
        lists_grid_walls(width, height, after),
{
    before.to_multiset_ensures();
    after.to_multiset_ensures();
    before.lemma_multiset_has_no_duplicates();
    after.lemma_multiset_has_no_duplicates_conv();
    assert forall|w: Wall| after.contains(w) <==> is_grid_wall(width, height, w) by {
        assert(after.to_multiset().count(w) == before.to_multiset().count(w));
        assert(before.contains(w) <==> before.to_multiset().count(w) > 0);
        assert(after.contains(w) <==> after.to_multiset().count(w) > 0);
    }
}

/// A list of all walls of the grid offers the wall between any two adjacent
/// cells.
pub proof fn lemma_grid_walls_offer_all(m: MazeModel, ws: Seq<Wall>)
    requires
        lists_grid_walls(m.width, m.height, ws),
    ensures
        m.offers_every_wall(ws),
{
    assert forall|a: Cell, b: Cell|
        m.has_cell(a) && m.has_cell(b) && adjacent(a, b) implies ws.contains(
            #[trigger] wall_between(a, b),
        ) || ws.contains(wall_between(b, a)) by {
        let w = wall_between(a, b);
        assert(is_grid_wall(m.width, m.height, w) || is_grid_wall(m.width, m.height, mirror(w)));
    }
}

/// Every wall of the grid, once, each from its smaller cell: column by
/// column from the west, in each column from the north, and of the two walls
/// that start at one cell the eastern before the southern.
pub fn candidate_walls(width: u32, height: u32) -> (walls: Vec<Wall>)
    ensures
        lists_grid_walls(width, height, walls@),
        in_grid_order(walls@),
{
    let mut walls: Vec<Wall> = Vec::new();
    let mut x: u32 = 0;
    while x < width
        invariant
            x <= width,
            walls@.no_duplicates(),
            in_grid_order(walls@),
            forall|w: Wall| walls@.contains(w) <==> is_grid_wall(width, height, w) && w.0 < x,
        decreases width - x,
    {
        let mut y: u32 = 0;
        while y < height
            invariant
                x < width,
                y <= height,
                walls@.no_duplicates(),
                in_grid_order(walls@),
                forall|w: Wall|
                    walls@.contains(w) <==> is_grid_wall(width, height, w) && (w.0 < x || (w.0 == x
                        && w.1 < y)),
            decreases height - y,
        {
            let ghost before = walls@;
            let east: bool = x < width - 1;
            if east {
                let w = Maze::sort_wall(x, y, x + 1, y);
                proof {
                    lemma_push_ordered(before, w);
                    lemma_push_new(before, w);
                }
                walls.push(w);
            }
            let ghost between = walls@;
            proof {
                assert forall|v: Wall|
                    between.contains(v) <==> before.contains(v) || (east && v == (
                        x,
                        y,
                        (x + 1) as u32,
                        y,
                    )) by {}
            }
            let south: bool = y < height - 1;
            if south {
                let w = Maze::sort_wall(x, y, x, y + 1);
                proof {
                    lemma_push_ordered(between, w);
                    lemma_push_new(between, w);
                }
                walls.push(w);
            }
            proof {
                assert forall|v: Wall|
                    walls@.contains(v) <==> between.contains(v) || (south && v == (
                        x,
                        y,
                        x,
                        (y + 1) as u32,
                    )) by {}
            }
            y += 1;
        }
        x += 1;
    }
    walls
}

impl Maze {
    /// The ordered-edge generator: opens the walls of the list in turn and
    /// stops before the first at which the destination can already be
    /// reached from the origin.
    pub fn gen(&mut self, walls: Vec<Wall>)
        requires
            old(self).wf(),
        ensures
            final(self).wf(),
            final(self)@ == old(self)@.with_walls(
                walls@.take(old(self)@.carve_count(walls@) as int),
            ),
            old(self)@.carve_count(walls@) <= walls@.len(),
            final(self)@.solvable() || old(self)@.carve_count(walls@) == walls@.len(),
            old(self)@.offers_every_wall(walls@) ==> final(self)@.solvable(),
            old(self)@.open.subset_of(final(self)@.open),
            final(self)@.open.subset_of(old(self)@.with_walls(walls@).open),
            final(self)@.open.len() <= old(self)@.with_walls(walls@).open.len(),
    {
        let ghost start = self@;
        let mut i: usize = 0;
        proof {
            assert(walls@.take(0) =~= Seq::<Wall>::empty());
        }
        while i < walls.len() && !self.is_dest_reachable()
            invariant
                i <= walls@.len(),
                self.wf(),
                self@ == start.with_walls(walls@.take(i as int)),
                start.first_solvable(walls@, 0) == start.first_solvable(walls@, i as nat),
            decreases walls@.len() - i,
        {
            let w: Wall = walls[i];
            self.open_wall(w.0, w.1, w.2, w.3);
            proof {
                lemma_with_walls_next(start, walls@, i as int);
            }
            i += 1;
        }
        proof {
            lemma_first_solvable(start, walls@, 0);
            assert(start.carve_count(walls@) == i);
            lemma_with_walls_grows(start, walls@, i as int);
            lemma_with_walls(start, walls@);
            vstd::set_lib::lemma_len_subset(self@.open, start.with_walls(walls@).open);
            if start.offers_every_wall(walls@) && i == walls@.len() {
                assert(walls@.take(i as int) =~= walls@);
                lemma_every_wall_connects(start, walls@);
            }
        }
    }

    /// A maze of the given size, made by the ordered-edge generator from the
    /// walls of the grid in a random order: it is solvable.
    pub fn new(width: u32, height: u32) -> (maze: Maze)
        requires
            width >= 1,
            height >= 1,
        ensures
            maze.wf(),
            maze@.width == width,
            maze@.height == height,
            maze@.solvable(),
            exists|ws: Seq<Wall>|
                lists_grid_walls(width, height, ws) && maze@ == #[trigger] MazeModel::closed(
                    width,
                    height,
                ).with_walls(ws.take(MazeModel::closed(width, height).carve_count(ws) as int)),
    {
        let mut maze = Maze::closed(width, height);
        let mut rng = rand::thread_rng();
        let mut walls = candidate_walls(width, height);
        let ghost listed = walls@;
        shuffle_walls(&mut walls, &mut rng);
        let ghost ws = walls@;
        proof {
            lemma_reordered(width, height, listed, ws);
            lemma_grid_walls_offer_all(maze@, ws);
        }
        maze.gen(walls);
        proof {
            lemma_with_walls(MazeModel::closed(width, height), ws.take(
                MazeModel::closed(width, height).carve_count(ws) as int,
            ));
        }
        maze
    }

    /// One draw of the random-walk generator: opens the wall from `(x, y)`
    /// towards `d` where that cell lies in the grid, has a neighbour there
    /// and the wall is closed, and says whether it did.
    pub fn open_toward(&mut self, x: u32, y: u32, d: Direction) -> (opened: bool)
        requires
            old(self).wf(),
        ensures
            final(self).wf(),
            opened == old(self)@.closed_wall_toward((x, y), d).is_some(),
            final(self)@ == old(self)@.with_draw((x, y), d),
            final(self)@.grown_from(old(self)@),
    {
        proof {
            lemma_draw_grows(self@, (x, y), d);
        }
        if x >= self.width() || y >= self.height() {
            return false;
        }
        match self.neighbor(x, y, d) {
            Some(n) => {
                if self.is_wall_open(x, y, n.0, n.1) {
                    false
                } else {
                    self.open_wall(x, y, n.0, n.1);
                    true
                }
            },
            None => false,
        }
    }

    /// The random-walk generator on given draws: makes the draws of the list
    /// in turn and stops before the first at which every cell can already be
    /// reached from the origin. Says whether the maze is fully connected at
    /// the end.
    pub fn gen_with_draws(&mut self, draws: Vec<Draw>) -> (connected: bool)
        requires
            old(self).wf(),
        ensures
            final(self).wf(),
            final(self)@ == old(self)@.with_draws(
                draws@.take(old(self)@.draw_count(draws@) as int),
            ),
            old(self)@.draw_count(draws@) <= draws@.len(),
            connected == final(self)@.fully_connected(),
            connected || old(self)@.draw_count(draws@) == draws@.len(),
            final(self)@.grown_from(old(self)@),
    {
        let ghost start = self@;
        let mut i: usize = 0;
        let mut connected = self.is_fully_connected();
        proof {
            assert(draws@.take(0) =~= Seq::<Draw>::empty());
        }
        while i < draws.len() && !connected
            invariant
                i <= draws@.len(),
                self.wf(),
                self@ == start.with_draws(draws@.take(i as int)),
                connected == self@.fully_connected(),
                start.first_connected(draws@, 0) == start.first_connected(draws@, i as nat),
                self@.grown_from(start),
            decreases draws@.len() - i,
        {
            let d: Draw = draws[i];
            let ghost before = self@;
            let opened = self.open_toward(d.0, d.1, d.2);
            if opened {
                connected = self.is_fully_connected();
            }
            proof {
                lemma_with_draws_next(start, draws@, i as int);
                lemma_grown_on(start, before, self@);
            }
            i += 1;
        }
        proof {
            lemma_first_connected(start, draws@, 0);
            assert(start.draw_count(draws@) == i);
        }
        connected
    }

    /// The random-walk generator: draws a cell and a direction at random and
    /// opens the wall there if it can, until every cell can be reached from
    /// the origin or `max_draws` draws have been made. Says whether the maze
    /// is fully connected at the end.
    pub fn gen_random_walk(&mut self, max_draws: u64) -> (connected: bool)
        requires
            old(self).wf(),
        ensures
            final(self).wf(),
            connected == final(self)@.fully_connected(),
            exists|draws: Seq<Draw>| #[trigger]
                old(self)@.walked_to(draws, max_draws as nat, final(self)@),
            final(self)@.grown_from(old(self)@),
            old(self)@.fully_connected() || max_draws == 0 ==> final(self)@ == old(self)@,
    {
        let ghost start = self@;
        let ghost mut drawn: Seq<Draw> = Seq::empty();
        let mut rng = rand::thread_rng();
        let mut left: u64 = max_draws;
        let mut connected = self.is_fully_connected();
        while !connected && left > 0
            invariant
                self.wf(),
                start == old(self)@,
                connected == self@.fully_connected(),
                self@.grown_from(start),
                start.fully_connected() || max_draws == 0 ==> self@ == start,
                left <= max_draws,
                drawn.len() == max_draws - left,
                self@ == start.with_draws(drawn),
                forall|i: int| 0 <= i < drawn.len() ==> start.has_cell((#[trigger] drawn[i].0, drawn[i].1)),
                forall|j: int|
                    0 <= j < drawn.len() ==> !(#[trigger] start.with_draws(
                        drawn.take(j),
                    )).fully_connected(),
            decreases left,
        {
            let ghost budget = left;
            let mut opened = false;
            while !opened && left > 0
                invariant
                    self.wf(),
                    start == old(self)@,
                    self@.grown_from(start),
                    !start.fully_connected() && max_draws > 0,
                    left <= budget,
                    budget <= max_draws,
                    left == budget ==> !opened,
                    !opened ==> !self@.fully_connected(),
                    drawn.len() == max_draws - left,
                    self@ == start.with_draws(drawn),
                    forall|i: int|
                        0 <= i < drawn.len() ==> start.has_cell((#[trigger] drawn[i].0, drawn[i].1)),
                    forall|j: int|
                        0 <= j < drawn.len() ==> !(#[trigger] start.with_draws(
                            drawn.take(j),
                        )).fully_connected(),
                decreases left,
            {
                left -= 1;
                let x: u32 = random_below(&mut rng, self.width());
                let y: u32 = random_below(&mut rng, self.height());
                let side: u32 = random_below(&mut rng, 4);
                let d = Direction::from_index(side);
                let ghost before = self@;
                let ghost so_far = drawn;
                opened = self.open_toward(x, y, d);
                proof {
                    drawn = so_far.push((x, y, d));
                    assert(drawn.drop_last() =~= so_far);
                    assert(drawn.take(so_far.len() as int) =~= so_far);
                    assert forall|j: int| 0 <= j < drawn.len() implies !(#[trigger] start.with_draws(
                        drawn.take(j),
                    )).fully_connected() by {
                        if j < so_far.len() {
                            assert(drawn.take(j) =~= so_far.take(j));
                        }
                    }
                    lemma_grown_on(start, before, self@);
                }
            }
            connected = self.is_fully_connected();
        }
        proof {
            lemma_draws_all_made(start, drawn, 0);
            assert(start.walked_to(drawn, max_draws as nat, self@));
        }
        connected
    }
}

/// A maze that has grown out of one that has grown out of a third has grown
/// out of the third.
pub proof fn lemma_grown_on(first: MazeModel, second: MazeModel, third: MazeModel)
    requires
        second.grown_from(first),
        third.grown_from(second),
    ensures
        third.grown_from(first),
{
    assert forall|w: Wall| third.open.contains(w) && !first.open.contains(w) implies #[trigger] third.joins_cells(
        w,
    ) by {
        if second.open.contains(w) {
            assert(second.joins_cells(w));
        }
    }
}

} // verus!
