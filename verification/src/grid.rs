//! Cells, walls and directions of a rectangular grid, and the integer keys
//! under which cells and walls are stored in hash collections.

use vstd::prelude::*;

verus! {

/// A grid position `(x, y)`: `x` grows to the east, `y` to the south.
pub type Cell = (u32, u32);

/// An ordered pair of cells `(x1, y1, x2, y2)`.
pub type Wall = (u32, u32, u32, u32);

/// The four axis directions, in the order in which neighbours are tried.
#[derive(Clone, Copy, Debug, PartialEq, Eq, Structural)]
pub enum Direction {
    West,
    East,
    North,
    South,
}

/// One draw of the random-walk generator: a cell `(x, y)` and a direction.
pub type Draw = (u32, u32, Direction);

/// The wall that leads from `a` to `b`.
pub open spec fn wall_between(a: Cell, b: Cell) -> Wall {
    (a.0, a.1, b.0, b.1)
}

/// The same wall seen from its other side.
pub open spec fn mirror(w: Wall) -> Wall {
    (w.2, w.3, w.0, w.1)
}

/// The direction of the single step from `a` to `b`, numbered 1 (west),
/// 2 (east), 3 (north), 4 (south); 0 where `b` is no axis neighbour of `a`.
pub open spec fn turn(a: Cell, b: Cell) -> int {
    if a.1 == b.1 && b.0 + 1 == a.0 {
        1
    } else if a.1 == b.1 && a.0 + 1 == b.0 {
        2
    } else if a.0 == b.0 && b.1 + 1 == a.1 {
        3
    } else if a.0 == b.0 && a.1 + 1 == b.1 {
        4
    } else {
        0
    }
}

/// Two cells are adjacent when one axis step leads from one to the other.
pub open spec fn adjacent(a: Cell, b: Cell) -> bool {
    turn(a, b) != 0
}

impl Direction {
    /// The number of this direction as `turn` counts it.
    pub open spec fn rank(self) -> int {
        match self {
            Direction::West => 1,
            Direction::East => 2,
            Direction::North => 3,
            Direction::South => 4,
        }
    }

    /// The direction with the given zero-based index in trial order; indices
    /// wrap around modulo four.
    pub fn from_index(i: u32) -> (d: Direction)
        ensures
            d.rank() == (i as int) % 4 + 1,
    {
        let r: u32 = i % 4;
        if r == 0 {
            Direction::West
        } else if r == 1 {
            Direction::East
        } else if r == 2 {
            Direction::North
        } else {
            Direction::South
        }
    }
}

/// The key of a cell: `x * 2^32 + y`.
pub open spec fn cell_key(c: Cell) -> u64 {
    (c.0 as int * 0x1_0000_0000 + c.1 as int) as u64
}

/// The cell that a key stands for.
pub open spec fn key_cell(k: u64) -> Cell {
    ((k as int / 0x1_0000_0000) as u32, (k as int % 0x1_0000_0000) as u32)
}

/// The key of a wall: the key of its first cell times `2^64`, plus the key of
/// its second cell.
pub open spec fn wall_key(w: Wall) -> u128 {
    (cell_key((w.0, w.1)) as int * 0x1_0000_0000_0000_0000 + cell_key((w.2, w.3)) as int) as u128
}

/// Every cell is found again from its key.
pub broadcast proof fn lemma_cell_key_inverse(c: Cell)
    ensures
        key_cell(#[trigger] cell_key(c)) == c,
{
}

/// Every key is the key of its cell.
pub broadcast proof fn lemma_key_cell_inverse(k: u64)
    ensures
        cell_key(#[trigger] key_cell(k)) == k,
{
}

/// Distinct cells have distinct keys.
pub proof fn lemma_cell_key_injective(a: Cell, b: Cell)
    ensures
        cell_key(a) == cell_key(b) <==> a == b,
{
    lemma_cell_key_inverse(a);
    lemma_cell_key_inverse(b);
}

/// Distinct walls have distinct keys.
pub proof fn lemma_wall_key_injective(v: Wall, w: Wall)
    ensures
        wall_key(v) == wall_key(w) <==> v == w,
{
    lemma_cell_key_injective((v.0, v.1), (w.0, w.1));
    lemma_cell_key_injective((v.2, v.3), (w.2, w.3));
}

/// Computes the key of the cell `(x, y)`.
pub fn key_of_cell(x: u32, y: u32) -> (k: u64)
    ensures
        k == cell_key((x, y)),
{
    (x as u64) * 0x1_0000_0000u64 + (y as u64)
}

/// Computes the key of the wall `(x1, y1, x2, y2)`.
pub fn key_of_wall(x1: u32, y1: u32, x2: u32, y2: u32) -> (k: u128)
    ensures
        k == wall_key((x1, y1, x2, y2)),
{
    let a: u64 = key_of_cell(x1, y1);
    let b: u64 = key_of_cell(x2, y2);
    (a as u128) * 0x1_0000_0000_0000_0000u128 + (b as u128)
}

/// The keys of the first `below` cells of row `y`, counted from the west: those
/// with `x < below`.
pub open spec fn row_keys(below: nat, y: nat) -> Set<u64> {
    Set::new(|k: u64| key_cell(k).0 < below && key_cell(k).1 == y)
}

/// The keys of the cells of a grid `width` wide and `height` high.
pub open spec fn grid_keys(width: nat, height: nat) -> Set<u64> {
    Set::new(|k: u64| key_cell(k).0 < width && key_cell(k).1 < height)
}

/// A row of `below` cells has `below` keys.
pub proof fn lemma_row_keys_len(below: nat, y: nat)
    requires
        below <= 0x1_0000_0000,
        y < 0x1_0000_0000,
    ensures
        row_keys(below, y).finite(),
        row_keys(below, y).len() == below,
    decreases below,
{
    if below == 0 {
        assert(row_keys(below, y) =~= Set::<u64>::empty());
    } else {
        let n = (below - 1) as nat;
        lemma_row_keys_len(n, y);
        let c: Cell = (n as u32, y as u32);
        lemma_cell_key_inverse(c);
        assert forall|k: u64| row_keys(below, y).contains(k) == row_keys(n, y).insert(
            cell_key(c),
        ).contains(k) by {
            lemma_key_cell_inverse(k);
        }
        assert(row_keys(below, y) =~= row_keys(n, y).insert(cell_key(c)));
    }
}

/// A grid has as many keys as cells: its width times its height.
pub proof fn lemma_grid_keys_len(width: nat, height: nat)
    requires
        width <= 0x1_0000_0000,
        height <= 0x1_0000_0000,
    ensures
        grid_keys(width, height).finite(),
        grid_keys(width, height).len() == width * height,
    decreases height,
{
    if height == 0 {
        assert(grid_keys(width, height) =~= Set::<u64>::empty());
        assert(width * height == 0) by (nonlinear_arith)
            requires
                height == 0,
        ;
    } else {
        let h = (height - 1) as nat;
        lemma_grid_keys_len(width, h);
        lemma_row_keys_len(width, h);
        let above = grid_keys(width, h);
        let row = row_keys(width, h);
        assert(grid_keys(width, height) =~= above + row);
        assert(above.disjoint(row));
        vstd::set_lib::lemma_set_disjoint_lens(above, row);
        assert(width * height == width * h + width) by (nonlinear_arith)
            requires
                height == h + 1,
        ;
    }
}

} // verus!
