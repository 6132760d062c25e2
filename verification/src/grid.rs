//! Grids of cell symbols: where a coordinate lies, what it holds, where the
//! mover stands.

use vstd::prelude::*;
use crate::geometry::precedes;

verus! {


/// The symbol of a wall cell.
pub const WALL: char = '#';

/// The symbol of an empty floor cell.
pub const FLOOR: char = '.';

/// The symbol of an empty floor cell that is a target.
pub const TARGET: char = '*';

/// The symbol of a cell that holds a box.
pub const BOX: char = 'X';

/// The symbol of the cell that holds the mover.
pub const MOVER: char = '@';

/// The number of columns of a grid: the length of its first row.
pub open spec fn width(g: Seq<Seq<char>>) -> int {
    if g.len() == 0 {
        0
    } else {
        g[0].len() as int
    }
}

/// Every row is as long as the first, and both dimensions fit a coordinate.
pub open spec fn well_formed(g: Seq<Seq<char>>) -> bool {
    &&& g.len() <= i16::MAX
    &&& width(g) <= i16::MAX
    &&& forall|r: int| 0 <= r < g.len() ==> (#[trigger] g[r]).len() == width(g)
}

/// The coordinate lies on the grid.
pub open spec fn in_grid(g: Seq<Seq<char>>, p: (int, int)) -> bool {
    0 <= p.0 < g.len() && 0 <= p.1 < width(g)
}

/// The symbol stored at a coordinate.
pub open spec fn at(g: Seq<Seq<char>>, p: (int, int)) -> char {
    g[p.0][p.1]
}

/// The coordinate lies on the grid and its cell is not a wall.
pub open spec fn passable(g: Seq<Seq<char>>, p: (int, int)) -> bool {
    in_grid(g, p) && at(g, p) != WALL
}

/// The coordinate lies on the grid and its cell holds a box.
pub open spec fn holds_box(g: Seq<Seq<char>>, p: (int, int)) -> bool {
    in_grid(g, p) && at(g, p) == BOX
}

/// The coordinate lies on the grid and its cell holds the mover.
pub open spec fn holds_mover(g: Seq<Seq<char>>, p: (int, int)) -> bool {
    in_grid(g, p) && at(g, p) == MOVER
}

/// The coordinate lies on the grid and its cell shows an empty target.
pub open spec fn holds_target(g: Seq<Seq<char>>, p: (int, int)) -> bool {
    in_grid(g, p) && at(g, p) == TARGET
}

/// `p` holds a mover and no mover cell comes after it in row-major order.
pub open spec fn is_last_mover(g: Seq<Seq<char>>, p: (int, int)) -> bool {
    &&& holds_mover(g, p)
    &&& forall|r: int, c: int| #[trigger] holds_mover(g, (r, c)) ==> !precedes(p, (r, c))
}

/// Where the mover stands: the last mover cell in row-major order, and the
/// origin where there is none.
pub open spec fn mover_position(g: Seq<Seq<char>>) -> (int, int) {
    if exists|r: int, c: int| is_last_mover(g, (r, c)) {
        let (r, c) = choose|r: int, c: int| is_last_mover(g, (r, c));
        (r, c)
    } else {
        (0, 0)
    }
}

/// `boxes` lists the box cells of the grid, each once, in row-major order.
pub open spec fn lists_boxes(g: Seq<Seq<char>>, boxes: Seq<(int, int)>) -> bool {
    &&& forall|k: int| 0 <= k < boxes.len() ==> holds_box(g, #[trigger] boxes[k])
    &&& forall|r: int, c: int| #[trigger] holds_box(g, (r, c)) ==> boxes.contains((r, c))
    &&& forall|a: int, b: int|
        0 <= a < b < boxes.len() ==> precedes(#[trigger] boxes[a], #[trigger] boxes[b])
}

/// `targets` lists the cells of the grid that show an empty target, each
/// once, in row-major order.
pub open spec fn lists_targets(g: Seq<Seq<char>>, targets: Seq<(int, int)>) -> bool {
    &&& forall|k: int| 0 <= k < targets.len() ==> holds_target(g, #[trigger] targets[k])
    &&& forall|r: int, c: int| #[trigger] holds_target(g, (r, c)) ==> targets.contains((r, c))
    &&& forall|a: int, b: int|
        0 <= a < b < targets.len() ==> precedes(#[trigger] targets[a], #[trigger] targets[b])
}

/// The grid with the cell at `p` replaced by `symbol`.
pub open spec fn put(g: Seq<Seq<char>>, p: (int, int), symbol: char) -> Seq<Seq<char>> {
    g.update(p.0, g[p.0].update(p.1, symbol))
}

/// A last mover cell is the mover's position.
pub proof fn lemma_last_mover_is_position(g: Seq<Seq<char>>, p: (int, int))
    requires
        is_last_mover(g, p),
    ensures
        mover_position(g) == p,
{
}

/// The mover's position is a mover cell, or the origin.
pub proof fn lemma_mover_position_kind(g: Seq<Seq<char>>)
    ensures
        holds_mover(g, mover_position(g)) || mover_position(g) == (0int, 0int),
{
}

/// A grid without a mover cell places the mover at the origin.
pub proof fn lemma_no_mover_is_origin(g: Seq<Seq<char>>)
    requires
        forall|r: int, c: int| !holds_mover(g, (r, c)),
    ensures
        mover_position(g) == (0int, 0int),
{
}

/// Writing a symbol into a cell of a well-formed grid keeps it well formed,
/// and changes that cell alone.
pub proof fn lemma_put(g: Seq<Seq<char>>, p: (int, int), symbol: char)
    requires
        well_formed(g),
        in_grid(g, p),
    ensures
        well_formed(put(g, p, symbol)),
        put(g, p, symbol).len() == g.len(),
        width(put(g, p, symbol)) == width(g),
        at(put(g, p, symbol), p) == symbol,
        forall|r: int, c: int|
            in_grid(g, (r, c)) && (r, c) != p ==> #[trigger] at(put(g, p, symbol), (r, c)) == at(
                g,
                (r, c),
            ),
{
}

} // verus!
