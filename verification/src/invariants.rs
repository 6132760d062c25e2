//! What every step of the mover keeps: the shape of the grid, the targets,
//! the single mover, and, where no box is pushed onto another, the number of
//! boxes.

use vstd::prelude::*;
use vstd::arithmetic::div_mod::lemma_fundamental_div_mod_converse;
use vstd::set_lib::{lemma_int_range, lemma_set_subset_finite, set_int_range};
use crate::geometry::{plus, Direction};
use crate::grid::{
    at, holds_box, holds_mover, in_grid, lemma_last_mover_is_position,
    lemma_mover_position_kind, lemma_put, mover_position, put, well_formed, width, BOX, FLOOR,
    MOVER, TARGET,
};
use crate::rules::{lemma_successors_are_moves, BoardView};

verus! {

/// The symbol that the cell at `p` shows after a step in direction `d`: the
/// mover in the cell ahead, the target or the floor in the cell it left, the
/// pushed box in the cell beyond, and what was there in every other cell.
pub open spec fn symbol_after(v: BoardView, d: Direction, p: (int, int)) -> char {
    let pos = mover_position(v.grid);
    let ahead = plus(pos, d.offset());
    let beyond = plus(ahead, d.offset());
    if p == ahead {
        MOVER
    } else if p == pos {
        if v.targets.contains(pos) {
            TARGET
        } else {
            FLOOR
        }
    } else if at(v.grid, ahead) == BOX && p == beyond {
        BOX
    } else {
        at(v.grid, p)
    }
}

/// A step keeps the targets and the shape of the grid, and changes at most
/// three cells: the one the mover leaves, the one it takes, and the one a
/// pushed box takes.
pub proof fn lemma_moved_keeps_shape(v: BoardView, d: Direction)
    requires
        well_formed(v.grid),
        v.moved(d) is Some,
    ensures
        v.moved(d)->0.targets == v.targets,
        well_formed(v.moved(d)->0.grid),
        v.moved(d)->0.grid.len() == v.grid.len(),
        width(v.moved(d)->0.grid) == width(v.grid),
        forall|r: int, c: int|
            in_grid(v.grid, (r, c)) ==> #[trigger] at(v.moved(d)->0.grid, (r, c)) == symbol_after(
                v,
                d,
                (r, c),
            ),
{
    let pos = mover_position(v.grid);
    let ahead = plus(pos, d.offset());
    let beyond = plus(ahead, d.offset());
    lemma_mover_position_kind(v.grid);
    let pushed = if at(v.grid, ahead) == BOX {
        put(v.grid, beyond, BOX)
    } else {
        v.grid
    };
    if at(v.grid, ahead) == BOX {
        lemma_put(v.grid, beyond, BOX);
    }
    let mark = if v.targets.contains(pos) {
        TARGET
    } else {
        FLOOR
    };
    lemma_put(pushed, pos, mark);
    lemma_put(put(pushed, pos, mark), ahead, MOVER);
}

/// Every successor of a well-formed board is well formed, with the same
/// targets and the same shape.
pub proof fn lemma_successors_keep_shape(v: BoardView, k: int)
    requires
        well_formed(v.grid),
        0 <= k < v.successors().len(),
    ensures
        v.successors()[k].targets == v.targets,
        well_formed(v.successors()[k].grid),
        v.successors()[k].grid.len() == v.grid.len(),
        width(v.successors()[k].grid) == width(v.grid),
{
    let s = v.successors()[k];
    lemma_successors_are_moves(v, s);
    let d = choose|d: Direction| v.moved(d) == Some(s);
    lemma_moved_keeps_shape(v, d);
}

/// `p` holds the mover, and no other cell does.
pub open spec fn is_only_mover(g: Seq<Seq<char>>, p: (int, int)) -> bool {
    &&& holds_mover(g, p)
    &&& forall|r: int, c: int| #[trigger] holds_mover(g, (r, c)) ==> (r, c) == p
}

/// Exactly one cell of the grid holds the mover.
pub open spec fn has_one_mover(g: Seq<Seq<char>>) -> bool {
    exists|r: int, c: int| is_only_mover(g, (r, c))
}

/// The only mover cell of a grid is the mover's position.
pub proof fn lemma_only_mover_is_position(g: Seq<Seq<char>>, p: (int, int))
    requires
        is_only_mover(g, p),
    ensures
        mover_position(g) == p,
{
    lemma_last_mover_is_position(g, p);
}

/// On a board with one mover, a step leaves one mover: it stands one cell on
/// in the direction of the step.
pub proof fn lemma_moved_keeps_one_mover(v: BoardView, d: Direction)
    requires
        well_formed(v.grid),
        has_one_mover(v.grid),
        v.moved(d) is Some,
    ensures
        is_only_mover(v.moved(d)->0.grid, plus(mover_position(v.grid), d.offset())),
        has_one_mover(v.moved(d)->0.grid),
        mover_position(v.moved(d)->0.grid) == plus(mover_position(v.grid), d.offset()),
{
    let g = v.grid;
    let (r0, c0) = choose|r: int, c: int| is_only_mover(g, (r, c));
    lemma_only_mover_is_position(g, (r0, c0));
    let after = v.moved(d)->0.grid;
    let ahead = plus(mover_position(g), d.offset());
    lemma_moved_keeps_shape(v, d);
    assert forall|r: int, c: int| #[trigger] holds_mover(after, (r, c)) implies (r, c)
        == ahead by {
        if symbol_after(v, d, (r, c)) == at(g, (r, c)) {
            assert(holds_mover(g, (r, c)));
        }
    }
    lemma_only_mover_is_position(after, ahead);
}

/// After a step every box stands on the grid.
pub proof fn lemma_moved_boxes_on_grid(v: BoardView, d: Direction)
    requires
        well_formed(v.grid),
        v.moved(d) is Some,
    ensures
        forall|p: (int, int)| v.moved(d)->0.boxes().contains(p) ==> in_grid(v.grid, p),
{
    lemma_moved_keeps_shape(v, d);
}

/// Where the cell that the mover leaves holds no box, a step moves at most
/// one box: the box ahead of the mover, if there is one, goes one cell on,
/// and every other box stays.
pub proof fn lemma_moved_boxes(v: BoardView, d: Direction)
    requires
        well_formed(v.grid),
        !holds_box(v.grid, mover_position(v.grid)),
        v.moved(d) is Some,
    ensures
        ({
            let ahead = plus(mover_position(v.grid), d.offset());
            let beyond = plus(ahead, d.offset());
            v.moved(d)->0.boxes() == if holds_box(v.grid, ahead) {
                v.boxes().remove(ahead).insert(beyond)
            } else {
                v.boxes()
            }
        }),
{
    let ahead = plus(mover_position(v.grid), d.offset());
    let expected = if holds_box(v.grid, ahead) {
        v.boxes().remove(ahead).insert(plus(ahead, d.offset()))
    } else {
        v.boxes()
    };
    lemma_moved_keeps_shape(v, d);
    assert forall|p: (int, int)| v.moved(d)->0.boxes().contains(p) <==> expected.contains(p) by {
        if in_grid(v.grid, p) {
            assert(at(v.moved(d)->0.grid, (p.0, p.1)) == symbol_after(v, d, (p.0, p.1)));
        }
    }
    assert(v.moved(d)->0.boxes() =~= expected);
}

/// The boxes of a well-formed board are finitely many.
pub proof fn lemma_boxes_finite(v: BoardView)
    requires
        well_formed(v.grid),
    ensures
        v.boxes().finite(),
{
    let g = v.grid;
    let w = width(g);
    let n = g.len() as int;
    let indices = set_int_range(0, n * w);
    let cell = |k: int| (k / w, k % w);
    lemma_int_range(0, n * w);
    indices.lemma_map_finite(cell);
    assert forall|p: (int, int)| v.boxes().contains(p) implies indices.map(cell).contains(p) by {
        let k = p.0 * w + p.1;
        lemma_fundamental_div_mod_converse(k, w, p.0, p.1);
        assert(k < n * w) by (nonlinear_arith)
            requires
                k == p.0 * w + p.1,
                0 <= p.0 < n,
                0 <= p.1 < w,
        ;
        assert(0 <= k) by (nonlinear_arith)
            requires
                k == p.0 * w + p.1,
                0 <= p.0,
                0 <= p.1 < w,
        ;
        assert(indices.contains(k) && cell(k) == p);
    }
    lemma_set_subset_finite(indices.map(cell), v.boxes());
}

/// Where the cell that the mover leaves holds no box, and no box is pushed
/// onto another box, a step keeps the number of boxes: no two of them end on
/// one cell.
pub proof fn lemma_moved_keeps_box_count(v: BoardView, d: Direction)
    requires
        well_formed(v.grid),
        !holds_box(v.grid, mover_position(v.grid)),
        v.moved(d) is Some,
        ({
            let ahead = plus(mover_position(v.grid), d.offset());
            holds_box(v.grid, ahead) ==> !holds_box(v.grid, plus(ahead, d.offset()))
        }),
    ensures
        v.moved(d)->0.boxes().finite(),
        v.moved(d)->0.boxes().len() == v.boxes().len(),
{
    lemma_boxes_finite(v);
    lemma_moved_boxes(v, d);
}

} // verus!
