//! Depth-first branch-and-bound search for a solved board.

use vstd::prelude::*;
use crate::board::{views, Board};
use crate::geometry::Direction;
use crate::grid::{holds_box, well_formed, width};
use crate::invariants::{has_one_mover, lemma_moved_keeps_one_mover, lemma_moved_keeps_shape};
use crate::rules::{lemma_successors_are_moves, BoardView};
use crate::text::render_grid;

verus! {

/// How many more steps a search at depth `q` may take under `bound`.
pub open spec fn budget(q: nat, bound: nat) -> nat {
    if q < bound {
        (bound - q) as nat
    } else {
        0
    }
}

/// The bound handed to the next sibling: the depth of the best path found so
/// far where there is one, and the bound of the parent otherwise. A find
/// never lies at or above the bound it was made under
/// (`lemma_tightening`), so the bound only ever comes down.
pub open spec fn tightened(best: Option<(Seq<BoardView>, nat)>, bound: nat) -> nat {
    match best {
        Some((_, depth)) => if depth < bound {
            depth
        } else {
            bound
        },
        None => bound,
    }
}

/// The search from board `v`, reached in `q` steps, for a solved board at a
/// depth under `bound`: the boards from `v` to the solved one, and the depth
/// of the solved one.
///
/// Nothing is found at depth `bound` or deeper. A solved board is its own
/// path. Otherwise the successors are searched in order, each under the bound
/// tightened by what its elder siblings found, and the last find is kept.
pub open spec fn search(v: BoardView, q: nat, bound: nat) -> Option<(Seq<BoardView>, nat)>
    decreases budget(q, bound), 1nat, 0nat,
{
    if q >= bound {
        None
    } else if v.is_solved() {
        Some((seq![v], q))
    } else {
        search_among(v, v.successors(), q, bound)
    }
}

/// The search through the boards `kids`, each one step after `v`: the last
/// find among them in order, with `v` put in front of its path.
pub open spec fn search_among(v: BoardView, kids: Seq<BoardView>, q: nat, bound: nat) -> Option<
    (Seq<BoardView>, nat),
>
    decreases budget(q, bound), 0nat, kids.len(),
{
    if q >= bound || kids.len() == 0 {
        None
    } else {
        let best = search_among(v, kids.drop_last(), q, bound);
        match search(kids.last(), q + 1, tightened(best, bound)) {
            Some((path, depth)) => Some((seq![v] + path, depth)),
            None => best,
        }
    }
}

/// Each board of the path but the first is a successor of the board before.
pub open spec fn is_path(path: Seq<BoardView>) -> bool {
    forall|i: int|
        0 <= i < path.len() - 1 ==> (#[trigger] path[i]).successors().contains(path[i + 1])
}

/// The path leads from `v`, step by step, to a solved board.
pub open spec fn solves(v: BoardView, path: Seq<BoardView>) -> bool {
    &&& path.len() > 0
    &&& path.first() == v
    &&& is_path(path)
    &&& path.last().is_solved()
}

/// A solved board lies fewer than `steps` steps from `v`.
#[verifier::opaque]
pub open spec fn solvable_within(v: BoardView, steps: int) -> bool {
    exists|path: Seq<BoardView>| solves(v, path) && path.len() <= steps
}

/// The texts of a list of strings, in order.
pub open spec fn texts(path: Seq<String>) -> Seq<Seq<char>> {
    Seq::new(path.len(), |k: int| path[k]@)
}

/// The renderings of a list of boards, in order.
pub open spec fn renderings(states: Seq<BoardView>) -> Seq<Seq<char>> {
    Seq::new(states.len(), |k: int| render_grid(states[k].grid))
}

/// What a search hands back: the renderings of the boards found, and the
/// depth.
pub open spec fn rendered(found: Option<(Seq<BoardView>, nat)>) -> Option<(Seq<Seq<char>>, nat)> {
    match found {
        Some((states, depth)) => Some((renderings(states), depth)),
        None => None,
    }
}

/// What a search handed back, as texts and a depth.
pub open spec fn outcome(res: Option<(Vec<String>, u16)>) -> Option<(Seq<Seq<char>>, nat)> {
    match res {
        Some((path, depth)) => Some((texts(path@), depth as nat)),
        None => None,
    }
}

/// Searches depth first from `board`, reached in `q` steps, for a solved
/// board at a depth under `bound`, and hands back the renderings of the boards
/// from `board` to the solved one, with the depth of the solved one.
pub fn dfbnb(board: Board, q: u16, bound: u16) -> (res: Option<(Vec<String>, u16)>)
    requires
        well_formed(board@.grid),
    ensures
        outcome(res) == rendered(search(board@, q as nat, bound as nat)),
        res is Some <==> solvable_within(board@, bound - q),
        res matches Some((path, depth)) ==> q <= depth < bound && path.len() == depth - q + 1,
    decreases budget(q as nat, bound as nat),
{
    proof {
        lemma_search_decides(board@, q as nat, bound as nat);
        lemma_search_sound(board@, q as nat, bound as nat);
    }
    if q >= bound {
        return None;
    }
    if board.solved() {
        let mut path: Vec<String> = Vec::new();
        path.push(board.render());
        return Some((path, q));
    }
    let ghost v = board@;
    let mut u_remembered = bound;
    let mut out: Option<(Vec<String>, u16)> = None;
    let children = board.find_children();
    let ghost kids = views(children@);
    for child in it: children.into_iter()
        invariant
            it.seq() == children@,
            kids == views(children@),
            kids == v.successors(),
            v == board@,
            q < bound,
            forall|k: int|
                0 <= k < children.len() ==> well_formed((#[trigger] children[k])@.grid),
            outcome(out) == rendered(
                search_among(v, kids.take(it.index() as int), q as nat, bound as nat),
            ),
            u_remembered == tightened(
                search_among(v, kids.take(it.index() as int), q as nat, bound as nat),
                bound as nat,
            ),
    {
        let ghost n = it.index() as int;
        let ghost elder = kids.take(n);
        proof {
            assert(kids.take(n + 1).drop_last() =~= elder);
            lemma_search_sound(kids[n], (q + 1) as nat, u_remembered as nat);
        }
        if let Some((mut soln, u)) = dfbnb(child, q + 1, u_remembered) {
            soln.insert(0, board.render());
            proof {
                let found = search(kids[n], (q + 1) as nat, u_remembered as nat)->0;
                assert(renderings(seq![v] + found.0) =~= seq![render_grid(v.grid)] + renderings(
                    found.0,
                ));
            }
            out = Some((soln, u));
            u_remembered = u;
        }
    }
    proof {
        assert(kids.take(kids.len() as int) =~= kids);
        assert(out matches Some((path, _)) ==> texts(path@).len() == path.len());
    }
    out
}

/// What a search finds is a path from its board to a solved board, which
/// ends at the depth it reports, under the bound.
pub proof fn lemma_search_sound(v: BoardView, q: nat, bound: nat)
    ensures
        search(v, q, bound) matches Some((path, depth)) ==> {
            &&& solves(v, path)
            &&& depth == q + path.len() - 1
            &&& depth < bound
        },
    decreases budget(q, bound), 1nat, 0nat,
{
    if q < bound && !v.is_solved() {
        lemma_search_among_sound(v, v.successors(), q, bound);
    }
}

/// What a search through some successors of `v` finds is a path from `v`
/// through one of them to a solved board, which ends at the depth it
/// reports, under the bound.
pub proof fn lemma_search_among_sound(v: BoardView, kids: Seq<BoardView>, q: nat, bound: nat)
    requires
        forall|k: int| 0 <= k < kids.len() ==> v.successors().contains(#[trigger] kids[k]),
    ensures
        search_among(v, kids, q, bound) matches Some((path, depth)) ==> {
            &&& solves(v, path)
            &&& path.len() > 1
            &&& kids.contains(path[1])
            &&& depth == q + path.len() - 1
            &&& depth < bound
        },
    decreases budget(q, bound), 0nat, kids.len(),
{
    if q < bound && kids.len() > 0 {
        let elder = kids.drop_last();
        let best = search_among(v, elder, q, bound);
        lemma_search_among_sound(v, elder, q, bound);
        lemma_search_sound(kids.last(), q + 1, tightened(best, bound));
        if let Some((tail, _)) = search(kids.last(), q + 1, tightened(best, bound)) {
            assert(is_path(seq![v] + tail));
        }
    }
}

/// What a search through `kids` finds lies deeper than `q` and under the
/// bound, and is itself the bound for the next sibling.
pub proof fn lemma_tightening(v: BoardView, kids: Seq<BoardView>, q: nat, bound: nat)
    ensures
        search_among(v, kids, q, bound) matches Some((_, depth)) ==> {
            &&& q < depth < bound
            &&& tightened(search_among(v, kids, q, bound), bound) == depth
        },
    decreases kids.len(),
{
    if q < bound && kids.len() > 0 {
        let best = search_among(v, kids.drop_last(), q, bound);
        lemma_tightening(v, kids.drop_last(), q, bound);
        lemma_search_sound(kids.last(), q + 1, tightened(best, bound));
    }
}

/// Where a path from `v` to a solved board ends under the bound, the search
/// finds a path, and one that ends no deeper.
pub proof fn lemma_search_complete(v: BoardView, q: nat, bound: nat, path: Seq<BoardView>)
    requires
        solves(v, path),
        q + path.len() <= bound,
    ensures
        search(v, q, bound) matches Some((_, depth)) && depth <= q + path.len() - 1,
    decreases path.len(), 0nat,
{
    if !v.is_solved() {
        let tail = path.skip(1);
        let j = choose|j: int| 0 <= j < v.successors().len() && v.successors()[j] == path[1];
        assert(tail.last() == path.last());
        lemma_search_among_complete(v, v.successors(), q, bound, j, tail);
    }
}

/// Where a path from one of the boards `kids` to a solved board ends under
/// the bound, the search through `kids` finds a path, and one that ends no
/// deeper.
pub proof fn lemma_search_among_complete(
    v: BoardView,
    kids: Seq<BoardView>,
    q: nat,
    bound: nat,
    j: int,
    tail: Seq<BoardView>,
)
    requires
        0 <= j < kids.len(),
        solves(kids[j], tail),
        q + 1 + tail.len() <= bound,
    ensures
        search_among(v, kids, q, bound) matches Some((_, depth)) && depth <= q + tail.len(),
    decreases tail.len(), 1 + kids.len(),
{
    let elder = kids.drop_last();
    let best = search_among(v, elder, q, bound);
    let bound_here = tightened(best, bound);
    lemma_search_sound(kids.last(), q + 1, bound_here);
    if j < kids.len() - 1 {
        lemma_search_among_complete(v, elder, q, bound, j, tail);
    } else if q + tail.len() < bound_here {
        lemma_search_complete(kids.last(), q + 1, bound_here, tail);
    }
}

/// A search finds a path exactly when a solved board lies within its budget
/// of steps.
pub proof fn lemma_search_decides(v: BoardView, q: nat, bound: nat)
    ensures
        search(v, q, bound) is Some <==> solvable_within(v, bound - q),
{
    reveal(solvable_within);
    lemma_search_sound(v, q, bound);
    if solvable_within(v, bound - q) {
        let path = choose|path: Seq<BoardView>| solves(v, path) && path.len() <= bound - q;
        lemma_search_complete(v, q, bound, path);
    }
}

/// No path from `v` to a solved board is shorter than the one a search finds.
pub proof fn lemma_search_finds_shortest(v: BoardView, q: nat, bound: nat, other: Seq<BoardView>)
    requires
        search(v, q, bound) is Some,
        solves(v, other),
    ensures
        search(v, q, bound) matches Some((path, _)) && path.len() <= other.len(),
{
    lemma_search_sound(v, q, bound);
    if q + other.len() <= bound {
        lemma_search_complete(v, q, bound, other);
    }
}

/// A board without boxes is solved.
pub proof fn lemma_no_boxes_is_solved(v: BoardView)
    requires
        forall|r: int, c: int| !holds_box(v.grid, (r, c)),
    ensures
        v.is_solved(),
{
    assert forall|p: (int, int)| v.boxes().contains(p) implies v.targets.contains(p) by {
    }
}

/// A solved board, searched under a bound that leaves room for it, is found
/// at once, as a path of its own.
pub proof fn lemma_solved_is_found_at_once(v: BoardView, q: nat, bound: nat)
    requires
        v.is_solved(),
        q < bound,
    ensures
        search(v, q, bound) == Some((seq![v], q)),
{
}

/// Along a path from a well-formed board with one mover, every board is well
/// formed, of the same shape, with the same targets and with one mover.
pub proof fn lemma_path_keeps_board(path: Seq<BoardView>, i: int)
    requires
        is_path(path),
        0 <= i < path.len(),
        well_formed(path[0].grid),
        has_one_mover(path[0].grid),
    ensures
        well_formed(path[i].grid),
        has_one_mover(path[i].grid),
        path[i].targets == path[0].targets,
        path[i].grid.len() == path[0].grid.len(),
        width(path[i].grid) == width(path[0].grid),
    decreases i,
{
    if i > 0 {
        lemma_path_keeps_board(path, i - 1);
        let before = path[i - 1];
        lemma_successors_are_moves(before, path[i]);
        let d = choose|d: Direction| before.moved(d) == Some(path[i]);
        lemma_moved_keeps_shape(before, d);
        lemma_moved_keeps_one_mover(before, d);
    }
}

} // verus!
