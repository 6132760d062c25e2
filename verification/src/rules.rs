//! The rules of the game over the mathematical model of a board: when a
//! board is solved, and which boards one step of the mover leads to.

use vstd::prelude::*;
use crate::geometry::{plus, Direction};
use crate::grid::{at, holds_box, mover_position, passable, put, BOX, FLOOR, MOVER, TARGET};

verus! {

/// A board as the rules see it: the grid, and the coordinates of the targets.
pub struct BoardView {
    pub grid: Seq<Seq<char>>,
    pub targets: Set<(int, int)>,
}

/// The sequence that holds the value of an option, if there is one.
pub open spec fn listed<T>(o: Option<T>) -> Seq<T> {
    match o {
        Some(x) => seq![x],
        None => Seq::empty(),
    }
}

impl BoardView {
    /// The board after the mover takes one step in direction `d`, or `None`
    /// where the step is not allowed.
    ///
    /// The step is refused when the cell ahead is off the grid or a wall, and
    /// when it holds a box whose own cell ahead is off the grid or a wall. A
    /// box ahead is pushed one cell on, the cell the mover leaves shows the
    /// target under it or plain floor, and the mover takes the cell ahead.
    pub open spec fn moved(self, d: Direction) -> Option<BoardView> {
        let pos = mover_position(self.grid);
        let dest = plus(pos, d.offset());
        let beyond = plus(dest, d.offset());
        if !passable(self.grid, dest) {
            None
        } else if at(self.grid, dest) == BOX && !passable(self.grid, beyond) {
            None
        } else {
            let pushed = if at(self.grid, dest) == BOX {
                put(self.grid, beyond, BOX)
            } else {
                self.grid
            };
            let vacated = put(
                pushed,
                pos,
                if self.targets.contains(pos) {
                    TARGET
                } else {
                    FLOOR
                },
            );
            Some(BoardView { grid: put(vacated, dest, MOVER), targets: self.targets })
        }
    }

    /// The boards one step away, in the order up, down, left, right.
    pub open spec fn successors(self) -> Seq<BoardView> {
        listed(self.moved(Direction::Up)) + listed(self.moved(Direction::Down)) + listed(
            self.moved(Direction::Left),
        ) + listed(self.moved(Direction::Right))
    }

    /// The coordinates of the cells that hold a box.
    pub open spec fn boxes(self) -> Set<(int, int)> {
        Set::new(|p: (int, int)| holds_box(self.grid, p))
    }

    /// Every box stands on a target.
    pub open spec fn is_solved(self) -> bool {
        self.boxes().subset_of(self.targets)
    }
}

/// A board is among the successors exactly when some step leads to it.
pub proof fn lemma_successors_are_moves(v: BoardView, s: BoardView)
    ensures
        v.successors().contains(s) <==> exists|d: Direction| v.moved(d) == Some(s),
{
    let up = listed(v.moved(Direction::Up));
    let down = listed(v.moved(Direction::Down));
    let left = listed(v.moved(Direction::Left));
    if exists|d: Direction| v.moved(d) == Some(s) {
        let d = choose|d: Direction| v.moved(d) == Some(s);
        match d {
            Direction::Up => {
                assert(v.successors()[0] == s);
            },
            Direction::Down => {
                assert(v.successors()[up.len() as int] == s);
            },
            Direction::Left => {
                assert(v.successors()[(up.len() + down.len()) as int] == s);
            },
            Direction::Right => {
                assert(v.successors()[(up.len() + down.len() + left.len()) as int] == s);
            },
        }
    }
}

} // verus!
