//! The executable board: a grid of symbols with the list of its targets.

use vstd::prelude::*;
use crate::geometry::{point, precedes, vec_plus, Direction, Vector, Vectors};
use crate::grid::{
    holds_box, holds_mover, lemma_last_mover_is_position, lemma_mover_position_kind,
    lemma_no_mover_is_origin, lists_boxes, mover_position, passable, put, well_formed, width, BOX,
    FLOOR, MOVER, TARGET, WALL,
};
use crate::invariants::lemma_successors_keep_shape;
use crate::rules::{listed, BoardView};
use crate::text::{glyph, glyph_of, render_grid, render_row};

verus! {

/// The rows of a grid as stored.
pub type BaseBoard = Vec<Vec<char>>;

/// The grid that a vector of rows stands for.
pub open spec fn grid_of(rows: Seq<Vec<char>>) -> Seq<Seq<char>> {
    Seq::new(rows.len(), |r: int| rows[r]@)
}

/// The set of coordinates that a list of machine vectors names.
pub open spec fn target_set(targets: Seq<Vector>) -> Set<(int, int)> {
    Set::new(
        |p: (int, int)| exists|k: int| 0 <= k < targets.len() && point(#[trigger] targets[k]) == p,
    )
}

/// The coordinates that a list of machine vectors names, in order.
pub open spec fn points(list: Seq<Vector>) -> Seq<(int, int)> {
    Seq::new(list.len(), |k: int| point(list[k]))
}

/// What a row-major scan has established when it is about to read `next`:
/// `robot` is the last mover cell before `next` (the origin while `seen` is
/// false), and `boxes` lists the box cells before `next` in order.
spec fn scanned(
    g: Seq<Seq<char>>,
    next: (int, int),
    robot: (int, int),
    seen: bool,
    boxes: Seq<(int, int)>,
) -> bool {
    &&& seen ==> holds_mover(g, robot)
    &&& !seen ==> robot == (0int, 0int)
    &&& forall|r: int, c: int| #[trigger]
        holds_mover(g, (r, c)) && precedes((r, c), next) ==> seen && !precedes(robot, (r, c))
    &&& forall|k: int|
        0 <= k < boxes.len() ==> holds_box(g, #[trigger] boxes[k]) && precedes(boxes[k], next)
    &&& forall|r: int, c: int| #[trigger]
        holds_box(g, (r, c)) && precedes((r, c), next) ==> boxes.contains((r, c))
    &&& forall|a: int, b: int|
        0 <= a < b < boxes.len() ==> precedes(#[trigger] boxes[a], #[trigger] boxes[b])
}

/// The boards that a list of executable boards stands for, in order.
pub open spec fn views(boards: Seq<Board>) -> Seq<BoardView> {
    Seq::new(boards.len(), |k: int| boards[k]@)
}

/// One state of a puzzle: the grid, and the targets it was loaded with.
#[derive(Clone, Debug)]
pub struct Board {
    brd: BaseBoard,
    targets: Vectors,
}

impl View for Board {
    type V = BoardView;

    closed spec fn view(&self) -> BoardView {
        BoardView { grid: grid_of(self.brd@), targets: target_set(self.targets@) }
    }
}

impl Board {
    /// The targets in the order in which the board was given them.
    pub closed spec fn target_list(&self) -> Seq<Vector> {
        self.targets@
    }

    /// The targets of the view are the coordinates that the list names.
    pub proof fn lemma_targets_are_listed(&self)
        ensures
            self@.targets == target_set(self.target_list()),
    {
    }

    /// Stores the grid and the targets as they are given.
    pub fn new(baseboard: BaseBoard, targets: Vectors) -> (board: Board)
        ensures
            board@.grid == grid_of(baseboard@),
            board@.targets == target_set(targets@),
            board.target_list() == targets@,
    {
        Board { brd: baseboard, targets }
    }

    /// The rows of the grid.
    pub fn rows(&self) -> (rows: &BaseBoard)
        ensures
            grid_of(rows@) == self@.grid,
    {
        &self.brd
    }

    /// The targets the board was made with.
    pub fn targets(&self) -> (targets: &Vectors)
        ensures
            targets@ == self.target_list(),
            target_set(targets@) == self@.targets,
    {
        &self.targets
    }

    /// Whether every row is as long as the first and both dimensions fit a
    /// coordinate.
    pub fn is_well_formed(&self) -> (ok: bool)
        ensures
            ok == well_formed(self@.grid),
    {
        let n = self.brd.len();
        if n == 0 {
            return true;
        }
        if n > 0x7fff {
            return false;
        }
        let w = self.brd[0].len();
        if w > 0x7fff {
            return false;
        }
        let mut r: usize = 0;
        while r < n
            invariant
                r <= n,
                n == self.brd.len(),
                0 < n <= 0x7fff,
                w == width(self@.grid),
                w <= 0x7fff,
                forall|k: int| 0 <= k < r ==> (#[trigger] self@.grid[k]).len() == w,
            decreases n - r,
        {
            if self.brd[r].len() != w {
                assert(self@.grid[r as int].len() != w);
                return false;
            }
            r += 1;
        }
        true
    }

    /// Whether the mover may step onto `pos`: the cell lies on the grid and is
    /// not a wall.
    pub fn is_valid_move(&self, pos: Vector) -> (ok: bool)
        requires
            well_formed(self@.grid),
        ensures
            ok == passable(self@.grid, point(pos)),
    {
        let (x, y) = pos;
        if x < 0 || y < 0 {
            return false;
        }
        let r = x as usize;
        let c = y as usize;
        if r >= self.brd.len() {
            return false;
        }
        assert(self@.grid[r as int].len() == width(self@.grid));
        if c >= self.brd[0].len() {
            return false;
        }
        self.brd[r][c] != WALL
    }

    /// Whether `pos` is one of the targets.
    pub fn is_target(&self, pos: Vector) -> (found: bool)
        ensures
            found == self@.targets.contains(point(pos)),
    {
        let mut k: usize = 0;
        while k < self.targets.len()
            invariant
                k <= self.targets.len(),
                forall|i: int| 0 <= i < k ==> point(#[trigger] self.targets@[i]) != point(pos),
            decreases self.targets.len() - k,
        {
            let t = self.targets[k];
            if t.0 == pos.0 && t.1 == pos.1 {
                return true;
            }
            k += 1;
        }
        false
    }

    /// Finds the mover and the boxes in one row-major scan of the grid.
    #[allow(non_snake_case)]
    pub fn find_OoIs(&self) -> (found: (Vector, Vectors))
        requires
            well_formed(self@.grid),
        ensures
            point(found.0) == mover_position(self@.grid),
            lists_boxes(self@.grid, points(found.1@)),
    {
        let ghost g = self@.grid;
        let mut boxes: Vectors = Vec::new();
        let mut robot_pos: Vector = (0, 0);
        let ghost mut seen = false;
        let n = self.brd.len();
        let mut i: usize = 0;
        while i < n
            invariant
                i <= n,
                n == self.brd.len(),
                g == self@.grid,
                well_formed(g),
                scanned(g, (i as int, 0), point(robot_pos), seen, points(boxes@)),
            decreases n - i,
        {
            let w = self.brd[0].len();
            let mut j: usize = 0;
            while j < w
                invariant
                    i < n,
                    j <= w,
                    n == self.brd.len(),
                    w == width(g),
                    g == self@.grid,
                    well_formed(g),
                    scanned(g, (i as int, j as int), point(robot_pos), seen, points(boxes@)),
                decreases w - j,
            {
                assert(g[i as int].len() == w);
                let ghost before = points(boxes@);
                let cell = self.brd[i][j];
                if cell == MOVER {
                    robot_pos = (i as i16, j as i16);
                    proof {
                        seen = true;
                    }
                } else if cell == BOX {
                    boxes.push((i as i16, j as i16));
                    proof {
                        let after = points(boxes@);
                        assert(after == before.push((i as int, j as int)));
                        assert forall|r: int, c: int|
                            #[trigger] holds_box(g, (r, c)) && precedes(
                                (r, c),
                                (i as int, j + 1),
                            ) implies after.contains((r, c)) by {
                            if (r, c) == (i as int, j as int) {
                                assert(after[before.len() as int] == (r, c));
                            } else {
                                let k = choose|k: int| 0 <= k < before.len() && before[k] == (r, c);
                                assert(after[k] == (r, c));
                            }
                        }
                    }
                }
                j += 1;
            }
            i += 1;
        }
        proof {
            if seen {
                lemma_last_mover_is_position(g, point(robot_pos));
            } else {
                lemma_no_mover_is_origin(g);
            }
        }
        (robot_pos, boxes)
    }

    /// Whether every box stands on a target.
    pub fn solved(&self) -> (done: bool)
        requires
            well_formed(self@.grid),
        ensures
            done == self@.is_solved(),
    {
        let (_, boxes) = self.find_OoIs();
        let ghost listed = points(boxes@);
        let mut k: usize = 0;
        while k < boxes.len()
            invariant
                k <= boxes.len(),
                listed == points(boxes@),
                lists_boxes(self@.grid, listed),
                forall|i: int| 0 <= i < k ==> self@.targets.contains(#[trigger] listed[i]),
            decreases boxes.len() - k,
        {
            if !self.is_target(boxes[k]) {
                proof {
                    assert(self@.boxes().contains(listed[k as int]));
                }
                return false;
            }
            k += 1;
        }
        true
    }

    /// A copy of the list of targets.
    fn copy_targets(&self) -> (copy: Vectors)
        ensures
            copy@ == self.targets@,
    {
        let mut copy: Vectors = Vec::new();
        let mut k: usize = 0;
        while k < self.targets.len()
            invariant
                k <= self.targets.len(),
                copy@ == self.targets@.take(k as int),
            decreases self.targets.len() - k,
        {
            copy.push(self.targets[k]);
            k += 1;
        }
        copy
    }

    /// The board after the mover, standing at `pos`, steps in direction `dir`.
    fn child(&self, pos: Vector, dir: Direction) -> (child: Option<Board>)
        requires
            well_formed(self@.grid),
            point(pos) == mover_position(self@.grid),
        ensures
            child is Some <==> self@.moved(dir) is Some,
            child matches Some(b) ==> self@.moved(dir) == Some(b@),
            child matches Some(b) ==> b.target_list() == self.target_list(),
    {
        let ghost g = self@.grid;
        proof {
            lemma_mover_position_kind(g);
        }
        let d = dir.delta();
        let new_pos = vec_plus(pos, d);
        if !self.is_valid_move(new_pos) {
            return None;
        }
        let mut new_brd = self.brd.clone();
        assert(grid_of(new_brd@) =~~= g);
        let (nr, nc) = (new_pos.0 as usize, new_pos.1 as usize);
        let (pr, pc) = (pos.0 as usize, pos.1 as usize);
        if new_brd[nr][nc] == BOX {
            let block_new_pos = vec_plus(new_pos, d);
            if !self.is_valid_move(block_new_pos) {
                return None;
            }
            let (br, bc) = (block_new_pos.0 as usize, block_new_pos.1 as usize);
            new_brd[br][bc] = BOX;
            assert(grid_of(new_brd@) =~~= put(g, point(block_new_pos), BOX));
        }
        let ghost pushed = grid_of(new_brd@);
        if self.is_target(pos) {
            new_brd[pr][pc] = TARGET;
        } else {
            new_brd[pr][pc] = FLOOR;
        }
        let ghost vacated = grid_of(new_brd@);
        assert(vacated =~~= put(
            pushed,
            point(pos),
            if self@.targets.contains(point(pos)) {
                TARGET
            } else {
                FLOOR
            },
        ));
        new_brd[nr][nc] = MOVER;
        assert(grid_of(new_brd@) =~~= put(vacated, point(new_pos), MOVER));
        Some(Board::new(new_brd, self.copy_targets()))
    }

    /// The boards that one step of the mover leads to, in the order up, down,
    /// left, right.
    pub fn find_children(&self) -> (children: Vec<Board>)
        requires
            well_formed(self@.grid),
        ensures
            views(children@) == self@.successors(),
            forall|k: int|
                0 <= k < children.len() ==> well_formed((#[trigger] children[k])@.grid)
                    && children[k]@.targets == self@.targets,
            forall|k: int|
                0 <= k < children.len() ==> (#[trigger] children[k]).target_list()
                    == self.target_list(),
    {
        let mut children: Vec<Board> = Vec::new();
        let (pos, _) = self.find_OoIs();
        let ghost v = self@;
        if let Some(b) = self.child(pos, Direction::Up) {
            children.push(b);
        }
        if let Some(b) = self.child(pos, Direction::Down) {
            children.push(b);
        }
        if let Some(b) = self.child(pos, Direction::Left) {
            children.push(b);
        }
        if let Some(b) = self.child(pos, Direction::Right) {
            children.push(b);
        }
        proof {
            assert forall|k: int| 0 <= k < children.len() implies well_formed(
                (#[trigger] children[k])@.grid,
            ) && children[k]@.targets == v.targets by {
                lemma_successors_keep_shape(v, k);
            }
        }
        children
    }

    /// The board as text: one line of glyphs for each row.
    pub fn render(&self) -> (text: String)
        ensures
            text@ == render_grid(self@.grid),
    {
        let ghost g = self@.grid;
        let mut text = String::new();
        let mut r: usize = 0;
        while r < self.brd.len()
            invariant
                r <= self.brd.len(),
                g == self@.grid,
                text@ == render_grid(g.take(r as int)),
            decreases self.brd.len() - r,
        {
            let row = &self.brd[r];
            let ghost line = g[r as int];
            let ghost head = text@;
            let mut c: usize = 0;
            while c < row.len()
                invariant
                    c <= row.len(),
                    row@ == line,
                    text@ == head + line.take(c as int).map_values(|symbol: char| glyph(symbol)),
                decreases row.len() - c,
            {
                text.push(glyph_of(row[c]));
                assert(line.take(c + 1).map_values(|symbol: char| glyph(symbol)) =~= line.take(
                    c as int,
                ).map_values(|symbol: char| glyph(symbol)).push(glyph(line[c as int])));
                c += 1;
            }
            text.push('\n');
            proof {
                let shown = g.take(r as int).map_values(|row: Seq<char>| render_row(row));
                assert(g.take(r + 1).map_values(|row: Seq<char>| render_row(row)) =~= shown.push(
                    render_row(line),
                ));
                shown.lemma_flatten_push(render_row(line));
            }
            r += 1;
        }
        assert(g.take(self.brd.len() as int) =~= g);
        text
    }
}

} // verus!
