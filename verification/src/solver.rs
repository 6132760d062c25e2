//! Loading a puzzle from text rows and solving it.

use vstd::prelude::*;
use vstd::string::StrSliceExecFns;
use crate::board::{grid_of, points, target_set, Board, BaseBoard};
use crate::geometry::{point, precedes, Vectors};
use crate::grid::{holds_target, lists_targets, well_formed, width, TARGET};
use crate::rules::BoardView;
use crate::search::{
    dfbnb, lemma_search_sound, renderings, search, solvable_within, solves, texts,
};
use crate::text::render_grid;

verus! {

/// The grid that a list of text rows spells out, one symbol for each
/// character.
pub open spec fn text_grid(rows: Seq<&str>) -> Seq<Seq<char>> {
    Seq::new(rows.len(), |r: int| rows[r]@)
}

/// The board that a puzzle starts from: the grid as it is written, with the
/// cells that show an empty target as its targets.
pub open spec fn initial(rows: Seq<&str>) -> BoardView {
    BoardView {
        grid: text_grid(rows),
        targets: Set::new(|p: (int, int)| holds_target(text_grid(rows), p)),
    }
}

/// The renderings of the boards on the way from `v` to a solved board, as the
/// search under `limit` finds them.
pub open spec fn solution(v: BoardView, limit: nat) -> Option<Seq<Seq<char>>> {
    match search(v, 0, limit) {
        Some((states, _)) => Some(renderings(states)),
        None => None,
    }
}

/// Whether the rows are of one length, and few and short enough for a
/// coordinate to name each cell.
pub fn is_valid_layout(board: &Vec<&str>) -> (ok: bool)
    ensures
        ok == well_formed(text_grid(board@)),
{
    let ghost g = text_grid(board@);
    let n = board.len();
    if n == 0 {
        return true;
    }
    if n > 0x7fff {
        return false;
    }
    let w = board[0].unicode_len();
    if w > 0x7fff {
        return false;
    }
    let mut r: usize = 0;
    while r < n
        invariant
            r <= n,
            n == board.len(),
            0 < n <= 0x7fff,
            g == text_grid(board@),
            w == width(g),
            w <= 0x7fff,
            forall|k: int| 0 <= k < r ==> (#[trigger] g[k]).len() == w,
        decreases n - r,
    {
        if board[r].unicode_len() != w {
            assert(g[r as int].len() != w);
            return false;
        }
        r += 1;
    }
    true
}

/// Reads the starting board of a puzzle from its text rows.
pub fn load(board: &Vec<&str>) -> (start: Board)
    requires
        well_formed(text_grid(board@)),
    ensures
        start@ == initial(board@),
        lists_targets(text_grid(board@), points(start.target_list())),
{
    let ghost g = text_grid(board@);
    let mut cells: BaseBoard = Vec::new();
    let mut targets: Vectors = Vec::new();
    let mut i: usize = 0;
    while i < board.len()
        invariant
            i <= board.len(),
            g == text_grid(board@),
            well_formed(g),
            grid_of(cells@) == g.take(i as int),
            marked(g, (i as int, 0), points(targets@)),
        decreases board.len() - i,
    {
        let row = board[i];
        let mut line: Vec<char> = Vec::new();
        let mut j: usize = 0;
        for cell in it: row.chars()
            invariant
                it.seq() == row@,
                row@ == g[i as int],
                j == it.index(),
                i < board.len(),
                g.len() == board.len(),
                well_formed(g),
                grid_of(cells@) == g.take(i as int),
                line@ == row@.take(j as int),
                marked(g, (i as int, j as int), points(targets@)),
        {
            let ghost before = points(targets@);
            line.push(cell);
            if cell == TARGET {
                targets.push((i as i16, j as i16));
                proof {
                    let after = points(targets@);
                    assert(after =~= before.push((i as int, j as int)));
                    assert forall|r: int, c: int|
                        #[trigger] holds_target(g, (r, c)) && precedes(
                            (r, c),
                            (i as int, j + 1),
                        ) implies after.contains((r, c)) by {
                        if (r, c) == (i as int, j as int) {
                            assert(after[before.len() as int] == (r, c));
                        } else {
                            let k = choose|k: int| 0 <= k < before.len() && before[k] == (r, c);
                            assert(after[k] == (r, c));
                        }
                    }
                }
            }
            j += 1;
        }
        let ghost above = cells@;
        cells.push(line);
        assert(grid_of(above).len() == i);
        assert forall|r: int| 0 <= r <= i implies #[trigger] grid_of(cells@)[r] == g[r] by {
            if r < i {
                assert(grid_of(above)[r] == g.take(i as int)[r]);
            }
        }
        i += 1;
    }
    proof {
        assert(g.take(board.len() as int) =~= g);
        let listed = points(targets@);
        assert forall|p: (int, int)| target_set(targets@).contains(p) <==> holds_target(g, p) by {
            if target_set(targets@).contains(p) {
                let k = choose|k: int|
                    0 <= k < targets@.len() && point(#[trigger] targets@[k]) == p;
                assert(listed[k] == p);
            }
            if holds_target(g, p) {
                let k = choose|k: int| 0 <= k < listed.len() && listed[k] == (p.0, p.1);
                assert(point(targets@[k]) == p);
            }
        }
        assert(target_set(targets@) =~= initial(board@).targets);
    }
    Board::new(cells, targets)
}

/// What a scan of the rows has marked when it is about to read `next`: the
/// target cells before `next`.
spec fn marked(g: Seq<Seq<char>>, next: (int, int), targets: Seq<(int, int)>) -> bool {
    &&& forall|k: int|
        0 <= k < targets.len() ==> holds_target(g, #[trigger] targets[k]) && precedes(
            targets[k],
            next,
        )
    &&& forall|r: int, c: int| #[trigger]
        holds_target(g, (r, c)) && precedes((r, c), next) ==> targets.contains((r, c))
    &&& forall|a: int, b: int|
        0 <= a < b < targets.len() ==> precedes(#[trigger] targets[a], #[trigger] targets[b])
}

/// The depth limit that a puzzle of `rows` rows is searched with: the square
/// of the number of its rows.
pub fn depth_limit(rows: u16) -> (limit: u16)
    requires
        rows * rows <= u16::MAX,
    ensures
        limit == rows * rows,
{
    rows * rows
}

/// Solves the puzzle that the rows spell out: the renderings of the boards
/// from the starting board to a solved one that lies fewer than `limit` steps
/// away, or `None` where the search finds none.
pub fn soko_solver(board: Vec<&str>, limit: u16) -> (res: Option<Vec<String>>)
    requires
        well_formed(text_grid(board@)),
    ensures
        res is Some <==> solvable_within(initial(board@), limit as int),
        res is Some <==> solution(initial(board@), limit as nat) is Some,
        res matches Some(path) ==> {
            &&& solution(initial(board@), limit as nat) == Some(texts(path@))
            &&& 0 < path.len() <= limit
            &&& path[0]@ == render_grid(text_grid(board@))
            &&& exists|states: Seq<BoardView>|
                solves(initial(board@), states) && texts(path@) == renderings(states)
        },
{
    proof {
        lemma_search_sound(initial(board@), 0, limit as nat);
    }
    let start = load(&board);
    match dfbnb(start, 0, limit) {
        Some((path, _)) => {
            proof {
                let (states, _) = search(initial(board@), 0, limit as nat)->0;
                assert(texts(path@)[0] == renderings(states)[0]);
            }
            Some(path)
        },
        None => None,
    }
}

} // verus!
