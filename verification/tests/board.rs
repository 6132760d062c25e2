use sokoban::board::Board;
use sokoban::text::glyph_of;

fn cells(rows: &[&str]) -> Vec<Vec<char>> {
    rows.iter().map(|row| row.chars().collect()).collect()
}

fn board(rows: &[&str], targets: &[(i16, i16)]) -> Board {
    Board::new(cells(rows), targets.to_vec())
}

fn grids(children: &[Board]) -> Vec<Vec<String>> {
    children
        .iter()
        .map(|child| child.rows().iter().map(|row| row.iter().collect()).collect())
        .collect()
}

#[test]
fn new_stores_grid_and_targets_as_given() {
    let b = Board::new(cells(&["#@", "X*"]), vec![(1, 1), (5, 5), (1, 1)]);
    assert_eq!(b.rows(), &vec![vec!['#', '@'], vec!['X', '*']]);
    assert_eq!(b.targets(), &vec![(1, 1), (5, 5), (1, 1)]);
}

#[test]
fn new_accepts_ragged_rows_and_reports_them() {
    let b = Board::new(cells(&["@..", ".."]), vec![]);
    assert_eq!(b.rows().len(), 2);
    assert!(!b.is_well_formed());
}

#[test]
fn well_formed_boards_are_rectangular() {
    assert!(board(&["@..", "..X"], &[]).is_well_formed());
    assert!(board(&[], &[]).is_well_formed());
    assert!(board(&["", ""], &[]).is_well_formed());
    assert!(!board(&["", "."], &[]).is_well_formed());
    assert!(!board(&["..", "."], &[]).is_well_formed());
}

#[test]
fn boards_too_tall_or_too_wide_are_not_well_formed() {
    assert!(Board::new(vec![vec!['.']; 0x7fff], vec![]).is_well_formed());
    assert!(!Board::new(vec![vec!['.']; 0x8000], vec![]).is_well_formed());
    assert!(Board::new(vec![vec!['.'; 0x7fff]], vec![]).is_well_formed());
    assert!(!Board::new(vec![vec!['.'; 0x8000]], vec![]).is_well_formed());
}

#[test]
fn is_valid_move_reaches_the_last_cell_of_the_largest_grid() {
    let b = Board::new(vec![vec!['.'; 0x7fff]], vec![]);
    assert!(b.is_valid_move((0, 0x7ffe)));
    assert!(!b.is_valid_move((0, 0x7fff)));
    assert!(!b.is_valid_move((1, 0)));
}

#[test]
fn is_valid_move_accepts_every_cell_but_walls() {
    let b = board(&["#. ", "X@*"], &[(1, 2)]);
    assert!(!b.is_valid_move((0, 0)));
    assert!(b.is_valid_move((0, 1)));
    assert!(b.is_valid_move((0, 2)));
    assert!(b.is_valid_move((1, 0)));
    assert!(b.is_valid_move((1, 1)));
    assert!(b.is_valid_move((1, 2)));
}

#[test]
fn is_valid_move_rejects_positions_off_the_grid() {
    let b = board(&["...", "..."], &[]);
    assert!(!b.is_valid_move((-1, 0)));
    assert!(!b.is_valid_move((0, -1)));
    assert!(!b.is_valid_move((2, 0)));
    assert!(!b.is_valid_move((0, 3)));
    assert!(!b.is_valid_move((i16::MAX, i16::MAX)));
    assert!(!b.is_valid_move((i16::MIN, i16::MIN)));
    assert!(b.is_valid_move((1, 2)));
}

#[test]
fn is_valid_move_on_an_empty_board_is_false() {
    assert!(!board(&[], &[]).is_valid_move((0, 0)));
    assert!(!board(&[""], &[]).is_valid_move((0, 0)));
}

#[test]
fn is_target_looks_the_position_up_in_the_targets() {
    let b = board(&["@.."], &[(0, 2), (4, 4)]);
    assert!(b.is_target((0, 2)));
    assert!(b.is_target((4, 4)));
    assert!(!b.is_target((0, 0)));
    assert!(!b.is_target((2, 0)));
}

#[test]
fn find_oois_lists_the_boxes_in_row_major_order() {
    let b = board(&["X.X", ".@.", "XX."], &[]);
    let (mover, boxes) = b.find_OoIs();
    assert_eq!(mover, (1, 1));
    assert_eq!(boxes, vec![(0, 0), (0, 2), (2, 0), (2, 1)]);
}

#[test]
fn find_oois_without_a_mover_gives_the_origin() {
    let b = board(&["..X", "..."], &[]);
    let (mover, boxes) = b.find_OoIs();
    assert_eq!(mover, (0, 0));
    assert_eq!(boxes, vec![(0, 2)]);
}

#[test]
fn find_oois_with_two_movers_gives_the_last() {
    let b = board(&["@..", ".@.", "..."], &[]);
    assert_eq!(b.find_OoIs().0, (1, 1));
    let b = board(&[".@@"], &[]);
    assert_eq!(b.find_OoIs().0, (0, 2));
}

#[test]
fn find_oois_on_an_empty_board() {
    let (mover, boxes) = board(&[], &[]).find_OoIs();
    assert_eq!(mover, (0, 0));
    assert!(boxes.is_empty());
}

#[test]
fn solved_when_every_box_is_on_a_target() {
    assert!(board(&["@X.", "..X"], &[(0, 1), (1, 2)]).solved());
    assert!(board(&["@X.", "..X"], &[(1, 2), (0, 1), (0, 0)]).solved());
}

#[test]
fn not_solved_while_a_box_is_off_the_targets() {
    assert!(!board(&["@X.", "..X"], &[(0, 1)]).solved());
    assert!(!board(&["@X*"], &[(0, 2)]).solved());
}

#[test]
fn solved_without_boxes() {
    assert!(board(&["@.*"], &[(0, 2)]).solved());
    assert!(board(&["@.."], &[]).solved());
    assert!(board(&[], &[]).solved());
}

#[test]
fn solved_needs_no_target_to_be_covered() {
    assert!(board(&["@X**"], &[(0, 1), (0, 2), (0, 3)]).solved());
}

#[test]
fn find_children_come_in_the_order_up_down_left_right() {
    let b = board(&["...", ".@.", "..."], &[]);
    let children = b.find_children();
    assert_eq!(
        grids(&children),
        vec![
            vec![".@.", "...", "..."],
            vec!["...", "...", ".@."],
            vec!["...", "@..", "..."],
            vec!["...", "..@", "..."],
        ]
    );
}

#[test]
fn find_children_keep_the_targets() {
    let b = board(&["...", ".@.", "..."], &[(2, 2), (0, 0)]);
    for child in b.find_children() {
        assert_eq!(child.targets(), &vec![(2, 2), (0, 0)]);
    }
}

#[test]
fn find_children_skip_walls_and_the_edge() {
    let b = board(&["@#", ".."], &[]);
    assert_eq!(grids(&b.find_children()), vec![vec![".#", "@."]]);
    let b = board(&["#@#"], &[]);
    assert!(b.find_children().is_empty());
}

#[test]
fn find_children_push_the_box_ahead() {
    let b = board(&["@X."], &[]);
    assert_eq!(grids(&b.find_children()), vec![vec![".@X"]]);
    let b = board(&[".", "X", "@"], &[]);
    assert_eq!(grids(&b.find_children()), vec![vec!["X", "@", "."]]);
}

#[test]
fn find_children_refuse_to_push_a_box_into_a_wall_or_off_the_grid() {
    let b = board(&["@X#"], &[]);
    assert!(b.find_children().is_empty());
    let b = board(&["@X"], &[]);
    assert!(b.find_children().is_empty());
    let b = board(&["X", "@"], &[]);
    assert!(b.find_children().is_empty());
}

#[test]
fn find_children_push_a_box_onto_a_target_cell() {
    let b = board(&["@X*"], &[(0, 2)]);
    let children = b.find_children();
    assert_eq!(grids(&children), vec![vec![".@X"]]);
    assert!(children[0].solved());
}

#[test]
fn find_children_push_a_box_onto_another_box() {
    let b = board(&["@XX."], &[]);
    let children = b.find_children();
    assert_eq!(grids(&children), vec![vec![".@X."]]);
    assert_eq!(children[0].find_OoIs().1, vec![(0, 2)]);
}

#[test]
fn find_children_show_the_target_the_mover_leaves() {
    let b = board(&["@."], &[(0, 0)]);
    assert_eq!(grids(&b.find_children()), vec![vec!["*@"]]);
    let b = board(&["@*"], &[(0, 1)]);
    let children = b.find_children();
    assert_eq!(grids(&children), vec![vec![".@"]]);
    assert_eq!(grids(&children[0].find_children()), vec![vec!["@*"]]);
}

#[test]
fn find_children_without_a_mover_move_from_the_origin() {
    let b = board(&["..", ".."], &[]);
    assert_eq!(grids(&b.find_children()), vec![vec!["..", "@."], vec![".@", ".."]]);
}

#[test]
fn find_children_leave_the_parent_as_it_was() {
    let b = board(&["@X."], &[]);
    let _ = b.find_children();
    assert_eq!(b.rows(), &vec![vec!['@', 'X', '.']]);
}

#[test]
fn find_children_keep_a_single_mover_and_the_boxes() {
    let b = board(&["#####", "#.X.#", "#X@X#", "#.X.#", "#####"], &[]);
    assert!(b.find_children().is_empty());
    let b = board(&[".....", "..X..", ".X@X.", "..X..", "....."], &[]);
    let children = b.find_children();
    assert_eq!(children.len(), 4);
    for child in &children {
        assert!(child.is_well_formed());
        let movers = child.rows().iter().flatten().filter(|&&c| c == '@').count();
        assert_eq!(movers, 1);
        assert_eq!(child.find_OoIs().1.len(), 4);
    }
}

#[test]
fn glyphs_of_the_symbols() {
    assert_eq!(glyph_of('.'), '⬛');
    assert_eq!(glyph_of('#'), '🟦');
    assert_eq!(glyph_of(' '), '🟥');
    assert_eq!(glyph_of('X'), '🟫');
    assert_eq!(glyph_of('@'), '🚶');
    assert_eq!(glyph_of('*'), '🎯');
}

#[test]
fn glyph_of_an_unknown_symbol_is_a_blank() {
    assert_eq!(glyph_of('?'), ' ');
    assert_eq!(glyph_of('x'), ' ');
    assert_eq!(glyph_of('\n'), ' ');
}

#[test]
fn render_writes_one_line_for_each_row() {
    let b = board(&["#@ ", "X*.", "?.."], &[(1, 1)]);
    assert_eq!(b.render(), "🟦🚶🟥\n🟫🎯⬛\n ⬛⬛\n");
}

#[test]
fn render_of_an_empty_board_is_empty() {
    assert_eq!(board(&[], &[]).render(), "");
    assert_eq!(board(&["", ""], &[]).render(), "\n\n");
}

#[test]
fn render_takes_each_row_at_its_own_length() {
    assert_eq!(board(&["@", "..."], &[]).render(), "🚶\n⬛⬛⬛\n");
}
