use game99::board::{BoardMove, FullBoard};
use game99::cell::{is_match, BASE};

fn board(radix: u8, cells: &[u8]) -> FullBoard {
    FullBoard::from_cells(radix, cells.to_vec()).expect("valid cells")
}

fn live(board: &FullBoard) -> usize {
    board.cells().iter().filter(|c| **c != 0).count()
}

#[test]
fn classic_opening_board() {
    let start = FullBoard::new();
    assert_eq!(start.radix(), 10);
    assert_eq!(BASE, 10);
    assert_eq!(start.width(), 9);
    assert_eq!(
        start.cells().as_slice(),
        &[1, 2, 3, 4, 5, 6, 7, 8, 9, 1, 1, 1, 2, 1, 3, 1, 4, 1, 5, 1, 6, 1, 7, 1, 8, 1, 9]
    );
}

#[test]
fn opening_board_for_radix_four() {
    let start = FullBoard::with_radix(4).unwrap();
    assert_eq!(start.cells().as_slice(), &[1, 2, 3, 1, 1, 1, 2, 1, 3]);
    assert_eq!(start.cells().len(), 9);
    assert!(start.cells().iter().all(|c| *c != 0));
    assert_eq!(start.radix(), 4);
    assert_eq!(start.width(), 3);
}

#[test]
fn opening_board_for_every_radix() {
    for radix in 2..=255u8 {
        let start = FullBoard::with_radix(radix).unwrap();
        let width = (radix - 1) as usize;
        assert_eq!(start.cells().len(), 3 * width);
        for i in 0..width {
            assert_eq!(start.cells()[i] as usize, i + 1);
            assert_eq!(start.cells()[width + 2 * i], 1);
            assert_eq!(start.cells()[width + 2 * i + 1] as usize, i + 1);
        }
    }
}

#[test]
fn opening_board_needs_two_values() {
    assert!(FullBoard::with_radix(0).is_none());
    assert!(FullBoard::with_radix(1).is_none());
    assert_eq!(FullBoard::with_radix(2).unwrap().cells().as_slice(), &[1, 1, 1]);
}

#[test]
fn classic_opening_is_the_opening_for_radix_ten() {
    assert_eq!(FullBoard::new(), FullBoard::with_radix(10).unwrap());
}

#[test]
fn cells_must_stay_below_the_radix() {
    assert!(FullBoard::from_cells(4, vec![1, 4]).is_none());
    assert!(FullBoard::from_cells(4, vec![255]).is_none());
    assert!(FullBoard::from_cells(1, vec![]).is_none());
    assert!(FullBoard::from_cells(0, vec![0]).is_none());
    let made = FullBoard::from_cells(4, vec![0, 3, 1]).unwrap();
    assert_eq!(made.cells().as_slice(), &[0, 3, 1]);
    assert_eq!(made.radix(), 4);
    assert!(FullBoard::from_cells(2, vec![]).is_some());
}

#[test]
fn equal_values_match_and_so_do_values_that_sum_to_the_radix() {
    assert!(is_match(1, 1, 10));
    assert!(is_match(3, 7, 10));
    assert!(is_match(5, 5, 10));
    assert!(is_match(9, 1, 10));
    assert!(!is_match(3, 6, 10));
    assert!(!is_match(1, 2, 4));
    assert!(is_match(1, 3, 4));
    assert!(is_match(200, 55, 255));
    assert!(!is_match(200, 56, 255));
    assert!(!is_match(255, 1, 0));
}

#[test]
fn match_rule_is_symmetric() {
    for radix in 0..=255u8 {
        for a in 0..radix {
            for b in 0..radix {
                assert_eq!(is_match(a, b, radix), is_match(b, a, radix));
            }
        }
    }
}

#[test]
fn a_board_is_solved_when_every_cell_is_dead() {
    assert!(board(4, &[]).is_goal());
    assert!(board(4, &[0, 0]).is_goal());
    assert!(!board(4, &[0, 1]).is_goal());
    assert!(!board(4, &[2, 0, 0]).is_goal());
    assert!(!FullBoard::new().is_goal());
}

#[test]
fn live_cells_are_counted() {
    assert_eq!(board(4, &[]).count_live(), 0);
    assert_eq!(board(4, &[0, 0]).count_live(), 0);
    assert_eq!(board(4, &[1, 0, 3, 0, 0, 1, 2, 0, 3]).count_live(), 5);
    assert_eq!(FullBoard::new().count_live(), 27);
}

#[test]
fn score_is_half_the_live_cells_when_they_pair_off() {
    assert_eq!(board(4, &[]).compute_h_score(), 0);
    assert_eq!(board(4, &[0]).compute_h_score(), 0);
    assert_eq!(board(4, &[1, 1]).compute_h_score(), 1);
    assert_eq!(board(4, &[1, 0, 2, 3, 0, 1]).compute_h_score(), 2);
    assert_eq!(board(10, &[5; 100]).compute_h_score(), 50);
}

#[test]
fn score_counts_a_duplication_and_a_crossing_for_a_cell_left_over() {
    assert_eq!(board(4, &[1]).compute_h_score(), 2);
    assert_eq!(board(4, &[0, 0, 1]).compute_h_score(), 2);
    assert_eq!(board(4, &[1, 2, 3]).compute_h_score(), 3);
    assert_eq!(FullBoard::with_radix(4).unwrap().compute_h_score(), 6);
    assert_eq!(FullBoard::new().compute_h_score(), 15);
    assert_eq!(board(10, &[5; 101]).compute_h_score(), 52);
}

#[test]
fn first_live_cell_from_a_position() {
    let b = board(4, &[0, 3, 0, 0, 1, 0]);
    assert_eq!(b.find_first(0), Some((1, 3)));
    assert_eq!(b.find_first(1), Some((1, 3)));
    assert_eq!(b.find_first(2), Some((4, 1)));
    assert_eq!(b.find_first(4), Some((4, 1)));
    assert_eq!(b.find_first(5), None);
    assert_eq!(b.find_first(6), None);
    assert_eq!(board(4, &[]).find_first(0), None);
}

#[test]
fn last_live_cell_before_a_position() {
    let b = board(4, &[0, 3, 0, 0, 1, 0]);
    assert_eq!(b.find_prev(0), None);
    assert_eq!(b.find_prev(1), None);
    assert_eq!(b.find_prev(2), Some((1, 3)));
    assert_eq!(b.find_prev(4), Some((1, 3)));
    assert_eq!(b.find_prev(5), Some((4, 1)));
    assert_eq!(b.find_prev(6), Some((4, 1)));
}

#[test]
fn nearest_live_cell_down_the_column() {
    let b = board(4, &[1, 2, 3, 0, 0, 1, 2, 0, 3, 1]);
    assert_eq!(b.find_down(0), Some((6, 2)));
    assert_eq!(b.find_down(1), None);
    assert_eq!(b.find_down(2), Some((5, 1)));
    assert_eq!(b.find_down(3), Some((6, 2)));
    assert_eq!(b.find_down(6), Some((9, 1)));
    assert_eq!(b.find_down(7), None);
    assert_eq!(b.find_down(9), None);
    assert_eq!(b.find_down(10), None);
    let narrow = board(2, &[1, 0, 0, 1]);
    assert_eq!(narrow.find_down(0), Some((3, 1)));
}

#[test]
fn duplication_appends_the_live_cells_in_order() {
    let b = board(4, &[1, 0, 3, 0, 0, 1, 2, 0, 3]);
    let twice = FullBoard::new_duplicated(&b);
    assert_eq!(twice.cells().as_slice(), &[1, 0, 3, 0, 0, 1, 2, 0, 3, 1, 3, 1, 2, 3]);
    assert_eq!(twice.radix(), 4);
    assert_eq!(b.cells().as_slice(), &[1, 0, 3, 0, 0, 1, 2, 0, 3]);
    assert_eq!(b.apply_move(BoardMove::Duplicate), twice);
}

#[test]
fn duplication_doubles_the_live_cells() {
    let boards = [
        board(4, &[]),
        board(4, &[0, 0]),
        board(4, &[1]),
        board(4, &[0, 0, 1]),
        board(4, &[1, 0, 3, 0, 0, 1, 2, 0, 3]),
        FullBoard::with_radix(4).unwrap(),
        FullBoard::new(),
    ];
    for b in boards.iter() {
        let k = live(b);
        let twice = b.apply_move(BoardMove::Duplicate);
        assert_eq!(live(&twice), 2 * k);
        assert_eq!(twice.count_live(), 2 * k);
        assert_eq!(twice.cells().len(), b.cells().len() + k);
        assert_eq!(&twice.cells()[..b.cells().len()], b.cells().as_slice());
    }
}

#[test]
fn crossing_kills_both_cells() {
    let start = FullBoard::with_radix(4).unwrap();
    assert_eq!(
        start.apply_move(BoardMove::CrossDownFrom(0, 3)).cells().as_slice(),
        &[0, 2, 3, 0, 1, 1, 2, 1, 3]
    );
    assert_eq!(
        start.apply_move(BoardMove::CrossDownFrom(4, 7)).cells().as_slice(),
        &[1, 2, 3, 1, 0, 1, 2, 0, 3]
    );
    assert_eq!(start.cells().as_slice(), &[1, 2, 3, 1, 1, 1, 2, 1, 3]);
    let classic = FullBoard::new().apply_move(BoardMove::CrossRightFrom(25, 26));
    assert_eq!(
        classic.cells().as_slice(),
        &[1, 2, 3, 4, 5, 6, 7, 8, 9, 1, 1, 1, 2, 1, 3, 1, 4, 1, 5, 1, 6, 1, 7, 1, 8, 0, 0]
    );
}

#[test]
fn crossing_removes_whole_rows_of_dead_cells() {
    let b = board(4, &[1, 0, 3, 0, 0, 1, 2, 0, 3]);
    assert_eq!(
        b.apply_move(BoardMove::CrossRightFrom(0, 2)).cells().as_slice(),
        &[0, 0, 1, 2, 0, 3]
    );
    assert_eq!(
        b.apply_move(BoardMove::CrossDownFrom(5, 8)).cells().as_slice(),
        &[1, 0, 3, 2, 0, 0]
    );
    let wide = board(5, &[2, 0, 0, 3, 0, 0, 0, 0, 2, 1, 4]);
    assert_eq!(
        wide.apply_move(BoardMove::CrossDownFrom(0, 8)).cells().as_slice(),
        &[0, 0, 0, 3, 0, 1, 4]
    );
    assert_eq!(wide.apply_move(BoardMove::CrossRightFrom(3, 8)).cells().as_slice(), &[2, 1, 4]);
    assert_eq!(
        wide.apply_move(BoardMove::CrossRightFrom(9, 10)).cells().as_slice(),
        &[2, 0, 0, 3, 0, 0, 0, 0, 2, 0, 0]
    );
    let long_run = board(4, &[0, 3, 0, 0, 1, 0, 0, 0, 1]);
    assert_eq!(
        long_run.apply_move(BoardMove::CrossDownFrom(1, 4)).cells().as_slice(),
        &[0, 0, 1]
    );
    let tail = board(4, &[1, 1, 0, 1]);
    assert_eq!(tail.apply_move(BoardMove::CrossRightFrom(1, 3)).cells().as_slice(), &[1]);
    assert_eq!(
        tail.apply_move(BoardMove::CrossDownFrom(0, 3)).cells().as_slice(),
        &[0, 1, 0, 0]
    );
}

#[test]
fn crossing_the_last_pair_leaves_less_than_a_row() {
    assert_eq!(
        board(4, &[2, 2]).apply_move(BoardMove::CrossRightFrom(0, 1)).cells().as_slice(),
        &[0, 0]
    );
    let solved = board(4, &[1, 0, 0, 0, 0, 0, 0, 3]).apply_move(BoardMove::CrossRightFrom(0, 7));
    assert_eq!(solved.cells().as_slice(), &[0, 0]);
    assert!(solved.is_goal());
    let empty = board(4, &[1, 0, 3]).apply_move(BoardMove::CrossRightFrom(0, 2));
    assert_eq!(empty.cells().len(), 0);
    assert!(empty.is_goal());
}

#[test]
fn new_without_is_what_a_crossing_does() {
    let b = board(4, &[1, 0, 3, 0, 0, 1, 2, 0, 3]);
    assert_eq!(FullBoard::new_without(&b, 0, 2), b.apply_move(BoardMove::CrossRightFrom(0, 2)));
    assert_eq!(FullBoard::new_without(&b, 5, 8), b.apply_move(BoardMove::CrossDownFrom(5, 8)));
    assert_eq!(FullBoard::new_without(&b, 0, 2).cells().as_slice(), &[0, 0, 1, 2, 0, 3]);
}

#[test]
fn dead_runs_lose_their_whole_rows() {
    let mut b = board(4, &[1, 0, 0, 0, 2]);
    b.clean_dead_around(2);
    assert_eq!(b.cells().as_slice(), &[1, 2]);

    let mut b = board(4, &[0, 0, 0, 0, 0, 0, 0]);
    b.clean_dead_around(3);
    assert_eq!(b.cells().as_slice(), &[0]);

    let mut b = board(4, &[1, 0, 0, 0, 0, 2, 0, 0, 0]);
    b.clean_dead_around(6);
    assert_eq!(b.cells().as_slice(), &[1, 0, 0, 0, 0, 2]);
    b.clean_dead_around(1);
    assert_eq!(b.cells().as_slice(), &[1, 0, 2]);
    assert_eq!(b.radix(), 4);
}

#[test]
fn short_runs_and_live_cells_are_left_alone() {
    let mut b = board(4, &[1, 0, 0, 2]);
    b.clean_dead_around(1);
    assert_eq!(b.cells().as_slice(), &[1, 0, 0, 2]);
    b.clean_dead_around(0);
    assert_eq!(b.cells().as_slice(), &[1, 0, 0, 2]);
    b.clean_dead_around(3);
    assert_eq!(b.cells().as_slice(), &[1, 0, 0, 2]);
    b.clean_dead_around(4);
    assert_eq!(b.cells().as_slice(), &[1, 0, 0, 2]);
    b.clean_dead_around(usize::MAX);
    assert_eq!(b.cells().as_slice(), &[1, 0, 0, 2]);
}

#[test]
fn a_copy_of_a_board_is_equal_to_it() {
    let b = board(5, &[2, 0, 0, 3, 0, 0, 0, 0, 2, 1, 4]);
    let copy = b.clone();
    assert_eq!(copy, b);
    assert_eq!(copy.cells(), b.cells());
    assert_eq!(copy.radix(), b.radix());
}
