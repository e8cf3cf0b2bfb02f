use game99::board::{BoardMove, FullBoard};
use game99::cell::is_match;
use game99::moves::MovesIter;

fn board(radix: u8, cells: &[u8]) -> FullBoard {
    FullBoard::from_cells(radix, cells.to_vec()).expect("valid cells")
}

fn all_moves(board: &FullBoard) -> Vec<BoardMove> {
    let mut iter = board.moves();
    let mut found = Vec::new();
    while let Some(the_move) = iter.next() {
        found.push(the_move);
    }
    assert_eq!(iter.next(), None);
    found
}

#[test]
fn moves_of_the_opening_board_for_radix_four() {
    assert_eq!(
        all_moves(&FullBoard::with_radix(4).unwrap()),
        vec![
            BoardMove::Duplicate,
            BoardMove::CrossDownFrom(0, 3),
            BoardMove::CrossDownFrom(2, 5),
            BoardMove::CrossDownFrom(4, 7)
        ]
    );
}

#[test]
fn moves_of_the_classic_opening_board() {
    assert_eq!(
        all_moves(&FullBoard::new()),
        vec![
            BoardMove::Duplicate,
            BoardMove::CrossDownFrom(0, 9),
            BoardMove::CrossDownFrom(8, 17),
            BoardMove::CrossDownFrom(10, 19),
            BoardMove::CrossRightFrom(25, 26)
        ]
    );
}

#[test]
fn moves_skip_dead_cells() {
    assert_eq!(
        all_moves(&board(4, &[1, 0, 3, 0, 0, 1, 2, 0, 3])),
        vec![
            BoardMove::Duplicate,
            BoardMove::CrossRightFrom(0, 2),
            BoardMove::CrossDownFrom(5, 8)
        ]
    );
    assert_eq!(
        all_moves(&board(5, &[2, 0, 0, 3, 0, 0, 0, 0, 2, 1, 4])),
        vec![
            BoardMove::Duplicate,
            BoardMove::CrossDownFrom(0, 8),
            BoardMove::CrossRightFrom(3, 8),
            BoardMove::CrossRightFrom(9, 10)
        ]
    );
    assert_eq!(
        all_moves(&board(4, &[0, 3, 0, 0, 1, 0, 0, 0, 1])),
        vec![BoardMove::Duplicate, BoardMove::CrossDownFrom(1, 4)]
    );
}

#[test]
fn every_board_with_a_live_cell_offers_the_duplication_first() {
    let boards = [
        board(4, &[1]),
        board(4, &[0, 0, 1]),
        board(4, &[1, 2]),
        board(4, &[1, 2, 1, 2]),
        board(10, &[5, 5, 5]),
        FullBoard::with_radix(2).unwrap(),
        FullBoard::with_radix(3).unwrap(),
        FullBoard::with_radix(4).unwrap(),
        FullBoard::new(),
    ];
    for b in boards.iter() {
        let found = all_moves(b);
        assert!(found.len() >= 1);
        assert_eq!(found[0], BoardMove::Duplicate);
        assert_eq!(found.iter().filter(|m| **m == BoardMove::Duplicate).count(), 1);
    }
}

#[test]
fn a_board_without_matches_offers_the_duplication_only() {
    assert_eq!(all_moves(&board(4, &[0, 0, 1])), vec![BoardMove::Duplicate]);
    assert_eq!(all_moves(&board(4, &[1, 2])), vec![BoardMove::Duplicate]);
    assert_eq!(all_moves(&board(4, &[1, 2, 1, 2])), vec![BoardMove::Duplicate]);
}

#[test]
fn a_cell_crosses_down_rather_than_right() {
    assert_eq!(
        all_moves(&board(4, &[2, 2, 2, 2])),
        vec![
            BoardMove::Duplicate,
            BoardMove::CrossDownFrom(0, 3),
            BoardMove::CrossRightFrom(1, 2)
        ]
    );
}

#[test]
fn a_cell_taken_by_a_crossing_starts_none() {
    assert_eq!(
        all_moves(&board(10, &[5, 5, 5])),
        vec![BoardMove::Duplicate, BoardMove::CrossRightFrom(0, 1)]
    );
    assert_eq!(
        all_moves(&board(4, &[1, 3, 1])),
        vec![BoardMove::Duplicate, BoardMove::CrossRightFrom(0, 1)]
    );
    assert_eq!(
        all_moves(&board(10, &[1, 9, 1, 9])),
        vec![
            BoardMove::Duplicate,
            BoardMove::CrossRightFrom(0, 1),
            BoardMove::CrossRightFrom(2, 3)
        ]
    );
}

#[test]
fn a_cell_taken_by_a_crossing_can_be_taken_again() {
    assert_eq!(
        all_moves(&board(4, &[1, 1, 0, 1])),
        vec![
            BoardMove::Duplicate,
            BoardMove::CrossDownFrom(0, 3),
            BoardMove::CrossRightFrom(1, 3)
        ]
    );
}

#[test]
fn enumerating_twice_gives_the_same_moves() {
    let start = FullBoard::new();
    let first = all_moves(&start);
    let second = all_moves(&start);
    let copy = all_moves(&start.clone());
    assert_eq!(first, second);
    assert_eq!(first, copy);
}

#[test]
fn every_crossing_joins_two_live_cells_that_match() {
    let mut b = FullBoard::new();
    for round in 0..12usize {
        let found = all_moves(&b);
        for the_move in found.iter() {
            match *the_move {
                BoardMove::Duplicate => {}
                BoardMove::CrossDownFrom(a, c) => {
                    let cells = b.cells();
                    assert!(a < c && c < cells.len());
                    assert!(cells[a] != 0 && cells[c] != 0);
                    assert!(is_match(cells[a], cells[c], b.radix()));
                    assert_eq!((c - a) % b.width(), 0);
                    assert_eq!(b.find_down(a), Some((c, cells[c])));
                }
                BoardMove::CrossRightFrom(a, c) => {
                    let cells = b.cells();
                    assert!(a < c && c < cells.len());
                    assert!(cells[a] != 0 && cells[c] != 0);
                    assert!(is_match(cells[a], cells[c], b.radix()));
                    assert_eq!(b.find_first(a + 1), Some((c, cells[c])));
                }
            }
        }
        let pick = if found.len() > 1 { 1 + round % (found.len() - 1) } else { 0 };
        b = b.apply_move(found[pick]);
        if b.is_goal() {
            break;
        }
    }
}

#[test]
fn the_move_at_a_place_is_found_by_its_number() {
    let start = FullBoard::with_radix(4).unwrap();
    assert_eq!(start.moves().nth(0), Some(BoardMove::Duplicate));
    assert_eq!(start.moves().nth(1), Some(BoardMove::CrossDownFrom(0, 3)));
    assert_eq!(start.moves().nth(3), Some(BoardMove::CrossDownFrom(4, 7)));
    assert_eq!(start.moves().nth(4), None);
    assert_eq!(start.moves().nth(usize::MAX), None);
    let mut iter = start.moves();
    assert_eq!(iter.nth(1), Some(BoardMove::CrossDownFrom(0, 3)));
    assert_eq!(iter.nth(0), Some(BoardMove::CrossDownFrom(2, 5)));
    assert_eq!(iter.nth(1), None);
    assert_eq!(iter.next(), None);
}

#[test]
fn an_enumeration_can_be_started_directly() {
    let start = FullBoard::with_radix(3).unwrap();
    let mut iter = MovesIter::new(&start);
    assert_eq!(iter.next(), Some(BoardMove::Duplicate));
    assert_eq!(iter.next(), Some(BoardMove::CrossDownFrom(0, 2)));
    assert_eq!(iter.next(), Some(BoardMove::CrossDownFrom(1, 3)));
    assert_eq!(iter.next(), Some(BoardMove::CrossRightFrom(4, 5)));
    assert_eq!(iter.next(), None);
    assert_eq!(iter.next(), None);
}
