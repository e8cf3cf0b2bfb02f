use game99::board::{BoardMove, FullBoard};
use game99::path::{reconstruct_path, reconstruct_rev_moves, reconstruct_state, IncrementalNode};

fn node(prev_index: usize, move_index: usize) -> IncrementalNode {
    IncrementalNode { prev_index, move_index }
}

#[test]
fn the_way_back_lists_the_last_move_first() {
    let arena = vec![node(0, 0), node(0, 1), node(1, 2), node(2, 0), node(1, 5)];
    assert_eq!(reconstruct_rev_moves(0, &arena), Some(vec![]));
    assert_eq!(reconstruct_rev_moves(1, &arena), Some(vec![1]));
    assert_eq!(reconstruct_rev_moves(2, &arena), Some(vec![2, 1]));
    assert_eq!(reconstruct_rev_moves(3, &arena), Some(vec![0, 2, 1]));
    assert_eq!(reconstruct_rev_moves(4, &arena), Some(vec![5, 1]));
}

#[test]
fn a_node_may_be_reached_from_a_later_node() {
    let arena = vec![node(0, 0), node(3, 4), node(0, 7), node(2, 1)];
    assert_eq!(reconstruct_rev_moves(1, &arena), Some(vec![4, 1, 7]));
}

#[test]
fn the_way_back_must_stay_in_the_record() {
    let arena = vec![node(0, 0), node(5, 1), node(1, 2)];
    assert_eq!(reconstruct_rev_moves(3, &arena), None);
    assert_eq!(reconstruct_rev_moves(usize::MAX, &arena), None);
    assert_eq!(reconstruct_rev_moves(1, &arena), None);
    assert_eq!(reconstruct_rev_moves(2, &arena), None);
    assert_eq!(reconstruct_rev_moves(1, &vec![]), None);
    assert_eq!(reconstruct_rev_moves(0, &vec![]), Some(vec![]));
}

#[test]
fn the_way_back_must_end() {
    let arena = vec![node(0, 0), node(2, 0), node(1, 0), node(3, 0)];
    assert_eq!(reconstruct_rev_moves(1, &arena), None);
    assert_eq!(reconstruct_rev_moves(2, &arena), None);
    assert_eq!(reconstruct_rev_moves(3, &arena), None);
}

#[test]
fn the_longest_way_back_passes_every_node_once() {
    let mut arena = vec![node(0, 0)];
    for i in 1..50usize {
        arena.push(node(i - 1, i));
    }
    let rev = reconstruct_rev_moves(49, &arena).unwrap();
    assert_eq!(rev.len(), 49);
    assert_eq!(rev[0], 49);
    assert_eq!(rev[48], 1);
}

#[test]
fn replaying_a_record_gives_the_moves_and_the_board() {
    let start = FullBoard::with_radix(4).unwrap();
    let arena = vec![node(0, 0), node(0, 3), node(1, 2), node(2, 0)];

    let (moves, board) = reconstruct_path(0, &arena, &start).unwrap();
    assert_eq!(moves, vec![]);
    assert_eq!(board, start);

    let (moves, board) = reconstruct_path(1, &arena, &start).unwrap();
    assert_eq!(moves, vec![BoardMove::CrossDownFrom(4, 7)]);
    assert_eq!(board.cells().as_slice(), &[1, 2, 3, 1, 0, 1, 2, 0, 3]);

    let (moves, board) = reconstruct_path(2, &arena, &start).unwrap();
    assert_eq!(moves, vec![BoardMove::CrossDownFrom(4, 7), BoardMove::CrossDownFrom(2, 5)]);
    assert_eq!(board.cells().as_slice(), &[1, 2, 0, 1, 0, 0, 2, 0, 3]);

    let (moves, board) = reconstruct_path(3, &arena, &start).unwrap();
    assert_eq!(
        moves,
        vec![
            BoardMove::CrossDownFrom(4, 7),
            BoardMove::CrossDownFrom(2, 5),
            BoardMove::Duplicate
        ]
    );
    assert_eq!(board.cells().as_slice(), &[1, 2, 0, 1, 0, 0, 2, 0, 3, 1, 2, 1, 2, 3]);
    assert_eq!(board.radix(), 4);
}

#[test]
fn replaying_the_moves_one_by_one_gives_the_same_board() {
    let start = FullBoard::with_radix(4).unwrap();
    let arena = vec![node(0, 0), node(0, 3), node(1, 2), node(2, 1), node(3, 1), node(4, 0)];
    for index in 0..arena.len() {
        let (moves, board) = reconstruct_path(index, &arena, &start).unwrap();
        let mut replayed = start.clone();
        for the_move in moves.iter() {
            replayed = replayed.apply_move(*the_move);
        }
        assert_eq!(replayed, board);
        let (cost, state) = reconstruct_state(index, &arena, &start).unwrap();
        assert_eq!(cost, moves.len());
        assert_eq!(cost, index);
        assert_eq!(state, board);
    }
}

#[test]
fn a_record_of_a_move_that_the_board_does_not_offer_is_not_replayed() {
    let start = FullBoard::with_radix(4).unwrap();
    let arena = vec![node(0, 0), node(0, 4), node(0, 3), node(2, 3)];
    assert!(reconstruct_path(1, &arena, &start).is_none());
    assert!(reconstruct_state(1, &arena, &start).is_none());
    assert!(reconstruct_path(2, &arena, &start).is_some());
    assert!(reconstruct_path(3, &arena, &start).is_none());
    assert!(reconstruct_path(7, &arena, &start).is_none());
}

#[test]
fn a_record_is_not_replayed_past_a_solved_board() {
    let start = FullBoard::from_cells(4, vec![2, 2]).unwrap();
    let arena = vec![node(0, 0), node(0, 1), node(1, 0)];
    let (moves, board) = reconstruct_path(1, &arena, &start).unwrap();
    assert_eq!(moves, vec![BoardMove::CrossRightFrom(0, 1)]);
    assert!(board.is_goal());
    assert!(reconstruct_path(2, &arena, &start).is_none());
    let solved = FullBoard::from_cells(4, vec![0]).unwrap();
    assert!(reconstruct_path(1, &arena, &solved).is_none());
    assert_eq!(reconstruct_state(0, &arena, &solved), Some((0, solved.clone())));
}
