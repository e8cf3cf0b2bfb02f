use game99::board::{BoardMove, FullBoard};
use game99::path::reconstruct_state;
use game99::search::{run, run_bounded, Outcome, Search, SearchError};
use std::collections::{HashSet, VecDeque};

fn board(radix: u8, cells: &[u8]) -> FullBoard {
    FullBoard::from_cells(radix, cells.to_vec()).expect("valid cells")
}

fn all_moves(board: &FullBoard) -> Vec<BoardMove> {
    let mut iter = board.moves();
    let mut found = Vec::new();
    while let Some(the_move) = iter.next() {
        found.push(the_move);
    }
    found
}

fn replay(start: &FullBoard, path: &[BoardMove]) -> FullBoard {
    let mut board = start.clone();
    for the_move in path.iter() {
        assert!(!board.is_goal());
        assert!(all_moves(&board).contains(the_move));
        board = board.apply_move(*the_move);
    }
    board
}

fn shortest_by_breadth_first(start: &FullBoard) -> usize {
    if start.is_goal() {
        return 0;
    }
    let mut known: HashSet<Vec<u8>> = HashSet::new();
    let mut queue: VecDeque<(FullBoard, usize)> = VecDeque::new();
    known.insert(start.cells().clone());
    queue.push_back((start.clone(), 0));
    while let Some((board, depth)) = queue.pop_front() {
        for the_move in all_moves(&board) {
            let next = board.apply_move(the_move);
            if next.is_goal() {
                return depth + 1;
            }
            if known.insert(next.cells().clone()) {
                queue.push_back((next, depth + 1));
            }
        }
    }
    panic!("every board offers the duplication");
}

#[test]
fn radix_four_is_solved_in_as_few_moves_as_breadth_first_search_needs() {
    let start = FullBoard::with_radix(4).unwrap();
    assert_eq!(start.cells().as_slice(), &[1, 2, 3, 1, 1, 1, 2, 1, 3]);
    let path = run(&start).unwrap();
    assert!(!path.is_empty());
    let end = replay(&start, &path);
    assert!(end.is_goal());
    assert!(end.cells().iter().all(|c| *c == 0));
    assert_eq!(path.len(), shortest_by_breadth_first(&start));
    assert_eq!(path.len(), 6);
}

#[test]
fn small_radices_are_solved_in_as_few_moves_as_breadth_first_search_needs() {
    for (radix, moves) in [(2u8, 3usize), (3, 3), (5, 6)] {
        let start = FullBoard::with_radix(radix).unwrap();
        let path = run(&start).unwrap();
        assert!(replay(&start, &path).is_goal());
        assert_eq!(path.len(), moves);
        assert_eq!(path.len(), shortest_by_breadth_first(&start));
    }
}

#[test]
fn small_boards_are_solved_in_as_few_moves_as_breadth_first_search_needs() {
    let boards = [
        board(4, &[1]),
        board(4, &[2]),
        board(4, &[3, 1]),
        board(4, &[2, 2]),
        board(4, &[1, 3, 1]),
        board(4, &[1, 1, 0, 1]),
        board(4, &[0, 3, 0, 0, 1, 0, 0, 0, 1]),
        board(5, &[2, 0, 0, 3, 0, 0, 0, 0, 2, 1, 4]),
        board(10, &[5, 5, 5]),
        board(10, &[1, 9, 1, 9]),
    ];
    for start in boards.iter() {
        let path = run(start).unwrap();
        assert!(!path.is_empty());
        assert!(replay(start, &path).is_goal());
        assert_eq!(path.len(), shortest_by_breadth_first(start));
    }
}

#[test]
fn the_answer_is_the_same_every_time() {
    let start = FullBoard::with_radix(4).unwrap();
    let expected = vec![
        BoardMove::CrossDownFrom(4, 7),
        BoardMove::CrossDownFrom(2, 5),
        BoardMove::CrossDownFrom(0, 3),
        BoardMove::CrossRightFrom(1, 3),
        BoardMove::Duplicate,
        BoardMove::CrossRightFrom(2, 3),
    ];
    assert_eq!(run(&start), Ok(expected.clone()));
    assert_eq!(run(&start.clone()), Ok(expected));
    assert_eq!(
        run(&FullBoard::with_radix(3).unwrap()),
        Ok(vec![
            BoardMove::CrossRightFrom(4, 5),
            BoardMove::CrossDownFrom(1, 3),
            BoardMove::CrossDownFrom(0, 2),
        ])
    );
    assert_eq!(
        run(&FullBoard::with_radix(2).unwrap()),
        Ok(vec![
            BoardMove::CrossDownFrom(0, 1),
            BoardMove::Duplicate,
            BoardMove::CrossDownFrom(0, 1),
        ])
    );
    assert_eq!(
        run(&board(4, &[1])),
        Ok(vec![BoardMove::Duplicate, BoardMove::CrossRightFrom(0, 1)])
    );
    assert_eq!(run(&board(4, &[3, 1])), Ok(vec![BoardMove::CrossRightFrom(0, 1)]));
}

#[test]
fn larger_radices_are_solved() {
    for (radix, moves) in [(6u8, 9usize), (7, 9), (8, 20), (9, 16)] {
        let start = FullBoard::with_radix(radix).unwrap();
        let path = run(&start).unwrap();
        assert!(replay(&start, &path).is_goal());
        assert_eq!(path.len(), moves);
    }
}

#[test]
fn the_classic_game_is_solved() {
    let start = FullBoard::new();
    let path = run(&start).unwrap();
    assert!(replay(&start, &path).is_goal());
    assert_eq!(path.len(), 27);
    assert_eq!(path[0], BoardMove::CrossRightFrom(25, 26));
    assert_eq!(path[1], BoardMove::Duplicate);
    assert_eq!(path[26], BoardMove::CrossRightFrom(1, 3));
}

#[test]
fn a_solved_board_is_rejected() {
    assert_eq!(run(&board(4, &[0, 0])), Err(SearchError::AlreadySolved));
    assert_eq!(run(&board(4, &[])), Err(SearchError::AlreadySolved));
    assert_eq!(run(&board(10, &[0])), Err(SearchError::AlreadySolved));
    assert_eq!(run_bounded(&board(4, &[0, 0]), 0), Err(SearchError::AlreadySolved));
    assert_eq!(run_bounded(&board(4, &[0, 0]), 100), Err(SearchError::AlreadySolved));
    assert_ne!(run(&board(4, &[0, 0])), Ok(vec![]));
}

#[test]
fn a_search_stops_when_its_steps_are_used_up() {
    let start = FullBoard::with_radix(4).unwrap();
    for budget in 0..6 {
        assert_eq!(run_bounded(&start, budget), Err(SearchError::OutOfSteps));
    }
    assert_eq!(run_bounded(&start, 6).unwrap().len(), 6);
    assert_eq!(run_bounded(&start, 7), run(&start));
    let hopeless = board(4, &[1, 2]);
    assert_eq!(run_bounded(&hopeless, 0), Err(SearchError::OutOfSteps));
    assert_eq!(run_bounded(&hopeless, 5), Err(SearchError::OutOfSteps));
    assert_eq!(run_bounded(&hopeless, 12), Err(SearchError::OutOfSteps));
}

#[test]
fn a_search_can_be_made_step_by_step() {
    let start = FullBoard::with_radix(4).unwrap();
    let mut search = Search::new(&start);
    assert_eq!(search.arena().len(), 1);
    let mut steps = 0;
    let path = loop {
        steps += 1;
        match search.step() {
            Outcome::Solved(path) => break path,
            Outcome::Expanded { .. } | Outcome::Skipped => {}
            other => panic!("the search ended with {:?}", other),
        }
        assert!(steps < 100);
    };
    assert_eq!(steps, 6);
    assert_eq!(search.arena().len(), 15);
    assert_eq!(Ok(path), run(&start));
}

#[test]
fn the_first_step_records_what_the_first_board_leads_to() {
    let start = FullBoard::with_radix(4).unwrap();
    let mut search = Search::new(&start);
    assert!(matches!(search.step(), Outcome::Expanded { node: 0, score: 0, depth: 0 }));
    let arena = search.arena();
    assert_eq!(arena.len(), 5);
    for (index, place) in [(1usize, 0usize), (2, 1), (3, 2), (4, 3)] {
        assert_eq!(arena[index].prev_index, 0);
        assert_eq!(arena[index].move_index, place);
        let (cost, board) = reconstruct_state(index, arena, &start).unwrap();
        assert_eq!(cost, 1);
        assert_eq!(board, start.apply_move(all_moves(&start)[place]));
    }
}

#[test]
fn the_cost_of_every_recorded_board_is_the_number_of_its_moves() {
    let start = FullBoard::with_radix(5).unwrap();
    let mut search = Search::new(&start);
    for _ in 0..4 {
        assert!(matches!(search.step(), Outcome::Expanded { .. } | Outcome::Skipped));
    }
    let arena = search.arena();
    assert!(arena.len() > 10);
    for index in 0..arena.len() {
        let (cost, board) = reconstruct_state(index, arena, &start).unwrap();
        let mut depth = 0;
        let mut at = index;
        while at != 0 {
            at = arena[at].prev_index;
            depth += 1;
        }
        assert_eq!(cost, depth);
        assert!(!board.is_goal());
    }
}

fn solved_within(board: &FullBoard, moves: usize) -> bool {
    if board.is_goal() {
        return true;
    }
    if moves == 0 {
        return false;
    }
    all_moves(board).iter().any(|the_move| solved_within(&board.apply_move(*the_move), moves - 1))
}

#[test]
fn the_score_never_exceeds_the_moves_that_are_needed() {
    for radix in [2u8, 3, 4, 5] {
        let start = FullBoard::with_radix(radix).unwrap();
        let mut known: HashSet<Vec<u8>> = HashSet::new();
        let mut queue: VecDeque<FullBoard> = VecDeque::new();
        known.insert(start.cells().clone());
        queue.push_back(start.clone());
        let mut checked = 0;
        while let Some(board) = queue.pop_front() {
            if checked >= 300 {
                break;
            }
            checked += 1;
            let score = board.compute_h_score();
            assert!(score >= 1);
            assert!(!solved_within(&board, score - 1));
            for the_move in all_moves(&board) {
                let next = board.apply_move(the_move);
                assert!(score <= 1 + next.compute_h_score());
                if !next.is_goal() && next.cells().len() <= 14 && known.insert(next.cells().clone())
                {
                    queue.push_back(next);
                }
            }
        }
        assert!(checked > 5);
    }
}

#[test]
fn the_score_of_a_board_that_one_move_solves_is_one() {
    for start in [board(4, &[3, 1]), board(4, &[2, 2]), board(10, &[0, 4, 0, 0, 6])] {
        assert_eq!(start.compute_h_score(), 1);
        assert!(solved_within(&start, 1));
        assert_eq!(run(&start).unwrap().len(), 1);
    }
}
