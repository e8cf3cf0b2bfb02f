//! What holds of every board and every move, stated over the model of
//! the board and proved once.

use vstd::prelude::*;
use crate::board::{applicable, apply, legal, play, BoardMove, FullBoard};
use crate::digest::fingerprint;
use crate::path::{lemma_replay_is_play, reconstruct, rev_moves, IncrementalNode};
use crate::search::solves;
use crate::layout::{
    all_dead, compact, count_live, duplicated, heuristic, lemma_compact_count, lemma_compact_valid,
    lemma_count_live_add, lemma_count_live_dead, lemma_count_live_kill, lemma_count_live_zero,
    lemma_live_cells_idempotent, lemma_live_cells_valid, lemma_next_live, lemma_next_live_down,
    live_cells, row_width, valid_cells,
};
use crate::moves::{legal_moves, lemma_legal_moves};

verus! {

/// A board offers at least one move, the duplication, and it comes first.
pub proof fn law_moves_never_empty(cells: Seq<u8>, radix: u8)
    ensures
        legal_moves(cells, radix).len() >= 1,
        legal_moves(cells, radix)[0] == BoardMove::Duplicate,
{
}

/// Every move that a board offers is a move of the game on that board.
pub proof fn law_offered_moves_are_legal(cells: Seq<u8>, radix: u8, k: int)
    requires
        valid_cells(cells, radix),
        cells.len() <= usize::MAX,
        0 <= k < legal_moves(cells, radix).len(),
    ensures
        legal(cells, radix, legal_moves(cells, radix)[k]),
{
    lemma_legal_moves(cells, radix);
}

/// A move of the game can be applied: its positions are on the board and
/// their values match.
pub proof fn law_legal_is_applicable(cells: Seq<u8>, radix: u8, the_move: BoardMove)
    requires
        legal(cells, radix, the_move),
    ensures
        applicable(cells, radix, the_move),
{
}

/// A board is solved exactly when it has no live cell.
pub proof fn law_solved_boards_have_no_live_cell(cells: Seq<u8>)
    ensures
        all_dead(cells) <==> count_live(cells) == 0,
{
    if all_dead(cells) {
        lemma_count_live_dead(cells);
    }
    if count_live(cells) == 0 {
        lemma_count_live_zero(cells);
    }
}

/// Duplicating a board with k live cells gives a board with 2k live cells
/// that is k cells longer.
pub proof fn law_duplicate_doubles(cells: Seq<u8>)
    ensures
        count_live(duplicated(cells)) == 2 * count_live(cells),
        duplicated(cells).len() == cells.len() + count_live(cells),
{
    lemma_count_live_add(cells, live_cells(cells));
    lemma_live_cells_idempotent(cells);
}

/// The two cells that a move crosses out.
pub open spec fn crossed(the_move: BoardMove) -> (int, int) {
    match the_move {
        BoardMove::CrossDownFrom(a, b) => (a as int, b as int),
        BoardMove::CrossRightFrom(a, b) => (a as int, b as int),
        BoardMove::Duplicate => (0, 0),
    }
}

/// A crossing of the game removes two live cells and nothing else that is
/// live: every other live cell stays, in its order.
pub proof fn law_crossing_removes_two(cells: Seq<u8>, radix: u8, the_move: BoardMove)
    requires
        valid_cells(cells, radix),
        legal(cells, radix, the_move),
        the_move != BoardMove::Duplicate,
    ensures
        count_live(cells) >= 2,
        count_live(apply(cells, radix, the_move)) == count_live(cells) - 2,
        live_cells(apply(cells, radix, the_move)) == live_cells(
            cells.update(crossed(the_move).0, 0).update(crossed(the_move).1, 0),
        ),
{
    let width = row_width(radix);
    let (a, b) = crossed(the_move);
    lemma_next_live_down(cells, width, a + width);
    lemma_next_live(cells, a + 1);
    assert(a < b);
    assert(cells[b] != 0);
    let one = cells.update(a, 0);
    let two = one.update(b, 0);
    lemma_count_live_kill(cells, a);
    lemma_count_live_kill(one, b);
    lemma_compact_count(two, width, b);
    lemma_compact_count(compact(two, width, b), width, a);
}

/// A move of the game leads from a valid board to a valid board.
pub proof fn law_moves_keep_boards_valid(cells: Seq<u8>, radix: u8, the_move: BoardMove)
    requires
        valid_cells(cells, radix),
        legal(cells, radix, the_move),
    ensures
        valid_cells(apply(cells, radix, the_move), radix),
{
    match the_move {
        BoardMove::Duplicate => {
            lemma_live_cells_valid(cells, radix);
        },
        BoardMove::CrossDownFrom(a, b) | BoardMove::CrossRightFrom(a, b) => {
            let two = cells.update(a as int, 0).update(b as int, 0);
            lemma_compact_valid(two, radix, b as int);
            lemma_compact_valid(compact(two, row_width(radix), b as int), radix, a as int);
        },
    }
}

/// One move lowers the score of a board by one at most.
pub proof fn law_heuristic_consistent(cells: Seq<u8>, radix: u8, the_move: BoardMove)
    requires
        valid_cells(cells, radix),
        legal(cells, radix, the_move),
    ensures
        heuristic(count_live(cells)) <= 1 + heuristic(count_live(apply(cells, radix, the_move))),
{
    if the_move == BoardMove::Duplicate {
        law_duplicate_doubles(cells);
    } else {
        law_crossing_removes_two(cells, radix, the_move);
    }
}

/// The score of a board never exceeds the number of moves of any play that
/// solves it.
pub proof fn law_heuristic_admissible(cells: Seq<u8>, radix: u8, moves: Seq<BoardMove>)
    requires
        valid_cells(cells, radix),
        play(cells, radix, moves) matches Some(end) && all_dead(end),
    ensures
        heuristic(count_live(cells)) <= moves.len(),
    decreases moves.len(),
{
    if moves.len() == 0 {
        lemma_count_live_dead(cells);
    } else {
        law_heuristic_consistent(cells, radix, moves[0]);
        law_moves_keep_boards_valid(cells, radix, moves[0]);
        law_heuristic_admissible(apply(cells, radix, moves[0]), radix, moves.drop_first());
    }
}

/// Boards with the same cells have the same fingerprint, however they came
/// about and whatever their radix.
pub proof fn law_fingerprint_follows_content(one: FullBoard, other: FullBoard)
    requires
        one@ == other@,
    ensures
        fingerprint(one@) == fingerprint(other@),
{
}

/// What a record replays to is a play of the game: the moves lead from the
/// first board to the board that is reported with them, which is a valid
/// board.
pub proof fn law_record_replays_to_a_play(
    arena: Seq<IncrementalNode>,
    cells: Seq<u8>,
    radix: u8,
    node: usize,
)
    requires
        valid_cells(cells, radix),
        reconstruct(arena, cells, radix, node) is Some,
    ensures
        reconstruct(arena, cells, radix, node) matches Some((moves, end)) && play(
            cells,
            radix,
            moves,
        ) == Some(end) && valid_cells(end, radix),
{
    let rev = rev_moves(arena, node, arena.len())->0;
    lemma_replay_is_play(cells, radix, rev.reverse());
}

/// Moves that solve a board are at least as many as its score.
pub proof fn law_solution_is_no_shorter_than_the_score(
    cells: Seq<u8>,
    radix: u8,
    path: Seq<BoardMove>,
)
    requires
        valid_cells(cells, radix),
        solves(cells, radix, path),
    ensures
        heuristic(count_live(cells)) <= path.len(),
{
    law_heuristic_admissible(cells, radix, path);
}

} // verus!
