//! Why the first solution that a search finds is a shortest one, as long
//! as no two boards that it meets share a fingerprint.

use vstd::prelude::*;
use crate::board::{apply, legal, play, BoardMove};
use crate::consistency::{
    admission_made, consistent, kept, lemma_admitted, ready, recorded_at, under_expansion,
};
use crate::digest::fingerprint;
use crate::frontier::{is_lowest, lemma_popped_slots, slot_holds, stack_at};
use crate::laws::{
    law_crossing_removes_two, law_duplicate_doubles, law_heuristic_admissible,
    law_heuristic_consistent, law_moves_keep_boards_valid, law_record_replays_to_a_play,
};
use crate::layout::{all_dead, count_live, heuristic, valid_cells};
use crate::moves::{legal_moves, lemma_legal_moves};
use crate::path::{reconstruct, IncrementalNode};
use crate::search::{admitted, seeded, taken_from, SearchView};

verus! {

/// The board that the move at place `k` of `board` leads to.
pub open spec fn successor(board: Seq<u8>, radix: u8, k: int) -> Seq<u8> {
    apply(board, radix, legal_moves(board, radix)[k])
}

/// The board that a sequence of moves leads to, where each of them is a move
/// that the board it meets offers, and a machine can hold every board on the
/// way.
pub open spec fn offered_play(cells: Seq<u8>, radix: u8, moves: Seq<BoardMove>) -> Option<Seq<u8>>
    decreases moves.len(),
{
    if moves.len() == 0 {
        Some(cells)
    } else if cells.len() <= usize::MAX && legal_moves(cells, radix).contains(moves[0]) {
        offered_play(apply(cells, radix, moves[0]), radix, moves.drop_first())
    } else {
        None
    }
}

/// Whether `moves` solve the board by moves that the boards on the way
/// offer.
pub open spec fn solves_by_offers(cells: Seq<u8>, radix: u8, moves: Seq<BoardMove>) -> bool {
    offered_play(cells, radix, moves) matches Some(end) && all_dead(end)
}

/// No moves that the boards on the way offer solve the board in fewer moves
/// than `length`.
pub open spec fn shortest(cells: Seq<u8>, radix: u8, length: nat) -> bool {
    forall|other: Seq<BoardMove>| #[trigger]
        solves_by_offers(cells, radix, other) ==> length <= other.len()
}

/// The board that the record replays `node` to.
pub open spec fn board_of(arena: Seq<IncrementalNode>, start: Seq<u8>, radix: u8, node: usize) -> Seq<
    u8,
> {
    reconstruct(arena, start, radix, node).unwrap().1
}

/// The number of moves by which the record replays `node`.
pub open spec fn depth_of(arena: Seq<IncrementalNode>, start: Seq<u8>, radix: u8, node: usize) -> nat {
    reconstruct(arena, start, radix, node).unwrap().0.len()
}

/// The table knows `board`, with a score that is no worse than the score of
/// the board at `depth`.
pub open spec fn covered(s: SearchView, board: Seq<u8>, depth: int) -> bool {
    &&& s.seen.contains_key(fingerprint(board))
    &&& s.met[fingerprint(board)] == board
    &&& s.seen[fingerprint(board)].0 <= depth + heuristic(count_live(board))
}

/// The first `upto` moves of `board` lead to boards that are not solved and
/// that the table knows at `depth`.
pub open spec fn moves_covered(s: SearchView, radix: u8, board: Seq<u8>, depth: int, upto: int) -> bool {
    forall|k: int|
        0 <= k < upto ==> !all_dead(#[trigger] successor(board, radix, k)) && covered(
            s,
            successor(board, radix, k),
            depth,
        )
}

/// What the table holds for `hash` stands for a board of the game.
pub open spec fn entry_sound(s: SearchView, radix: u8, hash: u128) -> bool {
    &&& s.met.contains_key(hash)
    &&& fingerprint(s.met[hash]) == hash
    &&& valid_cells(s.met[hash], radix)
    &&& !all_dead(s.met[hash])
    &&& s.met[hash].len() <= usize::MAX
    &&& heuristic(count_live(s.met[hash])) <= s.seen[hash].0
}

/// The board that the table knows by `hash` waits: the slot that the table
/// names holds a node, and the record replays that node to the board.
pub open spec fn entry_waits(s: SearchView, start: Seq<u8>, radix: u8, hash: u128) -> bool {
    let slot = slot_holds(s.open, s.seen[hash].0, s.seen[hash].1);
    &&& slot is Some
    &&& slot->0 != 0
    &&& reconstruct(s.arena, start, radix, slot->0) is Some
    &&& board_of(s.arena, start, radix, slot->0) == s.met[hash]
}

/// The board that the table knows by `hash` was expanded: its score is no
/// higher than `floor`, and the table knows every board that its moves lead
/// to, one move deeper.
pub open spec fn entry_settled(s: SearchView, radix: u8, hash: u128, floor: int) -> bool {
    let board = s.met[hash];
    &&& s.seen[hash].0 <= floor
    &&& moves_covered(
        s,
        radix,
        board,
        s.seen[hash].0 - heuristic(count_live(board)) + 1,
        legal_moves(board, radix).len() as int,
    )
}

/// The node in the slot at `position` of the stack of `score` waits under
/// the score of its board, and the table names that slot for the board.
pub open spec fn slot_sound(s: SearchView, start: Seq<u8>, radix: u8, score: u128, position: usize) -> bool {
    let node = slot_holds(s.open, score, position)->0;
    let board = board_of(s.arena, start, radix, node);
    &&& node != 0
    &&& score == depth_of(s.arena, start, radix, node) + heuristic(count_live(board))
    &&& s.seen.contains_key(fingerprint(board))
    &&& s.seen[fingerprint(board)] == (score, position)
    &&& s.met[fingerprint(board)] == board
}

/// The search is in order above `floor`: no node waits under a lower score,
/// every node that waits does so under the score of its board, and every
/// board that the table knows either waits or was expanded under a score
/// that is no higher. The board whose fingerprint is `busy` is exempt: it
/// is under expansion. `root_done` says that the first board was expanded.
pub open spec fn ordered(
    s: SearchView,
    start: Seq<u8>,
    radix: u8,
    floor: int,
    busy: Option<u128>,
    root_done: bool,
) -> bool {
    &&& forall|key: u128| #[trigger] s.open.contains_key(key) ==> floor <= key
    &&& forall|score: u128, position: usize|
        (#[trigger] slot_holds(s.open, score, position)) is Some ==> slot_sound(
            s,
            start,
            radix,
            score,
            position,
        )
    &&& forall|hash: u128| #[trigger]
        s.seen.contains_key(hash) ==> entry_sound(s, radix, hash) && (busy == Some(hash)
            || entry_waits(s, start, radix, hash) || entry_settled(s, radix, hash, floor))
    &&& root_done ==> moves_covered(s, radix, start, 1, legal_moves(start, radix).len() as int)
}

/// Nothing has happened yet: the first board waits, alone.
pub open spec fn pristine(s: SearchView) -> bool {
    &&& s.arena == seeded().arena
    &&& s.open == seeded().open
    &&& s.seen == seeded().seen
}

/// The search is in order between two steps, for all that its fingerprints
/// tell boards apart.
pub open spec fn in_order(s: SearchView, start: Seq<u8>, radix: u8) -> bool {
    s.clean ==> pristine(s) || exists|floor: int| #[trigger]
        ordered(s, start, radix, floor, None, true)
}

/// The search is in order while `node` is expanded and its first `from`
/// moves were tried.
pub open spec fn expanding(
    s: SearchView,
    start: Seq<u8>,
    radix: u8,
    node: usize,
    depth: nat,
    board: Seq<u8>,
    floor: int,
    from: int,
) -> bool {
    &&& floor <= depth + heuristic(count_live(board))
    &&& moves_covered(s, radix, board, depth as int + 1, from)
    &&& if node == 0 {
        &&& depth == 0
        &&& board == start
        &&& ordered(s, start, radix, floor, None, false)
    } else {
        &&& ordered(s, start, radix, floor, Some(fingerprint(board)), true)
        &&& s.seen.contains_key(fingerprint(board))
        &&& s.met[fingerprint(board)] == board
        &&& s.seen[fingerprint(board)].0 == depth + heuristic(count_live(board))
        &&& s.seen[fingerprint(board)].0 <= floor
    }
}

/// A play by offered moves is a play of the game, and it leads from a valid
/// board to a valid board.
pub proof fn lemma_offered_play_is_play(cells: Seq<u8>, radix: u8, moves: Seq<BoardMove>)
    requires
        valid_cells(cells, radix),
        offered_play(cells, radix, moves) is Some,
    ensures
        play(cells, radix, moves) == offered_play(cells, radix, moves),
    decreases moves.len(),
{
    if moves.len() > 0 {
        lemma_legal_moves(cells, radix);
        let k = choose|k: int|
            0 <= k < legal_moves(cells, radix).len() && legal_moves(cells, radix)[k] == moves[0];
        assert(legal_moves(cells, radix)[k] == moves[0]);
        law_moves_keep_boards_valid(cells, radix, moves[0]);
        lemma_offered_play_is_play(apply(cells, radix, moves[0]), radix, moves.drop_first());
    }
}

/// A board that is not solved has a score of one at least.
pub proof fn lemma_score_of_unsolved(cells: Seq<u8>)
    requires
        !all_dead(cells),
    ensures
        heuristic(count_live(cells)) >= 1,
{
    if count_live(cells) == 0 {
        crate::layout::lemma_count_live_zero(cells);
    }
}

/// From a board that the table knows at `depth`, or from the first board,
/// no play by offered moves reaches a solved board before the lowest score
/// that waits is used up.
pub proof fn lemma_lowest_bounds_play(
    s: SearchView,
    start: Seq<u8>,
    radix: u8,
    floor: int,
    low: u128,
    board: Seq<u8>,
    depth: int,
    rest: Seq<BoardMove>,
)
    requires
        ordered(s, start, radix, floor, None, true),
        is_lowest(s.open, low),
        valid_cells(board, radix),
        !all_dead(start),
        solves_by_offers(board, radix, rest),
        (board == start && depth == 0) || covered(s, board, depth),
    ensures
        low <= depth + rest.len(),
    decreases rest.len(),
{
    let hash = fingerprint(board);
    if covered(s, board, depth) && entry_waits(s, start, radix, hash) {
        assert(s.seen.contains_key(hash));
        assert(s.open.contains_key(s.seen[hash].0));
        lemma_offered_play_is_play(board, radix, rest);
        law_heuristic_admissible(board, radix, rest);
    } else {
        let spent: int = if covered(s, board, depth) {
            assert(s.seen.contains_key(hash));
            assert(entry_sound(s, radix, hash));
            assert(entry_settled(s, radix, hash, floor));
            s.seen[hash].0 - heuristic(count_live(board)) + 1
        } else {
            1
        };
        assert(moves_covered(s, radix, board, spent, legal_moves(board, radix).len() as int));
        assert(spent <= depth + 1);
        assert(rest.len() > 0);
        let k = choose|k: int|
            0 <= k < legal_moves(board, radix).len() && legal_moves(board, radix)[k] == rest[0];
        let next = successor(board, radix, k);
        assert(!all_dead(next) && covered(s, next, spent));
        lemma_legal_moves(board, radix);
        law_moves_keep_boards_valid(board, radix, rest[0]);
        lemma_lowest_bounds_play(s, start, radix, floor, low, next, depth + 1, rest.drop_first());
    }
}

} // verus!

verus! {

/// An admission keeps what the table knows: a board that it knew at some
/// depth it still knows at that depth.
pub proof fn lemma_covered_kept(
    s: SearchView,
    hash: u128,
    score: u128,
    entry: IncrementalNode,
    next: Seq<u8>,
    board: Seq<u8>,
    depth: int,
)
    requires
        covered(s, board, depth),
        admitted(s, hash, score, entry, next).clean,
    ensures
        covered(admitted(s, hash, score, entry, next), board, depth),
{
}

/// An admission keeps what the table knows of the boards that the moves of
/// a board lead to.
pub proof fn lemma_moves_covered_kept(
    s: SearchView,
    hash: u128,
    score: u128,
    entry: IncrementalNode,
    next: Seq<u8>,
    radix: u8,
    board: Seq<u8>,
    depth: int,
    upto: int,
)
    requires
        moves_covered(s, radix, board, depth, upto),
        admitted(s, hash, score, entry, next).clean,
    ensures
        moves_covered(admitted(s, hash, score, entry, next), radix, board, depth, upto),
{
    let after = admitted(s, hash, score, entry, next);
    assert forall|k: int| 0 <= k < upto implies !all_dead(#[trigger] successor(board, radix, k))
        && covered(after, successor(board, radix, k), depth) by {
        lemma_covered_kept(s, hash, score, entry, next, successor(board, radix, k), depth);
    }
}

/// A search that has not started is in order.
pub proof fn lemma_seeded_in_order(start: Seq<u8>, radix: u8)
    ensures
        in_order(seeded(), start, radix),
{
}

/// Taking a slot that holds no node leaves the search in order.
pub proof fn lemma_skipped_in_order(s: SearchView, start: Seq<u8>, radix: u8, score: u128)
    requires
        in_order(s, start, radix),
        stack_at(s.open, score).len() > 0,
        s.open[score].len() <= usize::MAX,
        s.open[score].last() is None,
    ensures
        in_order(taken_from(s, score), start, radix),
{
    let taken = taken_from(s, score);
    let top = (s.open[score].len() - 1) as usize;
    if s.clean {
        assert(slot_holds(s.open, score, top) == s.open[score].last());
        assert(!pristine(s)) by {
            if pristine(s) {
                assert(s.open[0].last() == Some(0usize));
                assert(s.open.contains_key(score));
            }
        }
        let floor = choose|floor: int| #[trigger] ordered(s, start, radix, floor, None, true);
        assert forall|sc: u128, p: usize|
            slot_holds(taken.open, sc, p) == if sc == score && p == top {
                None
            } else {
                slot_holds(s.open, sc, p)
            } by {
            lemma_popped_slots(s.open, score, sc, p);
        }
        assert forall|sc: u128, p: usize| (#[trigger] slot_holds(taken.open, sc, p)) is Some implies slot_sound(
            taken,
            start,
            radix,
            sc,
            p,
        ) by {
            assert(slot_sound(s, start, radix, sc, p));
        }
        assert forall|hash: u128| #[trigger] taken.seen.contains_key(hash) implies entry_sound(
            taken,
            radix,
            hash,
        ) && (entry_waits(taken, start, radix, hash) || entry_settled(taken, radix, hash, floor)) by {
            assert(entry_sound(s, radix, hash));
            if entry_waits(s, start, radix, hash) {
                assert(entry_waits(taken, start, radix, hash));
            } else {
                assert(entry_settled(s, radix, hash, floor));
                lemma_moves_covered_same(
                    s,
                    taken,
                    radix,
                    s.met[hash],
                    s.seen[hash].0 - heuristic(count_live(s.met[hash])) + 1,
                    legal_moves(s.met[hash], radix).len() as int,
                );
            }
        }
        lemma_moves_covered_same(s, taken, radix, start, 1, legal_moves(start, radix).len() as int);
        assert(ordered(taken, start, radix, floor, None, true));
    }
}

/// What the table knows depends on the table alone.
pub proof fn lemma_moves_covered_same(
    s: SearchView,
    other: SearchView,
    radix: u8,
    board: Seq<u8>,
    depth: int,
    upto: int,
)
    requires
        moves_covered(s, radix, board, depth, upto),
        other.seen == s.seen,
        other.met == s.met,
    ensures
        moves_covered(other, radix, board, depth, upto),
{
    assert forall|k: int| 0 <= k < upto implies !all_dead(#[trigger] successor(board, radix, k))
        && covered(other, successor(board, radix, k), depth) by {
        assert(covered(s, successor(board, radix, k), depth));
    }
}

/// Taking the node that leaves next leaves the search in order for the
/// expansion of that node.
pub proof fn lemma_taken_in_order(
    s: SearchView,
    start: Seq<u8>,
    radix: u8,
    score: u128,
    node: usize,
)
    requires
        s.clean,
        consistent(s, start, radix),
        in_order(s, start, radix),
        is_lowest(s.open, score),
        stack_at(s.open, score).len() > 0,
        s.open[score].len() <= usize::MAX,
        s.open[score].last() == Some(node),
    ensures
        expanding(
            taken_from(s, score),
            start,
            radix,
            node,
            depth_of(s.arena, start, radix, node),
            board_of(s.arena, start, radix, node),
            score as int,
            0,
        ),
{
    let taken = taken_from(s, score);
    let top = (s.open[score].len() - 1) as usize;
    let board = board_of(s.arena, start, radix, node);
    assert(slot_holds(s.open, score, top) == Some(node));
    assert forall|sc: u128, p: usize|
        slot_holds(taken.open, sc, p) == if sc == score && p == top {
            None
        } else {
            slot_holds(s.open, sc, p)
        } by {
        lemma_popped_slots(s.open, score, sc, p);
    }
    assert forall|key: u128| #[trigger] taken.open.contains_key(key) implies score <= key by {
        assert(s.open.contains_key(key));
    }
    if pristine(s) {
        assert(s.open.contains_key(0));
        assert(score == 0);
        assert(node == 0);
        assert(reconstruct(s.arena, start, radix, 0) == Some((Seq::<BoardMove>::empty(), start))) by {
            assert(crate::path::rev_moves(s.arena, 0, s.arena.len()) == Some(Seq::<usize>::empty()));
            assert(Seq::<usize>::empty().reverse() =~= Seq::<usize>::empty());
        }
        assert(taken.open =~= Map::<u128, Seq<Option<usize>>>::empty());
        assert(ordered(taken, start, radix, 0, None, false));
    } else {
        let floor = choose|floor: int| #[trigger] ordered(s, start, radix, floor, None, true);
        assert(slot_sound(s, start, radix, score, top));
        assert(s.open.contains_key(score));
        assert forall|sc: u128, p: usize| (#[trigger] slot_holds(taken.open, sc, p)) is Some implies slot_sound(
            taken,
            start,
            radix,
            sc,
            p,
        ) by {
            assert(slot_sound(s, start, radix, sc, p));
        }
        assert forall|hash: u128| #[trigger] taken.seen.contains_key(hash) implies entry_sound(
            taken,
            radix,
            hash,
        ) && (Some(fingerprint(board)) == Some(hash) || entry_waits(taken, start, radix, hash)
            || entry_settled(taken, radix, hash, score as int)) by {
            assert(entry_sound(s, radix, hash));
            if entry_waits(s, start, radix, hash) {
                if s.seen[hash].0 == score && s.seen[hash].1 == top {
                    assert(fingerprint(board) == hash);
                } else {
                    assert(entry_waits(taken, start, radix, hash));
                }
            } else {
                assert(entry_settled(s, radix, hash, floor));
                lemma_moves_covered_same(
                    s,
                    taken,
                    radix,
                    s.met[hash],
                    s.seen[hash].0 - heuristic(count_live(s.met[hash])) + 1,
                    legal_moves(s.met[hash], radix).len() as int,
                );
            }
        }
        lemma_moves_covered_same(s, taken, radix, start, 1, legal_moves(start, radix).len() as int);
        assert(ordered(taken, start, radix, score as int, Some(fingerprint(board)), true));
    }
}

/// When every move of the node under expansion was tried, the search is in
/// order again.
pub proof fn lemma_expansion_done(
    s: SearchView,
    start: Seq<u8>,
    radix: u8,
    node: usize,
    depth: nat,
    board: Seq<u8>,
    floor: int,
)
    requires
        expanding(s, start, radix, node, depth, board, floor, legal_moves(board, radix).len() as int),
    ensures
        ordered(s, start, radix, floor, None, true),
{
    if node != 0 {
        let busy = fingerprint(board);
        assert forall|hash: u128| #[trigger] s.seen.contains_key(hash) implies entry_sound(
            s,
            radix,
            hash,
        ) && (entry_waits(s, start, radix, hash) || entry_settled(s, radix, hash, floor)) by {
            if hash == busy {
                assert(entry_settled(s, radix, hash, floor));
            }
        }
    }
}

} // verus!

verus! {

/// A move of the game never leads back to the board that it is made on.
pub proof fn lemma_move_changes_board(cells: Seq<u8>, radix: u8, the_move: BoardMove)
    requires
        valid_cells(cells, radix),
        legal(cells, radix, the_move),
        !all_dead(cells),
    ensures
        apply(cells, radix, the_move) != cells,
{
    lemma_score_of_unsolved(cells);
    if the_move == BoardMove::Duplicate {
        law_duplicate_doubles(cells);
    } else {
        law_crossing_removes_two(cells, radix, the_move);
    }
}

/// Admitting the board that the next move of the node under expansion leads
/// to leaves the search in order, with one more move tried.
pub proof fn lemma_admitted_in_order(
    s: SearchView,
    start: Seq<u8>,
    radix: u8,
    node: usize,
    depth: nat,
    board: Seq<u8>,
    floor: int,
    place: usize,
    score: u128,
)
    requires
        valid_cells(start, radix),
        under_expansion(s, start, radix, node, depth, board),
        expanding(s, start, radix, node, depth, board, floor, place as int),
        place < legal_moves(board, radix).len(),
        !all_dead(successor(board, radix, place as int)),
        successor(board, radix, place as int).len() <= usize::MAX,
        score == depth + 1 + heuristic(count_live(successor(board, radix, place as int))),
        s.arena.len() <= usize::MAX,
        stack_at(s.open, score).len() <= usize::MAX,
        admitted(
            s,
            fingerprint(successor(board, radix, place as int)),
            score,
            IncrementalNode { prev_index: node, move_index: place },
            successor(board, radix, place as int),
        ).clean,
    ensures
        expanding(
            admitted(
                s,
                fingerprint(successor(board, radix, place as int)),
                score,
                IncrementalNode { prev_index: node, move_index: place },
                successor(board, radix, place as int),
            ),
            start,
            radix,
            node,
            depth,
            board,
            floor,
            place + 1,
        ),
{
    let next = successor(board, radix, place as int);
    let hash = fingerprint(next);
    let entry = IncrementalNode { prev_index: node, move_index: place };
    let after = admitted(s, hash, score, entry, next);
    let the_move = legal_moves(board, radix)[place as int];
    let busy: Option<u128> = if node == 0 {
        None
    } else {
        Some(fingerprint(board))
    };
    let root_done = node != 0;
    lemma_admitted(s, start, radix, node, depth, board, place, hash, score, next);
    law_record_replays_to_a_play(s.arena, start, radix, node);
    lemma_legal_moves(board, radix);
    assert(legal(board, radix, the_move));
    law_moves_keep_boards_valid(board, radix, the_move);
    law_heuristic_consistent(board, radix, the_move);
    lemma_move_changes_board(board, radix, the_move);
    assert(floor <= score);
    assert(ordered(s, start, radix, floor, busy, root_done));
    // The board under expansion is not the board that comes.
    assert(busy != Some(hash)) by {
        if busy == Some(hash) {
            assert(s.seen.contains_key(hash));
            assert(s.met[hash] == board);
        }
    }
    lemma_moves_covered_kept(s, hash, score, entry, next, radix, board, depth as int + 1, place as int);
    assert(covered(after, next, depth as int + 1));
    assert(moves_covered(after, radix, board, depth as int + 1, place + 1)) by {
        assert forall|k: int| 0 <= k < place + 1 implies !all_dead(
            #[trigger] successor(board, radix, k),
        ) && covered(after, successor(board, radix, k), depth as int + 1) by {}
    }
    if root_done {
        lemma_moves_covered_kept(
            s,
            hash,
            score,
            entry,
            next,
            radix,
            start,
            1,
            legal_moves(start, radix).len() as int,
        );
    }
    if kept(s, hash, score) {
        assert(after.arena == s.arena && after.open == s.open && after.seen == s.seen && after.met
            == s.met);
        assert forall|sc: u128, p: usize| (#[trigger] slot_holds(after.open, sc, p)) is Some implies slot_sound(
            after,
            start,
            radix,
            sc,
            p,
        ) by {
            assert(slot_sound(s, start, radix, sc, p));
        }
        assert forall|other: u128| #[trigger] after.seen.contains_key(other) implies entry_sound(
            after,
            radix,
            other,
        ) && (busy == Some(other) || entry_waits(after, start, radix, other) || entry_settled(
            after,
            radix,
            other,
            floor,
        )) by {
            assert(entry_sound(s, radix, other));
            if busy != Some(other) && !entry_waits(s, start, radix, other) {
                assert(entry_settled(s, radix, other, floor));
                lemma_moves_covered_same(
                    s,
                    after,
                    radix,
                    s.met[other],
                    s.seen[other].0 - heuristic(count_live(s.met[other])) + 1,
                    legal_moves(s.met[other], radix).len() as int,
                );
            }
        }
    } else {
        assert(admission_made(s, after, start, radix, node, depth, hash, score, next));
        let index = recorded_at(s, hash);
        let position = after.seen[hash].1;
        // A board that is known with a worse score waits: one that was
        // expanded has a score below the floor.
        assert(s.seen.contains_key(hash) ==> entry_waits(s, start, radix, hash)) by {
            if s.seen.contains_key(hash) {
                assert(entry_sound(s, radix, hash));
                assert(!entry_settled(s, radix, hash, floor));
            }
        }
        assert forall|sc: u128, p: usize| (#[trigger] slot_holds(after.open, sc, p)) is Some implies slot_sound(
            after,
            start,
            radix,
            sc,
            p,
        ) by {
            if sc == score && p == position {
            } else {
                let waiting = slot_holds(s.open, sc, p)->0;
                assert(slot_holds(s.open, sc, p) == slot_holds(after.open, sc, p));
                assert(slot_sound(s, start, radix, sc, p));
                assert(ready(s.arena, start, radix, waiting));
                assert(waiting != index) by {
                    if waiting == index {
                        assert(slot_holds(s.open, sc, p) == slot_holds(
                            s.open,
                            s.seen[hash].0,
                            s.seen[hash].1,
                        ));
                    }
                }
                assert(reconstruct(after.arena, start, radix, waiting) == reconstruct(
                    s.arena,
                    start,
                    radix,
                    waiting,
                ));
                let its = board_of(s.arena, start, radix, waiting);
                assert(fingerprint(its) != hash) by {
                    if fingerprint(its) == hash {
                        assert(s.seen[hash] == (sc, p));
                    }
                }
            }
        }
        assert forall|other: u128| #[trigger] after.seen.contains_key(other) implies entry_sound(
            after,
            radix,
            other,
        ) && (busy == Some(other) || entry_waits(after, start, radix, other) || entry_settled(
            after,
            radix,
            other,
            floor,
        )) by {
            if other == hash {
                assert(slot_holds(after.open, score, position) == Some(index));
                assert(entry_waits(after, start, radix, other));
            } else {
                assert(s.seen.contains_key(other));
                assert(entry_sound(s, radix, other));
                if busy == Some(other) {
                } else if entry_waits(s, start, radix, other) {
                    let sc = s.seen[other].0;
                    let p = s.seen[other].1;
                    let waiting = slot_holds(s.open, sc, p)->0;
                    assert(!(sc == score && p == position));
                    assert(!(s.seen.contains_key(hash) && sc == s.seen[hash].0 && p
                        == s.seen[hash].1)) by {
                        if s.seen.contains_key(hash) && sc == s.seen[hash].0 && p == s.seen[hash].1 {
                            assert(entry_sound(s, radix, hash));
                            assert(s.met[hash] == s.met[other]);
                        }
                    }
                    assert(slot_holds(after.open, sc, p) == slot_holds(s.open, sc, p));
                    assert(ready(s.arena, start, radix, waiting));
                    assert(waiting != index) by {
                        if waiting == index {
                            assert(slot_holds(s.open, sc, p) == slot_holds(
                                s.open,
                                s.seen[hash].0,
                                s.seen[hash].1,
                            ));
                        }
                    }
                    assert(reconstruct(after.arena, start, radix, waiting) == reconstruct(
                        s.arena,
                        start,
                        radix,
                        waiting,
                    ));
                    assert(entry_waits(after, start, radix, other));
                } else {
                    assert(entry_settled(s, radix, other, floor));
                    lemma_moves_covered_kept(
                        s,
                        hash,
                        score,
                        entry,
                        next,
                        radix,
                        s.met[other],
                        s.seen[other].0 - heuristic(count_live(s.met[other])) + 1,
                        legal_moves(s.met[other], radix).len() as int,
                    );
                    assert(entry_settled(after, radix, other, floor));
                }
            }
        }
        assert forall|key: u128| #[trigger] after.open.contains_key(key) implies floor <= key by {
            if key != score {
                assert(s.open.contains_key(key));
            }
        }
    }
    assert(ordered(after, start, radix, floor, busy, root_done));
}

} // verus!

verus! {

/// No moves that the boards on the way offer solve the board.
pub open spec fn unsolvable(cells: Seq<u8>, radix: u8) -> bool {
    forall|other: Seq<BoardMove>| !#[trigger] solves_by_offers(cells, radix, other)
}

/// Where nothing waits, no play by offered moves leads from a board that
/// the table knows, or from the first board, to a solved board.
pub proof fn lemma_nothing_left_to_play(
    s: SearchView,
    start: Seq<u8>,
    radix: u8,
    floor: int,
    board: Seq<u8>,
    depth: int,
    rest: Seq<BoardMove>,
)
    requires
        ordered(s, start, radix, floor, None, true),
        s.open == Map::<u128, Seq<Option<usize>>>::empty(),
        valid_cells(board, radix),
        !all_dead(start),
        (board == start && depth == 0) || covered(s, board, depth),
    ensures
        !solves_by_offers(board, radix, rest),
    decreases rest.len(),
{
    if solves_by_offers(board, radix, rest) {
        let hash = fingerprint(board);
        if covered(s, board, depth) {
            assert(s.seen.contains_key(hash));
            assert(entry_sound(s, radix, hash));
            assert(!entry_waits(s, start, radix, hash));
            assert(entry_settled(s, radix, hash, floor));
        }
        let spent: int = if covered(s, board, depth) {
            s.seen[hash].0 - heuristic(count_live(board)) + 1
        } else {
            1
        };
        assert(moves_covered(s, radix, board, spent, legal_moves(board, radix).len() as int));
        assert(rest.len() > 0);
        let k = choose|k: int|
            0 <= k < legal_moves(board, radix).len() && legal_moves(board, radix)[k] == rest[0];
        let next = successor(board, radix, k);
        assert(!all_dead(next) && covered(s, next, spent));
        lemma_legal_moves(board, radix);
        law_moves_keep_boards_valid(board, radix, rest[0]);
        lemma_nothing_left_to_play(s, start, radix, floor, next, spent, rest.drop_first());
    }
}

/// A search in order that runs out of nodes has shown that nothing solves
/// the first board.
pub proof fn lemma_exhausted_means_unsolvable(s: SearchView, start: Seq<u8>, radix: u8)
    requires
        s.clean,
        in_order(s, start, radix),
        s.open == Map::<u128, Seq<Option<usize>>>::empty(),
        valid_cells(start, radix),
        !all_dead(start),
    ensures
        unsolvable(start, radix),
{
    assert(!pristine(s)) by {
        if pristine(s) {
            assert(s.open.contains_key(0));
        }
    }
    let floor = choose|floor: int| #[trigger] ordered(s, start, radix, floor, None, true);
    assert forall|other: Seq<BoardMove>| !#[trigger] solves_by_offers(start, radix, other) by {
        lemma_nothing_left_to_play(s, start, radix, floor, start, 0, other);
    }
}

/// A search in order that takes the node of the lowest score and finds that
/// one of its moves solves the board has found a shortest solution.
pub proof fn lemma_first_solution_is_shortest(
    s: SearchView,
    start: Seq<u8>,
    radix: u8,
    score: u128,
    node: usize,
)
    requires
        s.clean,
        consistent(s, start, radix),
        in_order(s, start, radix),
        is_lowest(s.open, score),
        stack_at(s.open, score).len() > 0,
        s.open[score].len() <= usize::MAX,
        s.open[score].last() == Some(node),
        valid_cells(start, radix),
        !all_dead(start),
    ensures
        shortest(start, radix, depth_of(s.arena, start, radix, node) + 1),
{
    let top = (s.open[score].len() - 1) as usize;
    let depth = depth_of(s.arena, start, radix, node);
    assert(slot_holds(s.open, score, top) == Some(node));
    assert(ready(s.arena, start, radix, node));
    if pristine(s) {
        assert(s.open.contains_key(0));
        assert(node == 0);
        assert(reconstruct(s.arena, start, radix, 0) == Some((Seq::<BoardMove>::empty(), start))) by {
            assert(crate::path::rev_moves(s.arena, 0, s.arena.len()) == Some(Seq::<usize>::empty()));
            assert(Seq::<usize>::empty().reverse() =~= Seq::<usize>::empty());
        }
        assert forall|other: Seq<BoardMove>| #[trigger]
            solves_by_offers(start, radix, other) implies depth + 1 <= other.len() by {
            assert(other.len() > 0);
        }
    } else {
        let floor = choose|floor: int| #[trigger] ordered(s, start, radix, floor, None, true);
        assert(slot_sound(s, start, radix, score, top));
        lemma_score_of_unsolved(board_of(s.arena, start, radix, node));
        assert forall|other: Seq<BoardMove>| #[trigger]
            solves_by_offers(start, radix, other) implies depth + 1 <= other.len() by {
            lemma_lowest_bounds_play(s, start, radix, floor, score, start, 0, other);
        }
    }
}

} // verus!
