//! The record of a search: for every board that was reached, the board it
//! was reached from and the move that led there. Boards themselves are not
//! kept: a record is replayed from the first board to get one back.

use vstd::prelude::*;
use crate::board::{apply, play, BoardMove, FullBoard};
use crate::layout::{all_dead, valid_cells};
use crate::moves::{legal_moves, lemma_legal_moves};

verus! {

/// One board that a search reached: the node it was reached from, and
/// which of that node's moves led here, by its place among them. The node
/// at index 0 stands for the first board and is reached from nowhere.
#[derive(Clone, Copy, Debug, PartialEq, Eq, Structural)]
pub struct IncrementalNode {
    pub prev_index: usize,
    pub move_index: usize,
}

/// The places of the moves from `node` back to the first board, the last
/// move first. `None` where the way back leaves the record or takes more
/// than `fuel` steps.
pub open spec fn rev_moves(arena: Seq<IncrementalNode>, node: usize, fuel: nat) -> Option<
    Seq<usize>,
>
    decreases fuel,
{
    if node == 0 {
        Some(Seq::empty())
    } else if fuel == 0 || node >= arena.len() {
        None
    } else {
        match rev_moves(arena, arena[node as int].prev_index, (fuel - 1) as nat) {
            Some(rest) => Some(seq![arena[node as int].move_index] + rest),
            None => None,
        }
    }
}

/// The moves that `ordinals` pick, each among the moves of the board that
/// the moves before it lead to, and the board after the last of them.
/// `None` where a board on the way is solved, is longer than a machine can
/// hold, or offers fewer moves than the ordinal asks for.
pub open spec fn replay(cells: Seq<u8>, radix: u8, ordinals: Seq<usize>) -> Option<
    (Seq<BoardMove>, Seq<u8>),
>
    decreases ordinals.len(),
{
    if ordinals.len() == 0 {
        Some((Seq::empty(), cells))
    } else if all_dead(cells) || cells.len() > usize::MAX || ordinals[0] >= legal_moves(
        cells,
        radix,
    ).len() {
        None
    } else {
        let the_move = legal_moves(cells, radix)[ordinals[0] as int];
        match replay(apply(cells, radix, the_move), radix, ordinals.drop_first()) {
            Some((moves, end)) => Some((seq![the_move] + moves, end)),
            None => None,
        }
    }
}

/// The moves from the first board to `node`, and the board of `node`.
pub open spec fn reconstruct(
    arena: Seq<IncrementalNode>,
    cells: Seq<u8>,
    radix: u8,
    node: usize,
) -> Option<(Seq<BoardMove>, Seq<u8>)> {
    match rev_moves(arena, node, arena.len()) {
        Some(rev) => replay(cells, radix, rev.reverse()),
        None => None,
    }
}

/// What a replay returns is a play of the game: its moves lead from the
/// first board to the board that it reports, and there are as many of them
/// as ordinals.
pub proof fn lemma_replay_is_play(cells: Seq<u8>, radix: u8, ordinals: Seq<usize>)
    requires
        valid_cells(cells, radix),
        replay(cells, radix, ordinals) is Some,
    ensures
        replay(cells, radix, ordinals) matches Some((moves, end)) && play(cells, radix, moves)
            == Some(end) && moves.len() == ordinals.len() && valid_cells(end, radix),
    decreases ordinals.len(),
{
    if ordinals.len() > 0 {
        lemma_legal_moves(cells, radix);
        let the_move = legal_moves(cells, radix)[ordinals[0] as int];
        let next = apply(cells, radix, the_move);
        crate::laws::law_moves_keep_boards_valid(cells, radix, the_move);
        lemma_replay_is_play(next, radix, ordinals.drop_first());
        let (rest, end) = replay(next, radix, ordinals.drop_first())->0;
        assert((seq![the_move] + rest).drop_first() == rest);
    }
}

/// More fuel than the way back needs changes nothing.
pub proof fn lemma_rev_moves_fuel(arena: Seq<IncrementalNode>, node: usize, fuel: nat, more: nat)
    requires
        rev_moves(arena, node, fuel) is Some,
        fuel <= more,
    ensures
        rev_moves(arena, node, more) == rev_moves(arena, node, fuel),
    decreases fuel,
{
    if node != 0 {
        lemma_rev_moves_fuel(
            arena,
            arena[node as int].prev_index,
            (fuel - 1) as nat,
            (more - 1) as nat,
        );
    }
}

/// The way back needs as much fuel as it has steps.
pub proof fn lemma_rev_moves_len(arena: Seq<IncrementalNode>, node: usize, fuel: nat)
    requires
        rev_moves(arena, node, fuel) is Some,
    ensures
        rev_moves(arena, node, fuel)->0.len() <= fuel,
        rev_moves(arena, node, rev_moves(arena, node, fuel)->0.len()) == rev_moves(
            arena,
            node,
            fuel,
        ),
        node != 0 ==> rev_moves(arena, node, fuel)->0.len() > 0,
    decreases fuel,
{
    if node != 0 {
        let parent = arena[node as int].prev_index;
        lemma_rev_moves_len(arena, parent, (fuel - 1) as nat);
        let rest = rev_moves(arena, parent, (fuel - 1) as nat)->0;
        assert((seq![arena[node as int].move_index] + rest).len() == rest.len() + 1);
    }
}

/// The nodes on the way back from `node`, the root left out.
pub open spec fn way_back(arena: Seq<IncrementalNode>, node: usize, fuel: nat) -> Seq<int>
    decreases fuel,
{
    if node == 0 || fuel == 0 || node >= arena.len() {
        Seq::empty()
    } else {
        seq![node as int] + way_back(arena, arena[node as int].prev_index, (fuel - 1) as nat)
    }
}

/// The way back passes as many nodes as it has steps, each of them a node
/// of the record, and from each of them the rest of the way is the way back
/// from that node.
pub proof fn lemma_way_back(arena: Seq<IncrementalNode>, node: usize, fuel: nat, i: int)
    requires
        rev_moves(arena, node, fuel) is Some,
        0 <= i < way_back(arena, node, fuel).len(),
    ensures
        way_back(arena, node, fuel).len() == rev_moves(arena, node, fuel)->0.len(),
        0 < way_back(arena, node, fuel)[i] < arena.len(),
        rev_moves(arena, way_back(arena, node, fuel)[i] as usize, fuel)
            matches Some(rest) && rest.len() == rev_moves(arena, node, fuel)->0.len() - i,
    decreases fuel,
{
    if node != 0 {
        let parent = arena[node as int].prev_index;
        let less = (fuel - 1) as nat;
        lemma_way_back_len(arena, parent, less);
        if i > 0 {
            lemma_way_back(arena, parent, less, i - 1);
            let at = way_back(arena, parent, less)[i - 1] as usize;
            lemma_rev_moves_fuel(arena, at, less, fuel);
        }
    }
}

/// The way back passes as many nodes as it has steps.
pub proof fn lemma_way_back_len(arena: Seq<IncrementalNode>, node: usize, fuel: nat)
    requires
        rev_moves(arena, node, fuel) is Some,
    ensures
        way_back(arena, node, fuel).len() == rev_moves(arena, node, fuel)->0.len(),
    decreases fuel,
{
    if node != 0 {
        lemma_way_back_len(arena, arena[node as int].prev_index, (fuel - 1) as nat);
    }
}

/// A way back that ends passes no node twice, so it is shorter than the
/// record.
pub proof fn lemma_rev_moves_short(arena: Seq<IncrementalNode>, node: usize, fuel: nat)
    requires
        rev_moves(arena, node, fuel) is Some,
        arena.len() > 0,
    ensures
        rev_moves(arena, node, fuel)->0.len() < arena.len(),
        rev_moves(arena, node, (arena.len() - 1) as nat) == rev_moves(arena, node, fuel),
{
    let way = way_back(arena, node, fuel);
    let rev = rev_moves(arena, node, fuel)->0;
    lemma_way_back_len(arena, node, fuel);
    assert forall|i: int, j: int| 0 <= i < j < way.len() implies way[i] != way[j] by {
        lemma_way_back(arena, node, fuel, i);
        lemma_way_back(arena, node, fuel, j);
    }
    assert(way.no_duplicates());
    way.unique_seq_to_set();
    let within = vstd::set_lib::set_int_range(1, arena.len() as int);
    vstd::set_lib::lemma_int_range(1, arena.len() as int);
    assert forall|z: int| way.to_set().contains(z) implies within.contains(z) by {
        let i = choose|i: int| 0 <= i < way.len() && way[i] == z;
        lemma_way_back(arena, node, fuel, i);
    }
    vstd::set_lib::lemma_len_subset(way.to_set(), within);
    lemma_rev_moves_len(arena, node, fuel);
    lemma_rev_moves_fuel(arena, node, rev.len(), (arena.len() - 1) as nat);
}

/// One more node at the end of the record changes no way back.
pub proof fn lemma_rev_moves_push(
    arena: Seq<IncrementalNode>,
    entry: IncrementalNode,
    node: usize,
    fuel: nat,
)
    requires
        rev_moves(arena, node, fuel) is Some,
    ensures
        rev_moves(arena.push(entry), node, fuel) == rev_moves(arena, node, fuel),
    decreases fuel,
{
    if node != 0 {
        lemma_rev_moves_push(arena, entry, arena[node as int].prev_index, (fuel - 1) as nat);
    }
}

/// No node of the record was reached from `node`.
pub open spec fn childless(arena: Seq<IncrementalNode>, node: usize) -> bool {
    forall|i: int| 0 < i < arena.len() ==> (#[trigger] arena[i]).prev_index != node
}

/// Recording a node anew that no node was reached from changes the way back
/// from no other node.
pub proof fn lemma_rev_moves_update(
    arena: Seq<IncrementalNode>,
    at: usize,
    entry: IncrementalNode,
    node: usize,
    fuel: nat,
)
    requires
        at < arena.len(),
        childless(arena, at),
        node != at,
    ensures
        rev_moves(arena.update(at as int, entry), node, fuel) == rev_moves(arena, node, fuel),
    decreases fuel,
{
    if node != 0 && fuel != 0 && node < arena.len() {
        assert(arena[node as int].prev_index != at);
        lemma_rev_moves_update(
            arena,
            at,
            entry,
            arena[node as int].prev_index,
            (fuel - 1) as nat,
        );
    }
}

/// The replay of one more ordinal is the replay of the others and one more
/// move.
pub proof fn lemma_replay_push(cells: Seq<u8>, radix: u8, ordinals: Seq<usize>, last: usize)
    ensures
        replay(cells, radix, ordinals.push(last)) == match replay(cells, radix, ordinals) {
            Some((moves, board)) => if all_dead(board) || board.len() > usize::MAX || last
                >= legal_moves(board, radix).len() {
                None
            } else {
                Some(
                    (
                        moves.push(legal_moves(board, radix)[last as int]),
                        apply(board, radix, legal_moves(board, radix)[last as int]),
                    ),
                )
            },
            None => None,
        },
    decreases ordinals.len(),
{
    let longer = ordinals.push(last);
    if ordinals.len() == 0 {
        assert(longer.drop_first() == Seq::<usize>::empty());
        assert(longer[0] == last);
        assert(replay(cells, radix, ordinals) == Some((Seq::<BoardMove>::empty(), cells)));
        if !(all_dead(cells) || cells.len() > usize::MAX || last >= legal_moves(cells, radix).len()) {
            let the_move = legal_moves(cells, radix)[last as int];
            let next = apply(cells, radix, the_move);
            assert(replay(next, radix, longer.drop_first()) == Some(
                (Seq::<BoardMove>::empty(), next),
            ));
            assert(seq![the_move] + Seq::<BoardMove>::empty() == Seq::<BoardMove>::empty().push(
                the_move,
            ));
        }
    } else {
        assert(longer[0] == ordinals[0]);
        assert(longer.drop_first() == ordinals.drop_first().push(last));
        if !(all_dead(cells) || cells.len() > usize::MAX || ordinals[0] >= legal_moves(
            cells,
            radix,
        ).len()) {
            let the_move = legal_moves(cells, radix)[ordinals[0] as int];
            let next = apply(cells, radix, the_move);
            lemma_replay_push(next, radix, ordinals.drop_first(), last);
            match replay(next, radix, ordinals.drop_first()) {
                Some((moves, board)) => {
                    assert(replay(cells, radix, ordinals) == Some((seq![the_move] + moves, board)));
                    if !(all_dead(board) || board.len() > usize::MAX || last >= legal_moves(
                        board,
                        radix,
                    ).len()) {
                        let end_move = legal_moves(board, radix)[last as int];
                        assert(replay(next, radix, longer.drop_first()) == Some(
                            (moves.push(end_move), apply(board, radix, end_move)),
                        ));
                        assert(seq![the_move] + moves.push(end_move) == (seq![the_move]
                            + moves).push(end_move));
                    }
                },
                None => {},
            }
        }
    }
}

/// The board of a node that was reached from `parent` by the move at place
/// `place`: the board of `parent` after that move.
pub proof fn lemma_reconstruct_child(
    arena: Seq<IncrementalNode>,
    cells: Seq<u8>,
    radix: u8,
    node: usize,
)
    requires
        0 < node < arena.len(),
        reconstruct(arena, cells, radix, arena[node as int].prev_index) is Some,
        rev_moves(arena, arena[node as int].prev_index, (arena.len() - 1) as nat) is Some,
    ensures
        reconstruct(arena, cells, radix, node) == ({
            let (moves, board) = reconstruct(
                arena,
                cells,
                radix,
                arena[node as int].prev_index,
            )->0;
            let place = arena[node as int].move_index;
            if all_dead(board) || board.len() > usize::MAX || place >= legal_moves(
                board,
                radix,
            ).len() {
                None
            } else {
                Some(
                    (
                        moves.push(legal_moves(board, radix)[place as int]),
                        apply(board, radix, legal_moves(board, radix)[place as int]),
                    ),
                )
            }
        }),
{
    let parent = arena[node as int].prev_index;
    let place = arena[node as int].move_index;
    let less = (arena.len() - 1) as nat;
    lemma_rev_moves_fuel(arena, parent, less, arena.len());
    let rest = rev_moves(arena, parent, less)->0;
    assert((seq![place] + rest).reverse() =~= rest.reverse().push(place));
    lemma_replay_push(cells, radix, rest.reverse(), place);
}

/// Walks from `node_index` back to the first board and collects the places
/// of the moves on the way, the last move first.
pub fn reconstruct_rev_moves(node_index: usize, all_set: &Vec<IncrementalNode>) -> (rev: Option<
    Vec<usize>,
>)
    ensures
        match rev {
            Some(rev) => rev_moves(all_set@, node_index, all_set@.len()) == Some(rev@),
            None => rev_moves(all_set@, node_index, all_set@.len()) is None,
        },
{
    let mut rev: Vec<usize> = Vec::new();
    let mut current_index: usize = node_index;
    let mut fuel: usize = all_set.len();
    while current_index != 0
        invariant
            fuel <= all_set@.len(),
            rev_moves(all_set@, node_index, all_set@.len()) == match rev_moves(
                all_set@,
                current_index,
                fuel as nat,
            ) {
                Some(rest) => Some(rev@ + rest),
                None => None,
            },
        decreases fuel,
    {
        if fuel == 0 || current_index >= all_set.len() {
            return None;
        }
        let current_incr: IncrementalNode = all_set[current_index];
        proof {
            let rest = rev_moves(all_set@, current_incr.prev_index, (fuel - 1) as nat);
            if rest is Some {
                assert(rev@ + (seq![current_incr.move_index] + rest->0) == rev@.push(
                    current_incr.move_index,
                ) + rest->0);
            }
        }
        rev.push(current_incr.move_index);
        current_index = current_incr.prev_index;
        fuel -= 1;
    }
    assert(rev@ + Seq::<usize>::empty() == rev@);
    Some(rev)
}

/// Replays the record of `node_index` from `start`: the moves that lead to
/// the node, and its board.
pub fn reconstruct_path(node_index: usize, all_set: &Vec<IncrementalNode>, start: &FullBoard) -> (path:
    Option<(Vec<BoardMove>, FullBoard)>)
    ensures
        match path {
            Some((moves, board)) => reconstruct(all_set@, start@, start.spec_radix(), node_index)
                == Some((moves@, board@)) && board.spec_radix() == start.spec_radix(),
            None => reconstruct(all_set@, start@, start.spec_radix(), node_index) is None,
        },
{
    let rev: Vec<usize> = match reconstruct_rev_moves(node_index, all_set) {
        Some(rev) => rev,
        None => {
            return None;
        },
    };
    let radix: u8 = start.radix();
    let ghost ordinals = rev@.reverse();
    let mut moves: Vec<BoardMove> = Vec::new();
    let mut board: FullBoard = start.clone();
    let mut left: usize = rev.len();
    assert(ordinals.skip(0) == ordinals);
    while left > 0
        invariant
            left <= rev@.len(),
            rev_moves(all_set@, node_index, all_set@.len()) == Some(rev@),
            ordinals == rev@.reverse(),
            radix == start.spec_radix(),
            radix >= 2,
            board.spec_radix() == radix,
            replay(start@, radix, ordinals) == match replay(
                board@,
                radix,
                ordinals.skip(rev@.len() - left),
            ) {
                Some((rest, end)) => Some((moves@ + rest, end)),
                None => None,
            },
        decreases left,
    {
        let move_index: usize = rev[left - 1];
        let ghost todo = ordinals.skip(rev@.len() - left);
        assert(todo[0] == move_index);
        assert(todo.drop_first() == ordinals.skip(rev@.len() - (left - 1)));
        if board.is_goal() {
            return None;
        }
        let the_move: BoardMove = match board.moves().nth(move_index) {
            Some(the_move) => the_move,
            None => {
                return None;
            },
        };
        proof {
            board.lemma_len_fits();
            lemma_legal_moves(board@, radix);
            crate::laws::law_legal_is_applicable(board@, radix, the_move);
            let after = replay(apply(board@, radix, the_move), radix, todo.drop_first());
            if after is Some {
                let (rest, end) = after->0;
                assert(moves@ + (seq![the_move] + rest) == moves@.push(the_move) + rest);
            }
        }
        let next: FullBoard = board.apply_move(the_move);
        moves.push(the_move);
        board = next;
        left -= 1;
    }
    assert(moves@ + Seq::<BoardMove>::empty() == moves@);
    Some((moves, board))
}

/// Replays the record of `node_index` from `start`: the number of moves
/// that lead to the node, and its board.
pub fn reconstruct_state(node_index: usize, all_set: &Vec<IncrementalNode>, start: &FullBoard) -> (state:
    Option<(usize, FullBoard)>)
    ensures
        match state {
            Some((cost, board)) => reconstruct(all_set@, start@, start.spec_radix(), node_index)
                matches Some((moves, end)) && cost == moves.len() && board@ == end
                && board.spec_radix() == start.spec_radix(),
            None => reconstruct(all_set@, start@, start.spec_radix(), node_index) is None,
        },
{
    match reconstruct_path(node_index, all_set, start) {
        Some((moves, board)) => Some((moves.len(), board)),
        None => None,
    }
}

} // verus!
