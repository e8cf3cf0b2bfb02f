//! What a search never loses: every node that waits can be replayed to a
//! board that is not solved, and recording a better way to a waiting node
//! disturbs the way to no other node.

use vstd::prelude::*;
use crate::board::apply;
use crate::frontier::{
    lemma_popped_slots, lemma_pushed_slots, lemma_retired_slots, popped, pushed, retired,
    slot_holds, stack_at, FrontierView,
};
use crate::layout::all_dead;
use crate::moves::legal_moves;
use crate::path::{
    childless, lemma_reconstruct_child, lemma_rev_moves_fuel, lemma_rev_moves_push,
    lemma_rev_moves_short, lemma_rev_moves_update, reconstruct, rev_moves, IncrementalNode,
};
use crate::search::{admitted, goal_recorded, seeded, taken_from, SearchView};

verus! {

/// The record replays `node` to a board that can be expanded: it is not
/// solved, and a machine can hold it.
pub open spec fn replays(arena: Seq<IncrementalNode>, start: Seq<u8>, radix: u8, node: usize) -> bool {
    reconstruct(arena, start, radix, node) matches Some((moves, board)) && !all_dead(board)
        && board.len() <= usize::MAX
}

/// No node waits in two slots.
pub open spec fn waits_once(open: FrontierView) -> bool {
    forall|score: u128, position: usize, other_score: u128, other: usize|
        (#[trigger] slot_holds(open, score, position)) is Some && slot_holds(
            open,
            score,
            position,
        ) == #[trigger] slot_holds(open, other_score, other) ==> score == other_score && position
            == other
}

/// `node` is on record, leads to no node yet, and replays to a board that
/// can be expanded. The node of the first board is ready only as long as
/// it is the only node.
pub open spec fn ready(arena: Seq<IncrementalNode>, start: Seq<u8>, radix: u8, node: usize) -> bool {
    &&& node < arena.len()
    &&& node == 0 ==> arena.len() == 1
    &&& childless(arena, node)
    &&& replays(arena, start, radix, node)
}

/// Every node that waits is ready to be expanded.
pub open spec fn waiting_nodes_replay(s: SearchView, start: Seq<u8>, radix: u8) -> bool {
    forall|score: u128, position: usize|
        (#[trigger] slot_holds(s.open, score, position)) matches Some(node) ==> ready(
            s.arena,
            start,
            radix,
            node,
        )
}

/// The state of a search from `start` holds together.
pub open spec fn consistent(s: SearchView, start: Seq<u8>, radix: u8) -> bool {
    &&& s.arena.len() > 0
    &&& forall|i: int| 0 <= i < s.arena.len() ==> (#[trigger] s.arena[i]).prev_index < s.arena.len()
    &&& waiting_nodes_replay(s, start, radix)
    &&& waits_once(s.open)
}

/// The state of a search holds together while `node` is expanded: `node`
/// waits no more, and the record replays it to `board` by `depth` moves.
pub open spec fn under_expansion(
    s: SearchView,
    start: Seq<u8>,
    radix: u8,
    node: usize,
    depth: nat,
    board: Seq<u8>,
) -> bool {
    &&& consistent(s, start, radix)
    &&& node < s.arena.len()
    &&& forall|score: u128, position: usize| #[trigger]
        slot_holds(s.open, score, position) != Some(node)
    &&& reconstruct(s.arena, start, radix, node) matches Some((moves, at)) && at == board
        && moves.len() == depth
    &&& !all_dead(board)
    &&& board.len() <= usize::MAX
}

/// A search starts in a state that holds together.
pub proof fn lemma_seeded_consistent(start: Seq<u8>, radix: u8)
    requires
        !all_dead(start),
        start.len() <= usize::MAX,
    ensures
        consistent(seeded(), start, radix),
{
    let s = seeded();
    assert(rev_moves(s.arena, 0, s.arena.len()) == Some(Seq::<usize>::empty()));
    assert(Seq::<usize>::empty().reverse() =~= Seq::<usize>::empty());
    assert forall|score: u128, position: usize|
        (#[trigger] slot_holds(s.open, score, position)) is Some implies score == 0 && position
        == 0 && slot_holds(s.open, score, position) == Some(0usize) by {}
}

/// Taking the node that leaves next keeps the state together, and that node
/// can be expanded.
pub proof fn lemma_taken(s: SearchView, start: Seq<u8>, radix: u8, score: u128, node: usize)
    requires
        consistent(s, start, radix),
        stack_at(s.open, score).len() > 0,
        s.open[score].last() == Some(node),
        s.open[score].len() <= usize::MAX,
    ensures
        reconstruct(s.arena, start, radix, node) matches Some((moves, board)) && under_expansion(
            taken_from(s, score),
            start,
            radix,
            node,
            moves.len(),
            board,
        ),
{
    let taken = taken_from(s, score);
    let top = (s.open[score].len() - 1) as usize;
    assert(slot_holds(s.open, score, top) == Some(node));
    assert forall|sc: u128, p: usize|
        slot_holds(taken.open, sc, p) == if sc == score && p == top {
            None
        } else {
            slot_holds(s.open, sc, p)
        } by {
        lemma_popped_slots(s.open, score, sc, p);
    }
    assert forall|sc: u128, p: usize| #[trigger] slot_holds(taken.open, sc, p) != Some(node) by {
        if slot_holds(taken.open, sc, p) == Some(node) {
            assert(slot_holds(s.open, sc, p) == slot_holds(s.open, score, top));
        }
    }
    assert(waits_once(taken.open)) by {
        assert forall|sc: u128, p: usize, sc2: u128, p2: usize|
            (#[trigger] slot_holds(taken.open, sc, p)) is Some && slot_holds(taken.open, sc, p)
                == #[trigger] slot_holds(taken.open, sc2, p2) implies sc == sc2 && p == p2 by {
            assert(slot_holds(s.open, sc, p) == slot_holds(s.open, sc2, p2));
        }
    }
    assert(waiting_nodes_replay(taken, start, radix)) by {
        assert forall|sc: u128, p: usize|
            (#[trigger] slot_holds(taken.open, sc, p)) is Some implies ready(
            taken.arena,
            start,
            radix,
            slot_holds(taken.open, sc, p)->0,
        ) by {
            assert(slot_holds(s.open, sc, p) == slot_holds(taken.open, sc, p));
        }
    }
}

/// Taking a slot that holds no node keeps the state together.
pub proof fn lemma_skipped(s: SearchView, start: Seq<u8>, radix: u8, score: u128)
    requires
        consistent(s, start, radix),
        stack_at(s.open, score).len() > 0,
    ensures
        consistent(
            taken_from(s, score),
            start,
            radix,
        ),
{
    let taken = taken_from(s, score);
    assert forall|sc: u128, p: usize|
        (#[trigger] slot_holds(taken.open, sc, p)) is Some implies slot_holds(taken.open, sc, p)
        == slot_holds(s.open, sc, p) by {
        lemma_popped_slots(s.open, score, sc, p);
    }
}

/// Recording the board that solves the search keeps the state together, and
/// the record replays the new node to that board.
pub proof fn lemma_goal_recorded(
    s: SearchView,
    start: Seq<u8>,
    radix: u8,
    node: usize,
    depth: nat,
    board: Seq<u8>,
    place: usize,
)
    requires
        under_expansion(s, start, radix, node, depth, board),
        place < legal_moves(board, radix).len(),
        s.arena.len() <= usize::MAX,
    ensures
        ({
            let entry = IncrementalNode { prev_index: node, move_index: place };
            let after = goal_recorded(s, entry);
            let next = apply(board, radix, legal_moves(board, radix)[place as int]);
            &&& consistent(after, start, radix)
            &&& reconstruct(after.arena, start, radix, s.arena.len() as usize) matches Some(
                (path, end),
            ) && end == next && path.len() == depth + 1
        }),
{
    let entry = IncrementalNode { prev_index: node, move_index: place };
    let after = goal_recorded(s, entry);
    lemma_pushed_record(s, start, radix, node, depth, board, place);
    assert(waiting_nodes_replay(after, start, radix)) by {
        assert forall|sc: u128, p: usize|
            (#[trigger] slot_holds(after.open, sc, p)) is Some implies ready(
            after.arena,
            start,
            radix,
            slot_holds(after.open, sc, p)->0,
        ) by {
            let x = slot_holds(s.open, sc, p)->0;
            assert(x != node);
            assert(ready(s.arena, start, radix, x));
            lemma_kept_on_push(s.arena, entry, start, radix, x);
        }
    }
}

/// A node that waits is not disturbed by a new node at the end of the
/// record that was reached from another node.
proof fn lemma_kept_on_push(
    arena: Seq<IncrementalNode>,
    entry: IncrementalNode,
    start: Seq<u8>,
    radix: u8,
    x: usize,
)
    requires
        ready(arena, start, radix, x),
        x != 0,
        entry.prev_index != x,
        entry.prev_index < arena.len(),
    ensures
        ready(arena.push(entry), start, radix, x),
{
    let longer = arena.push(entry);
    assert forall|i: int| 0 < i < longer.len() implies (#[trigger] longer[i]).prev_index != x by {
        if i < arena.len() {
            assert(longer[i] == arena[i]);
        }
    }
    lemma_rev_moves_push(arena, entry, x, arena.len());
    lemma_rev_moves_fuel(longer, x, arena.len(), longer.len());
}

/// The record replays a new node at its end, reached from the node under
/// expansion, to the board after the move that led there.
proof fn lemma_pushed_record(
    s: SearchView,
    start: Seq<u8>,
    radix: u8,
    node: usize,
    depth: nat,
    board: Seq<u8>,
    place: usize,
)
    requires
        under_expansion(s, start, radix, node, depth, board),
        place < legal_moves(board, radix).len(),
        s.arena.len() <= usize::MAX,
    ensures
        ({
            let entry = IncrementalNode { prev_index: node, move_index: place };
            let longer = s.arena.push(entry);
            let next = apply(board, radix, legal_moves(board, radix)[place as int]);
            &&& reconstruct(longer, start, radix, node) == reconstruct(s.arena, start, radix, node)
            &&& reconstruct(longer, start, radix, s.arena.len() as usize) matches Some(
                (path, end),
            ) && end == next && path.len() == depth + 1
            &&& forall|i: int| 0 <= i < longer.len() ==> (#[trigger] longer[i]).prev_index
                < longer.len()
        }),
{
    let entry = IncrementalNode { prev_index: node, move_index: place };
    let longer = s.arena.push(entry);
    lemma_rev_moves_push(s.arena, entry, node, s.arena.len());
    lemma_rev_moves_fuel(longer, node, s.arena.len(), longer.len());
    assert(rev_moves(longer, node, longer.len()) == rev_moves(s.arena, node, s.arena.len()));
    assert(reconstruct(longer, start, radix, node) == reconstruct(s.arena, start, radix, node));
    lemma_rev_moves_short(longer, node, longer.len());
    assert(longer[s.arena.len() as int] == entry);
    lemma_reconstruct_child(longer, start, radix, s.arena.len() as usize);
    assert forall|i: int| 0 <= i < longer.len() implies (#[trigger] longer[i]).prev_index
        < longer.len() by {
        if i < s.arena.len() {
            assert(longer[i] == s.arena[i]);
        }
    }
}

/// Whether a board that comes with `hash` and `score` changes nothing: it
/// is known with a score as good.
pub open spec fn kept(s: SearchView, hash: u128, score: u128) -> bool {
    s.seen.contains_key(hash) && s.seen[hash].0 <= score
}

/// The node that records a board that comes with `hash`: the node that
/// waits for the board, or a new node.
pub open spec fn recorded_at(s: SearchView, hash: u128) -> usize {
    if s.seen.contains_key(hash) && slot_holds(s.open, s.seen[hash].0, s.seen[hash].1) is Some {
        slot_holds(s.open, s.seen[hash].0, s.seen[hash].1)->0
    } else {
        s.arena.len() as usize
    }
}

/// What an admission that changes the state does to it: one node is
/// recorded and waits in a new slot, the slot that the table knew is empty,
/// and the record replays every other node as before.
pub open spec fn admission_made(
    s: SearchView,
    after: SearchView,
    start: Seq<u8>,
    radix: u8,
    node: usize,
    depth: nat,
    hash: u128,
    score: u128,
    next: Seq<u8>,
) -> bool {
    let index = recorded_at(s, hash);
    &&& index != node
    &&& index != 0
    &&& after.seen == s.seen.insert(hash, (score, after.seen[hash].1))
    &&& after.met == s.met.insert(hash, next)
    &&& after.seen[hash].1 == stack_at(s.open, score).len()
    &&& index < s.arena.len() ==> slot_holds(s.open, s.seen[hash].0, s.seen[hash].1) == Some(index)
        && s.seen.contains_key(hash)
    &&& index <= s.arena.len()
    &&& reconstruct(after.arena, start, radix, index) matches Some((path, end)) && end == next
        && path.len() == depth + 1
    &&& forall|other: usize|
        other != index && reconstruct(s.arena, start, radix, other) is Some ==> #[trigger]
        reconstruct(after.arena, start, radix, other) == reconstruct(s.arena, start, radix, other)
    &&& forall|sc: u128, p: usize| #[trigger]
        slot_holds(after.open, sc, p) == if sc == score && p == after.seen[hash].1 {
            Some(index)
        } else if s.seen.contains_key(hash) && sc == s.seen[hash].0 && p == s.seen[hash].1 {
            None
        } else {
            slot_holds(s.open, sc, p)
        }
    &&& forall|key: u128| #[trigger]
        after.open.contains_key(key) ==> key == score || s.open.contains_key(key)
}

/// Admitting a board that a move of the node under expansion leads to
/// keeps the state together.
pub proof fn lemma_admitted(
    s: SearchView,
    start: Seq<u8>,
    radix: u8,
    node: usize,
    depth: nat,
    board: Seq<u8>,
    place: usize,
    hash: u128,
    score: u128,
    next: Seq<u8>,
)
    requires
        next == apply(board, radix, legal_moves(board, radix)[place as int]),
        under_expansion(s, start, radix, node, depth, board),
        place < legal_moves(board, radix).len(),
        !all_dead(apply(board, radix, legal_moves(board, radix)[place as int])),
        apply(board, radix, legal_moves(board, radix)[place as int]).len() <= usize::MAX,
        s.arena.len() <= usize::MAX,
        stack_at(s.open, score).len() <= usize::MAX,
    ensures
        under_expansion(
            admitted(s, hash, score, IncrementalNode { prev_index: node, move_index: place }, next),
            start,
            radix,
            node,
            depth,
            board,
        ),
        !kept(s, hash, score) ==> admission_made(
            s,
            admitted(s, hash, score, IncrementalNode { prev_index: node, move_index: place }, next),
            start,
            radix,
            node,
            depth,
            hash,
            score,
            next,
        ),
{
    let entry = IncrementalNode { prev_index: node, move_index: place };
    let after = admitted(s, hash, score, entry, next);
    if s.seen.contains_key(hash) && s.seen[hash].0 <= score {
    } else {
        let known = s.seen.contains_key(hash);
        let old_score = s.seen[hash].0;
        let old_position = s.seen[hash].1;
        let reuse = if known {
            slot_holds(s.open, old_score, old_position)
        } else {
            None
        };
        let open = if known {
            retired(s.open, old_score, old_position)
        } else {
            s.open
        };
        let index = match reuse {
            Some(index) => index,
            None => s.arena.len() as usize,
        };
        let position = stack_at(open, score).len() as usize;
        assert(after.open == pushed(open, score, index));
        assert(stack_at(open, score).len() == stack_at(s.open, score).len()) by {
            lemma_retired_slots(s.open, old_score, old_position, score, 0);
        }
        // What every slot holds afterwards.
        assert forall|sc: u128, p: usize|
            slot_holds(after.open, sc, p) == if sc == score && p == position {
                Some(index)
            } else if known && sc == old_score && p == old_position {
                None
            } else {
                slot_holds(s.open, sc, p)
            } by {
            lemma_pushed_slots(open, score, index, sc, p);
            lemma_retired_slots(s.open, old_score, old_position, sc, p);
        }
        // The node that is recorded differs from every node that still waits.
        assert forall|sc: u128, p: usize|
            !(sc == score && p == position) && (#[trigger] slot_holds(after.open, sc, p))
                is Some implies slot_holds(after.open, sc, p) == slot_holds(s.open, sc, p)
            && slot_holds(s.open, sc, p) != Some(index) by {
            if reuse is Some && slot_holds(s.open, sc, p) == Some(index) {
                assert(slot_holds(s.open, sc, p) == slot_holds(s.open, old_score, old_position));
            }
        }
        assert(index != node) by {
            if reuse is Some {
                assert(slot_holds(s.open, old_score, old_position) != Some(node));
            }
        }
        match reuse {
            Some(at) => {
                assert(ready(s.arena, start, radix, at));
                assert(at != 0);
                assert(after.arena == s.arena.update(at as int, entry));
                lemma_rev_moves_update(s.arena, at, entry, node, s.arena.len());
                assert(reconstruct(after.arena, start, radix, node) == reconstruct(
                    s.arena,
                    start,
                    radix,
                    node,
                ));
                lemma_rev_moves_short(after.arena, node, after.arena.len());
                lemma_reconstruct_child(after.arena, start, radix, at);
                assert(ready(after.arena, start, radix, at)) by {
                    assert forall|i: int| 0 < i < after.arena.len() implies (
                    #[trigger] after.arena[i]).prev_index != at by {
                        if i != at {
                            assert(after.arena[i] == s.arena[i]);
                        }
                    }
                }
                assert forall|sc: u128, p: usize|
                    !(sc == score && p == position) && (#[trigger] slot_holds(after.open, sc, p))
                        is Some implies ready(
                    after.arena,
                    start,
                    radix,
                    slot_holds(after.open, sc, p)->0,
                ) by {
                    let x = slot_holds(s.open, sc, p)->0;
                    assert(ready(s.arena, start, radix, x));
                    assert(x != at);
                    assert(x != node);
                    lemma_rev_moves_update(s.arena, at, entry, x, s.arena.len());
                    assert forall|i: int| 0 < i < after.arena.len() implies (
                    #[trigger] after.arena[i]).prev_index != x by {
                        if i != at {
                            assert(after.arena[i] == s.arena[i]);
                        }
                    }
                }
                assert forall|i: int| 0 <= i < after.arena.len() implies (
                #[trigger] after.arena[i]).prev_index < after.arena.len() by {
                    if i != at {
                        assert(after.arena[i] == s.arena[i]);
                    }
                }
                assert forall|other: usize|
                    other != index && reconstruct(s.arena, start, radix, other)
                        is Some implies #[trigger] reconstruct(after.arena, start, radix, other)
                    == reconstruct(s.arena, start, radix, other) by {
                    lemma_rev_moves_update(s.arena, at, entry, other, s.arena.len());
                }
            },
            None => {
                assert(after.arena == s.arena.push(entry));
                lemma_pushed_record(s, start, radix, node, depth, board, place);
                assert(ready(after.arena, start, radix, index)) by {
                    assert forall|i: int| 0 < i < after.arena.len() implies (
                    #[trigger] after.arena[i]).prev_index != index by {
                        if i < s.arena.len() {
                            assert(after.arena[i] == s.arena[i]);
                        }
                    }
                }
                assert forall|sc: u128, p: usize|
                    !(sc == score && p == position) && (#[trigger] slot_holds(after.open, sc, p))
                        is Some implies ready(
                    after.arena,
                    start,
                    radix,
                    slot_holds(after.open, sc, p)->0,
                ) by {
                    let x = slot_holds(s.open, sc, p)->0;
                    assert(x != node);
                    assert(ready(s.arena, start, radix, x));
                    lemma_kept_on_push(s.arena, entry, start, radix, x);
                }
                assert forall|other: usize|
                    other != index && reconstruct(s.arena, start, radix, other)
                        is Some implies #[trigger] reconstruct(after.arena, start, radix, other)
                    == reconstruct(s.arena, start, radix, other) by {
                    lemma_rev_moves_push(s.arena, entry, other, s.arena.len());
                    lemma_rev_moves_fuel(after.arena, other, s.arena.len(), after.arena.len());
                }
            },
        }
        assert(waiting_nodes_replay(after, start, radix));
        assert(index != 0) by {
            if reuse is Some {
                assert(ready(s.arena, start, radix, index));
            }
        }
        assert(after.seen[hash].1 == position);
        assert forall|key: u128| #[trigger] after.open.contains_key(key) implies key == score
            || s.open.contains_key(key) by {}
        assert(waits_once(after.open)) by {
            assert forall|sc: u128, p: usize, sc2: u128, p2: usize|
                (#[trigger] slot_holds(after.open, sc, p)) is Some && slot_holds(after.open, sc, p)
                    == #[trigger] slot_holds(after.open, sc2, p2) implies sc == sc2 && p == p2 by {
                if !(sc == score && p == position) && !(sc2 == score && p2 == position) {
                    assert(slot_holds(s.open, sc, p) == slot_holds(s.open, sc2, p2));
                }
            }
        }
    }
}

} // verus!
