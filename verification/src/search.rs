//! The search: from the first board, always expand a waiting board of the
//! lowest score, until a move solves the board that it is made on.

use vstd::prelude::*;
use std::collections::HashMap;
use crate::board::{apply, play, BoardMove, FullBoard};
use crate::consistency::{
    consistent, lemma_admitted, lemma_goal_recorded, lemma_seeded_consistent, lemma_skipped,
    lemma_taken, under_expansion,
};
use crate::digest::fingerprint;
use crate::frontier::{is_lowest, popped, pushed, retired, slot_holds, stack_at, Frontier, FrontierView};
use crate::layout::{all_dead, count_live, heuristic};
use crate::optimality::{
    expanding, in_order, lemma_admitted_in_order, lemma_exhausted_means_unsolvable,
    lemma_expansion_done, lemma_first_solution_is_shortest, lemma_seeded_in_order,
    lemma_skipped_in_order, lemma_taken_in_order, shortest, successor, unsolvable,
};
use crate::moves::{legal_moves, lemma_legal_moves, lemma_offer_fits};
use crate::path::{
    lemma_replay_is_play, reconstruct, reconstruct_path, reconstruct_state, rev_moves,
    IncrementalNode,
};

verus! {

/// The score of a board in the search: the moves that led to it and the
/// least number of moves that it still needs.
pub type Cost = u128;

/// The state of a search as a value.
pub struct SearchView {
    /// The record: one node for every board that was reached.
    pub arena: Seq<IncrementalNode>,
    /// The nodes that wait for expansion.
    pub open: FrontierView,
    /// For the fingerprint of every board that was admitted, the best score
    /// it was reached with and the position of its slot in the stack of
    /// that score.
    pub seen: Map<u128, (Cost, usize)>,
    /// For every fingerprint that is known, the board that was admitted
    /// with it last. No program keeps these boards: they are what the
    /// table of known boards stands for.
    pub met: Map<u128, Seq<u8>>,
    /// Whether every board that came with a known fingerprint was the
    /// board that is known by it.
    pub clean: bool,
}

/// The score of a board that was reached by `depth` moves.
pub open spec fn score_of(depth: nat, cells: Seq<u8>) -> nat {
    depth + heuristic(count_live(cells))
}

/// The state after a board with fingerprint `hash` was reached with
/// `score` by the step that `entry` records.
///
/// A board that is not known gets a new node and waits under its score. A
/// board that is known with a score as good changes nothing. A board that
/// is known with a worse score loses its slot; its node is recorded anew
/// under the better way and waits under the better score. Where that slot
/// holds no node any more, the board gets a new node as if it were not
/// known.
///
/// `next` is the board itself. The search takes a board for known by its
/// fingerprint alone; the state notes where that went wrong.
pub open spec fn admitted(
    s: SearchView,
    hash: u128,
    score: Cost,
    entry: IncrementalNode,
    next: Seq<u8>,
) -> SearchView {
    let clean = s.clean && (s.seen.contains_key(hash) ==> s.met[hash] == next);
    if s.seen.contains_key(hash) && s.seen[hash].0 <= score {
        SearchView { arena: s.arena, open: s.open, seen: s.seen, met: s.met, clean }
    } else {
        let reuse = if s.seen.contains_key(hash) {
            slot_holds(s.open, s.seen[hash].0, s.seen[hash].1)
        } else {
            None
        };
        let open = if s.seen.contains_key(hash) {
            retired(s.open, s.seen[hash].0, s.seen[hash].1)
        } else {
            s.open
        };
        let index = match reuse {
            Some(index) => index,
            None => s.arena.len() as usize,
        };
        SearchView {
            arena: match reuse {
                Some(index) => s.arena.update(index as int, entry),
                None => s.arena.push(entry),
            },
            open: pushed(open, score, index),
            seen: s.seen.insert(hash, (score, stack_at(open, score).len() as usize)),
            met: s.met.insert(hash, next),
            clean,
        }
    }
}

/// The state after the top slot of the stack of `score` was taken.
pub open spec fn taken_from(s: SearchView, score: u128) -> SearchView {
    SearchView { arena: s.arena, open: popped(s.open, score), seen: s.seen, met: s.met, clean: s.clean }
}

/// The state after the board that solves the search was recorded.
pub open spec fn goal_recorded(s: SearchView, entry: IncrementalNode) -> SearchView {
    SearchView { arena: s.arena.push(entry), open: s.open, seen: s.seen, met: s.met, clean: s.clean }
}

/// The state after the moves of `board` from the one at place `from` on
/// were tried, and the node of the solved board where one of them solved
/// it. `board` is the board of `node` and was reached by `depth` moves.
///
/// The moves are tried in their order. One that solves the board is
/// recorded and ends the expansion. The board that any other leads to is
/// admitted with its score.
pub open spec fn expanded(
    s: SearchView,
    radix: u8,
    node: usize,
    depth: nat,
    board: Seq<u8>,
    from: int,
) -> (SearchView, Option<usize>)
    decreases legal_moves(board, radix).len() - from,
{
    let offered = legal_moves(board, radix);
    if from < 0 || from >= offered.len() {
        (s, None)
    } else {
        let next = apply(board, radix, offered[from]);
        let entry = IncrementalNode { prev_index: node, move_index: from as usize };
        if all_dead(next) {
            (goal_recorded(s, entry), Some(s.arena.len() as usize))
        } else {
            expanded(
                admitted(s, fingerprint(next), score_of(depth + 1, next) as u128, entry, next),
                radix,
                node,
                depth,
                board,
                from + 1,
            )
        }
    }
}

/// How one step of a search ended, as a value.
pub enum StepView {
    /// Nothing waits: the search ends without a solution.
    Exhausted,
    /// The slot that was taken held no node.
    Skipped,
    /// The board of `node`, which waited under `score` and was reached by
    /// `depth` moves, was expanded, and none of its moves solved it.
    Expanded { node: usize, score: Cost, depth: nat },
    /// A move solved the board: these moves lead from the first board to
    /// the solved one.
    Solved(Seq<BoardMove>),
}

/// The state after one step of the search from `start`, and how the step
/// ended.
///
/// The slot that leaves is the top of the stack of the lowest score. The
/// board of its node is what the record replays to; in a state that holds
/// together the record does replay (see `consistent`).
pub open spec fn stepped(s: SearchView, start: Seq<u8>, radix: u8) -> (SearchView, StepView) {
    if s.open == Map::<u128, Seq<Option<usize>>>::empty() {
        (s, StepView::Exhausted)
    } else {
        let score = choose|score: u128| is_lowest(s.open, score);
        let taken = taken_from(s, score);
        match s.open[score].last() {
            None => (taken, StepView::Skipped),
            Some(node) => {
                let (moves, board) = reconstruct(s.arena, start, radix, node).unwrap();
                let (after, solved) = expanded(taken, radix, node, moves.len(), board, 0);
                match solved {
                    None => (after, StepView::Expanded { node, score, depth: moves.len() }),
                    Some(goal) => (
                        after,
                        StepView::Solved(reconstruct(after.arena, start, radix, goal).unwrap().0),
                    ),
                }
            },
        }
    }
}

/// The state in which a search from any board starts: the first board is
/// recorded, waits under score 0, and no board is known.
pub open spec fn seeded() -> SearchView {
    SearchView {
        arena: seq![IncrementalNode { prev_index: 0, move_index: 0 }],
        open: Map::<u128, Seq<Option<usize>>>::empty().insert(0, seq![Some(0usize)]),
        seen: Map::empty(),
        met: Map::empty(),
        clean: true,
    }
}

/// Whether `path` is a play of the game that leads from `start` to a solved
/// board.
pub open spec fn solves(start: Seq<u8>, radix: u8, path: Seq<BoardMove>) -> bool {
    play(start, radix, path) matches Some(end) && all_dead(end)
}

/// How one step of a search ended.
#[derive(Debug)]
pub enum Outcome {
    /// Nothing waits: the search ends without a solution.
    Exhausted,
    /// The slot that was taken held no node.
    Skipped,
    /// The board of `node`, which waited under `score` and was reached by
    /// `depth` moves, was expanded, and none of its moves solved it.
    Expanded { node: usize, score: Cost, depth: usize },
    /// A move solved the board: these moves lead from the first board to
    /// the solved one.
    Solved(Vec<BoardMove>),
}

impl View for Outcome {
    type V = StepView;

    /// The outcome with its moves as a sequence.
    open spec fn view(&self) -> StepView {
        match self {
            Outcome::Exhausted => StepView::Exhausted,
            Outcome::Skipped => StepView::Skipped,
            Outcome::Expanded { node, score, depth } => StepView::Expanded {
                node: *node,
                score: *score,
                depth: *depth as nat,
            },
            Outcome::Solved(path) => StepView::Solved(path@),
        }
    }
}

/// One search from one board: its record, the nodes that wait, and the
/// boards it knows.
pub struct Search {
    start: FullBoard,
    arena: Vec<IncrementalNode>,
    open: Frontier,
    seen: HashMap<u128, (Cost, usize)>,
    met: Ghost<Map<u128, Seq<u8>>>,
    clean: Ghost<bool>,
}

impl View for Search {
    type V = SearchView;

    /// The record, the frontier and the table of known boards, with the
    /// boards that the table stands for.
    closed spec fn view(&self) -> SearchView {
        SearchView {
            arena: self.arena@,
            open: self.open@,
            seen: self.seen@,
            met: self.met@,
            clean: self.clean@,
        }
    }
}

impl Search {
    /// The board that the search starts from.
    pub closed spec fn start(&self) -> FullBoard {
        self.start
    }

    /// The parts of the search are each valid, and the first board is not
    /// solved.
    pub closed spec fn shape(&self) -> bool {
        &&& self.open.wf()
        &&& self.start.wf()
        &&& !all_dead(self.start@)
    }

    /// The search is in order: as long as its fingerprints told apart the
    /// boards that it met, no node waits under a score that is lower than
    /// the score of a board that was expanded, and the table knows every
    /// board that a move of an expanded board leads to.
    pub open spec fn in_order(&self) -> bool {
        in_order(self@, self.start()@, self.start().spec_radix())
    }

    /// The search holds together: its parts are valid, and every node that
    /// waits replays to a board that can be expanded.
    pub open spec fn wf(&self) -> bool {
        &&& self.shape()
        &&& consistent(self@, self.start()@, self.start().spec_radix())
    }

    /// A search that is about to start from `start`, which must not be
    /// solved.
    pub fn new(start: &FullBoard) -> (search: Search)
        requires
            !all_dead(start@),
        ensures
            search.wf(),
            search.in_order(),
            search.start()@ == start@,
            search.start().spec_radix() == start.spec_radix(),
            search@ == seeded(),
    {
        let mut arena: Vec<IncrementalNode> = Vec::new();
        arena.push(IncrementalNode { prev_index: 0, move_index: 0 });
        let mut open = Frontier::new();
        open.push(0, 0);
        let board = start.clone();
        let search = Search {
            start: board,
            arena,
            open,
            seen: HashMap::new(),
            met: Ghost(Map::empty()),
            clean: Ghost(true),
        };
        proof {
            assert(search@.arena =~= seeded().arena);
            assert(search@.open =~= seeded().open);
            assert(search@.seen =~= seeded().seen);
            start.lemma_len_fits();
            lemma_seeded_consistent(start@, start.spec_radix());
            lemma_seeded_in_order(start@, start.spec_radix());
            assert(search@ == seeded());
        }
        search
    }

    /// The record of the search.
    pub fn arena(&self) -> (arena: &Vec<IncrementalNode>)
        ensures
            arena@ == self@.arena,
    {
        &self.arena
    }

    /// Admits the board that the move at place `entry.move_index` of the
    /// node under expansion leads to. The board was reached with `score`
    /// and has the fingerprint `hash`.
    fn admission(
        &mut self,
        hash: u128,
        score: Cost,
        entry: IncrementalNode,
        Ghost(depth): Ghost<nat>,
        Ghost(board): Ghost<Seq<u8>>,
        Ghost(floor): Ghost<Option<int>>,
    )
        requires
            old(self).shape(),
            hash == fingerprint(
                successor(board, old(self).start().spec_radix(), entry.move_index as int),
            ),
            score == score_of(
                depth + 1,
                successor(board, old(self).start().spec_radix(), entry.move_index as int),
            ),
            floor is Some && old(self)@.clean ==> expanding(
                old(self)@,
                old(self).start()@,
                old(self).start().spec_radix(),
                entry.prev_index,
                depth,
                board,
                floor->0,
                entry.move_index as int,
            ),
            under_expansion(
                old(self)@,
                old(self).start()@,
                old(self).start().spec_radix(),
                entry.prev_index,
                depth,
                board,
            ),
            entry.move_index < legal_moves(board, old(self).start().spec_radix()).len(),
            ({
                let radix = old(self).start().spec_radix();
                let next = apply(board, radix, legal_moves(board, radix)[entry.move_index as int]);
                !all_dead(next) && next.len() <= usize::MAX
            }),
        ensures
            final(self).shape(),
            final(self).start() == old(self).start(),
            final(self)@ == admitted(
                old(self)@,
                hash,
                score,
                entry,
                apply(
                    board,
                    old(self).start().spec_radix(),
                    legal_moves(board, old(self).start().spec_radix())[entry.move_index as int],
                ),
            ),
            under_expansion(
                final(self)@,
                old(self).start()@,
                old(self).start().spec_radix(),
                entry.prev_index,
                depth,
                board,
            ),
            final(self)@.clean ==> old(self)@.clean,
            floor is Some && final(self)@.clean ==> expanding(
                final(self)@,
                old(self).start()@,
                old(self).start().spec_radix(),
                entry.prev_index,
                depth,
                board,
                floor->0,
                entry.move_index + 1,
            ),
    {
        proof {
            self.open.lemma_stack_fits(score);
            assert(self.arena@.len() == self.arena.len());
            lemma_admitted(
                self@,
                self.start@,
                self.start.spec_radix(),
                entry.prev_index,
                depth,
                board,
                entry.move_index,
                hash,
                score,
                apply(
                    board,
                    self.start.spec_radix(),
                    legal_moves(board, self.start.spec_radix())[entry.move_index as int],
                ),
            );
            let after = admitted(
                self@,
                hash,
                score,
                entry,
                successor(board, self.start.spec_radix(), entry.move_index as int),
            );
            if after.clean && floor is Some {
                lemma_admitted_in_order(
                    self@,
                    self.start@,
                    self.start.spec_radix(),
                    entry.prev_index,
                    depth,
                    board,
                    floor->0,
                    entry.move_index,
                    score,
                );
            }
        }
        let ghost next = apply(
            board,
            self.start.spec_radix(),
            legal_moves(board, self.start.spec_radix())[entry.move_index as int],
        );
        let known: Option<(Cost, usize)> = match self.seen.get(&hash) {
            Some(known) => Some(*known),
            None => None,
        };
        proof {
            self.clean = Ghost(self.clean@ && (self.seen@.contains_key(hash) ==> self.met@[hash] == next));
        }
        let mut reuse: Option<usize> = None;
        match known {
            Some((old_score, old_position)) => {
                if old_score <= score {
                    return ;
                }
                reuse = self.open.retire(old_score, old_position);
            },
            None => {},
        }
        proof {
            self.met = Ghost(self.met@.insert(hash, next));
        }
        let index: usize = match reuse {
            Some(index) => {
                self.arena.set(index, entry);
                index
            },
            None => {
                let index: usize = self.arena.len();
                self.arena.push(entry);
                index
            },
        };
        let position: usize = self.open.push(score, index);
        self.seen.insert(hash, (score, position));
        assert(self@.arena =~= admitted(old(self)@, hash, score, entry, next).arena);
        assert(self@.seen =~= admitted(old(self)@, hash, score, entry, next).seen);
    }

    /// Tries the moves of `board`, which is the board of `node` and was
    /// reached by `depth` moves. Reports the node of the solved board where
    /// one of them solves it, having recorded it; admits the boards that
    /// the others lead to.
    fn expand(
        &mut self,
        node: usize,
        depth: usize,
        board: &FullBoard,
        Ghost(floor): Ghost<Option<int>>,
    ) -> (solved: Option<usize>)
        requires
            old(self).shape(),
            floor is Some && old(self)@.clean ==> expanding(
                old(self)@,
                old(self).start()@,
                old(self).start().spec_radix(),
                node,
                depth as nat,
                board@,
                floor->0,
                0,
            ),
            board.spec_radix() == old(self).start().spec_radix(),
            under_expansion(
                old(self)@,
                old(self).start()@,
                old(self).start().spec_radix(),
                node,
                depth as nat,
                board@,
            ),
        ensures
            final(self).wf(),
            final(self).start() == old(self).start(),
            (final(self)@, solved) == expanded(
                old(self)@,
                board.spec_radix(),
                node,
                depth as nat,
                board@,
                0,
            ),
            solved matches Some(goal) ==> reconstruct(
                final(self)@.arena,
                old(self).start()@,
                board.spec_radix(),
                goal,
            ) matches Some((path, end)) && all_dead(end) && path.len() == depth + 1,
            final(self)@.clean ==> old(self)@.clean,
            solved is None && floor is Some ==> final(self).in_order(),
    {
        let radix: u8 = board.radix();
        let mut moves = board.moves();
        let mut move_index: usize = 0;
        proof {
            board.lemma_len_fits();
            lemma_offer_fits(board@, radix);
            assert(legal_moves(board@, radix).skip(0) == legal_moves(board@, radix));
        }
        loop
            invariant
                self.shape(),
                self.start() == old(self).start(),
                under_expansion(self@, self.start()@, radix, node, depth as nat, board@),
                self@.clean ==> old(self)@.clean,
                floor is Some && self@.clean ==> expanding(
                    self@,
                    self.start()@,
                    radix,
                    node,
                    depth as nat,
                    board@,
                    floor->0,
                    move_index as int,
                ),
                moves.wf(),
                moves.board() == *board,
                radix == board.spec_radix(),
                radix == self.start().spec_radix(),
                move_index <= legal_moves(board@, radix).len() <= board@.len() + 1,
                moves.remaining() == legal_moves(board@, radix).skip(move_index as int),
                expanded(old(self)@, radix, node, depth as nat, board@, 0) == expanded(
                    self@,
                    radix,
                    node,
                    depth as nat,
                    board@,
                    move_index as int,
                ),
            decreases legal_moves(board@, radix).len() - move_index,
        {
            let ghost offered = legal_moves(board@, radix);
            let the_move: BoardMove = match moves.next() {
                Some(the_move) => the_move,
                None => {
                    proof {
                        assert(offered.skip(move_index as int).len() == 0);
                        if self@.clean && floor is Some {
                            lemma_expansion_done(
                                self@,
                                self.start()@,
                                radix,
                                node,
                                depth as nat,
                                board@,
                                floor->0,
                            );
                        }
                    }
                    return None;
                },
            };
            proof {
                assert(the_move == offered[move_index as int]);
                lemma_legal_moves(board@, radix);
                crate::laws::law_legal_is_applicable(board@, radix, the_move);
                assert(offered.skip(move_index as int).drop_first() == offered.skip(
                    move_index + 1,
                ));
            }
            let neighbor: FullBoard = board.apply_move(the_move);
            let entry = IncrementalNode { prev_index: node, move_index };
            proof {
                neighbor.lemma_len_fits();
            }
            if neighbor.is_goal() {
                let index: usize = self.arena.len();
                proof {
                    lemma_goal_recorded(
                        self@,
                        self.start@,
                        radix,
                        node,
                        depth as nat,
                        board@,
                        move_index,
                    );
                }
                self.arena.push(entry);
                return Some(index);
            }
            let score: Cost = depth as u128 + 1 + neighbor.compute_h_score() as u128;
            let hash: u128 = neighbor.get_hash();
            self.admission(hash, score, entry, Ghost(depth as nat), Ghost(board@), Ghost(floor));
            if move_index == usize::MAX {
                assert(expanded(self@, radix, node, depth as nat, board@, move_index + 1) == (
                    self@,
                    None::<usize>,
                ));
                proof {
                    if self@.clean && floor is Some {
                        lemma_expansion_done(
                            self@,
                            self.start()@,
                            radix,
                            node,
                            depth as nat,
                            board@,
                            floor->0,
                        );
                    }
                }
                return None;
            }
            move_index += 1;
        }
    }

    /// Makes one step of the search: takes the slot that is next to leave
    /// the frontier and, where it holds a node, expands the board of that
    /// node. A search that was in order before the step is in order after
    /// it, unless the step solved the board; then the moves are as few as
    /// any that solve it.
    pub fn step(&mut self) -> (outcome: Outcome)
        requires
            old(self).wf(),
        ensures
            final(self).wf(),
            final(self).start() == old(self).start(),
            (final(self)@, outcome@) == stepped(
                old(self)@,
                old(self).start()@,
                old(self).start().spec_radix(),
            ),
            outcome matches Outcome::Solved(path) ==> path@.len() > 0 && solves(
                old(self).start()@,
                old(self).start().spec_radix(),
                path@,
            ),
            final(self)@.clean ==> old(self)@.clean,
            old(self).in_order() && !(outcome is Solved) ==> final(self).in_order(),
            old(self).in_order() && final(self)@.clean ==> (outcome matches Outcome::Solved(path)
                ==> shortest(old(self).start()@, old(self).start().spec_radix(), path@.len())),
            old(self).in_order() && final(self)@.clean && outcome is Exhausted ==> unsolvable(
                old(self).start()@,
                old(self).start().spec_radix(),
            ),
    {
        let ghost radix = self.start.spec_radix();
        let (score, entry): (Cost, Option<usize>) = match self.open.pop() {
            Some(taken) => taken,
            None => {
                proof {
                    if self@.clean && old(self).in_order() {
                        lemma_exhausted_means_unsolvable(self@, self.start@, radix);
                    }
                }
                return Outcome::Exhausted;
            },
        };
        assert(score == choose|score: u128| is_lowest(old(self)@.open, score));
        let node: usize = match entry {
            Some(node) => node,
            None => {
                proof {
                    old(self).open.lemma_stack_fits(score);
                    lemma_skipped(old(self)@, self.start@, radix, score);
                    if old(self).in_order() {
                        lemma_skipped_in_order(old(self)@, self.start@, radix, score);
                    }
                }
                return Outcome::Skipped;
            },
        };
        proof {
            old(self).open.lemma_stack_fits(score);
            lemma_taken(old(self)@, self.start@, radix, score, node);
            if old(self)@.clean && old(self).in_order() {
                lemma_taken_in_order(old(self)@, self.start@, radix, score, node);
                lemma_first_solution_is_shortest(old(self)@, self.start@, radix, score, node);
            }
        }
        let (depth, board): (usize, FullBoard) = reconstruct_state(
            node,
            &self.arena,
            &self.start,
        ).unwrap();
        let ghost sorted = old(self)@.clean && old(self).in_order();
        let solved: Option<usize> = self.expand(
            node,
            depth,
            &board,
            Ghost(if sorted { Some(score as int) } else { None }),
        );
        let goal: usize = match solved {
            Some(goal) => goal,
            None => {
                return Outcome::Expanded { node, score, depth };
            },
        };
        let (path, _): (Vec<BoardMove>, FullBoard) = reconstruct_path(
            goal,
            &self.arena,
            &self.start,
        ).unwrap();
        proof {
            let rev = rev_moves(self.arena@, goal, self.arena@.len())->0;
            lemma_replay_is_play(self.start@, radix, rev.reverse());
        }
        Outcome::Solved(path)
    }
}

/// Why a search returned no answer.
#[derive(Clone, Copy, Debug, PartialEq, Eq, Structural)]
pub enum SearchError {
    /// The first board is solved already: there is nothing to search for.
    AlreadySolved,
    /// The search made as many steps as it was allowed.
    OutOfSteps,
}

/// The answer of a search that goes on from state `s` for `budget` steps at
/// most: the moves that solve the first board, or no moves where no board
/// waits any more.
pub open spec fn searched(s: SearchView, start: Seq<u8>, radix: u8, budget: nat) -> Result<
    Seq<BoardMove>,
    SearchError,
>
    decreases budget,
{
    if budget == 0 {
        Err(SearchError::OutOfSteps)
    } else {
        let (next, how) = stepped(s, start, radix);
        match how {
            StepView::Exhausted => Ok(Seq::empty()),
            StepView::Solved(path) => Ok(path),
            StepView::Skipped | StepView::Expanded { .. } => searched(
                next,
                start,
                radix,
                (budget - 1) as nat,
            ),
        }
    }
}

/// The state in which a search ends that goes on from state `s` for
/// `budget` steps at most.
pub open spec fn last_state(s: SearchView, start: Seq<u8>, radix: u8, budget: nat) -> SearchView
    decreases budget,
{
    if budget == 0 {
        s
    } else {
        let (next, how) = stepped(s, start, radix);
        match how {
            StepView::Exhausted => next,
            StepView::Solved(_) => next,
            StepView::Skipped | StepView::Expanded { .. } => last_state(
                next,
                start,
                radix,
                (budget - 1) as nat,
            ),
        }
    }
}

/// Whether a search from `start` that may make `budget` steps tells apart
/// all the boards that it meets: no two of them have one fingerprint.
pub open spec fn told_apart(start: Seq<u8>, radix: u8, budget: nat) -> bool {
    last_state(seeded(), start, radix, budget).clean
}

/// What the answer of a search is worth where the search told apart the
/// boards that it met: moves that it returns are as few as any moves that
/// solve the board, and where it returns none, nothing solves the board.
/// This speaks of the moves that boards offer, on boards that a machine can
/// hold.
pub open spec fn best(start: Seq<u8>, radix: u8, path: Seq<BoardMove>) -> bool {
    if path.len() > 0 {
        shortest(start, radix, path.len())
    } else {
        unsolvable(start, radix)
    }
}

/// The answer of a search from `start` that may make `budget` steps.
pub open spec fn answer(start: Seq<u8>, radix: u8, budget: nat) -> Result<
    Seq<BoardMove>,
    SearchError,
> {
    if all_dead(start) {
        Err(SearchError::AlreadySolved)
    } else {
        searched(seeded(), start, radix, budget)
    }
}

/// Searches for moves that solve `start`, making `max_steps` steps at most.
///
/// Returns the moves, or no moves where nothing is left to expand. A board
/// that is solved already is rejected. The moves that are returned solve
/// the board. They are as few as any that do, and no moves mean that none
/// do, as long as no two boards that the search met have one fingerprint.
pub fn run_bounded(start: &FullBoard, max_steps: usize) -> (result: Result<
    Vec<BoardMove>,
    SearchError,
>)
    ensures
        match result {
            Ok(path) => answer(start@, start.spec_radix(), max_steps as nat) == Ok::<
                Seq<BoardMove>,
                SearchError,
            >(path@),
            Err(error) => answer(start@, start.spec_radix(), max_steps as nat) == Err::<
                Seq<BoardMove>,
                SearchError,
            >(error),
        },
        result matches Ok(path) ==> path@.len() == 0 || solves(start@, start.spec_radix(), path@),
        result matches Ok(path) ==> told_apart(start@, start.spec_radix(), max_steps as nat)
            ==> best(start@, start.spec_radix(), path@),
        all_dead(start@) <==> result == Err::<Vec<BoardMove>, SearchError>(
            SearchError::AlreadySolved,
        ),
{
    if start.is_goal() {
        return Err(SearchError::AlreadySolved);
    }
    let mut search = Search::new(start);
    let mut left: usize = max_steps;
    while left > 0
        invariant
            search.wf(),
            search.in_order(),
            last_state(seeded(), start@, start.spec_radix(), max_steps as nat) == last_state(
                search@,
                start@,
                start.spec_radix(),
                left as nat,
            ),
            search.start()@ == start@,
            search.start().spec_radix() == start.spec_radix(),
            !all_dead(start@),
            searched(seeded(), start@, start.spec_radix(), max_steps as nat) == searched(
                search@,
                start@,
                start.spec_radix(),
                left as nat,
            ),
        decreases left,
    {
        match search.step() {
            Outcome::Exhausted => {
                return Ok(Vec::new());
            },
            Outcome::Solved(path) => {
                return Ok(path);
            },
            Outcome::Skipped => {},
            Outcome::Expanded { .. } => {},
        }
        left -= 1;
    }
    Err(SearchError::OutOfSteps)
}

/// Searches for moves that solve `start`.
///
/// Returns the moves, or no moves where nothing is left to expand. A board
/// that is solved already is rejected. The moves that are returned solve
/// the board. They are as few as any that do, and no moves mean that none
/// do, as long as no two boards that the search met have one fingerprint.
pub fn run(start: &FullBoard) -> (result: Result<Vec<BoardMove>, SearchError>)
    ensures
        match result {
            Ok(path) => answer(start@, start.spec_radix(), usize::MAX as nat) == Ok::<
                Seq<BoardMove>,
                SearchError,
            >(path@),
            Err(error) => answer(start@, start.spec_radix(), usize::MAX as nat) == Err::<
                Seq<BoardMove>,
                SearchError,
            >(error),
        },
        result matches Ok(path) ==> path@.len() == 0 || solves(start@, start.spec_radix(), path@),
        result matches Ok(path) ==> told_apart(start@, start.spec_radix(), usize::MAX as nat)
            ==> best(start@, start.spec_radix(), path@),
        all_dead(start@) <==> result == Err::<Vec<BoardMove>, SearchError>(
            SearchError::AlreadySolved,
        ),
{
    run_bounded(start, usize::MAX)
}

} // verus!
