//! The moves that a board offers, in the one order that every enumeration
//! of the same board repeats.

use vstd::prelude::*;
use crate::board::{legal, BoardMove, FullBoard};
use crate::cell::{cells_match, is_match};
use crate::layout::{
    all_dead, lemma_next_live, lemma_next_live_down, next_live, next_live_down, row_width,
};

verus! {

/// The crossings found by a scan that stands before position `from`.
/// `consumed` marks the cells that an earlier crossing took as its second
/// cell: they start no crossing of their own. A live cell that is not
/// consumed offers its crossing down where that matches, else its crossing
/// right where that matches, else nothing.
pub open spec fn scan(cells: Seq<u8>, radix: u8, from: int, consumed: Seq<bool>) -> Seq<BoardMove>
    decreases cells.len() - from,
{
    if from < 0 || from >= cells.len() {
        Seq::empty()
    } else if cells[from] == 0 || consumed[from] {
        scan(cells, radix, from + 1, consumed)
    } else {
        let down = next_live_down(cells, row_width(radix), from + row_width(radix));
        let right = next_live(cells, from + 1);
        if down < cells.len() && cells_match(cells[from], cells[down], radix) {
            seq![BoardMove::CrossDownFrom(from as usize, down as usize)] + scan(
                cells,
                radix,
                from + 1,
                consumed.update(down, true),
            )
        } else if right < cells.len() && cells_match(cells[from], cells[right], radix) {
            seq![BoardMove::CrossRightFrom(from as usize, right as usize)] + scan(
                cells,
                radix,
                from + 1,
                consumed.update(right, true),
            )
        } else {
            scan(cells, radix, from + 1, consumed)
        }
    }
}

/// No cell consumed yet.
pub open spec fn none_consumed(len: nat) -> Seq<bool> {
    Seq::new(len, |i: int| false)
}

/// The moves that a board offers, in order: the duplication first, then the
/// crossings that a scan from the first cell finds.
pub open spec fn legal_moves(cells: Seq<u8>, radix: u8) -> Seq<BoardMove> {
    seq![BoardMove::Duplicate] + scan(cells, radix, 0, none_consumed(cells.len()))
}

/// Every crossing that a scan finds is a move of the game.
pub proof fn lemma_scan_legal(cells: Seq<u8>, radix: u8, from: int, consumed: Seq<bool>, k: int)
    requires
        radix >= 2,
        cells.len() <= usize::MAX,
        consumed.len() == cells.len(),
        0 <= k < scan(cells, radix, from, consumed).len(),
    ensures
        legal(cells, radix, scan(cells, radix, from, consumed)[k]),
    decreases cells.len() - from,
{
    if from < 0 || from >= cells.len() {
    } else if cells[from] == 0 || consumed[from] {
        lemma_scan_legal(cells, radix, from + 1, consumed, k);
    } else {
        let down = next_live_down(cells, row_width(radix), from + row_width(radix));
        let right = next_live(cells, from + 1);
        lemma_next_live_down(cells, row_width(radix), from + row_width(radix));
        lemma_next_live(cells, from + 1);
        if down < cells.len() && cells_match(cells[from], cells[down], radix) {
            let rest = scan(cells, radix, from + 1, consumed.update(down, true));
            let first = BoardMove::CrossDownFrom(from as usize, down as usize);
            assert(scan(cells, radix, from, consumed) == seq![first] + rest);
            if k > 0 {
                lemma_scan_legal(cells, radix, from + 1, consumed.update(down, true), k - 1);
                assert((seq![first] + rest)[k] == rest[k - 1]);
            } else {
                assert((seq![first] + rest)[0] == first);
            }
        } else if right < cells.len() && cells_match(cells[from], cells[right], radix) {
            let rest = scan(cells, radix, from + 1, consumed.update(right, true));
            let first = BoardMove::CrossRightFrom(from as usize, right as usize);
            assert(scan(cells, radix, from, consumed) == seq![first] + rest);
            if k > 0 {
                lemma_scan_legal(cells, radix, from + 1, consumed.update(right, true), k - 1);
                assert((seq![first] + rest)[k] == rest[k - 1]);
            } else {
                assert((seq![first] + rest)[0] == first);
            }
        } else {
            lemma_scan_legal(cells, radix, from + 1, consumed, k);
        }
    }
}

/// A scan finds one crossing at most for each cell that it still has to
/// pass.
pub proof fn lemma_scan_len(cells: Seq<u8>, radix: u8, from: int, consumed: Seq<bool>)
    requires
        0 <= from <= cells.len(),
    ensures
        scan(cells, radix, from, consumed).len() <= cells.len() - from,
    decreases cells.len() - from,
{
    if from < cells.len() {
        let down = next_live_down(cells, row_width(radix), from + row_width(radix));
        let right = next_live(cells, from + 1);
        lemma_scan_len(cells, radix, from + 1, consumed);
        lemma_scan_len(cells, radix, from + 1, consumed.update(down, true));
        lemma_scan_len(cells, radix, from + 1, consumed.update(right, true));
    }
}

/// A board offers one move at most for each of its cells, and the
/// duplication.
pub proof fn lemma_offer_fits(cells: Seq<u8>, radix: u8)
    ensures
        1 <= legal_moves(cells, radix).len() <= cells.len() + 1,
{
    lemma_scan_len(cells, radix, 0, none_consumed(cells.len()));
}

/// Every move that a board offers is a move of the game, and the first of
/// them is the duplication.
pub proof fn lemma_legal_moves(cells: Seq<u8>, radix: u8)
    requires
        radix >= 2,
        cells.len() <= usize::MAX,
    ensures
        legal_moves(cells, radix).len() >= 1,
        legal_moves(cells, radix)[0] == BoardMove::Duplicate,
        forall|k: int|
            0 <= k < legal_moves(cells, radix).len() ==> legal(
                cells,
                radix,
                #[trigger] legal_moves(cells, radix)[k],
            ),
{
    assert forall|k: int| 0 <= k < legal_moves(cells, radix).len() implies legal(
        cells,
        radix,
        #[trigger] legal_moves(cells, radix)[k],
    ) by {
        if k > 0 {
            lemma_scan_legal(cells, radix, 0, none_consumed(cells.len()), k - 1);
        }
    }
}

/// Where an enumeration stands.
#[derive(Clone, Copy, Debug, PartialEq, Eq, Structural)]
pub enum Phase {
    /// Nothing was reported yet: the duplication comes next.
    Opening,
    /// The duplication was reported: the scan for crossings goes on.
    Crossings,
}

/// An enumeration of the moves of one board, under way.
#[derive(Debug)]
pub struct MovesIter<'a> {
    board: &'a FullBoard,
    next_cell: usize,
    consumed: Vec<bool>,
    phase: Phase,
}

impl<'a> MovesIter<'a> {
    /// The board whose moves are enumerated.
    pub closed spec fn board(&self) -> FullBoard {
        *self.board
    }

    /// The moves that are still to come, in order.
    pub closed spec fn remaining(&self) -> Seq<BoardMove> {
        match self.phase {
            Phase::Opening => legal_moves(self.board@, self.board.spec_radix()),
            Phase::Crossings => scan(
                self.board@,
                self.board.spec_radix(),
                self.next_cell as int,
                self.consumed@,
            ),
        }
    }

    /// The enumeration stands on its board.
    pub closed spec fn wf(&self) -> bool {
        &&& self.board.wf()
        &&& self.next_cell <= self.board@.len()
        &&& self.consumed@.len() == self.board@.len()
        &&& self.phase == Phase::Opening ==> self.next_cell == 0 && self.consumed@
            == none_consumed(self.board@.len())
    }

    /// Starts the enumeration of the moves of a board that is not solved.
    /// The duplication is there, and comes first.
    pub fn new(board: &'a FullBoard) -> (iter: MovesIter<'a>)
        requires
            !all_dead(board@),
        ensures
            iter.wf(),
            iter.board() == *board,
            iter.remaining() == legal_moves(board@, board.spec_radix()),
            iter.remaining().len() >= 1,
            iter.remaining()[0] == BoardMove::Duplicate,
    {
        let len: usize = board.cells().len();
        let mut consumed: Vec<bool> = Vec::with_capacity(len);
        let mut i: usize = 0;
        while i < len
            invariant
                i <= len,
                consumed@.len() == i,
                forall|k: int| 0 <= k < i ==> !consumed@[k],
            decreases len - i,
        {
            consumed.push(false);
            i += 1;
        }
        assert(consumed@ =~= none_consumed(board@.len()));
        MovesIter { board, next_cell: 0, consumed, phase: Phase::Opening }
    }

    /// Reports the next move, or `None` when every move was reported.
    pub fn next(&mut self) -> (reported: Option<BoardMove>)
        requires
            old(self).wf(),
        ensures
            final(self).wf(),
            final(self).board() == old(self).board(),
            match reported {
                Some(the_move) => old(self).remaining().len() > 0 && the_move == old(
                    self,
                ).remaining()[0] && final(self).remaining() == old(self).remaining().drop_first(),
                None => old(self).remaining().len() == 0 && final(self).remaining() == old(
                    self,
                ).remaining(),
            },
    {
        if self.phase == Phase::Opening {
            self.phase = Phase::Crossings;
            assert(old(self).remaining().drop_first() =~= self.remaining());
            return Some(BoardMove::Duplicate);
        }
        let board: &FullBoard = self.board;
        let radix: u8 = board.radix();
        let len: usize = board.cells().len();
        while self.next_cell < len
            invariant
                self.board == board,
                old(self).board() == *board,
                self.phase == Phase::Crossings,
                board.wf(),
                radix == board.spec_radix(),
                len == board@.len(),
                self.next_cell <= len,
                self.consumed@.len() == len,
                old(self).remaining() == scan(
                    board@,
                    radix,
                    self.next_cell as int,
                    self.consumed@,
                ),
            decreases len - self.next_cell,
        {
            let start: usize = self.next_cell;
            let this_val: u8 = board.cells()[start];
            self.next_cell = start + 1;
            if this_val != 0 && !self.consumed[start] {
                let mut crossing: Option<BoardMove> = None;
                let mut partner: usize = start;
                match board.find_down(start) {
                    Some((match_index, match_val)) => {
                        if is_match(this_val, match_val, radix) {
                            crossing = Some(BoardMove::CrossDownFrom(start, match_index));
                            partner = match_index;
                        }
                    },
                    None => {},
                }
                if crossing.is_none() {
                    match board.find_first(start + 1) {
                        Some((match_index, match_val)) => {
                            if is_match(this_val, match_val, radix) {
                                crossing = Some(BoardMove::CrossRightFrom(start, match_index));
                                partner = match_index;
                            }
                        },
                        None => {},
                    }
                }
                if crossing.is_some() {
                    self.consumed.set(partner, true);
                    assert(old(self).remaining().drop_first() =~= self.remaining());
                    return crossing;
                }
            }
        }
        None
    }

    /// Passes over `n` moves and reports the one after them, or `None` when
    /// fewer than `n + 1` moves were left.
    pub fn nth(&mut self, n: usize) -> (reported: Option<BoardMove>)
        requires
            old(self).wf(),
        ensures
            final(self).wf(),
            final(self).board() == old(self).board(),
            reported == if n < old(self).remaining().len() {
                Some(old(self).remaining()[n as int])
            } else {
                None
            },
            final(self).remaining() == if n < old(self).remaining().len() {
                old(self).remaining().skip(n + 1)
            } else {
                Seq::empty()
            },
    {
        let mut passed: usize = 0;
        while passed < n
            invariant
                passed <= n,
                self.wf(),
                self.board() == old(self).board(),
                passed <= old(self).remaining().len(),
                self.remaining() == old(self).remaining().skip(passed as int),
            decreases n - passed,
        {
            let ghost before = self.remaining();
            match self.next() {
                Some(_) => {
                    assert(before.drop_first() =~= old(self).remaining().skip(passed + 1));
                },
                None => {
                    assert(self.remaining() =~= Seq::<BoardMove>::empty());
                    return None;
                },
            }
            passed += 1;
        }
        let ghost before = self.remaining();
        let reported = self.next();
        proof {
            if reported is Some {
                assert(before.drop_first() =~= old(self).remaining().skip(n + 1));
            } else {
                assert(self.remaining() =~= Seq::<BoardMove>::empty());
            }
        }
        reported
    }
}

impl FullBoard {
    /// Starts the enumeration of the moves of this board, which must not be
    /// solved. The duplication is there, and comes first.
    pub fn moves(&self) -> (iter: MovesIter<'_>)
        requires
            !all_dead(self@),
        ensures
            iter.wf(),
            iter.board() == *self,
            iter.remaining() == legal_moves(self@, self.spec_radix()),
            iter.remaining().len() >= 1,
            iter.remaining()[0] == BoardMove::Duplicate,
    {
        MovesIter::new(self)
    }
}

} // verus!
