//! Boards and moves: one layout of the game as a value, the moves that can
//! be made on it, and the layouts they lead to.

use vstd::prelude::*;
use crate::cell::{cells_match, BASE};
use crate::layout::{
    all_dead, compact, count_live, duplicated, heuristic, initial_cell, initial_cells, is_compact,
    lemma_compact_valid, lemma_count_live_push, lemma_live_cells_valid, lemma_next_live,
    lemma_prev_live, lemma_whole_rows, live_cells, next_live, next_live_down, prev_live,
    remove_pair, row_width, valid_cells,
};

verus! {

/// One move of the game. The positions of a crossing are positions on the
/// board that the move is made on.
#[derive(Clone, Copy, Debug, PartialEq, Eq, Structural)]
pub enum BoardMove {
    /// Append a copy of every live cell to the board.
    Duplicate,
    /// Cross out a cell and the nearest live cell below it in its column.
    CrossDownFrom(usize, usize),
    /// Cross out a cell and the nearest live cell after it in reading order.
    CrossRightFrom(usize, usize),
}

/// Whether `the_move` can be applied to the board at all: a crossing needs
/// two positions on the board whose values match.
pub open spec fn applicable(cells: Seq<u8>, radix: u8, the_move: BoardMove) -> bool {
    match the_move {
        BoardMove::Duplicate => true,
        BoardMove::CrossDownFrom(a, b) | BoardMove::CrossRightFrom(a, b) => {
            &&& a < cells.len()
            &&& b < cells.len()
            &&& cells_match(cells[a as int], cells[b as int], radix)
        },
    }
}

/// Whether `the_move` is a move of the game on this board: a crossing starts
/// on a live cell, ends on the nearest live cell in its direction, and the
/// two values match.
pub open spec fn legal(cells: Seq<u8>, radix: u8, the_move: BoardMove) -> bool {
    match the_move {
        BoardMove::Duplicate => true,
        BoardMove::CrossDownFrom(a, b) => {
            &&& a < cells.len()
            &&& cells[a as int] != 0
            &&& b < cells.len()
            &&& b == next_live_down(cells, row_width(radix), a + row_width(radix))
            &&& cells_match(cells[a as int], cells[b as int], radix)
        },
        BoardMove::CrossRightFrom(a, b) => {
            &&& a < cells.len()
            &&& cells[a as int] != 0
            &&& b < cells.len()
            &&& b == next_live(cells, a + 1)
            &&& cells_match(cells[a as int], cells[b as int], radix)
        },
    }
}

/// The board that `the_move` leads to.
pub open spec fn apply(cells: Seq<u8>, radix: u8, the_move: BoardMove) -> Seq<u8> {
    match the_move {
        BoardMove::Duplicate => duplicated(cells),
        BoardMove::CrossDownFrom(a, b) | BoardMove::CrossRightFrom(a, b) => remove_pair(
            cells,
            row_width(radix),
            a as int,
            b as int,
        ),
    }
}

/// The board that a sequence of moves leads to, where each of them is a move
/// of the game on the board that it meets.
pub open spec fn play(cells: Seq<u8>, radix: u8, moves: Seq<BoardMove>) -> Option<Seq<u8>>
    decreases moves.len(),
{
    if moves.len() == 0 {
        Some(cells)
    } else if legal(cells, radix, moves[0]) {
        play(apply(cells, radix, moves[0]), radix, moves.drop_first())
    } else {
        None
    }
}

/// One layout of the game: its cells in reading order, and the radix that
/// fixes the width of a row and the sum that makes two cells match.
#[derive(Debug, PartialEq, Eq, Hash)]
pub struct FullBoard {
    cells: Vec<u8>,
    radix: u8,
}

impl View for FullBoard {
    type V = Seq<u8>;

    /// The cells of the board in reading order.
    closed spec fn view(&self) -> Seq<u8> {
        self.cells@
    }
}

impl Clone for FullBoard {
    /// A board with the same cells and the same radix.
    fn clone(&self) -> (copy: Self)
        ensures
            copy.wf(),
            copy@ == self@,
            copy.spec_radix() == self.spec_radix(),
    {
        proof {
            use_type_invariant(self);
        }
        let cells = self.cells.clone();
        assert(cells@ =~= self.cells@);
        FullBoard { cells, radix: self.radix }
    }
}

impl FullBoard {
    /// The radix of the board.
    pub closed spec fn spec_radix(&self) -> u8 {
        self.radix
    }

    /// Every board is valid for its radix.
    pub open spec fn wf(&self) -> bool {
        valid_cells(self@, self.spec_radix())
    }

    /// No program holds a board that is not valid.
    #[verifier::type_invariant]
    spec fn inv(&self) -> bool {
        self.wf()
    }

    /// The positions of a board fit in a machine word.
    pub proof fn lemma_len_fits(&self)
        ensures
            self@.len() <= usize::MAX,
    {
        assert(self.cells.len() == self.cells@.len());
    }

    /// No dead run of the board spans a whole row.
    pub open spec fn is_compact(&self) -> bool {
        is_compact(self@, row_width(self.spec_radix()))
    }

    /// The opening board of the classic game.
    pub fn new() -> (board: FullBoard)
        ensures
            board.wf(),
            board.is_compact(),
            board.spec_radix() == BASE,
            board@ == initial_cells(BASE),
    {
        let cells = FullBoard::opening_cells(BASE);
        FullBoard { cells, radix: BASE }
    }

    /// The opening board for another radix, which must be at least two.
    pub fn with_radix(radix: u8) -> (board: Option<FullBoard>)
        ensures
            board is Some <==> radix >= 2,
            board matches Some(b) ==> b.wf() && b.is_compact() && b.spec_radix() == radix && b@
                == initial_cells(radix),
    {
        if radix < 2 {
            None
        } else {
            let cells = FullBoard::opening_cells(radix);
            Some(FullBoard { cells, radix })
        }
    }

    /// The cells of the opening board for `radix`.
    fn opening_cells(radix: u8) -> (cells: Vec<u8>)
        requires
            radix >= 2,
        ensures
            cells@ == initial_cells(radix),
            valid_cells(cells@, radix),
    {
        let mut cells: Vec<u8> = Vec::new();
        let mut i: u8 = 1;
        while i < radix
            invariant
                1 <= i <= radix,
                cells@.len() == i - 1,
                forall|k: int| 0 <= k < cells@.len() ==> cells@[k] == initial_cell(row_width(radix), k),
            decreases radix - i,
        {
            cells.push(i);
            i += 1;
        }
        let mut j: u8 = 1;
        while j < radix
            invariant
                1 <= j <= radix,
                radix >= 2,
                cells@.len() == row_width(radix) + 2 * (j - 1),
                forall|k: int| 0 <= k < cells@.len() ==> cells@[k] == initial_cell(row_width(radix), k),
            decreases radix - j,
        {
            cells.push(1);
            cells.push(j);
            j += 1;
        }
        assert(cells@ =~= initial_cells(radix));
        cells
    }

    /// A board with the given cells, where they are valid for `radix`.
    pub fn from_cells(radix: u8, cells: Vec<u8>) -> (board: Option<FullBoard>)
        ensures
            board is Some <==> valid_cells(cells@, radix),
            board matches Some(b) ==> b.wf() && b.spec_radix() == radix && b@ == cells@,
    {
        if radix < 2 {
            return None;
        }
        let mut i: usize = 0;
        while i < cells.len()
            invariant
                i <= cells.len(),
                forall|k: int| 0 <= k < i ==> cells@[k] < radix,
            decreases cells.len() - i,
        {
            if cells[i] >= radix {
                return None;
            }
            i += 1;
        }
        Some(FullBoard { cells, radix })
    }

    /// The radix of the board.
    pub fn radix(&self) -> (radix: u8)
        ensures
            radix == self.spec_radix(),
            radix >= 2,
    {
        proof {
            use_type_invariant(self);
        }
        self.radix
    }

    /// The cells of the board in reading order.
    pub fn cells(&self) -> (cells: &Vec<u8>)
        ensures
            cells@ == self@,
            valid_cells(cells@, self.spec_radix()),
    {
        proof {
            use_type_invariant(self);
        }
        &self.cells
    }

    /// The number of cells in a row.
    pub fn width(&self) -> (width: usize)
        ensures
            width == row_width(self.spec_radix()),
            width >= 1,
    {
        proof {
            use_type_invariant(self);
        }
        (self.radix - 1) as usize
    }

    /// The first live cell at or after `start_index`, with its value.
    pub fn find_first(&self, start_index: usize) -> (found: Option<(usize, u8)>)
        requires
            start_index <= self@.len(),
        ensures
            match found {
                Some((at, value)) => at == next_live(self@, start_index as int) && at < self@.len()
                    && value == self@[at as int] && value != 0,
                None => next_live(self@, start_index as int) == self@.len(),
            },
    {
        let mut i: usize = start_index;
        while i < self.cells.len()
            invariant
                start_index <= i <= self.cells.len(),
                next_live(self@, start_index as int) == next_live(self@, i as int),
            decreases self.cells.len() - i,
        {
            let element: u8 = self.cells[i];
            if element != 0 {
                return Some((i, element));
            }
            i += 1;
        }
        None
    }

    /// The last live cell before `start_index`, with its value.
    pub fn find_prev(&self, start_index: usize) -> (found: Option<(usize, u8)>)
        requires
            start_index <= self@.len(),
        ensures
            match found {
                Some((at, value)) => at == prev_live(self@, start_index as int) && at < start_index
                    && value == self@[at as int] && value != 0,
                None => prev_live(self@, start_index as int) == -1,
            },
    {
        let mut i: usize = start_index;
        while i > 0
            invariant
                i <= start_index <= self.cells.len(),
                prev_live(self@, start_index as int) == prev_live(self@, i as int),
            decreases i,
        {
            let element: u8 = self.cells[i - 1];
            if element != 0 {
                return Some((i - 1, element));
            }
            i -= 1;
        }
        None
    }

    /// The nearest live cell below `start_index` in its column, with its
    /// value.
    pub fn find_down(&self, start_index: usize) -> (found: Option<(usize, u8)>)
        requires
            start_index <= self@.len(),
        ensures
            match found {
                Some((at, value)) => at == next_live_down(
                    self@,
                    row_width(self.spec_radix()),
                    start_index + row_width(self.spec_radix()),
                ) && start_index < at < self@.len() && value == self@[at as int] && value != 0,
                None => next_live_down(
                    self@,
                    row_width(self.spec_radix()),
                    start_index + row_width(self.spec_radix()),
                ) == self@.len(),
            },
    {
        let width: usize = self.width();
        let len: usize = self.cells.len();
        let mut i: usize = start_index;
        while len - i > width
            invariant
                start_index <= i <= len,
                len == self@.len(),
                width == row_width(self.spec_radix()),
                width >= 1,
                next_live_down(self@, width as int, start_index + width) == next_live_down(
                    self@,
                    width as int,
                    i + width,
                ),
            decreases len - i,
        {
            i += width;
            let element: u8 = self.cells[i];
            if element != 0 {
                return Some((i, element));
            }
        }
        None
    }

    /// Whether every cell of the board is dead.
    pub fn is_goal(&self) -> (goal: bool)
        ensures
            goal == all_dead(self@),
    {
        let mut i: usize = 0;
        while i < self.cells.len()
            invariant
                i <= self.cells.len(),
                forall|k: int| 0 <= k < i ==> self@[k] == 0,
            decreases self.cells.len() - i,
        {
            if self.cells[i] != 0 {
                return false;
            }
            i += 1;
        }
        true
    }

    /// The number of live cells.
    pub fn count_live(&self) -> (live: usize)
        ensures
            live == count_live(self@),
    {
        let mut live: usize = 0;
        let mut i: usize = 0;
        while i < self.cells.len()
            invariant
                i <= self.cells.len(),
                live <= i,
                live == count_live(self@.take(i as int)),
            decreases self.cells.len() - i,
        {
            proof {
                lemma_count_live_push(self@.take(i as int), self@[i as int]);
                assert(self@.take(i + 1) == self@.take(i as int).push(self@[i as int]));
            }
            if self.cells[i] != 0 {
                live += 1;
            }
            i += 1;
        }
        assert(self@.take(i as int) == self@);
        live
    }

    /// A lower bound on the number of moves that solve the board: each
    /// crossing removes two cells, and an odd number of cells needs a
    /// duplication and one more crossing.
    pub fn compute_h_score(&self) -> (score: usize)
        ensures
            score == heuristic(count_live(self@)),
    {
        let num_cells: usize = self.count_live();
        if num_cells % 2 == 0 {
            num_cells / 2
        } else {
            num_cells / 2 + 2
        }
    }

    /// The board after duplication.
    pub fn new_duplicated(parent: &FullBoard) -> (board: FullBoard)
        ensures
            board.wf(),
            board@ == duplicated(parent@),
            board.spec_radix() == parent.spec_radix(),
    {
        proof {
            use_type_invariant(parent);
        }
        let mut cells: Vec<u8> = parent.cells.clone();
        assert(cells@ =~= parent@);
        let mut i: usize = 0;
        assert(live_cells(parent@.take(0)) =~= Seq::<u8>::empty()) by {
            reveal(Seq::filter);
        }
        while i < parent.cells.len()
            invariant
                i <= parent.cells.len(),
                cells@ == parent@ + live_cells(parent@.take(i as int)),
            decreases parent.cells.len() - i,
        {
            proof {
                lemma_count_live_push(parent@.take(i as int), parent@[i as int]);
                assert(parent@.take(i + 1) == parent@.take(i as int).push(parent@[i as int]));
            }
            let c: u8 = parent.cells[i];
            if c != 0 {
                cells.push(c);
            }
            i += 1;
        }
        proof {
            assert(parent@.take(i as int) == parent@);
            lemma_live_cells_valid(parent@, parent.radix);
        }
        FullBoard { cells, radix: parent.radix }
    }

    /// The board after the cells at `skip_a` and `skip_b` were crossed out.
    pub fn new_without(parent: &FullBoard, skip_a: usize, skip_b: usize) -> (board: FullBoard)
        requires
            skip_a < parent@.len(),
            skip_b < parent@.len(),
            cells_match(parent@[skip_a as int], parent@[skip_b as int], parent.spec_radix()),
        ensures
            board.wf(),
            board@ == remove_pair(
                parent@,
                row_width(parent.spec_radix()),
                skip_a as int,
                skip_b as int,
            ),
            board.spec_radix() == parent.spec_radix(),
    {
        proof {
            use_type_invariant(parent);
        }
        let mut cells: Vec<u8> = parent.cells.clone();
        assert(cells@ =~= parent@);
        cells.set(skip_a, 0);
        cells.set(skip_b, 0);
        let mut intermediate = FullBoard { cells, radix: parent.radix };
        intermediate.clean_dead_around(skip_b);
        intermediate.clean_dead_around(skip_a);
        intermediate
    }

    /// Removes from the dead run around `around` as many whole rows as it
    /// spans.
    pub fn clean_dead_around(&mut self, around: usize)
        ensures
            final(self).wf(),
            final(self)@ == compact(old(self)@, row_width(old(self).spec_radix()), around as int),
            final(self).spec_radix() == old(self).spec_radix(),
    {
        proof {
            use_type_invariant(&*self);
        }
        let len: usize = self.cells.len();
        if around >= len || self.cells[around] != 0 {
            return ;
        }
        let width: usize = self.width();
        let first_dead: usize = match self.find_prev(around) {
            None => 0,
            Some((prev_nondead, _)) => prev_nondead + 1,
        };
        let end_dead: usize = match self.find_first(around) {
            None => len,
            Some((next_nondead, _)) => next_nondead,
        };
        proof {
            lemma_prev_live(self@, around as int);
            lemma_next_live(self@, around as int);
            lemma_whole_rows(end_dead - first_dead, width as int);
            lemma_compact_valid(self@, self.radix, around as int);
        }
        let elim_rows: usize = (end_dead - first_dead) / width;
        assert(first_dead == prev_live(self@, around as int) + 1);
        assert(end_dead == next_live(self@, around as int));
        let ghost rows = (end_dead - first_dead) / (width as int);
        let ghost whole = rows * width;
        assert(rows == elim_rows);
        assert(compact(self@, width as int, around as int) == self@.subrange(0, first_dead as int)
            + self@.subrange(first_dead + whole, len as int));
        if elim_rows == 0 {
            assert(whole == 0) by (nonlinear_arith)
                requires
                    rows == 0,
                    whole == rows * width,
            ;
            assert(self@.subrange(0, first_dead as int) + self@.subrange(
                first_dead as int,
                len as int,
            ) =~= self@);
            return ;
        }
        assert(elim_rows * width == whole) by (nonlinear_arith)
            requires
                rows == elim_rows,
                whole == rows * width,
        ;
        let gone: usize = elim_rows * width;
        let mut new_cells: Vec<u8> = Vec::with_capacity(len - gone);
        new_cells.extend_from_slice(vstd::slice::slice_subrange(self.cells.as_slice(), 0, first_dead));
        new_cells.extend_from_slice(
            vstd::slice::slice_subrange(self.cells.as_slice(), first_dead + gone, len),
        );
        assert(new_cells@ =~= self@.subrange(0, first_dead as int) + self@.subrange(
            first_dead + whole,
            len as int,
        ));
        self.cells = new_cells;
    }

    /// The board that `the_move` leads to. A move of the game leads from a
    /// compact board to a compact board.
    pub fn apply_move(&self, the_move: BoardMove) -> (board: FullBoard)
        requires
            applicable(self@, self.spec_radix(), the_move),
        ensures
            board.wf(),
            board@ == apply(self@, self.spec_radix(), the_move),
            board.spec_radix() == self.spec_radix(),
            self.is_compact() && legal(self@, self.spec_radix(), the_move) ==> board.is_compact(),
    {
        proof {
            use_type_invariant(self);
            if self.is_compact() && legal(self@, self.spec_radix(), the_move) {
                crate::compaction::law_moves_keep_boards_compact(
                    self@,
                    self.spec_radix(),
                    the_move,
                );
            }
        }
        match the_move {
            BoardMove::Duplicate => FullBoard::new_duplicated(self),
            BoardMove::CrossDownFrom(a, b) => FullBoard::new_without(self, a, b),
            BoardMove::CrossRightFrom(a, b) => FullBoard::new_without(self, a, b),
        }
    }
}

} // verus!
