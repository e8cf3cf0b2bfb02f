//! The mathematics of a board: a sequence of cells read row by row, what
//! its neighbours are, and what the two kinds of move do to it.

use vstd::prelude::*;
use crate::cell::is_live;

verus! {

/// A cell sequence is valid for `radix` when rows have at least one column
/// and every cell holds a value below the radix.
pub open spec fn valid_cells(cells: Seq<u8>, radix: u8) -> bool {
    &&& radix >= 2
    &&& forall|i: int| 0 <= i < cells.len() ==> cells[i] < radix
}

/// The number of cells in a row.
pub open spec fn row_width(radix: u8) -> int {
    radix - 1
}

/// The live cells of a board, in board order.
pub open spec fn live_cells(cells: Seq<u8>) -> Seq<u8> {
    cells.filter(|c: u8| is_live(c))
}

/// How many cells of a board are live.
pub open spec fn count_live(cells: Seq<u8>) -> nat {
    live_cells(cells).len()
}

/// A board is solved when no cell is live.
pub open spec fn all_dead(cells: Seq<u8>) -> bool {
    forall|i: int| 0 <= i < cells.len() ==> cells[i] == 0
}

/// The position of the first live cell at or after `from`, or the length of
/// the board when every cell from there on is dead.
pub open spec fn next_live(cells: Seq<u8>, from: int) -> int
    decreases cells.len() - from,
{
    if from >= cells.len() {
        cells.len() as int
    } else if 0 <= from && cells[from] != 0 {
        from
    } else {
        next_live(cells, from + 1)
    }
}

/// The position of the last live cell before `before`, or -1 when every
/// cell up to there is dead.
pub open spec fn prev_live(cells: Seq<u8>, before: int) -> int
    decreases before,
{
    if before <= 0 {
        -1
    } else if before <= cells.len() && cells[before - 1] != 0 {
        before - 1
    } else {
        prev_live(cells, before - 1)
    }
}

/// The first live cell among `from`, `from + width`, `from + 2 * width` and
/// so on, or the length of the board when that walk leaves the board first.
pub open spec fn next_live_down(cells: Seq<u8>, width: int, from: int) -> int
    decreases
        (if from < cells.len() {
            cells.len() - from
        } else {
            0
        }),
{
    if from >= cells.len() || width <= 0 {
        cells.len() as int
    } else if 0 <= from && cells[from] != 0 {
        from
    } else {
        next_live_down(cells, width, from + width)
    }
}

/// The value that the scoring of a board rests on: half the live cells where
/// they can be paired off, and two more where one cell is left over.
pub open spec fn heuristic(live: nat) -> nat {
    if live % 2 == 0 {
        live / 2
    } else {
        live / 2 + 2
    }
}

/// The cell at position `i` of the opening board for rows of `width` cells.
pub open spec fn initial_cell(width: int, i: int) -> u8 {
    if i < width {
        (i + 1) as u8
    } else if (i - width) % 2 == 0 {
        1
    } else {
        ((i - width) / 2 + 1) as u8
    }
}

/// The opening board: the values one to `radix - 1` in a row, then the
/// pairs (1, 1), (1, 2) up to (1, `radix - 1`).
pub open spec fn initial_cells(radix: u8) -> Seq<u8> {
    Seq::new((3 * row_width(radix)) as nat, |i: int| initial_cell(row_width(radix), i))
}

/// The board after duplication: every cell as before, followed by a copy of
/// the live cells in their order.
pub open spec fn duplicated(cells: Seq<u8>) -> Seq<u8> {
    cells + live_cells(cells)
}

/// The board after the dead run around `around` has lost as many whole rows
/// as it spans. A live cell, or a position off the board, changes nothing.
pub open spec fn compact(cells: Seq<u8>, width: int, around: int) -> Seq<u8> {
    if 0 <= around < cells.len() && cells[around] == 0 && width > 0 {
        let first_dead = prev_live(cells, around) + 1;
        let end_dead = next_live(cells, around);
        let gone = ((end_dead - first_dead) / width) * width;
        cells.subrange(0, first_dead) + cells.subrange(first_dead + gone, cells.len() as int)
    } else {
        cells
    }
}

/// The board after the cells at `a` and `b` were crossed out: both are dead,
/// then the run around `b` and the run around `a` are compacted in turn.
pub open spec fn remove_pair(cells: Seq<u8>, width: int, a: int, b: int) -> Seq<u8> {
    compact(compact(cells.update(a, 0).update(b, 0), width, b), width, a)
}

/// No dead run of the board spans a whole row.
pub open spec fn is_compact(cells: Seq<u8>, width: int) -> bool {
    forall|i: int|
        0 <= i < cells.len() && cells[i] == 0 ==> next_live(cells, i) - prev_live(cells, i) - 1
            < width
}

/// The first live cell from `from` on lies on the board or just beyond it,
/// and every cell before it is dead.
pub proof fn lemma_next_live(cells: Seq<u8>, from: int)
    requires
        0 <= from <= cells.len(),
    ensures
        from <= next_live(cells, from) <= cells.len(),
        next_live(cells, from) < cells.len() ==> cells[next_live(cells, from)] != 0,
        forall|j: int| from <= j < next_live(cells, from) ==> cells[j] == 0,
    decreases cells.len() - from,
{
    if from < cells.len() && cells[from] == 0 {
        lemma_next_live(cells, from + 1);
    }
}

/// The last live cell before `before` lies on the board or just before it,
/// and every cell after it is dead.
pub proof fn lemma_prev_live(cells: Seq<u8>, before: int)
    requires
        0 <= before <= cells.len(),
    ensures
        -1 <= prev_live(cells, before),
        prev_live(cells, before) < before || before == 0,
        prev_live(cells, before) >= 0 ==> cells[prev_live(cells, before)] != 0,
        forall|j: int| prev_live(cells, before) < j < before ==> cells[j] == 0,
    decreases before,
{
    if before > 0 && cells[before - 1] == 0 {
        lemma_prev_live(cells, before - 1);
    }
}

/// The walk down a column ends on a live cell below its start, or off the
/// board.
pub proof fn lemma_next_live_down(cells: Seq<u8>, width: int, from: int)
    requires
        0 <= from,
        width >= 1,
    ensures
        next_live_down(cells, width, from) == cells.len() || (from <= next_live_down(
            cells,
            width,
            from,
        ) < cells.len() && cells[next_live_down(cells, width, from)] != 0),
    decreases
        (if from < cells.len() {
            cells.len() - from
        } else {
            0
        }),
{
    if from < cells.len() && cells[from] == 0 {
        lemma_next_live_down(cells, width, from + width);
    }
}

/// A stretch of dead cells holds no live cell.
pub proof fn lemma_count_live_dead(cells: Seq<u8>)
    requires
        all_dead(cells),
    ensures
        count_live(cells) == 0,
    decreases cells.len(),
{
    reveal(Seq::filter);
    if cells.len() > 0 {
        lemma_count_live_dead(cells.drop_last());
    }
}

/// A board with no live cell counted has none.
pub proof fn lemma_count_live_zero(cells: Seq<u8>)
    requires
        count_live(cells) == 0,
    ensures
        all_dead(cells),
    decreases cells.len(),
{
    reveal(Seq::filter);
    if cells.len() > 0 {
        lemma_count_live_zero(cells.drop_last());
        assert forall|i: int| 0 <= i < cells.len() implies cells[i] == 0 by {
            if i < cells.len() - 1 {
                assert(cells.drop_last()[i] == cells[i]);
            }
        }
    }
}

/// Counting the live cells of two boards laid end to end.
pub proof fn lemma_count_live_add(a: Seq<u8>, b: Seq<u8>)
    ensures
        live_cells(a + b) == live_cells(a) + live_cells(b),
        count_live(a + b) == count_live(a) + count_live(b),
{
    Seq::filter_distributes_over_add(a, b, |c: u8| is_live(c));
}

/// One more cell at the end adds one to the count exactly when it is live.
pub proof fn lemma_count_live_push(cells: Seq<u8>, cell: u8)
    ensures
        live_cells(cells.push(cell)) == if cell != 0 {
            live_cells(cells).push(cell)
        } else {
            live_cells(cells)
        },
{
    reveal(Seq::filter);
    assert(cells.push(cell).drop_last() == cells);
}

/// Taking the live cells of a board that holds live cells only changes
/// nothing.
pub proof fn lemma_live_cells_idempotent(cells: Seq<u8>)
    ensures
        live_cells(live_cells(cells)) == live_cells(cells),
    decreases cells.len(),
{
    reveal(Seq::filter);
    if cells.len() > 0 {
        lemma_live_cells_idempotent(cells.drop_last());
        if cells.last() != 0 {
            lemma_count_live_push(live_cells(cells.drop_last()), cells.last());
        }
    }
}

/// The live cells of a board are live.
pub proof fn lemma_live_cells_live(cells: Seq<u8>)
    ensures
        forall|i: int| 0 <= i < live_cells(cells).len() ==> live_cells(cells)[i] != 0,
    decreases cells.len(),
{
    reveal(Seq::filter);
    if cells.len() > 0 {
        lemma_live_cells_live(cells.drop_last());
    }
}

/// Every live cell of a board is a cell of that board.
pub proof fn lemma_live_cells_valid(cells: Seq<u8>, radix: u8)
    requires
        valid_cells(cells, radix),
    ensures
        valid_cells(live_cells(cells), radix),
    decreases cells.len(),
{
    reveal(Seq::filter);
    if cells.len() > 0 {
        lemma_live_cells_valid(cells.drop_last(), radix);
    }
}

/// Killing one live cell takes one from the count.
pub proof fn lemma_count_live_kill(cells: Seq<u8>, at: int)
    requires
        0 <= at < cells.len(),
    ensures
        count_live(cells.update(at, 0)) == if cells[at] != 0 {
            count_live(cells) - 1
        } else {
            count_live(cells) as int
        },
{
    let head = cells.subrange(0, at);
    let tail = cells.subrange(at + 1, cells.len() as int);
    assert(cells == head.push(cells[at]) + tail);
    assert(cells.update(at, 0) == head.push(0) + tail);
    lemma_count_live_add(head.push(cells[at]), tail);
    lemma_count_live_add(head.push(0), tail);
    lemma_count_live_push(head, cells[at]);
    lemma_count_live_push(head, 0);
}

/// Compaction removes dead cells only.
pub proof fn lemma_compact_count(cells: Seq<u8>, width: int, around: int)
    ensures
        count_live(compact(cells, width, around)) == count_live(cells),
        live_cells(compact(cells, width, around)) == live_cells(cells),
        compact(cells, width, around).len() <= cells.len(),
{
    if 0 <= around < cells.len() && cells[around] == 0 && width > 0 {
        lemma_prev_live(cells, around);
        lemma_next_live(cells, around);
        let first_dead = prev_live(cells, around) + 1;
        let end_dead = next_live(cells, around);
        let gone = ((end_dead - first_dead) / width) * width;
        lemma_whole_rows(end_dead - first_dead, width);
        let head = cells.subrange(0, first_dead);
        let hole = cells.subrange(first_dead, first_dead + gone);
        let tail = cells.subrange(first_dead + gone, cells.len() as int);
        assert(cells == head + hole + tail);
        lemma_count_live_dead(hole);
        lemma_count_live_add(head, hole);
        lemma_count_live_add(head + hole, tail);
        lemma_count_live_add(head, tail);
        assert(live_cells(hole) == Seq::<u8>::empty());
        assert(live_cells(head) + live_cells(hole) == live_cells(head));
    }
}

/// The whole rows within a run are no longer than the run.
pub proof fn lemma_whole_rows(run: int, width: int)
    requires
        0 <= run,
        width > 0,
    ensures
        0 <= (run / width) * width <= run,
        run - (run / width) * width < width,
        run - (run / width) * width == run % width,
{
    vstd::arithmetic::div_mod::lemma_fundamental_div_mod(run, width);
    vstd::arithmetic::div_mod::lemma_mod_bound(run, width);
    vstd::arithmetic::div_mod::lemma_div_pos_is_pos(run, width);
    assert((run / width) * width == width * (run / width)) by (nonlinear_arith);
    assert(0 <= (run / width) * width) by (nonlinear_arith)
        requires
            0 <= run / width,
            width > 0,
    ;
}

/// Compaction keeps every cell below the radix.
pub proof fn lemma_compact_valid(cells: Seq<u8>, radix: u8, around: int)
    requires
        valid_cells(cells, radix),
    ensures
        valid_cells(compact(cells, row_width(radix), around), radix),
{
    let width = row_width(radix);
    if 0 <= around < cells.len() && cells[around] == 0 && width > 0 {
        lemma_prev_live(cells, around);
        lemma_next_live(cells, around);
        lemma_whole_rows(next_live(cells, around) - prev_live(cells, around) - 1, width);
    }
}

} // verus!
