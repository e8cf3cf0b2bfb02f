//! Why boards stay compact: a crossing leaves no dead run that spans a whole
//! row, given that there was none before it.

use vstd::prelude::*;
use crate::board::{apply, legal, BoardMove};
use crate::layout::{
    compact, duplicated, initial_cells, is_compact, lemma_live_cells_live, lemma_next_live,
    lemma_next_live_down, lemma_prev_live, lemma_whole_rows, live_cells, next_live, prev_live,
    row_width, valid_cells,
};

verus! {

/// The length of the dead run that the dead cell at `at` belongs to.
pub open spec fn run_len(cells: Seq<u8>, at: int) -> int {
    next_live(cells, at) - prev_live(cells, at) - 1
}

/// Whether the cells at `at` and `other` are dead cells of one run.
pub open spec fn in_run(cells: Seq<u8>, at: int, other: int) -> bool {
    &&& 0 <= other < cells.len()
    &&& cells[other] == 0
    &&& prev_live(cells, other) == prev_live(cells, at)
}

/// Every dead run that spans a whole row holds the cell at `x` or the cell
/// at `y`.
pub open spec fn long_runs_hold(cells: Seq<u8>, width: int, x: int, y: int) -> bool {
    forall|j: int|
        0 <= j < cells.len() && cells[j] == 0 && #[trigger] run_len(cells, j) >= width ==> in_run(
            cells,
            j,
            x,
        ) || in_run(cells, j, y)
}

/// The first live cell from `from` on is the one before which all is dead.
pub proof fn lemma_next_live_is(cells: Seq<u8>, from: int, at: int)
    requires
        0 <= from <= at <= cells.len(),
        forall|k: int| from <= k < at ==> cells[k] == 0,
        at == cells.len() || cells[at] != 0,
    ensures
        next_live(cells, from) == at,
    decreases at - from,
{
    if from < at {
        lemma_next_live_is(cells, from + 1, at);
    }
}

/// The last live cell before `before` is the one after which all is dead.
pub proof fn lemma_prev_live_is(cells: Seq<u8>, before: int, at: int)
    requires
        -1 <= at < before <= cells.len(),
        forall|k: int| at < k < before ==> cells[k] == 0,
        at == -1 || cells[at] != 0,
    ensures
        prev_live(cells, before) == at,
    decreases before - at,
{
    if at < before - 1 {
        lemma_prev_live_is(cells, before - 1, at);
    }
}

/// The ends of the run of a dead cell: between them all is dead, and
/// beyond each lies a live cell or the end of the board.
pub proof fn lemma_run(cells: Seq<u8>, at: int)
    requires
        0 <= at < cells.len(),
        cells[at] == 0,
    ensures
        -1 <= prev_live(cells, at) < at < next_live(cells, at) <= cells.len(),
        forall|k: int| prev_live(cells, at) < k < next_live(cells, at) ==> cells[k] == 0,
        prev_live(cells, at) >= 0 ==> cells[prev_live(cells, at)] != 0,
        next_live(cells, at) < cells.len() ==> cells[next_live(cells, at)] != 0,
{
    lemma_prev_live(cells, at);
    lemma_next_live(cells, at);
}

/// Two dead cells with no live cell between them belong to one run.
pub proof fn lemma_same_run(cells: Seq<u8>, at: int, other: int)
    requires
        0 <= at < cells.len(),
        0 <= other < cells.len(),
        cells[at] == 0,
        cells[other] == 0,
    ensures
        prev_live(cells, at) < other < next_live(cells, at) <==> prev_live(cells, other)
            == prev_live(cells, at),
        prev_live(cells, at) < other < next_live(cells, at) ==> next_live(cells, other)
            == next_live(cells, at),
{
    lemma_run(cells, at);
    lemma_run(cells, other);
    if prev_live(cells, at) < other < next_live(cells, at) {
        lemma_prev_live_is(cells, other, prev_live(cells, at));
        lemma_next_live_is(cells, other, next_live(cells, at));
    }
}

/// The runs of a board after compaction around `around`: what is left of
/// the run around `around` is shorter than a row, and every other run is as
/// long as it was.
pub proof fn lemma_compact_runs(cells: Seq<u8>, width: int, around: int, j: int)
    requires
        width > 0,
        0 <= around < cells.len(),
        cells[around] == 0,
        0 <= j < compact(cells, width, around).len(),
        compact(cells, width, around)[j] == 0,
    ensures
        ({
            let after = compact(cells, width, around);
            let first_dead = prev_live(cells, around) + 1;
            let end_dead = next_live(cells, around);
            let gone = ((end_dead - first_dead) / width) * width;
            if j < first_dead {
                &&& cells[j] == 0
                &&& !in_run(cells, around, j)
                &&& prev_live(after, j) == prev_live(cells, j)
                &&& next_live(after, j) == next_live(cells, j)
                &&& next_live(cells, j) < first_dead
            } else if j < end_dead - gone {
                &&& prev_live(after, j) == first_dead - 1
                &&& next_live(after, j) == end_dead - gone
                &&& run_len(after, j) < width
            } else {
                &&& j + gone < cells.len()
                &&& cells[j + gone] == 0
                &&& !in_run(cells, around, j + gone)
                &&& prev_live(after, j) == prev_live(cells, j + gone) - gone
                &&& next_live(after, j) == next_live(cells, j + gone) - gone
            }
        }),
{
    let after = compact(cells, width, around);
    let first_dead = prev_live(cells, around) + 1;
    let end_dead = next_live(cells, around);
    let gone = ((end_dead - first_dead) / width) * width;
    lemma_run(cells, around);
    lemma_whole_rows(end_dead - first_dead, width);
    assert(after.len() == cells.len() - gone);
    assert forall|k: int| 0 <= k < first_dead implies after[k] == cells[k] by {}
    assert forall|k: int| first_dead <= k < after.len() implies after[k] == cells[k + gone] by {}
    if j < first_dead {
        lemma_run(cells, j);
        lemma_same_run(cells, around, j);
        assert(next_live(cells, j) < first_dead) by {
            if next_live(cells, j) >= first_dead {
                assert(cells[first_dead - 1] == 0);
            }
        }
        lemma_prev_live_is(after, j, prev_live(cells, j));
        lemma_next_live_is(after, j, next_live(cells, j));
    } else if j < end_dead - gone {
        lemma_prev_live_is(after, j, first_dead - 1);
        lemma_next_live_is(after, j, end_dead - gone);
    } else {
        let old = j + gone;
        assert(cells[old] == 0);
        lemma_run(cells, old);
        lemma_same_run(cells, around, old);
        assert(prev_live(cells, old) >= end_dead) by {
            if prev_live(cells, old) < end_dead {
                assert(cells[end_dead] == 0);
            }
        }
        lemma_prev_live_is(after, j, prev_live(cells, old) - gone);
        lemma_next_live_is(after, j, next_live(cells, old) - gone);
    }
}

/// Compaction around a cell removes the long run that holds it: where the
/// long runs of a board hold the cell at `around` or a cell before it, the
/// long runs that are left hold that other cell.
pub proof fn lemma_compact_step(cells: Seq<u8>, width: int, around: int, x: int)
    requires
        width > 0,
        x <= around,
        long_runs_hold(cells, width, around, x),
    ensures
        long_runs_hold(compact(cells, width, around), width, x, x),
        x == around || in_run(cells, x, around) ==> is_compact(
            compact(cells, width, around),
            width,
        ),
{
    let after = compact(cells, width, around);
    if 0 <= around < cells.len() && cells[around] == 0 {
        let first_dead = prev_live(cells, around) + 1;
        let end_dead = next_live(cells, around);
        let gone = ((end_dead - first_dead) / width) * width;
        lemma_run(cells, around);
        lemma_whole_rows(end_dead - first_dead, width);
        assert forall|j: int|
            0 <= j < after.len() && after[j] == 0 && #[trigger] run_len(after, j)
                >= width implies in_run(after, j, x) && !(x == around || in_run(
            cells,
            x,
            around,
        )) by {
            lemma_compact_runs(cells, width, around, j);
            if j < first_dead {
                assert(run_len(cells, j) >= width);
                assert(in_run(cells, j, x));
                lemma_run(cells, j);
                lemma_same_run(cells, j, x);
                assert(x < first_dead);
                lemma_compact_runs(cells, width, around, x);
            } else if j < end_dead - gone {
            } else {
                let old = j + gone;
                assert(run_len(cells, old) >= width);
                assert(in_run(cells, old, x));
                lemma_run(cells, old);
                lemma_same_run(cells, old, x);
                assert(false);
            }
        }
    } else {
        assert(after == cells);
        assert forall|j: int|
            0 <= j < cells.len() && cells[j] == 0 && #[trigger] run_len(cells, j)
                >= width implies in_run(cells, j, x) && x != around by {
            assert(in_run(cells, j, around) || in_run(cells, j, x));
        }
    }
    if x == around || in_run(cells, x, around) {
        assert forall|i: int| 0 <= i < after.len() && after[i] == 0 implies next_live(after, i)
            - prev_live(after, i) - 1 < width by {
            if run_len(after, i) >= width {
                assert(in_run(after, i, x));
            }
        }
    }
}

/// Killing two cells of a compact board leaves long runs only around them.
pub proof fn lemma_kill_two(cells: Seq<u8>, width: int, a: int, b: int)
    requires
        width > 0,
        is_compact(cells, width),
        0 <= a < cells.len(),
        0 <= b < cells.len(),
    ensures
        long_runs_hold(cells.update(a, 0).update(b, 0), width, b, a),
{
    let two = cells.update(a, 0).update(b, 0);
    assert forall|j: int|
        0 <= j < two.len() && two[j] == 0 && #[trigger] run_len(two, j) >= width implies in_run(
        two,
        j,
        b,
    ) || in_run(two, j, a) by {
        lemma_run(two, j);
        lemma_same_run(two, j, a);
        lemma_same_run(two, j, b);
        if !in_run(two, j, b) && !in_run(two, j, a) {
            let before = prev_live(two, j);
            let after = next_live(two, j);
            assert(cells[j] == 0);
            assert forall|k: int| before < k < after implies cells[k] == 0 by {
                assert(two[k] == 0);
            }
            lemma_prev_live_is(cells, j, before);
            lemma_next_live_is(cells, j, after);
            assert(next_live(cells, j) - prev_live(cells, j) - 1 < width);
        }
    }
}

/// The opening board is compact: it has no dead cell.
pub proof fn law_opening_is_compact(radix: u8)
    requires
        radix >= 2,
    ensures
        is_compact(initial_cells(radix), row_width(radix)),
{
}

/// A move of the game leads from a compact board to a compact board.
pub proof fn law_moves_keep_boards_compact(cells: Seq<u8>, radix: u8, the_move: BoardMove)
    requires
        valid_cells(cells, radix),
        is_compact(cells, row_width(radix)),
        legal(cells, radix, the_move),
    ensures
        is_compact(apply(cells, radix, the_move), row_width(radix)),
{
    let width = row_width(radix);
    match the_move {
        BoardMove::Duplicate => {
            lemma_duplicated_is_compact(cells, width);
        },
        BoardMove::CrossDownFrom(a, b) | BoardMove::CrossRightFrom(a, b) => {
            lemma_next_live_down(cells, width, a + width);
            lemma_next_live(cells, a + 1);
            assert(a < b);
            let two = cells.update(a as int, 0).update(b as int, 0);
            lemma_kill_two(cells, width, a as int, b as int);
            lemma_compact_step(two, width, b as int, a as int);
            let once = compact(two, width, b as int);
            lemma_compact_step(once, width, a as int, a as int);
        },
    }
}

/// Live cells at the end of a compact board leave it compact.
pub proof fn lemma_duplicated_is_compact(cells: Seq<u8>, width: int)
    requires
        width > 0,
        is_compact(cells, width),
    ensures
        is_compact(duplicated(cells), width),
{
    let twice = duplicated(cells);
    let more = live_cells(cells);
    lemma_live_cells_live(cells);
    assert forall|i: int| 0 <= i < twice.len() && twice[i] == 0 implies next_live(twice, i)
        - prev_live(twice, i) - 1 < width by {
        assert(i < cells.len()) by {
            if i >= cells.len() {
                assert(twice[i] == more[i - cells.len()]);
            }
        }
        lemma_run(cells, i);
        lemma_prev_live_is(twice, i, prev_live(cells, i));
        if more.len() > 0 {
            assert(twice[cells.len() as int] == more[0]);
        }
        lemma_next_live_is(twice, i, next_live(cells, i));
    }
}

} // verus!
