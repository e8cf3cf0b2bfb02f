//! Moves as text: which cell a crossing starts from, by column and row.

use vstd::prelude::*;
use crate::board::BoardMove;

verus! {

/// The ten digits.
pub open spec fn digits() -> Seq<char> {
    seq!['0', '1', '2', '3', '4', '5', '6', '7', '8', '9']
}

/// A number written in decimal, without leading zeros.
pub open spec fn decimal(n: nat) -> Seq<char>
    decreases n,
{
    if n < 10 {
        seq![digits()[n as int]]
    } else {
        decimal(n / 10).push(digits()[(n % 10) as int])
    }
}

/// A crossing as text: the column and the row of its first cell, counted
/// from zero, and a sign for its direction.
pub open spec fn cross_text(col: nat, row: nat, dir: char) -> Seq<char> {
    decimal(col) + seq![','] + decimal(row) + seq![','] + seq![dir]
}

/// A move as text, on a board with rows of `width` cells.
pub open spec fn move_text(the_move: BoardMove, width: nat) -> Seq<char> {
    match the_move {
        BoardMove::Duplicate => "'expand'"@,
        BoardMove::CrossDownFrom(start, _) => cross_text(
            start as nat % width,
            start as nat / width,
            'v',
        ),
        BoardMove::CrossRightFrom(start, _) => cross_text(
            start as nat % width,
            start as nat / width,
            '>',
        ),
    }
}

/// Writes two numbers and a sign with `format!`: the standard library
/// writes an unsigned integer under `{}` in decimal, without sign or leading
/// zeros, and a `char` as itself.
#[verifier::external_body]
fn write_cross(col: usize, row: usize, dir: char) -> (text: String)
    ensures
        text@ == cross_text(col as nat, row as nat, dir),
{
    format!("{},{},{}", col, row, dir)
}

impl BoardMove {
    /// The text of a crossing that starts at `pos` on a board with rows of
    /// `width` cells.
    pub fn fmt_cross(pos: usize, dir: char, width: usize) -> (text: String)
        requires
            width > 0,
        ensures
            text@ == cross_text(pos as nat % width as nat, pos as nat / width as nat, dir),
    {
        let row: usize = pos / width;
        let col: usize = pos % width;
        write_cross(col, row, dir)
    }

    /// The move as text, on a board with rows of `width` cells.
    pub fn to_text(&self, width: usize) -> (text: String)
        requires
            width > 0,
        ensures
            text@ == move_text(*self, width as nat),
    {
        match self {
            BoardMove::Duplicate => "'expand'".to_owned(),
            BoardMove::CrossDownFrom(start, _) => BoardMove::fmt_cross(*start, 'v', width),
            BoardMove::CrossRightFrom(start, _) => BoardMove::fmt_cross(*start, '>', width),
        }
    }
}

} // verus!
