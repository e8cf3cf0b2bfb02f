//! Cell values and the rule that decides which pairs may be crossed out.

use vstd::prelude::*;

verus! {

/// The radix of the classic game, played with the digits one to nine.
pub const BASE: u8 = 10;

/// A cell is live while it holds a nonzero value.
pub open spec fn is_live(cell: u8) -> bool {
    cell != 0
}

/// Two cell values match when they are equal or add up to the radix.
pub open spec fn cells_match(lhs: u8, rhs: u8, radix: u8) -> bool {
    lhs == rhs || lhs + rhs == radix
}

/// Decides whether two cell values match under `radix`.
pub fn is_match(lhs: u8, rhs: u8, radix: u8) -> (r: bool)
    ensures
        r == cells_match(lhs, rhs, radix),
{
    lhs == rhs || (radix >= lhs && radix - lhs == rhs)
}

/// The match rule does not depend on the order of the two values.
pub proof fn law_match_is_symmetric(lhs: u8, rhs: u8, radix: u8)
    ensures
        cells_match(lhs, rhs, radix) == cells_match(rhs, lhs, radix),
{
}

} // verus!
