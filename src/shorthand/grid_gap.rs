use vstd::prelude::*;
use crate::shorthand::{pair_css, pair_of, pair_to_css, parse_pair, Parser, Token, ValueKind};

verus! {

/// The longhand values of `grid-gap`.
#[derive(Clone, Copy, Debug, PartialEq, Eq, Structural)]
pub struct Longhands {
    pub grid_row_gap: Token,
    pub grid_column_gap: Token,
}

/// `grid-gap` read from the front of `ts`: a grid_row_gap value, then a grid_column_gap value
/// if one follows, which otherwise takes the first value; with the number of
/// tokens read. `None` when the first value is missing.
pub open spec fn parsed(ts: Seq<Token>) -> Option<(Longhands, nat)> {
    match pair_of(ts, ValueKind::LengthPercentage, ValueKind::LengthPercentage) {
        Some((first, second, n)) => Some((
            Longhands {
                grid_row_gap: first,
                grid_column_gap: match second {
                    Some(s) => s,
                    None => first,
                },
            },
            n,
        )),
        None => None,
    }
}

/// Reads `grid-gap` from `input`. On failure nothing is read.
pub fn parse_value(input: &mut Parser) -> (r: Result<Longhands, ()>)
    requires
        old(input).wf(),
    ensures
        final(input).wf(),
        final(input).tokens@ == old(input).tokens@,
        final(input).position >= old(input).position,
        match r {
            Ok(l) => parsed(old(input).rest()) == Some(
                (l, (final(input).position - old(input).position) as nat),
            ),
            Err(()) => parsed(old(input).rest()) is None && final(input).position
                == old(input).position,
        },
{
    match parse_pair(input, ValueKind::LengthPercentage, ValueKind::LengthPercentage) {
        Ok((first, second)) => {
            let s = match second {
                Some(s) => s,
                None => first,
            };
            Ok(Longhands { grid_row_gap: first, grid_column_gap: s })
        },
        Err(()) => Err(()),
    }
}

impl Longhands {
    /// The tokens that write these values: one when both are equal, else
    /// both, grid_row_gap first.
    pub fn to_css(&self) -> (r: Vec<Token>)
        ensures
            r@ == pair_css(self.grid_row_gap, self.grid_column_gap),
    {
        pair_to_css(self.grid_row_gap, self.grid_column_gap)
    }
}

} // verus!
