use vstd::prelude::*;
use crate::shorthand::{pair_css, pair_of, pair_to_css, parse_pair, Parser, Token, ValueKind};

verus! {

/// The longhand values of `place-items`.
#[derive(Clone, Copy, Debug, PartialEq, Eq, Structural)]
pub struct Longhands {
    pub align_items: Token,
    pub justify_items: Token,
}

/// `place-items` read from the front of `ts`: a align_items value, then a justify_items value
/// if one follows, which otherwise takes the first value; with the number of
/// tokens read. `None` when the first value is missing.
pub open spec fn parsed(ts: Seq<Token>) -> Option<(Longhands, nat)> {
    match pair_of(ts, ValueKind::AlignItems, ValueKind::JustifyItems) {
        Some((first, second, n)) => Some((
            Longhands {
                align_items: first,
                justify_items: match second {
                    Some(s) => s,
                    None => first,
                },
            },
            n,
        )),
        None => None,
    }
}

/// Reads `place-items` from `input`. On failure nothing is read.
pub fn parse_value(input: &mut Parser) -> (r: Result<Longhands, ()>)
    requires
        old(input).wf(),
    ensures
        final(input).wf(),
        final(input).tokens@ == old(input).tokens@,
        final(input).position >= old(input).position,
        match r {
            Ok(l) => parsed(old(input).rest()) == Some(
                (l, (final(input).position - old(input).position) as nat),
            ),
            Err(()) => parsed(old(input).rest()) is None && final(input).position
                == old(input).position,
        },
{
    match parse_pair(input, ValueKind::AlignItems, ValueKind::JustifyItems) {
        Ok((first, second)) => {
            let s = match second {
                Some(s) => s,
                None => first,
            };
            Ok(Longhands { align_items: first, justify_items: s })
        },
        Err(()) => Err(()),
    }
}

impl Longhands {
    /// The tokens that write these values: one when both are equal, else
    /// both, align_items first.
    pub fn to_css(&self) -> (r: Vec<Token>)
        ensures
            r@ == pair_css(self.align_items, self.justify_items),
    {
        pair_to_css(self.align_items, self.justify_items)
    }
}

} // verus!
