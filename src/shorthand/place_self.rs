use vstd::prelude::*;
use crate::shorthand::{pair_css, pair_of, pair_to_css, parse_pair, Parser, Token, ValueKind};

verus! {

/// The longhand values of `place-self`.
#[derive(Clone, Copy, Debug, PartialEq, Eq, Structural)]
pub struct Longhands {
    pub align_self: Token,
    pub justify_self: Token,
}

/// `place-self` read from the front of `ts`: a align_self value, then a justify_self value
/// if one follows, which otherwise takes the first value; with the number of
/// tokens read. `None` when the first value is missing.
pub open spec fn parsed(ts: Seq<Token>) -> Option<(Longhands, nat)> {
    match pair_of(ts, ValueKind::SelfAlignment, ValueKind::SelfAlignment) {
        Some((first, second, n)) => Some((
            Longhands {
                align_self: first,
                justify_self: match second {
                    Some(s) => s,
                    None => first,
                },
            },
            n,
        )),
        None => None,
    }
}

/// Reads `place-self` from `input`. On failure nothing is read.
pub fn parse_value(input: &mut Parser) -> (r: Result<Longhands, ()>)
    requires
        old(input).wf(),
    ensures
        final(input).wf(),
        final(input).tokens@ == old(input).tokens@,
        final(input).position >= old(input).position,
        match r {
            Ok(l) => parsed(old(input).rest()) == Some(
                (l, (final(input).position - old(input).position) as nat),
            ),
            Err(()) => parsed(old(input).rest()) is None && final(input).position
                == old(input).position,
        },
{
    match parse_pair(input, ValueKind::SelfAlignment, ValueKind::SelfAlignment) {
        Ok((first, second)) => {
            let s = match second {
                Some(s) => s,
                None => first,
            };
            Ok(Longhands { align_self: first, justify_self: s })
        },
        Err(()) => Err(()),
    }
}

impl Longhands {
    /// The tokens that write these values: one when both are equal, else
    /// both, align_self first.
    pub fn to_css(&self) -> (r: Vec<Token>)
        ensures
            r@ == pair_css(self.align_self, self.justify_self),
    {
        pair_to_css(self.align_self, self.justify_self)
    }
}

} // verus!
