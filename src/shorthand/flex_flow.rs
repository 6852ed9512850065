use vstd::prelude::*;
use crate::shorthand::{is_kind, Keyword, Parser, Token, ValueKind};

verus! {

/// The longhand values of `flex-flow`.
#[derive(Clone, Copy, Debug, PartialEq, Eq, Structural)]
pub struct Longhands {
    pub flex_direction: Token,
    pub flex_wrap: Token,
}

/// Initial value of `flex-direction`.
pub open spec fn initial_direction() -> Token {
    Token::Ident(Keyword::Row)
}

/// Initial value of `flex-wrap`.
pub open spec fn initial_wrap() -> Token {
    Token::Ident(Keyword::Nowrap)
}

/// `flex-flow` read from the front of `ts`: a direction and a wrap mode in
/// either order, each optional but not both missing, the missing one at its
/// initial value; with the number of tokens read.
pub open spec fn parsed(ts: Seq<Token>) -> Option<(Longhands, nat)> {
    let dir = ValueKind::FlexDirection;
    let wrap = ValueKind::FlexWrap;
    if ts.len() > 0 && is_kind(dir, ts[0]) {
        if ts.len() > 1 && is_kind(wrap, ts[1]) {
            Some((Longhands { flex_direction: ts[0], flex_wrap: ts[1] }, 2))
        } else {
            Some((Longhands { flex_direction: ts[0], flex_wrap: initial_wrap() }, 1))
        }
    } else if ts.len() > 0 && is_kind(wrap, ts[0]) {
        if ts.len() > 1 && is_kind(dir, ts[1]) {
            Some((Longhands { flex_direction: ts[1], flex_wrap: ts[0] }, 2))
        } else {
            Some((Longhands { flex_direction: initial_direction(), flex_wrap: ts[0] }, 1))
        }
    } else {
        None
    }
}

/// Reads `flex-flow` from `input`. On failure nothing is read.
pub fn parse_value(input: &mut Parser) -> (r: Result<Longhands, ()>)
    requires
        old(input).wf(),
    ensures
        final(input).wf(),
        final(input).tokens@ == old(input).tokens@,
        final(input).position >= old(input).position,
        match r {
            Ok(l) => parsed(old(input).rest()) == Some(
                (l, (final(input).position - old(input).position) as nat),
            ),
            Err(()) => parsed(old(input).rest()) is None && final(input).position
                == old(input).position,
        },
{
    let ghost ts = input.rest();
    let mut direction = input.try_parse(ValueKind::FlexDirection);
    let ghost p1 = input.position;
    assert(input.rest() =~= ts.skip(p1 - old(input).position));
    let wrap = input.try_parse(ValueKind::FlexWrap);
    if direction.is_none() && wrap.is_some() {
        assert(input.rest() =~= ts.skip(1));
        direction = input.try_parse(ValueKind::FlexDirection);
    }
    match (direction, wrap) {
        (None, None) => Err(()),
        (Some(d), None) => Ok(Longhands { flex_direction: d, flex_wrap: Token::Ident(Keyword::Nowrap) }),
        (None, Some(w)) => Ok(Longhands { flex_direction: Token::Ident(Keyword::Row), flex_wrap: w }),
        (Some(d), Some(w)) => Ok(Longhands { flex_direction: d, flex_wrap: w }),
    }
}

impl Longhands {
    /// The tokens that write these values: direction, then wrap mode.
    pub fn to_css(&self) -> (r: Vec<Token>)
        ensures
            r@ == seq![self.flex_direction, self.flex_wrap],
    {
        vec![self.flex_direction, self.flex_wrap]
    }
}

} // verus!
