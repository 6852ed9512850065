use vstd::prelude::*;
use crate::shorthand::{is_kind, pair_of, parse_pair, Keyword, Parser, Token, ValueKind};

verus! {

/// The longhand values of `flex`.
#[derive(Clone, Copy, Debug, PartialEq, Eq, Structural)]
pub struct Longhands {
    pub flex_grow: u64,
    pub flex_shrink: u64,
    pub flex_basis: Token,
}

/// The number a token carries; zero for a token that is no number.
pub open spec fn number_value(t: Token) -> u64 {
    match t {
        Token::Number(n) => n,
        _ => 0,
    }
}

/// Grow and shrink factors at the front of `ts`: a number, then a second one
/// if it follows; with the number of tokens read.
pub open spec fn flexibility(ts: Seq<Token>) -> Option<(u64, Option<u64>, nat)> {
    match pair_of(ts, ValueKind::NonNegativeNumber, ValueKind::NonNegativeNumber) {
        Some((g, s, n)) => Some((
            number_value(g),
            match s {
                Some(t) => Some(number_value(t)),
                None => None,
            },
            n,
        )),
        None => None,
    }
}

/// The values `flex: none` stands for.
pub open spec fn none_longhands() -> Longhands {
    Longhands { flex_grow: 0, flex_shrink: 0, flex_basis: Token::Ident(Keyword::Auto) }
}

/// `flex` read from the front of `ts`, with the number of tokens read:
/// `none`; or grow and shrink factors and a basis in either order, each
/// optional but not both missing. A missing grow or shrink factor is 1, a
/// missing basis is 0.
pub open spec fn parsed(ts: Seq<Token>) -> Option<(Longhands, nat)> {
    if ts.len() > 0 && ts[0] == Token::Ident(Keyword::NoneKeyword) {
        Some((none_longhands(), 1))
    } else {
        match flexibility(ts) {
            Some((g, s, n)) => {
                let shrink = match s {
                    Some(v) => v,
                    None => 1,
                };
                if ts.len() > n && is_kind(ValueKind::FlexBasis, ts[n as int]) {
                    Some((Longhands { flex_grow: g, flex_shrink: shrink, flex_basis: ts[n as int] }, n + 1))
                } else {
                    Some((Longhands { flex_grow: g, flex_shrink: shrink, flex_basis: Token::Length(0) }, n))
                }
            },
            None => if ts.len() > 0 && is_kind(ValueKind::FlexBasis, ts[0]) {
                match flexibility(ts.skip(1)) {
                    Some((g, s, n)) => Some((
                        Longhands {
                            flex_grow: g,
                            flex_shrink: match s {
                                Some(v) => v,
                                None => 1,
                            },
                            flex_basis: ts[0],
                        },
                        n + 1,
                    )),
                    None => Some((Longhands { flex_grow: 1, flex_shrink: 1, flex_basis: ts[0] }, 1)),
                }
            } else {
                None
            },
        }
    }
}

/// Reads grow and optional shrink factors. On failure nothing is read.
pub fn parse_flexibility(input: &mut Parser) -> (r: Result<(u64, Option<u64>), ()>)
    requires
        old(input).wf(),
    ensures
        final(input).wf(),
        final(input).tokens@ == old(input).tokens@,
        final(input).position >= old(input).position,
        match r {
            Ok((g, s)) => flexibility(old(input).rest()) == Some(
                (g, s, (final(input).position - old(input).position) as nat),
            ),
            Err(()) => flexibility(old(input).rest()) is None && final(input).position
                == old(input).position,
        },
{
    match parse_pair(input, ValueKind::NonNegativeNumber, ValueKind::NonNegativeNumber) {
        Ok((g, s)) => {
            let grow = number_of(g);
            let shrink = match s {
                Some(t) => Some(number_of(t)),
                None => None,
            };
            Ok((grow, shrink))
        },
        Err(()) => Err(()),
    }
}

/// The number a token carries.
fn number_of(t: Token) -> (r: u64)
    ensures
        r == number_value(t),
{
    match t {
        Token::Number(n) => n,
        _ => 0,
    }
}

/// Reads `flex` from `input`. On failure nothing is read.
pub fn parse_value(input: &mut Parser) -> (r: Result<Longhands, ()>)
    requires
        old(input).wf(),
    ensures
        final(input).wf(),
        final(input).tokens@ == old(input).tokens@,
        final(input).position >= old(input).position,
        match r {
            Ok(l) => parsed(old(input).rest()) == Some(
                (l, (final(input).position - old(input).position) as nat),
            ),
            Err(()) => parsed(old(input).rest()) is None && final(input).position
                == old(input).position,
        },
{
    let ghost ts = input.rest();
    let ghost p0 = input.position;
    if input.expect_ident_matching(Keyword::NoneKeyword) {
        return Ok(Longhands { flex_grow: 0, flex_shrink: 0, flex_basis: Token::Ident(Keyword::Auto) });
    }
    match parse_flexibility(input) {
        Ok((grow, shrink)) => {
            let ghost n = (input.position - p0) as nat;
            assert(input.tokens@ == old(input).tokens@);
            assert(p0 == old(input).position);
            assert(input.position == p0 + n);
            assert forall|i: int| 0 <= i < input.rest().len() implies input.rest()[i] == ts.skip(
                n as int,
            )[i] by {
                assert(input.rest()[i] == input.tokens@[input.position + i]);
                assert(ts[n + i] == old(input).tokens@[p0 + n + i]);
            }
            assert(input.rest() =~= ts.skip(n as int));
            let s = match shrink {
                Some(v) => v,
                None => 1,
            };
            match input.try_parse(ValueKind::FlexBasis) {
                Some(b) => Ok(Longhands { flex_grow: grow, flex_shrink: s, flex_basis: b }),
                None => Ok(Longhands { flex_grow: grow, flex_shrink: s, flex_basis: Token::Length(0) }),
            }
        },
        Err(()) => match input.try_parse(ValueKind::FlexBasis) {
            Some(b) => {
                assert(input.rest() =~= ts.skip(1));
                match parse_flexibility(input) {
                    Ok((grow, shrink)) => {
                        let s = match shrink {
                            Some(v) => v,
                            None => 1,
                        };
                        Ok(Longhands { flex_grow: grow, flex_shrink: s, flex_basis: b })
                    },
                    Err(()) => Ok(Longhands { flex_grow: 1, flex_shrink: 1, flex_basis: b }),
                }
            },
            None => Err(()),
        },
    }
}

impl Longhands {
    /// The tokens that write these values: grow, shrink, basis.
    pub fn to_css(&self) -> (r: Vec<Token>)
        ensures
            r@ == seq![Token::Number(self.flex_grow), Token::Number(self.flex_shrink), self.flex_basis],
    {
        vec![Token::Number(self.flex_grow), Token::Number(self.flex_shrink), self.flex_basis]
    }
}

} // verus!
