//! Shorthand properties: each one reads a few longhand values from a token
//! stream, in any order where the grammar allows it, and writes them back.
use vstd::prelude::*;

pub mod flex;
pub mod flex_flow;
pub mod grid_gap;
pub mod place_content;
pub mod place_items;
pub mod place_self;

verus! {

/// The identifiers the shorthands below understand.
#[derive(Clone, Copy, Debug, PartialEq, Eq, Structural)]
pub enum Keyword {
    /// The identifier `none`.
    NoneKeyword,
    Auto,
    Content,
    Row,
    RowReverse,
    Column,
    ColumnReverse,
    Nowrap,
    Wrap,
    WrapReverse,
    Normal,
    Stretch,
    Baseline,
    Center,
    Start,
    End,
    FlexStart,
    FlexEnd,
    SelfStart,
    SelfEnd,
    SpaceBetween,
    SpaceAround,
    SpaceEvenly,
    Left,
    Right,
    Legacy,
}

/// One component value of a declaration. Numbers, lengths (in px) and
/// percentages are carried as non-negative integers.
#[derive(Clone, Copy, Debug, PartialEq, Eq, Structural)]
pub enum Token {
    Ident(Keyword),
    Number(u64),
    Length(u64),
    Percentage(u64),
    /// Anything else: an unknown identifier, a function, a delimiter.
    Other,
}

/// The kinds of single-token longhand values.
#[derive(Clone, Copy, Debug, PartialEq, Eq, Structural)]
pub enum ValueKind {
    FlexDirection,
    FlexWrap,
    FlexBasis,
    NonNegativeNumber,
    LengthPercentage,
    AlignContent,
    JustifyContent,
    SelfAlignment,
    AlignItems,
    JustifyItems,
}

/// Whether `t` is a value of kind `kind`.
pub open spec fn is_kind(kind: ValueKind, t: Token) -> bool {
    match kind {
        ValueKind::FlexDirection => t matches Token::Ident(
            Keyword::Row | Keyword::RowReverse | Keyword::Column | Keyword::ColumnReverse,
        ),
        ValueKind::FlexWrap => t matches Token::Ident(
            Keyword::Nowrap | Keyword::Wrap | Keyword::WrapReverse,
        ),
        ValueKind::FlexBasis => t matches Token::Ident(Keyword::Auto | Keyword::Content)
            || t is Length || t is Percentage,
        ValueKind::NonNegativeNumber => t is Number,
        ValueKind::LengthPercentage => t is Length || t is Percentage,
        ValueKind::AlignContent => t matches Token::Ident(
            Keyword::Normal | Keyword::Baseline | Keyword::SpaceBetween | Keyword::SpaceAround
            | Keyword::SpaceEvenly | Keyword::Stretch | Keyword::Center | Keyword::Start
            | Keyword::End | Keyword::FlexStart | Keyword::FlexEnd,
        ),
        ValueKind::JustifyContent => t matches Token::Ident(
            Keyword::Normal | Keyword::SpaceBetween | Keyword::SpaceAround | Keyword::SpaceEvenly
            | Keyword::Stretch | Keyword::Center | Keyword::Start | Keyword::End
            | Keyword::FlexStart | Keyword::FlexEnd | Keyword::Left | Keyword::Right,
        ),
        ValueKind::SelfAlignment => t matches Token::Ident(
            Keyword::Auto | Keyword::Normal | Keyword::Stretch | Keyword::Baseline
            | Keyword::Center | Keyword::Start | Keyword::End | Keyword::SelfStart
            | Keyword::SelfEnd | Keyword::FlexStart | Keyword::FlexEnd,
        ),
        ValueKind::AlignItems => t matches Token::Ident(
            Keyword::Normal | Keyword::Stretch | Keyword::Baseline | Keyword::Center
            | Keyword::Start | Keyword::End | Keyword::SelfStart | Keyword::SelfEnd
            | Keyword::FlexStart | Keyword::FlexEnd,
        ),
        ValueKind::JustifyItems => t matches Token::Ident(
            Keyword::Auto | Keyword::Legacy | Keyword::Left | Keyword::Right | Keyword::Normal
            | Keyword::Stretch | Keyword::Baseline | Keyword::Center | Keyword::Start
            | Keyword::End | Keyword::SelfStart | Keyword::SelfEnd | Keyword::FlexStart
            | Keyword::FlexEnd,
        ),
    }
}

/// Whether `t` is a value of kind `kind`.
pub fn token_is(kind: ValueKind, t: Token) -> (r: bool)
    ensures
        r == is_kind(kind, t),
{
    match kind {
        ValueKind::FlexDirection => matches!(t, Token::Ident(
            Keyword::Row | Keyword::RowReverse | Keyword::Column | Keyword::ColumnReverse,
        )),
        ValueKind::FlexWrap => matches!(t, Token::Ident(
            Keyword::Nowrap | Keyword::Wrap | Keyword::WrapReverse,
        )),
        ValueKind::FlexBasis => matches!(t, Token::Ident(Keyword::Auto | Keyword::Content)
            | Token::Length(_) | Token::Percentage(_)),
        ValueKind::NonNegativeNumber => matches!(t, Token::Number(_)),
        ValueKind::LengthPercentage => matches!(t, Token::Length(_) | Token::Percentage(_)),
        ValueKind::AlignContent => matches!(t, Token::Ident(
            Keyword::Normal | Keyword::Baseline | Keyword::SpaceBetween | Keyword::SpaceAround
            | Keyword::SpaceEvenly | Keyword::Stretch | Keyword::Center | Keyword::Start
            | Keyword::End | Keyword::FlexStart | Keyword::FlexEnd,
        )),
        ValueKind::JustifyContent => matches!(t, Token::Ident(
            Keyword::Normal | Keyword::SpaceBetween | Keyword::SpaceAround | Keyword::SpaceEvenly
            | Keyword::Stretch | Keyword::Center | Keyword::Start | Keyword::End
            | Keyword::FlexStart | Keyword::FlexEnd | Keyword::Left | Keyword::Right,
        )),
        ValueKind::SelfAlignment => matches!(t, Token::Ident(
            Keyword::Auto | Keyword::Normal | Keyword::Stretch | Keyword::Baseline
            | Keyword::Center | Keyword::Start | Keyword::End | Keyword::SelfStart
            | Keyword::SelfEnd | Keyword::FlexStart | Keyword::FlexEnd,
        )),
        ValueKind::AlignItems => matches!(t, Token::Ident(
            Keyword::Normal | Keyword::Stretch | Keyword::Baseline | Keyword::Center
            | Keyword::Start | Keyword::End | Keyword::SelfStart | Keyword::SelfEnd
            | Keyword::FlexStart | Keyword::FlexEnd,
        )),
        ValueKind::JustifyItems => matches!(t, Token::Ident(
            Keyword::Auto | Keyword::Legacy | Keyword::Left | Keyword::Right | Keyword::Normal
            | Keyword::Stretch | Keyword::Baseline | Keyword::Center | Keyword::Start
            | Keyword::End | Keyword::SelfStart | Keyword::SelfEnd | Keyword::FlexStart
            | Keyword::FlexEnd,
        )),
    }
}

/// A token stream with a read position.
#[derive(Clone, Debug)]
pub struct Parser {
    pub tokens: Vec<Token>,
    pub position: usize,
}

impl Parser {
    pub open spec fn wf(&self) -> bool {
        self.position <= self.tokens@.len()
    }

    /// The tokens not read yet.
    pub open spec fn rest(&self) -> Seq<Token> {
        self.tokens@.skip(self.position as int)
    }

    /// A parser at the start of `tokens`.
    pub fn new(tokens: Vec<Token>) -> (r: Parser)
        ensures
            r.wf(),
            r.tokens@ == tokens@,
            r.position == 0,
            r.rest() == tokens@,
    {
        let r = Parser { tokens, position: 0 };
        assert(r.tokens@.skip(0) == r.tokens@);
        r
    }

    /// Whether every token has been read.
    pub fn is_exhausted(&self) -> (r: bool)
        requires
            self.wf(),
        ensures
            r == (self.rest().len() == 0),
    {
        self.position == self.tokens.len()
    }

    /// Reads the next token if it is of kind `kind`; otherwise reads nothing.
    pub fn try_parse(&mut self, kind: ValueKind) -> (r: Option<Token>)
        requires
            old(self).wf(),
        ensures
            final(self).wf(),
            final(self).tokens@ == old(self).tokens@,
            match r {
                Some(t) => {
                    &&& old(self).rest().len() > 0
                    &&& t == old(self).rest()[0]
                    &&& is_kind(kind, t)
                    &&& final(self).position == old(self).position + 1
                },
                None => {
                    &&& !(old(self).rest().len() > 0 && is_kind(kind, old(self).rest()[0]))
                    &&& final(self).position == old(self).position
                },
            },
    {
        if self.position < self.tokens.len() {
            let t = self.tokens[self.position];
            if token_is(kind, t) {
                self.position = self.position + 1;
                return Some(t);
            }
        }
        None
    }

    /// Reads the next token if it is the identifier `k`.
    pub fn expect_ident_matching(&mut self, k: Keyword) -> (r: bool)
        requires
            old(self).wf(),
        ensures
            final(self).wf(),
            final(self).tokens@ == old(self).tokens@,
            r == (old(self).rest().len() > 0 && old(self).rest()[0] == Token::Ident(k)),
            final(self).position == old(self).position + if r { 1int } else { 0int },
    {
        if self.position < self.tokens.len() {
            let t = self.tokens[self.position];
            if t == Token::Ident(k) {
                self.position = self.position + 1;
                return true;
            }
        }
        false
    }
}

/// A value and an optional second one: the first of kind `a`, then one of
/// kind `b` if the next token is one, else `None`; with the number of tokens
/// read.
pub open spec fn pair_of(ts: Seq<Token>, a: ValueKind, b: ValueKind) -> Option<(Token, Option<Token>, nat)> {
    if ts.len() > 0 && is_kind(a, ts[0]) {
        if ts.len() > 1 && is_kind(b, ts[1]) {
            Some((ts[0], Some(ts[1]), 2))
        } else {
            Some((ts[0], None, 1))
        }
    } else {
        None
    }
}

/// Reads a value of kind `a` and, if one follows, a value of kind `b`. Reads
/// nothing when the first value is missing.
pub fn parse_pair(input: &mut Parser, a: ValueKind, b: ValueKind) -> (r: Result<(Token, Option<Token>), ()>)
    requires
        old(input).wf(),
    ensures
        final(input).wf(),
        final(input).tokens@ == old(input).tokens@,
        match r {
            Ok((x, y)) => pair_of(old(input).rest(), a, b) matches Some((x2, y2, n)) && x == x2
                && y == y2 && final(input).position == old(input).position + n,
            Err(()) => pair_of(old(input).rest(), a, b) is None && final(input).position
                == old(input).position,
        },
{
    let ghost ts = input.rest();
    let first = input.try_parse(a);
    match first {
        None => Err(()),
        Some(x) => {
            let ghost mid = input.rest();
            assert(mid =~= ts.skip(1));
            let second = input.try_parse(b);
            Ok((x, second))
        },
    }
}

/// The shortest text for a pair of values: one token when both are equal,
/// else both, first then second.
pub open spec fn pair_css(first: Token, second: Token) -> Seq<Token> {
    if first == second {
        seq![first]
    } else {
        seq![first, second]
    }
}

/// Writes a pair of values in its shortest form.
pub fn pair_to_css(first: Token, second: Token) -> (r: Vec<Token>)
    ensures
        r@ == pair_css(first, second),
{
    if first == second {
        vec![first]
    } else {
        vec![first, second]
    }
}

} // verus!
