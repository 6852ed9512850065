use style_traversal::shorthand::{
    flex, flex_flow, grid_gap, place_content, place_items, place_self, Keyword, Parser, Token,
};

fn p(tokens: &[Token]) -> Parser {
    Parser::new(tokens.to_vec())
}

fn kw(k: Keyword) -> Token {
    Token::Ident(k)
}

#[test]
fn flex_none() {
    let mut input = p(&[kw(Keyword::NoneKeyword)]);
    let l = flex::parse_value(&mut input).unwrap();
    assert_eq!((l.flex_grow, l.flex_shrink, l.flex_basis), (0, 0, kw(Keyword::Auto)));
    assert!(input.is_exhausted());
}

#[test]
fn flex_grow_shrink_basis() {
    let mut input = p(&[Token::Number(2), Token::Number(3), Token::Length(10)]);
    let l = flex::parse_value(&mut input).unwrap();
    assert_eq!((l.flex_grow, l.flex_shrink, l.flex_basis), (2, 3, Token::Length(10)));
    assert!(input.is_exhausted());
    assert_eq!(l.to_css(), vec![Token::Number(2), Token::Number(3), Token::Length(10)]);
}

#[test]
fn flex_single_number() {
    let mut input = p(&[Token::Number(1)]);
    let l = flex::parse_value(&mut input).unwrap();
    assert_eq!((l.flex_grow, l.flex_shrink, l.flex_basis), (1, 1, Token::Length(0)));
}

#[test]
fn flex_basis_first() {
    let mut input = p(&[Token::Percentage(50), Token::Number(4)]);
    let l = flex::parse_value(&mut input).unwrap();
    assert_eq!((l.flex_grow, l.flex_shrink, l.flex_basis), (4, 1, Token::Percentage(50)));
    let mut only = p(&[kw(Keyword::Content)]);
    let l = flex::parse_value(&mut only).unwrap();
    assert_eq!((l.flex_grow, l.flex_shrink, l.flex_basis), (1, 1, kw(Keyword::Content)));
}

#[test]
fn flex_fails_without_components() {
    let mut input = p(&[kw(Keyword::Row)]);
    assert_eq!(flex::parse_value(&mut input), Err(()));
    assert_eq!(input.position, 0);
    let mut empty = p(&[]);
    assert_eq!(flex::parse_value(&mut empty), Err(()));
}

#[test]
fn flex_stops_after_each_component_once() {
    let mut input = p(&[Token::Number(1), Token::Number(2), Token::Number(3)]);
    let l = flex::parse_value(&mut input).unwrap();
    assert_eq!((l.flex_grow, l.flex_shrink), (1, 2));
    assert_eq!(input.position, 2);
}

#[test]
fn flex_flow_in_either_order() {
    let mut a = p(&[kw(Keyword::Wrap), kw(Keyword::Column)]);
    let l = flex_flow::parse_value(&mut a).unwrap();
    assert_eq!((l.flex_direction, l.flex_wrap), (kw(Keyword::Column), kw(Keyword::Wrap)));
    let mut b = p(&[kw(Keyword::RowReverse)]);
    let l = flex_flow::parse_value(&mut b).unwrap();
    assert_eq!((l.flex_direction, l.flex_wrap), (kw(Keyword::RowReverse), kw(Keyword::Nowrap)));
    let mut c = p(&[kw(Keyword::WrapReverse)]);
    let l = flex_flow::parse_value(&mut c).unwrap();
    assert_eq!(l.flex_direction, kw(Keyword::Row));
    assert_eq!(l.to_css(), vec![kw(Keyword::Row), kw(Keyword::WrapReverse)]);
    let mut d = p(&[Token::Number(1)]);
    assert_eq!(flex_flow::parse_value(&mut d), Err(()));
}

#[test]
fn grid_gap_pairs() {
    let mut one = p(&[Token::Length(5)]);
    let l = grid_gap::parse_value(&mut one).unwrap();
    assert_eq!(l.grid_column_gap, Token::Length(5));
    assert_eq!(l.to_css(), vec![Token::Length(5)]);
    let mut two = p(&[Token::Length(5), Token::Percentage(10)]);
    let l = grid_gap::parse_value(&mut two).unwrap();
    assert_eq!(l.to_css(), vec![Token::Length(5), Token::Percentage(10)]);
    let mut bad = p(&[kw(Keyword::Auto)]);
    assert_eq!(grid_gap::parse_value(&mut bad), Err(()));
}

#[test]
fn place_content_pairs() {
    let mut one = p(&[kw(Keyword::Center)]);
    let l = place_content::parse_value(&mut one).unwrap();
    assert_eq!(l.justify_content, kw(Keyword::Center));
    assert_eq!(l.to_css(), vec![kw(Keyword::Center)]);
    let mut two = p(&[kw(Keyword::Start), kw(Keyword::SpaceBetween)]);
    let l = place_content::parse_value(&mut two).unwrap();
    assert_eq!(l.to_css(), vec![kw(Keyword::Start), kw(Keyword::SpaceBetween)]);
}

#[test]
fn place_self_pairs() {
    let mut two = p(&[kw(Keyword::Auto), kw(Keyword::End)]);
    let l = place_self::parse_value(&mut two).unwrap();
    assert_eq!((l.align_self, l.justify_self), (kw(Keyword::Auto), kw(Keyword::End)));
    let mut same = p(&[kw(Keyword::Stretch), kw(Keyword::Stretch)]);
    let l = place_self::parse_value(&mut same).unwrap();
    assert_eq!(l.to_css(), vec![kw(Keyword::Stretch)]);
    let mut bad = p(&[kw(Keyword::Row)]);
    assert_eq!(place_self::parse_value(&mut bad), Err(()));
}

#[test]
fn place_items_defaults_justify_to_align() {
    let mut one = p(&[kw(Keyword::Baseline)]);
    let l = place_items::parse_value(&mut one).unwrap();
    assert_eq!(l.justify_items, kw(Keyword::Baseline));
    let mut two = p(&[kw(Keyword::Center), kw(Keyword::Legacy)]);
    let l = place_items::parse_value(&mut two).unwrap();
    assert_eq!(l.to_css(), vec![kw(Keyword::Center), kw(Keyword::Legacy)]);
    let mut bad = p(&[kw(Keyword::Legacy)]);
    assert_eq!(place_items::parse_value(&mut bad), Err(()));
}
