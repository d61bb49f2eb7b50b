use bismuth::{lex, parse, Expression, ParseError, Token};

fn chars(text: &str) -> Vec<char> {
    text.chars().collect()
}

fn name(text: &str) -> Token {
    Token::Name(text.to_string())
}

fn leaf(text: &str) -> Expression {
    Expression::Name(text.to_string())
}

fn group(children: Vec<Expression>) -> Expression {
    Expression::Group(children)
}

#[test]
fn no_tokens_parse_to_the_empty_group() {
    assert_eq!(parse(&[]), Ok(group(vec![])));
}

#[test]
fn lone_group_end_is_unmatched() {
    assert_eq!(parse(&[Token::GroupEnd]), Err(ParseError::UnmatchedGroupEnd));
}

#[test]
fn open_group_is_unmatched() {
    assert_eq!(
        parse(&[Token::GroupStart, name("a")]),
        Err(ParseError::UnmatchedGroupStart)
    );
}

#[test]
fn closed_group_is_a_group_in_the_root() {
    assert_eq!(
        parse(&[Token::GroupStart, name("a"), Token::GroupEnd]),
        Ok(group(vec![group(vec![leaf("a")])]))
    );
}

#[test]
fn joined_names_leave_a_scope_open() {
    let tokens = lex(&chars("a.b")).unwrap();
    assert_eq!(tokens, vec![name("a"), Token::Joiner, name("b")]);
    assert_eq!(parse(&tokens), Err(ParseError::UnmatchedGroupStart));
}

#[test]
fn separated_names_leave_a_scope_open() {
    let tokens = lex(&chars("a;b")).unwrap();
    assert_eq!(tokens, vec![name("a"), Token::Separator, name("b")]);
    assert_eq!(parse(&tokens), Err(ParseError::UnmatchedGroupStart));
}

#[test]
fn names_alone_stand_side_by_side_in_the_root() {
    assert_eq!(
        parse(&[name("a"), name("b"), name("c")]),
        Ok(group(vec![leaf("a"), leaf("b"), leaf("c")]))
    );
}

#[test]
fn quoted_and_bare_names_make_the_same_expression() {
    assert_eq!(
        parse(&[Token::NameExtended("a b".to_string())]),
        Ok(group(vec![leaf("a b")]))
    );
    assert_eq!(parse(&[name("a b")]), Ok(group(vec![leaf("a b")])));
}

#[test]
fn groups_nest() {
    let tokens = lex(&chars("{a{b{}}c}d")).unwrap();
    assert_eq!(
        parse(&tokens),
        Ok(group(vec![
            group(vec![
                leaf("a"),
                group(vec![leaf("b"), group(vec![])]),
                leaf("c")
            ]),
            leaf("d")
        ]))
    );
}

#[test]
fn group_end_closes_the_scope_of_a_joiner() {
    let tokens = lex(&chars("a.b c}")).unwrap();
    assert_eq!(
        parse(&tokens),
        Ok(group(vec![group(vec![leaf("a"), leaf("b"), leaf("c")])]))
    );
}

#[test]
fn joiner_takes_only_the_last_expression() {
    let tokens = lex(&chars("a b.c}")).unwrap();
    assert_eq!(
        parse(&tokens),
        Ok(group(vec![leaf("a"), group(vec![leaf("b"), leaf("c")])]))
    );
}

#[test]
fn joiner_takes_a_whole_group() {
    let tokens = lex(&chars("{a}.b}")).unwrap();
    assert_eq!(
        parse(&tokens),
        Ok(group(vec![group(vec![group(vec![leaf("a")]), leaf("b")])]))
    );
}

#[test]
fn joiner_in_a_group_needs_two_group_ends() {
    assert_eq!(
        parse(&lex(&chars("{a.b}")).unwrap()),
        Err(ParseError::UnmatchedGroupStart)
    );
    assert_eq!(
        parse(&lex(&chars("{a.b}}")).unwrap()),
        Ok(group(vec![group(vec![group(vec![leaf("a"), leaf("b")])])]))
    );
}

#[test]
fn joiner_on_an_empty_scope_changes_nothing() {
    assert_eq!(parse(&[Token::Joiner]), Ok(group(vec![])));
    assert_eq!(
        parse(&[Token::Joiner, Token::Joiner, name("a")]),
        Ok(group(vec![leaf("a")]))
    );
    assert_eq!(
        parse(&[Token::GroupStart, Token::Joiner, name("a"), Token::GroupEnd]),
        Ok(group(vec![group(vec![leaf("a")])]))
    );
}

#[test]
fn lone_separator_leaves_a_scope_open() {
    assert_eq!(
        parse(&[Token::Separator]),
        Err(ParseError::UnmatchedGroupStart)
    );
}

#[test]
fn group_end_closes_the_scope_of_a_separator() {
    let tokens = lex(&chars("a;b}")).unwrap();
    assert_eq!(
        parse(&tokens),
        Ok(group(vec![group(vec![leaf("a")]), group(vec![leaf("b")])]))
    );
}

#[test]
fn separator_at_the_root_wraps_what_came_before() {
    assert_eq!(
        parse(&[Token::Separator, Token::GroupEnd]),
        Ok(group(vec![group(vec![]), group(vec![])]))
    );
}

#[test]
fn separator_takes_the_run_behind_it_along() {
    let tokens = vec![
        name("a"),
        Token::Separator,
        Token::Separator,
        Token::Joiner,
        Token::Separator,
        name("b"),
        Token::GroupEnd,
    ];
    assert_eq!(
        parse(&tokens),
        Ok(group(vec![group(vec![leaf("a")]), group(vec![leaf("b")])]))
    );
}

#[test]
fn separator_run_may_end_the_tokens() {
    assert_eq!(
        parse(&[name("a"), Token::Separator, Token::Joiner, Token::Separator]),
        Err(ParseError::UnmatchedGroupStart)
    );
}

#[test]
fn separator_closes_the_scope_of_a_joiner() {
    let tokens = lex(&chars("a.;b}")).unwrap();
    assert_eq!(
        parse(&tokens),
        Ok(group(vec![group(vec![leaf("a")]), group(vec![leaf("b")])]))
    );
    let tokens = lex(&chars("a.;b}}")).unwrap();
    assert_eq!(parse(&tokens), Err(ParseError::UnmatchedGroupEnd));
}

#[test]
fn separator_in_a_group_uses_up_the_group() {
    let tokens = lex(&chars("{a;b}")).unwrap();
    assert_eq!(
        parse(&tokens),
        Ok(group(vec![group(vec![leaf("a")]), group(vec![leaf("b")])]))
    );
    let tokens = lex(&chars("{a;b}}")).unwrap();
    assert_eq!(parse(&tokens), Err(ParseError::UnmatchedGroupEnd));
}

#[test]
fn lines_fold_like_separators() {
    let tokens = lex(&chars("a b\nc\n\n}")).unwrap();
    assert_eq!(
        parse(&tokens),
        Ok(group(vec![
            group(vec![leaf("a"), leaf("b")]),
            group(vec![leaf("c")]),
            group(vec![])
        ]))
    );
}

#[test]
fn first_unmatched_group_end_decides() {
    assert_eq!(
        parse(&[Token::GroupEnd, Token::GroupStart]),
        Err(ParseError::UnmatchedGroupEnd)
    );
    assert_eq!(
        parse(&[
            Token::GroupStart,
            Token::GroupEnd,
            Token::GroupEnd,
            Token::GroupStart
        ]),
        Err(ParseError::UnmatchedGroupEnd)
    );
}

#[test]
fn every_open_group_must_be_closed() {
    assert_eq!(
        parse(&[Token::GroupStart, Token::GroupStart, Token::GroupEnd]),
        Err(ParseError::UnmatchedGroupStart)
    );
    assert_eq!(
        parse(&[
            Token::GroupStart,
            Token::GroupStart,
            Token::GroupEnd,
            Token::GroupEnd
        ]),
        Ok(group(vec![group(vec![group(vec![])])]))
    );
}

#[test]
fn deep_nesting_parses() {
    let depth = 1_000;
    let mut tokens = Vec::new();
    for _ in 0..depth {
        tokens.push(Token::GroupStart);
    }
    assert_eq!(parse(&tokens), Err(ParseError::UnmatchedGroupStart));
    for _ in 0..depth - 1 {
        tokens.push(Token::GroupEnd);
    }
    assert_eq!(parse(&tokens), Err(ParseError::UnmatchedGroupStart));
    tokens.push(Token::GroupEnd);
    tokens.push(Token::GroupEnd);
    assert_eq!(parse(&tokens), Err(ParseError::UnmatchedGroupEnd));
}

#[test]
fn parse_errors_have_messages() {
    assert_eq!(ParseError::UnmatchedGroupEnd.message(), "unmatched '}'");
    assert_eq!(
        ParseError::UnmatchedGroupStart.message(),
        "unmatched '{' (one or more)"
    );
}
