//! Folding a token sequence into a tree.
//!
//! The parser keeps a stack of open scopes, each a sequence of finished
//! expressions, with the root scope at the bottom. [`step`] says what one
//! token does to that stack, [`parse_from`] runs the tokens through it, and
//! [`parse`] computes the result.
use vstd::prelude::*;
use crate::error::{LexError, ParseError};
use crate::lexer::{all_skipped_from, lemma_no_tokens_iff_all_skipped, lex_spec};
use crate::expression::{lemma_group_view, trees, Expression, Tree};
use crate::token::{token_views, Token, TokenView};

verus! {

/// Whether `token` belongs to a run that follows a separator and is dropped
/// with it.
pub open spec fn is_terminator(token: TokenView) -> bool {
    token is Separator || token is Joiner
}

/// The first position at or after `from` that holds neither a separator nor
/// a joiner, or the length of `tokens` where there is none.
pub open spec fn terminators_end(tokens: Seq<TokenView>, from: int) -> int
    recommends
        0 <= from <= tokens.len(),
    decreases tokens.len() - from,
{
    if 0 <= from < tokens.len() && is_terminator(tokens[from]) {
        terminators_end(tokens, from + 1)
    } else {
        from
    }
}

/// `scopes` with `tree` added at the end of the top scope.
pub open spec fn append_to_top(scopes: Seq<Seq<Tree>>, tree: Tree) -> Seq<Seq<Tree>>
    recommends
        scopes.len() > 0,
{
    scopes.drop_last().push(scopes.last().push(tree))
}

/// `scopes` with the top scope closed: it leaves the stack and becomes a
/// group at the end of the scope below it. Where there is no scope below, an
/// empty one is made to take the group.
pub open spec fn fold_top(scopes: Seq<Seq<Tree>>) -> Seq<Seq<Tree>>
    recommends
        scopes.len() > 0,
{
    let below = if scopes.len() > 1 {
        scopes.drop_last()
    } else {
        seq![Seq::<Tree>::empty()]
    };
    append_to_top(below, Tree::Group(scopes.last()))
}

/// `scopes` with the last expression of the top scope moved into a new scope
/// of its own above it; unchanged where the top scope is empty.
pub open spec fn split_top(scopes: Seq<Seq<Tree>>) -> Seq<Seq<Tree>>
    recommends
        scopes.len() > 0,
{
    let top = scopes.last();
    if top.len() > 0 {
        scopes.drop_last().push(top.drop_last()).push(seq![top.last()])
    } else {
        scopes
    }
}

/// The parser between two tokens: the open scopes, root first, and the
/// position of the token to read next.
pub struct State {
    pub scopes: Seq<Seq<Tree>>,
    pub at: int,
}

/// What the token at position `state.at` makes of `state`.
///
/// A name joins the top scope. A group start opens an empty scope. A group
/// end closes the top scope into the one below, and is an error where only
/// the root is open. A separator takes the run of separators and joiners
/// behind it along, closes the top scope and opens an empty one. A joiner
/// moves the last expression of the top scope into a scope of its own.
pub open spec fn step(state: State, tokens: Seq<TokenView>) -> Result<State, ParseError>
    recommends
        state.scopes.len() > 0,
        0 <= state.at < tokens.len(),
{
    let scopes = state.scopes;
    let at = state.at;
    match tokens[at] {
        TokenView::Name(text) => Ok(State { scopes: append_to_top(scopes, Tree::Name(text)), at: at + 1 }),
        TokenView::NameExtended(text) => Ok(
            State { scopes: append_to_top(scopes, Tree::Name(text)), at: at + 1 },
        ),
        TokenView::GroupStart => Ok(State { scopes: scopes.push(Seq::empty()), at: at + 1 }),
        TokenView::GroupEnd => if scopes.len() < 2 {
            Err(ParseError::UnmatchedGroupEnd)
        } else {
            Ok(State { scopes: fold_top(scopes), at: at + 1 })
        },
        TokenView::Separator => Ok(
            State {
                scopes: fold_top(scopes).push(Seq::empty()),
                at: terminators_end(tokens, at + 1),
            },
        ),
        TokenView::Joiner => Ok(State { scopes: split_top(scopes), at: at + 1 }),
    }
}

/// The tree that the tokens from `state.at` on make of the scopes of
/// `state`, or the error that rejects them. At the end of the tokens the
/// root scope alone must be open: its contents are the root group.
pub open spec fn parse_from(state: State, tokens: Seq<TokenView>) -> Result<Tree, ParseError>
    decreases tokens.len() - state.at,
{
    if 0 <= state.at < tokens.len() {
        proof {
            lemma_terminators_end_bounds(tokens, state.at + 1);
        }
        match step(state, tokens) {
            Ok(then) => parse_from(then, tokens),
            Err(error) => Err(error),
        }
    } else if state.scopes.len() > 1 {
        Err(ParseError::UnmatchedGroupStart)
    } else {
        Ok(Tree::Group(state.scopes.last()))
    }
}

/// The state in which parsing starts: the empty root scope, before the first
/// token.
pub open spec fn initial_state() -> State {
    State { scopes: seq![Seq::<Tree>::empty()], at: 0 }
}

/// The tree that `tokens` stand for, or the error that rejects them.
pub open spec fn parse_spec(tokens: Seq<TokenView>) -> Result<Tree, ParseError> {
    parse_from(initial_state(), tokens)
}

/// What a result of [`parse`] is, over the view of its tree.
pub open spec fn parsed(result: Result<Expression, ParseError>) -> Result<Tree, ParseError> {
    match result {
        Ok(expression) => Ok(expression@),
        Err(error) => Err(error),
    }
}

/// The views of a stack of scopes, root first.
pub open spec fn scope_views(ancestry: Seq<Vec<Expression>>) -> Seq<Seq<Tree>> {
    ancestry.map_values(|scope: Vec<Expression>| trees(scope@))
}

/// [`terminators_end`] is the least position from `from` on that holds
/// neither a separator nor a joiner.
pub proof fn lemma_terminators_end_bounds(tokens: Seq<TokenView>, from: int)
    requires
        0 <= from <= tokens.len(),
    ensures
        from <= terminators_end(tokens, from) <= tokens.len(),
        forall|k: int|
            from <= k < terminators_end(tokens, from) ==> is_terminator(#[trigger] tokens[k]),
        terminators_end(tokens, from) < tokens.len() ==> !is_terminator(
            tokens[terminators_end(tokens, from)],
        ),
    decreases tokens.len() - from,
{
    if from < tokens.len() && is_terminator(tokens[from]) {
        lemma_terminators_end_bounds(tokens, from + 1);
    }
}

/// A text of nothing but characters that the lexer passes over has no
/// tokens, and no tokens make the empty root group.
pub proof fn lemma_blank_text_is_empty_group(source: Seq<char>)
    requires
        all_skipped_from(source, 0),
    ensures
        lex_spec(source) == Ok::<Seq<TokenView>, LexError>(Seq::empty()),
        parse_spec(Seq::empty()) == Ok::<Tree, ParseError>(Tree::Group(Seq::empty())),
{
    lemma_no_tokens_iff_all_skipped(source);
    assert(initial_state().scopes.last() =~= Seq::<Tree>::empty());
}

/// Whether `token` is a name, bare or quoted.
pub open spec fn is_name(token: TokenView) -> bool {
    token is Name || token is NameExtended
}

/// The leaf that a name token becomes.
pub open spec fn leaf_of(token: TokenView) -> Tree
    recommends
        is_name(token),
{
    match token {
        TokenView::Name(text) => Tree::Name(text),
        TokenView::NameExtended(text) => Tree::Name(text),
        _ => Tree::Name(Seq::empty()),
    }
}

/// Whether every token from position `from` on is a name.
pub open spec fn all_names_from(tokens: Seq<TokenView>, from: int) -> bool {
    forall|i: int| from <= i < tokens.len() ==> is_name(#[trigger] tokens[i])
}

/// Whether no group end stands at position `from` or behind it.
pub open spec fn no_group_end_from(tokens: Seq<TokenView>, from: int) -> bool {
    forall|i: int| from <= i < tokens.len() ==> !(#[trigger] tokens[i] is GroupEnd)
}

/// With the root scope alone open and only names left to read, the names
/// join the root scope in their order and parsing succeeds.
pub proof fn lemma_names_join_the_root(state: State, tokens: Seq<TokenView>)
    requires
        state.scopes.len() == 1,
        0 <= state.at <= tokens.len(),
        all_names_from(tokens, state.at),
    ensures
        parse_from(state, tokens) == Ok::<Tree, ParseError>(
            Tree::Group(
                state.scopes[0] + tokens.subrange(state.at, tokens.len() as int).map_values(
                    |token: TokenView| leaf_of(token),
                ),
            ),
        ),
    decreases tokens.len() - state.at,
{
    let rest = tokens.subrange(state.at, tokens.len() as int).map_values(
        |token: TokenView| leaf_of(token),
    );
    if state.at < tokens.len() {
        let token = tokens[state.at];
        assert(is_name(token));
        let then = State { scopes: append_to_top(state.scopes, leaf_of(token)), at: state.at + 1 };
        assert(step(state, tokens) == Ok::<State, ParseError>(then));
        lemma_names_join_the_root(then, tokens);
        let later = tokens.subrange(then.at, tokens.len() as int).map_values(
            |token: TokenView| leaf_of(token),
        );
        assert(then.scopes[0] + later =~= state.scopes[0] + rest);
    } else {
        assert(state.scopes[0] + rest =~= state.scopes.last());
    }
}

/// A sequence of names alone parses to the root group of those names.
pub proof fn lemma_names_parse_to_their_group(tokens: Seq<TokenView>)
    requires
        all_names_from(tokens, 0),
    ensures
        parse_spec(tokens) == Ok::<Tree, ParseError>(
            Tree::Group(tokens.map_values(|token: TokenView| leaf_of(token))),
        ),
{
    lemma_names_join_the_root(initial_state(), tokens);
    assert(tokens.subrange(0, tokens.len() as int) =~= tokens);
    assert(Seq::<Tree>::empty() + tokens.map_values(|token: TokenView| leaf_of(token))
        =~= tokens.map_values(|token: TokenView| leaf_of(token)));
}

/// Only a group end closes a scope: where a scope above the root is open
/// and no group end is left to read, the sequence is rejected for it.
pub proof fn lemma_open_scope_needs_group_end(state: State, tokens: Seq<TokenView>)
    requires
        state.scopes.len() > 1,
        0 <= state.at,
        no_group_end_from(tokens, state.at),
    ensures
        parse_from(state, tokens) == Err::<Tree, ParseError>(ParseError::UnmatchedGroupStart),
    decreases tokens.len() - state.at,
{
    if state.at < tokens.len() {
        lemma_terminators_end_bounds(tokens, state.at + 1);
        assert(!(tokens[state.at] is GroupEnd));
        let then = step(state, tokens).unwrap();
        assert(then.scopes.len() > 1);
        lemma_open_scope_needs_group_end(then, tokens);
    }
}

/// A separator opens a scope: where one stands at position `at` or behind
/// it and no group end does, the sequence is rejected for the open scope.
pub proof fn lemma_separator_needs_group_end(state: State, tokens: Seq<TokenView>, at: int)
    requires
        state.scopes.len() > 0,
        0 <= state.at <= at < tokens.len(),
        tokens[at] is Separator,
        no_group_end_from(tokens, state.at),
    ensures
        parse_from(state, tokens) == Err::<Tree, ParseError>(ParseError::UnmatchedGroupStart),
    decreases tokens.len() - state.at,
{
    lemma_terminators_end_bounds(tokens, state.at + 1);
    assert(!(tokens[state.at] is GroupEnd));
    let then = step(state, tokens).unwrap();
    if then.scopes.len() > 1 {
        lemma_open_scope_needs_group_end(then, tokens);
    } else {
        assert(!(tokens[state.at] is Separator));
        lemma_separator_needs_group_end(then, tokens, at);
    }
}

/// A joiner behind a name opens a scope: where a name with a joiner right
/// behind it stands at position `at` or later and no group end does, the
/// sequence is rejected for the open scope.
pub proof fn lemma_joined_name_needs_group_end(state: State, tokens: Seq<TokenView>, at: int)
    requires
        state.scopes.len() > 0,
        0 <= state.at <= at < tokens.len() - 1,
        is_name(tokens[at]),
        tokens[at + 1] is Joiner,
        no_group_end_from(tokens, state.at),
    ensures
        parse_from(state, tokens) == Err::<Tree, ParseError>(ParseError::UnmatchedGroupStart),
    decreases tokens.len() - state.at,
{
    lemma_terminators_end_bounds(tokens, state.at + 1);
    assert(!(tokens[state.at] is GroupEnd));
    let then = step(state, tokens).unwrap();
    if then.scopes.len() > 1 {
        lemma_open_scope_needs_group_end(then, tokens);
    } else if state.at == at {
        assert(then.at == at + 1);
        assert(then.scopes.last().len() > 0);
        assert(!(tokens[then.at] is GroupEnd));
        let joined = step(then, tokens).unwrap();
        assert(joined.scopes.len() > 1);
        lemma_open_scope_needs_group_end(joined, tokens);
    } else {
        assert(!(tokens[state.at] is Separator));
        lemma_joined_name_needs_group_end(then, tokens, at);
    }
}

/// Without a group end, a sequence that holds a separator, or a name with a
/// joiner right behind it, is rejected: the scope that it opens stays open.
pub proof fn lemma_unclosed_scope_is_rejected(tokens: Seq<TokenView>, at: int)
    requires
        0 <= at < tokens.len(),
        no_group_end_from(tokens, 0),
        tokens[at] is Separator || (at + 1 < tokens.len() && is_name(tokens[at]) && tokens[at
            + 1] is Joiner),
    ensures
        parse_spec(tokens) == Err::<Tree, ParseError>(ParseError::UnmatchedGroupStart),
{
    if tokens[at] is Separator {
        lemma_separator_needs_group_end(initial_state(), tokens, at);
    } else {
        lemma_joined_name_needs_group_end(initial_state(), tokens, at);
    }
}

/// A group end that only names come before is rejected: nothing but the
/// root scope is open when it is read.
pub proof fn lemma_group_end_after_names_is_rejected(tokens: Seq<TokenView>, at: int)
    requires
        0 <= at < tokens.len(),
        tokens[at] is GroupEnd,
        forall|i: int| 0 <= i < at ==> is_name(#[trigger] tokens[i]),
    ensures
        parse_spec(tokens) == Err::<Tree, ParseError>(ParseError::UnmatchedGroupEnd),
{
    lemma_group_end_at_the_root(initial_state(), tokens, at);
}

/// The same from any state with the root scope alone open.
pub proof fn lemma_group_end_at_the_root(state: State, tokens: Seq<TokenView>, at: int)
    requires
        state.scopes.len() == 1,
        0 <= state.at <= at < tokens.len(),
        tokens[at] is GroupEnd,
        forall|i: int| state.at <= i < at ==> is_name(#[trigger] tokens[i]),
    ensures
        parse_from(state, tokens) == Err::<Tree, ParseError>(ParseError::UnmatchedGroupEnd),
    decreases at - state.at,
{
    if state.at < at {
        assert(is_name(tokens[state.at]));
        let then = step(state, tokens).unwrap();
        lemma_group_end_at_the_root(then, tokens, at);
    }
}

/// Appends `expression` to the top scope.
fn push_onto_top(ancestry: &mut Vec<Vec<Expression>>, expression: Expression)
    requires
        old(ancestry).len() > 0,
    ensures
        final(ancestry).len() == old(ancestry).len(),
        scope_views(final(ancestry)@) == append_to_top(scope_views(old(ancestry)@), expression@),
{
    let ghost before = ancestry@;
    ancestry.last_mut().unwrap().push(expression);
    proof {
        let top = before.last();
        assert(trees(top@.push(expression)) =~= trees(top@).push(expression@));
        assert(scope_views(ancestry@) =~= append_to_top(scope_views(before), expression@));
    }
}

/// Closes the top scope into a group at the end of the scope below it, which
/// is made first where the top scope was the only one.
fn fold_top_scope(ancestry: &mut Vec<Vec<Expression>>)
    requires
        old(ancestry).len() > 0,
    ensures
        final(ancestry).len() > 0,
        old(ancestry).len() > 1 ==> final(ancestry).len() == old(ancestry).len() - 1,
        scope_views(final(ancestry)@) == fold_top(scope_views(old(ancestry)@)),
{
    let ghost before = ancestry@;
    let top = ancestry.pop().unwrap();
    proof {
        lemma_group_view(top);
        assert(scope_views(ancestry@) =~= scope_views(before).drop_last());
    }
    let group = Expression::Group(top);
    if ancestry.len() == 0 {
        ancestry.push(Vec::new());
        assert(scope_views(ancestry@) =~~= seq![Seq::<Tree>::empty()]);
    }
    push_onto_top(ancestry, group);
}

/// Moves the last expression of the top scope into a new scope above it;
/// does nothing where the top scope is empty.
fn split_top_scope(ancestry: &mut Vec<Vec<Expression>>)
    requires
        old(ancestry).len() > 0,
    ensures
        final(ancestry).len() > 0,
        scope_views(final(ancestry)@) == split_top(scope_views(old(ancestry)@)),
{
    let ghost before = ancestry@;
    match ancestry.last_mut().unwrap().pop() {
        Some(expression) => {
            let ghost shortened = ancestry@;
            ancestry.push(vec![expression]);
            proof {
                let top = before.last();
                assert(trees(top@.drop_last()) =~= trees(top@).drop_last());
                assert(trees(ancestry@.last()@) =~= seq![trees(top@).last()]);
                assert(scope_views(ancestry@) =~= split_top(scope_views(before)));
            }
        },
        None => {
            assert(scope_views(ancestry@) =~~= scope_views(before));
        },
    }
}

/// A cursor over a token sequence: the tokens, and the position of the next
/// one.
struct Parser<'a> {
    source: &'a [Token],
    index: usize,
}

impl<'a> Parser<'a> {
    /// The cursor stands inside the sequence or just behind it.
    spec fn wf(&self) -> bool {
        self.index <= self.source@.len()
    }

    /// The parser's state with the scopes of `ancestry`.
    spec fn state(&self, ancestry: Seq<Vec<Expression>>) -> State {
        State { scopes: scope_views(ancestry), at: self.index as int }
    }

    /// Hands out the token under the cursor and moves past it; at the end of
    /// the sequence there is none, and the cursor stays.
    fn next(&mut self) -> (token: Option<&'a Token>)
        requires
            old(self).wf(),
        ensures
            final(self).wf(),
            final(self).source == old(self).source,
            old(self).index < old(self).source@.len() ==> token == Some(
                &old(self).source@[old(self).index as int],
            ) && final(self).index == old(self).index + 1,
            old(self).index >= old(self).source@.len() ==> token.is_none() && final(self).index
                == old(self).index,
    {
        if self.index < self.source.len() {
            let token = &self.source[self.index];
            self.index += 1;
            Some(token)
        } else {
            None
        }
    }

    /// Moves the cursor back by one token, so that it is read again.
    fn go_back(&mut self)
        requires
            old(self).wf(),
            old(self).index > 0,
        ensures
            final(self).wf(),
            final(self).source == old(self).source,
            final(self).index == old(self).index - 1,
    {
        self.index -= 1;
    }

    /// Moves the cursor past the run of separators and joiners under it, and
    /// leaves it on the first token that is neither.
    fn skip_terminators(&mut self)
        requires
            old(self).wf(),
        ensures
            final(self).wf(),
            final(self).source == old(self).source,
            final(self).index == terminators_end(
                token_views(old(self).source@),
                old(self).index as int,
            ),
    {
        let ghost tokens = token_views(self.source@);
        let ghost from = self.index as int;
        loop
            invariant
                self.wf(),
                self.source == old(self).source,
                tokens == token_views(self.source@),
                from == old(self).index,
                from <= self.index,
                terminators_end(tokens, from) == terminators_end(tokens, self.index as int),
            decreases self.source@.len() - self.index,
        {
            match self.next() {
                Some(Token::Separator) | Some(Token::Joiner) => {},
                Some(_) => {
                    self.go_back();
                    return ;
                },
                None => {
                    return ;
                },
            }
        }
    }

    /// Reads the tokens from the cursor to the end, starting from the empty
    /// root scope.
    fn parse(self) -> (result: Result<Expression, ParseError>)
        requires
            self.wf(),
        ensures
            parsed(result) == parse_from(
                State { scopes: seq![Seq::<Tree>::empty()], at: self.index as int },
                token_views(self.source@),
            ),
            result matches Ok(root) ==> root is Group,
    {
        let mut parser = self;
        let ghost tokens = token_views(self.source@);
        let ghost start = State { scopes: seq![Seq::<Tree>::empty()], at: self.index as int };
        let mut ancestry: Vec<Vec<Expression>> = Vec::new();
        ancestry.push(Vec::new());
        assert(scope_views(ancestry@) =~~= start.scopes);
        loop
            invariant
                parser.wf(),
                parser.source == self.source,
                tokens == token_views(self.source@),
                start == (State { scopes: seq![Seq::<Tree>::empty()], at: self.index as int }),
                ancestry.len() > 0,
                parse_from(start, tokens) == parse_from(parser.state(ancestry@), tokens),
            decreases parser.source@.len() - parser.index,
        {
            let ghost state = parser.state(ancestry@);
            let token = match parser.next() {
                Some(token) => token,
                None => {
                    if ancestry.len() > 1 {
                        return Err(ParseError::UnmatchedGroupStart);
                    }
                    let root = ancestry.pop().unwrap();
                    proof {
                        lemma_group_view(root);
                    }
                    return Ok(Expression::Group(root));
                },
            };
            proof {
                lemma_terminators_end_bounds(tokens, state.at + 1);
            }
            assert(tokens[state.at] == token@);
            match token {
                Token::Name(text) => {
                    push_onto_top(&mut ancestry, Expression::Name(text.clone()));
                },
                Token::NameExtended(text) => {
                    push_onto_top(&mut ancestry, Expression::Name(text.clone()));
                },
                Token::GroupStart => {
                    ancestry.push(Vec::new());
                    assert(scope_views(ancestry@) =~~= state.scopes.push(Seq::empty()));
                },
                Token::GroupEnd => {
                    if ancestry.len() < 2 {
                        return Err(ParseError::UnmatchedGroupEnd);
                    }
                    fold_top_scope(&mut ancestry);
                },
                Token::Separator => {
                    parser.skip_terminators();
                    fold_top_scope(&mut ancestry);
                    let ghost folded = ancestry@;
                    ancestry.push(Vec::new());
                    assert(scope_views(ancestry@) =~~= scope_views(folded).push(Seq::empty()));
                },
                Token::Joiner => {
                    split_top_scope(&mut ancestry);
                },
            }
            assert(step(state, tokens) == Ok::<State, ParseError>(parser.state(ancestry@)));
        }
    }
}

/// Folds `source` into the root group of its tree.
///
/// The tokens are read from left to right onto a stack of open scopes, as
/// [`step`] describes. A group end that would close the root scope rejects
/// the sequence, and so does its end where a scope other than the root is
/// still open: one that a group start opened, or a separator, or a joiner.
pub fn parse(source: &[Token]) -> (result: Result<Expression, ParseError>)
    ensures
        parsed(result) == parse_spec(token_views(source@)),
        result matches Ok(root) ==> root is Group,
{
    Parser { source, index: 0 }.parse()
}

} // verus!
