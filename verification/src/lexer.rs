//! Cutting a text into tokens.
//!
//! The text is read once, from left to right. [`scan_at`] says what is found
//! at one position, [`lex_from`] strings those findings together, and [`lex`]
//! computes the result with a cursor that can step back by one character.
use vstd::prelude::*;
use crate::error::LexError;
use crate::text::whitespace;
use crate::token::{token_views, Token, TokenView};

verus! {

/// Whether `c` ends a bare name that is being read. A double quote does not:
/// it opens a name only where a token starts.
pub open spec fn ends_bare_name(c: char) -> bool {
    c == '{' || c == '}' || c == '.' || c == ';' || whitespace(c)
}

/// The first position at or after `from` that holds a character which ends a
/// bare name, or the length of `source` where there is none.
pub open spec fn bare_name_end(source: Seq<char>, from: int) -> int
    recommends
        0 <= from <= source.len(),
    decreases source.len() - from,
{
    if 0 <= from < source.len() && !ends_bare_name(source[from]) {
        bare_name_end(source, from + 1)
    } else {
        from
    }
}

/// The first position at or after `from` that holds a double quote, or the
/// length of `source` where there is none.
pub open spec fn closing_quote(source: Seq<char>, from: int) -> int
    recommends
        0 <= from <= source.len(),
    decreases source.len() - from,
{
    if 0 <= from < source.len() && source[from] != '"' {
        closing_quote(source, from + 1)
    } else {
        from
    }
}

/// What the lexer finds at one position of a text.
pub enum Scan {
    /// A token, and the position behind the characters it was made of.
    Emit { token: TokenView, next: int },
    /// Whitespace that stands for nothing.
    Skip { next: int },
    /// A quoted name that the text does not close.
    Fail { error: LexError },
}

/// What stands at position `at` of `source`.
pub open spec fn scan_at(source: Seq<char>, at: int) -> Scan
    recommends
        0 <= at < source.len(),
{
    let c = source[at];
    if c == '{' {
        Scan::Emit { token: TokenView::GroupStart, next: at + 1 }
    } else if c == '}' {
        Scan::Emit { token: TokenView::GroupEnd, next: at + 1 }
    } else if c == '.' {
        Scan::Emit { token: TokenView::Joiner, next: at + 1 }
    } else if c == ';' || c == '\n' {
        Scan::Emit { token: TokenView::Separator, next: at + 1 }
    } else if c == '"' {
        let close = closing_quote(source, at + 1);
        if close < source.len() {
            Scan::Emit {
                token: TokenView::NameExtended(source.subrange(at + 1, close)),
                next: close + 1,
            }
        } else {
            Scan::Fail { error: LexError::UnterminatedExtendedName }
        }
    } else if whitespace(c) {
        Scan::Skip { next: at + 1 }
    } else {
        let end = bare_name_end(source, at + 1);
        Scan::Emit { token: TokenView::Name(source.subrange(at, end)), next: end }
    }
}

/// `tokens` followed by what `rest` holds, or the error of `rest`.
pub open spec fn after(tokens: Seq<TokenView>, rest: Result<Seq<TokenView>, LexError>) -> Result<
    Seq<TokenView>,
    LexError,
> {
    match rest {
        Ok(more) => Ok(tokens + more),
        Err(error) => Err(error),
    }
}

/// The tokens of `source` from position `at` on, or the error that rejects
/// the text.
pub open spec fn lex_from(source: Seq<char>, at: int) -> Result<Seq<TokenView>, LexError>
    decreases source.len() - at,
{
    if 0 <= at < source.len() {
        proof {
            lemma_closing_quote_bounds(source, at + 1);
            lemma_bare_name_end_bounds(source, at + 1);
        }
        match scan_at(source, at) {
            Scan::Emit { token, next } => after(seq![token], lex_from(source, next)),
            Scan::Skip { next } => lex_from(source, next),
            Scan::Fail { error } => Err(error),
        }
    } else {
        Ok(Seq::empty())
    }
}

/// The tokens of the whole of `source`, or the error that rejects it.
pub open spec fn lex_spec(source: Seq<char>) -> Result<Seq<TokenView>, LexError> {
    lex_from(source, 0)
}

/// What a result of [`lex`] is, over the views of its tokens.
pub open spec fn lexed(result: Result<Vec<Token>, LexError>) -> Result<Seq<TokenView>, LexError> {
    match result {
        Ok(tokens) => Ok(token_views(tokens@)),
        Err(error) => Err(error),
    }
}

/// [`bare_name_end`] is the least position from `from` on at which a bare
/// name ends.
pub proof fn lemma_bare_name_end_bounds(source: Seq<char>, from: int)
    requires
        0 <= from <= source.len(),
    ensures
        from <= bare_name_end(source, from) <= source.len(),
        forall|k: int|
            from <= k < bare_name_end(source, from) ==> !ends_bare_name(#[trigger] source[k]),
        bare_name_end(source, from) < source.len() ==> ends_bare_name(
            source[bare_name_end(source, from)],
        ),
    decreases source.len() - from,
{
    if from < source.len() && !ends_bare_name(source[from]) {
        lemma_bare_name_end_bounds(source, from + 1);
    }
}

/// [`closing_quote`] is the least position from `from` on that holds a double
/// quote.
pub proof fn lemma_closing_quote_bounds(source: Seq<char>, from: int)
    requires
        0 <= from <= source.len(),
    ensures
        from <= closing_quote(source, from) <= source.len(),
        forall|k: int| from <= k < closing_quote(source, from) ==> #[trigger] source[k] != '"',
        closing_quote(source, from) < source.len() ==> source[closing_quote(source, from)] == '"',
    decreases source.len() - from,
{
    if from < source.len() && source[from] != '"' {
        lemma_closing_quote_bounds(source, from + 1);
    }
}

/// Whether the lexer passes over `c` where a token could start: whitespace
/// that is no token of its own. A line feed is whitespace and a separator, so
/// it is not passed over.
pub open spec fn is_skipped(c: char) -> bool {
    whitespace(c) && c != '{' && c != '}' && c != '.' && c != ';' && c != '\n' && c != '"'
}

/// Whether every character of `source` from position `at` on is passed over.
pub open spec fn all_skipped_from(source: Seq<char>, at: int) -> bool {
    forall|i: int| at <= i < source.len() ==> is_skipped(#[trigger] source[i])
}

/// A text yields no token exactly when it holds nothing but characters that
/// the lexer passes over; the empty text is one such.
pub proof fn lemma_no_tokens_iff_all_skipped(source: Seq<char>)
    ensures
        lex_spec(source) == Ok::<Seq<TokenView>, LexError>(Seq::empty()) <==> all_skipped_from(
            source,
            0,
        ),
{
    lemma_no_tokens_from(source, 0);
}

/// The same from any position on.
pub proof fn lemma_no_tokens_from(source: Seq<char>, at: int)
    requires
        0 <= at <= source.len(),
    ensures
        lex_from(source, at) == Ok::<Seq<TokenView>, LexError>(Seq::empty()) <==> all_skipped_from(
            source,
            at,
        ),
    decreases source.len() - at,
{
    if at < source.len() {
        lemma_closing_quote_bounds(source, at + 1);
        lemma_bare_name_end_bounds(source, at + 1);
        match scan_at(source, at) {
            Scan::Emit { token, next } => {
                assert(!is_skipped(source[at]));
                if let Ok(more) = lex_from(source, next) {
                    assert((seq![token] + more).len() > 0);
                }
            },
            Scan::Skip { next } => {
                lemma_no_tokens_from(source, at + 1);
                assert(is_skipped(source[at]));
                if all_skipped_from(source, at + 1) {
                    assert forall|i: int| at <= i < source.len() implies is_skipped(
                        #[trigger] source[i],
                    ) by {
                        if i > at {
                        }
                    }
                }
            },
            Scan::Fail { error } => {
                assert(!is_skipped(source[at]));
            },
        }
    }
}

/// A text is rejected only for a quoted name: one without a double quote
/// from position `at` on has tokens from there.
pub proof fn lemma_text_without_quote_is_accepted(source: Seq<char>, at: int)
    requires
        0 <= at,
        forall|i: int| at <= i < source.len() ==> #[trigger] source[i] != '"',
    ensures
        lex_from(source, at) is Ok,
    decreases source.len() - at,
{
    if at < source.len() {
        lemma_bare_name_end_bounds(source, at + 1);
        assert(source[at] != '"');
        match scan_at(source, at) {
            Scan::Emit { token, next } => {
                lemma_text_without_quote_is_accepted(source, next);
            },
            Scan::Skip { next } => {
                lemma_text_without_quote_is_accepted(source, next);
            },
            Scan::Fail { error } => {},
        }
    }
}

/// Reading a name again gives the same name: where the lexer finds a bare or
/// a quoted name at position `at`, made of the characters up to `next`, those
/// characters alone are a text with that name as its one token.
pub proof fn lemma_name_lexes_to_itself(source: Seq<char>, at: int)
    requires
        0 <= at < source.len(),
        scan_at(source, at) is Emit,
        scan_at(source, at)->token is Name || scan_at(source, at)->token is NameExtended,
    ensures
        at < scan_at(source, at)->Emit_next <= source.len(),
        lex_spec(source.subrange(at, scan_at(source, at)->Emit_next)) == Ok::<
            Seq<TokenView>,
            LexError,
        >(seq![scan_at(source, at)->token]),
{
    let token = scan_at(source, at)->token;
    let next = scan_at(source, at)->Emit_next;
    lemma_closing_quote_bounds(source, at + 1);
    lemma_bare_name_end_bounds(source, at + 1);
    let piece = source.subrange(at, next);
    assert(piece[0] == source[at]);
    assert forall|k: int| 0 <= k < piece.len() implies piece[k] == source[at + k] by {}
    if token is Name {
        lemma_bare_name_end_is(piece, 1, piece.len() as int);
        assert(piece.subrange(0, piece.len() as int) =~= piece);
    } else {
        lemma_closing_quote_is(piece, 1, piece.len() - 1);
        assert(piece.subrange(1, piece.len() - 1) =~= source.subrange(at + 1, next - 1));
    }
    assert(scan_at(piece, 0) == Scan::Emit { token, next: piece.len() as int });
    assert(lex_from(piece, piece.len() as int) == Ok::<Seq<TokenView>, LexError>(Seq::empty()));
    assert(seq![token] + Seq::<TokenView>::empty() =~= seq![token]);
}

/// A position that no earlier character ends a bare name before, and that
/// itself ends one or is the end of the text, is where the name ends.
pub proof fn lemma_bare_name_end_is(source: Seq<char>, from: int, end: int)
    requires
        0 <= from <= end <= source.len(),
        forall|k: int| from <= k < end ==> !ends_bare_name(#[trigger] source[k]),
        end < source.len() ==> ends_bare_name(source[end]),
    ensures
        bare_name_end(source, from) == end,
    decreases end - from,
{
    if from < end {
        assert(!ends_bare_name(source[from]));
        lemma_bare_name_end_is(source, from + 1, end);
    }
}

/// A position that no double quote stands before, and that itself holds one
/// or is the end of the text, is where the search for the quote stops.
pub proof fn lemma_closing_quote_is(source: Seq<char>, from: int, end: int)
    requires
        0 <= from <= end <= source.len(),
        forall|k: int| from <= k < end ==> #[trigger] source[k] != '"',
        end < source.len() ==> source[end] == '"',
    ensures
        closing_quote(source, from) == end,
    decreases end - from,
{
    if from < end {
        assert(source[from] != '"');
        lemma_closing_quote_is(source, from + 1, end);
    }
}

/// The lemma behind [`lex`]'s loop: tokens found so far, then one more, then
/// the rest, is the same as all of them in a row.
proof fn lemma_after_push(done: Seq<TokenView>, token: TokenView, rest: Result<Seq<TokenView>, LexError>)
    ensures
        after(done, after(seq![token], rest)) == after(done.push(token), rest),
{
    if let Ok(more) = rest {
        assert(done + (seq![token] + more) =~= done.push(token) + more);
    }
}

/// A cursor over a text: the characters, and the position of the next one.
struct Lexer<'a> {
    source: &'a [char],
    index: usize,
}

impl<'a> Lexer<'a> {
    /// The cursor stands inside the text or just behind it.
    spec fn wf(&self) -> bool {
        self.index <= self.source@.len()
    }

    /// Hands out the character under the cursor and moves past it; at the
    /// end of the text there is none, and the cursor stays.
    fn next(&mut self) -> (c: Option<char>)
        requires
            old(self).wf(),
        ensures
            final(self).wf(),
            final(self).source == old(self).source,
            old(self).index < old(self).source@.len() ==> c == Some(
                old(self).source@[old(self).index as int],
            ) && final(self).index == old(self).index + 1,
            old(self).index >= old(self).source@.len() ==> c.is_none() && final(self).index == old(
                self,
            ).index,
    {
        if self.index < self.source.len() {
            let c = self.source[self.index];
            self.index += 1;
            Some(c)
        } else {
            None
        }
    }

    /// Moves the cursor back by one character, so that it is read again.
    fn go_back(&mut self)
        requires
            old(self).wf(),
            old(self).index > 0,
        ensures
            final(self).wf(),
            final(self).source == old(self).source,
            final(self).index == old(self).index - 1,
    {
        self.index -= 1;
    }

    /// Reads the rest of a quoted name, the cursor standing behind the
    /// opening quote: the text up to the next double quote, with the cursor
    /// left behind that quote, or nothing where the text ends first.
    fn quoted_name(&mut self) -> (name: Option<String>)
        requires
            old(self).wf(),
        ensures
            final(self).wf(),
            final(self).source == old(self).source,
            ({
                let source = old(self).source@;
                let from = old(self).index as int;
                let close = closing_quote(source, from);
                if close < source.len() {
                    &&& name matches Some(text)
                    &&& text@ == source.subrange(from, close)
                    &&& final(self).index == close + 1
                } else {
                    name.is_none()
                }
            }),
    {
        let ghost source = self.source@;
        let ghost from = self.index as int;
        let mut name = String::new();
        proof {
            lemma_closing_quote_bounds(source, from);
        }
        loop
            invariant
                self.wf(),
                self.source@ == source,
                self.source == old(self).source,
                source == old(self).source@,
                from == old(self).index,
                0 <= from <= self.index,
                name@ == source.subrange(from, self.index as int),
                closing_quote(source, from) == closing_quote(source, self.index as int),
            decreases source.len() - self.index,
        {
            match self.next() {
                Some(c) => {
                    if c == '"' {
                        return Some(name);
                    }
                    name.push(c);
                    assert(name@ =~= source.subrange(from, self.index as int));
                },
                None => {
                    return None;
                },
            }
        }
    }

    /// Reads a bare name whose first character `first` was just taken: the
    /// text from that character up to the first one that ends a bare name,
    /// with the cursor left on that one.
    fn bare_name(&mut self, first: char) -> (name: String)
        requires
            old(self).wf(),
            old(self).index > 0,
            first == old(self).source@[old(self).index - 1],
        ensures
            final(self).wf(),
            final(self).source == old(self).source,
            final(self).index == bare_name_end(old(self).source@, old(self).index as int),
            name@ == old(self).source@.subrange(old(self).index - 1, final(self).index as int),
    {
        let ghost source = self.source@;
        let ghost from = self.index as int;
        let mut name = String::new();
        name.push(first);
        assert(name@ =~= source.subrange(from - 1, from));
        loop
            invariant
                self.wf(),
                self.source@ == source,
                self.source == old(self).source,
                source == old(self).source@,
                from == old(self).index,
                0 < from <= self.index,
                name@ == source.subrange(from - 1, self.index as int),
                bare_name_end(source, from) == bare_name_end(source, self.index as int),
            decreases source.len() - self.index,
        {
            match self.next() {
                Some(c) => {
                    if c == '{' || c == '}' || c == '.' || c == ';' || c.is_whitespace() {
                        self.go_back();
                        return name;
                    }
                    name.push(c);
                    assert(name@ =~= source.subrange(from - 1, self.index as int));
                },
                None => {
                    return name;
                },
            }
        }
    }

    /// Reads the text from the cursor to its end.
    fn lex(self) -> (result: Result<Vec<Token>, LexError>)
        requires
            self.wf(),
        ensures
            lexed(result) == lex_from(self.source@, self.index as int),
    {
        let mut lexer = self;
        let mut tokens: Vec<Token> = Vec::new();
        let ghost source = self.source@;
        let ghost start = self.index as int;
        assert(token_views(tokens@) =~= Seq::empty());
        assert(after(Seq::empty(), lex_from(source, start)) == lex_from(source, start)) by {
            if let Ok(more) = lex_from(source, start) {
                assert(Seq::<TokenView>::empty() + more =~= more);
            }
        }
        loop
            invariant
                lexer.wf(),
                lexer.source@ == source,
                source == self.source@,
                start == self.index,
                lex_from(source, start) == after(
                    token_views(tokens@),
                    lex_from(source, lexer.index as int),
                ),
            decreases source.len() - lexer.index,
        {
            let ghost at = lexer.index as int;
            let ghost done = token_views(tokens@);
            let c = match lexer.next() {
                Some(c) => c,
                None => {
                    assert(done + Seq::<TokenView>::empty() =~= done);
                    return Ok(tokens);
                },
            };
            proof {
                lemma_closing_quote_bounds(source, at + 1);
                lemma_bare_name_end_bounds(source, at + 1);
            }
            let token = if c == '{' {
                Token::GroupStart
            } else if c == '}' {
                Token::GroupEnd
            } else if c == '.' {
                Token::Joiner
            } else if c == ';' || c == '\n' {
                Token::Separator
            } else if c == '"' {
                match lexer.quoted_name() {
                    Some(name) => Token::NameExtended(name),
                    None => {
                        return Err(LexError::UnterminatedExtendedName);
                    },
                }
            } else if c.is_whitespace() {
                continue ;
            } else {
                Token::Name(lexer.bare_name(c))
            };
            proof {
                assert(scan_at(source, at) == Scan::Emit { token: token@, next: lexer.index as int });
                lemma_after_push(done, token@, lex_from(source, lexer.index as int));
            }
            tokens.push(token);
            assert(token_views(tokens@) =~= done.push(token@));
        }
    }
}

/// Cuts `source` into tokens, read from left to right.
///
/// `{`, `}` and `.` are tokens of their own, and so is `;` or a line feed, as
/// a separator. A double quote opens a name that runs, taken as it stands, to
/// the next double quote; where the text ends before that quote, the whole
/// text is rejected. Other whitespace stands for nothing. Any other character
/// starts a bare name, which runs up to the next `{`, `}`, `.`, `;` or
/// whitespace, or to the end of the text.
pub fn lex(source: &[char]) -> (result: Result<Vec<Token>, LexError>)
    ensures
        lexed(result) == lex_spec(source@),
{
    Lexer { source, index: 0 }.lex()
}

} // verus!
