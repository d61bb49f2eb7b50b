use bismuth::{lex, parse, Expression, LexError, Token};

fn chars(text: &str) -> Vec<char> {
    text.chars().collect()
}

fn name(text: &str) -> Token {
    Token::Name(text.to_string())
}

fn quoted(text: &str) -> Token {
    Token::NameExtended(text.to_string())
}

#[test]
fn empty_text_has_no_tokens() {
    assert_eq!(lex(&[]), Ok(vec![]));
}

#[test]
fn whitespace_alone_has_no_tokens_and_parses_to_the_empty_group() {
    let tokens = lex(&chars("  \t \r  ")).unwrap();
    assert_eq!(tokens, vec![]);
    assert_eq!(parse(&tokens), Ok(Expression::Group(vec![])));
}

#[test]
fn whitespace_beyond_ascii_is_passed_over() {
    assert_eq!(lex(&chars("\u{a0}\u{2003}\u{3000}\u{b}\u{c}")), Ok(vec![]));
    assert_eq!(lex(&chars("a\u{a0}b")), Ok(vec![name("a"), name("b")]));
}

#[test]
fn a_letter_is_not_passed_over() {
    assert_eq!(lex(&chars(" a ")), Ok(vec![name("a")]));
    assert_eq!(lex(&chars("_")), Ok(vec![name("_")]));
}

#[test]
fn line_feed_is_a_separator() {
    assert_eq!(lex(&chars("\n")), Ok(vec![Token::Separator]));
    assert_eq!(lex(&chars(" \n ")), Ok(vec![Token::Separator]));
    assert_eq!(
        lex(&chars("a\nb")),
        Ok(vec![name("a"), Token::Separator, name("b")])
    );
}

#[test]
fn punctuation_gives_one_token_each() {
    assert_eq!(
        lex(&chars("{}.;")),
        Ok(vec![
            Token::GroupStart,
            Token::GroupEnd,
            Token::Joiner,
            Token::Separator
        ])
    );
}

#[test]
fn unterminated_quoted_name_is_rejected() {
    assert_eq!(
        lex(&chars("\"abc")),
        Err(LexError::UnterminatedExtendedName)
    );
    assert_eq!(lex(&chars("\"")), Err(LexError::UnterminatedExtendedName));
}

#[test]
fn quoted_name_is_one_token() {
    assert_eq!(lex(&chars("\"abc\"")), Ok(vec![quoted("abc")]));
}

#[test]
fn empty_quoted_name_is_a_token() {
    assert_eq!(lex(&chars("\"\"")), Ok(vec![quoted("")]));
}

#[test]
fn quoted_name_is_taken_as_it_stands() {
    assert_eq!(
        lex(&chars("\"a.b; {c}\n\\d\"")),
        Ok(vec![quoted("a.b; {c}\n\\d")])
    );
}

#[test]
fn a_late_open_quote_rejects_the_whole_text() {
    assert_eq!(
        lex(&chars("a { b } \"c")),
        Err(LexError::UnterminatedExtendedName)
    );
}

#[test]
fn three_quotes_leave_one_open() {
    assert_eq!(
        lex(&chars("\"a\" \"b")),
        Err(LexError::UnterminatedExtendedName)
    );
}

#[test]
fn bare_name_runs_to_the_end_of_the_text() {
    assert_eq!(lex(&chars("abc")), Ok(vec![name("abc")]));
}

#[test]
fn bare_name_stops_before_each_delimiter() {
    assert_eq!(
        lex(&chars("ab{cd}ef.gh;ij kl\tmn")),
        Ok(vec![
            name("ab"),
            Token::GroupStart,
            name("cd"),
            Token::GroupEnd,
            name("ef"),
            Token::Joiner,
            name("gh"),
            Token::Separator,
            name("ij"),
            name("kl"),
            name("mn"),
        ])
    );
}

#[test]
fn a_quote_inside_a_bare_name_belongs_to_it() {
    assert_eq!(lex(&chars("a\"b")), Ok(vec![name("a\"b")]));
    assert_eq!(lex(&chars("a\"b c\"")), Ok(vec![name("a\"b"), name("c\"")]));
}

#[test]
fn a_quoted_name_may_follow_a_delimiter_at_once() {
    assert_eq!(
        lex(&chars("{\"a b\"}")),
        Ok(vec![Token::GroupStart, quoted("a b"), Token::GroupEnd])
    );
}

#[test]
fn a_bare_name_may_follow_a_closing_quote_at_once() {
    assert_eq!(lex(&chars("\"a\"b")), Ok(vec![quoted("a"), name("b")]));
}

#[test]
fn joined_names_lex_to_three_tokens() {
    assert_eq!(
        lex(&chars("a.b")),
        Ok(vec![name("a"), Token::Joiner, name("b")])
    );
}

#[test]
fn separated_names_lex_to_three_tokens() {
    assert_eq!(
        lex(&chars("a;b")),
        Ok(vec![name("a"), Token::Separator, name("b")])
    );
}

#[test]
fn a_bare_name_read_again_is_the_same_token() {
    let text = chars("  first{second \"third one\"}");
    let tokens = lex(&text).unwrap();
    assert_eq!(
        tokens,
        vec![
            name("first"),
            Token::GroupStart,
            name("second"),
            quoted("third one"),
            Token::GroupEnd
        ]
    );
    assert_eq!(lex(&text[2..7]), Ok(vec![name("first")]));
    assert_eq!(lex(&text[8..14]), Ok(vec![name("second")]));
}

#[test]
fn a_quoted_name_read_again_is_the_same_token() {
    let text = chars("  first{second \"third one\"}");
    assert_eq!(lex(&text[15..26]), Ok(vec![quoted("third one")]));
}

#[test]
fn names_keep_characters_beyond_ascii() {
    assert_eq!(
        lex(&chars("caf\u{e9} \"\u{8d8a} \u{1f600}\"")),
        Ok(vec![name("caf\u{e9}"), quoted("\u{8d8a} \u{1f600}")])
    );
}

#[test]
fn lex_error_has_a_message() {
    assert_eq!(
        LexError::UnterminatedExtendedName.message(),
        "unterminated extended name"
    );
}
