use tagstore::lexer::{tokenize, OperatorKind, ParseError, Token, Tokenizer};

fn tag(value: &str, start: usize, end: usize) -> Token {
    Token::Tag { value: value.to_string(), start, end }
}

fn op(kind: OperatorKind, position: usize) -> Token {
    Token::Operator { kind, position }
}

type Case = (&'static str, Result<Vec<Token>, ParseError>);

fn empty() -> Case {
    ("", Ok(vec![]))
}

fn simple_tags() -> Case {
    ("Ph'nglui fhtagn", Ok(vec![tag("Ph'nglui", 0, 8), tag("fhtagn", 9, 15)]))
}

fn quote_inside_tag_err() -> Case {
    ("kek\"no... \"", Err(ParseError::UnpairedQuote { position: 10 }))
}

fn quote_inside_tag_ok() -> Case {
    ("o\"oops \"\"", Ok(vec![tag("o\"oops", 0, 6), tag("", 7, 9)]))
}

fn many_quotes_ok() -> Case {
    ("\"\"\"\"\"\"", Ok(vec![tag("", 0, 2), tag("", 2, 4), tag("", 4, 6)]))
}

fn many_quotes_err() -> Case {
    ("\"\"\"\"\"\"\"", Err(ParseError::UnpairedQuote { position: 6 }))
}

fn cyrillic() -> Case {
    (
        "Опа, кириллица. or else?...",
        Ok(vec![
            tag("Опа,", 0, 7),
            tag("кириллица.", 8, 27),
            op(OperatorKind::Or, 28),
            tag("else?...", 31, 39),
        ]),
    )
}

fn invisible_operators() -> Case {
    (
        "or;and;not)or_gibberish   (         ",
        Ok(vec![
            op(OperatorKind::Or, 0),
            tag(";and;not", 2, 10),
            op(OperatorKind::CloseParen, 10),
            op(OperatorKind::Or, 11),
            tag("_gibberish", 13, 23),
            op(OperatorKind::OpenParen, 26),
        ]),
    )
}

fn operators_in_quotes() -> Case {
    (
        "and~ wow   oR NOT such~ \"a disappointment, not\" ornot?",
        Ok(vec![
            op(OperatorKind::And, 0),
            op(OperatorKind::Fuzzy, 3),
            tag("wow", 5, 8),
            op(OperatorKind::Or, 11),
            op(OperatorKind::Not, 14),
            tag("such", 18, 22),
            op(OperatorKind::Fuzzy, 22),
            tag("a disappointment, not", 24, 47),
            tag("ornot?", 48, 54),
        ]),
    )
}

fn cases() -> Vec<Case> {
    vec![
        empty(),
        simple_tags(),
        quote_inside_tag_err(),
        quote_inside_tag_ok(),
        many_quotes_ok(),
        many_quotes_err(),
        cyrillic(),
        invisible_operators(),
        operators_in_quotes(),
    ]
}

#[test]
fn lexer_spec() {
    for (query, expected) in cases() {
        assert_eq!(tokenize(query), expected);
    }
}

#[test]
fn tests_spec() {
    for (query, expected) in cases() {
        assert_eq!(tokenize(query), expected);
    }
}

#[test]
fn tokenizer_steps_one_token_at_a_time() {
    let mut t = Tokenizer::from("  (a\u{3000}\"b\"");
    assert_eq!(t.next(), Some(Ok(op(OperatorKind::OpenParen, 2))));
    assert_eq!(t.next(), Some(Ok(tag("a", 3, 4))));
    // U+3000 is whitespace and takes three bytes
    assert_eq!(t.next(), Some(Ok(tag("b", 7, 10))));
    assert_eq!(t.next(), None);
}

#[test]
fn tokenizer_goes_on_after_unpaired_quote() {
    let mut t = Tokenizer::from("\"x");
    assert_eq!(t.next(), Some(Err(ParseError::UnpairedQuote { position: 0 })));
    assert_eq!(t.next(), Some(Ok(tag("x", 1, 2))));
    assert_eq!(t.next(), None);
}

#[test]
fn operator_words_ignore_case_only() {
    assert_eq!(tokenize("AnD nOt ands"), Ok(vec![
        op(OperatorKind::And, 0),
        op(OperatorKind::Not, 4),
        tag("ands", 8, 12),
    ]));
}

#[test]
fn ascii_control_whitespace_separates_tags() {
    assert_eq!(
        tokenize("a\tb\x0bc\x0c\rd"),
        Ok(vec![tag("a", 0, 1), tag("b", 2, 3), tag("c", 4, 5), tag("d", 7, 8)])
    );
}
