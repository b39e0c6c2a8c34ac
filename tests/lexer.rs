use rsc::lexer::TokenValue;
use rsc::{Keyword, Lexer, LexerError, Operator};

#[test]
fn lexer_reads_comparisons_and_keywords() {
    let mut lexer: Lexer<i64> = Lexer::new("x >= 2 and !true != y_z");
    assert_eq!(lexer.scan(), Ok(()));
    let values: Vec<TokenValue<i64>> = lexer.tokens().iter().map(|t| t.value().clone()).collect();
    assert_eq!(
        values,
        vec![
            TokenValue::Identifier("x".to_string()),
            TokenValue::Operator(Operator::GreaterEqual),
            TokenValue::Number(Box::new(2)),
            TokenValue::Keyword(Keyword::And),
            TokenValue::Operator(Operator::Exclamation),
            TokenValue::Keyword(Keyword::True),
            TokenValue::Operator(Operator::NotEqual),
            TokenValue::Identifier("y_z".to_string()),
        ]
    );
    let lexemes: Vec<&str> = lexer.tokens().iter().map(|t| t.lexeme()).collect();
    assert_eq!(lexemes, vec!["x", ">=", "2", "and", "!", "true", "!=", "y_z"]);
    let positions: Vec<usize> = lexer.tokens().iter().map(|t| t.pos()).collect();
    assert_eq!(positions, vec![0, 2, 5, 7, 11, 12, 17, 20]);
}

#[test]
fn lexer_single_and_paired_operators() {
    let mut lexer: Lexer<i64> = Lexer::new("<<=>(|)=%^");
    assert_eq!(lexer.scan(), Ok(()));
    let values: Vec<TokenValue<i64>> = lexer.tokens().iter().map(|t| t.value().clone()).collect();
    assert_eq!(
        values,
        vec![
            TokenValue::Operator(Operator::Lesser),
            TokenValue::Operator(Operator::LesserEqual),
            TokenValue::Operator(Operator::Greater),
            TokenValue::Operator(Operator::LParen),
            TokenValue::Operator(Operator::Pipe),
            TokenValue::Operator(Operator::RParen),
            TokenValue::Operator(Operator::Equal),
            TokenValue::Operator(Operator::Percent),
            TokenValue::Operator(Operator::Caret),
        ]
    );
}

#[test]
fn lexer_keeps_tokens_before_an_error() {
    let mut lexer: Lexer<i64> = Lexer::new("1 + 2.34.2");
    assert_eq!(lexer.scan(), Err(LexerError::InvalidNumber("2.34.2".to_string())));
    assert_eq!(lexer.tokens().len(), 2);
    let mut lexer: Lexer<i64> = Lexer::new("a $");
    assert_eq!(lexer.scan(), Err(LexerError::InvalidCharacter('$')));
    assert_eq!(lexer.tokens().len(), 1);
}

#[test]
fn identifiers_do_not_start_with_underscore_in_the_lexer() {
    let mut lexer: Lexer<i64> = Lexer::new("_a");
    assert_eq!(lexer.scan(), Err(LexerError::InvalidCharacter('_')));
}
