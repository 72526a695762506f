use django_template_core::lex::{VariableLexer, VariableLexerError, VariableToken, VariableTokenType};

#[test]
fn lex_test_lex_empty() {
    let variable = "  ";
    let lexer = VariableLexer::new(variable);
    let tokens: Vec<_> = lexer.collect();
    assert_eq!(tokens, vec![]);
}

#[test]
fn lex_test_lex_variable() {
    let variable = " foo.bar ";
    let lexer = VariableLexer::new(variable);
    let tokens: Vec<_> = lexer.collect();
    assert_eq!(
        tokens,
        vec![Ok(VariableToken {
            token_type: VariableTokenType::Variable,
            content: "foo.bar",
            at: (1, 8),
        })]
    );
}

#[test]
fn test_lex_filter() {
    let variable = " foo.bar|title ";
    let lexer = VariableLexer::new(variable);
    let tokens: Vec<_> = lexer.collect();
    assert_eq!(
        tokens,
        vec![
            Ok(VariableToken {
                token_type: VariableTokenType::Variable,
                content: "foo.bar",
                at: (1, 8),
            }),
            Ok(VariableToken {
                token_type: VariableTokenType::Filter,
                content: "title",
                at: (9, 14),
            }),
        ]
    );
}

#[test]
fn test_lex_text_argument_single_quote() {
    let variable = " foo.bar|default:'foo' ";
    let lexer = VariableLexer::new(variable);
    let tokens: Vec<_> = lexer.collect();
    assert_eq!(
        tokens,
        vec![
            Ok(VariableToken {
                token_type: VariableTokenType::Variable,
                content: "foo.bar",
                at: (1, 8),
            }),
            Ok(VariableToken {
                token_type: VariableTokenType::Filter,
                content: "default",
                at: (9, 16),
            }),
            Ok(VariableToken {
                token_type: VariableTokenType::Text,
                content: "foo",
                at: (17, 22),
            }),
        ]
    );
}

#[test]
fn test_lex_text_argument_double_quote() {
    let variable = " foo.bar|default:\"foo\" ";
    let lexer = VariableLexer::new(variable);
    let tokens: Vec<_> = lexer.collect();
    assert_eq!(
        tokens,
        vec![
            Ok(VariableToken {
                token_type: VariableTokenType::Variable,
                content: "foo.bar",
                at: (1, 8),
            }),
            Ok(VariableToken {
                token_type: VariableTokenType::Filter,
                content: "default",
                at: (9, 16),
            }),
            Ok(VariableToken {
                token_type: VariableTokenType::Text,
                content: "foo",
                at: (17, 22),
            }),
        ]
    );
}

#[test]
fn test_lex_translated_text_argument() {
    let variable = " foo.bar|default:_('foo') ";
    let lexer = VariableLexer::new(variable);
    let tokens: Vec<_> = lexer.collect();
    assert_eq!(
        tokens,
        vec![
            Ok(VariableToken {
                token_type: VariableTokenType::Variable,
                content: "foo.bar",
                at: (1, 8),
            }),
            Ok(VariableToken {
                token_type: VariableTokenType::Filter,
                content: "default",
                at: (9, 16),
            }),
            Ok(VariableToken {
                token_type: VariableTokenType::TranslatedText,
                content: "foo",
                at: (17, 25),
            }),
        ]
    );
}

#[test]
fn test_lex_numeric_argument() {
    let variable = " foo.bar|default:500 ";
    let lexer = VariableLexer::new(variable);
    let tokens: Vec<_> = lexer.collect();
    assert_eq!(
        tokens,
        vec![
            Ok(VariableToken {
                token_type: VariableTokenType::Variable,
                content: "foo.bar",
                at: (1, 8),
            }),
            Ok(VariableToken {
                token_type: VariableTokenType::Filter,
                content: "default",
                at: (9, 16),
            }),
            Ok(VariableToken {
                token_type: VariableTokenType::Numeric,
                content: "500",
                at: (17, 20),
            }),
        ]
    );
}

#[test]
fn test_lex_variable_argument() {
    let variable = " foo.bar|default:spam ";
    let lexer = VariableLexer::new(variable);
    let tokens: Vec<_> = lexer.collect();
    assert_eq!(
        tokens,
        vec![
            Ok(VariableToken {
                token_type: VariableTokenType::Variable,
                content: "foo.bar",
                at: (1, 8),
            }),
            Ok(VariableToken {
                token_type: VariableTokenType::Filter,
                content: "default",
                at: (9, 16),
            }),
            Ok(VariableToken {
                token_type: VariableTokenType::Variable,
                content: "spam",
                at: (17, 21),
            }),
        ]
    );
}

#[test]
fn test_lex_variable_argument_then_filter() {
    let variable = " foo.bar|default:spam|title ";
    let lexer = VariableLexer::new(variable);
    let tokens: Vec<_> = lexer.collect();
    assert_eq!(
        tokens,
        vec![
            Ok(VariableToken {
                token_type: VariableTokenType::Variable,
                content: "foo.bar",
                at: (1, 8),
            }),
            Ok(VariableToken {
                token_type: VariableTokenType::Filter,
                content: "default",
                at: (9, 16),
            }),
            Ok(VariableToken {
                token_type: VariableTokenType::Variable,
                content: "spam",
                at: (17, 21),
            }),
            Ok(VariableToken {
                token_type: VariableTokenType::Filter,
                content: "title",
                at: (22, 27),
            }),
        ]
    );
}

#[test]
fn test_lex_string_argument_then_filter() {
    let variable = " foo.bar|default:\"spam\"|title ";
    let lexer = VariableLexer::new(variable);
    let tokens: Vec<_> = lexer.collect();
    assert_eq!(
        tokens,
        vec![
            Ok(VariableToken {
                token_type: VariableTokenType::Variable,
                content: "foo.bar",
                at: (1, 8),
            }),
            Ok(VariableToken {
                token_type: VariableTokenType::Filter,
                content: "default",
                at: (9, 16),
            }),
            Ok(VariableToken {
                token_type: VariableTokenType::Text,
                content: "spam",
                at: (17, 23),
            }),
            Ok(VariableToken {
                token_type: VariableTokenType::Filter,
                content: "title",
                at: (24, 29),
            }),
        ]
    );
}

#[test]
fn test_lex_argument_with_leading_underscore() {
    let variable = " foo.bar|default:_spam ";
    let lexer = VariableLexer::new(variable);
    let tokens: Vec<_> = lexer.collect();
    assert_eq!(
        tokens,
        vec![
            Ok(VariableToken {
                token_type: VariableTokenType::Variable,
                content: "foo.bar",
                at: (1, 8),
            }),
            Ok(VariableToken {
                token_type: VariableTokenType::Filter,
                content: "default",
                at: (9, 16),
            }),
            Err(VariableLexerError::LeadingUnderscore { at: (17, 22) }),
        ]
    );
}

#[test]
fn test_lex_argument_with_only_underscore() {
    let variable = " foo.bar|default:_ ";
    let lexer = VariableLexer::new(variable);
    let tokens: Vec<_> = lexer.collect();
    assert_eq!(
        tokens,
        vec![
            Ok(VariableToken {
                token_type: VariableTokenType::Variable,
                content: "foo.bar",
                at: (1, 8),
            }),
            Ok(VariableToken {
                token_type: VariableTokenType::Filter,
                content: "default",
                at: (9, 16),
            }),
            Err(VariableLexerError::LeadingUnderscore { at: (17, 18) }),
        ]
    );
}

#[test]
fn test_lex_text_argument_incomplete() {
    let variable = " foo.bar|default:'foo ";
    let lexer = VariableLexer::new(variable);
    let tokens: Vec<_> = lexer.collect();
    assert_eq!(
        tokens,
        vec![
            Ok(VariableToken {
                token_type: VariableTokenType::Variable,
                content: "foo.bar",
                at: (1, 8),
            }),
            Ok(VariableToken {
                token_type: VariableTokenType::Filter,
                content: "default",
                at: (9, 16),
            }),
            Err(VariableLexerError::IncompleteString { at: (17, 21) }),
        ]
    );
}

#[test]
fn test_lex_translated_text_argument_incomplete() {
    let variable = " foo.bar|default:_('foo' ";
    let lexer = VariableLexer::new(variable);
    let tokens: Vec<_> = lexer.collect();
    assert_eq!(
        tokens,
        vec![
            Ok(VariableToken {
                token_type: VariableTokenType::Variable,
                content: "foo.bar",
                at: (1, 8),
            }),
            Ok(VariableToken {
                token_type: VariableTokenType::Filter,
                content: "default",
                at: (9, 16),
            }),
            Err(VariableLexerError::IncompleteTranslatedString { at: (17, 24) }),
        ]
    );
}

#[test]
fn test_lex_translated_text_argument_incomplete_string() {
    let variable = " foo.bar|default:_('foo ";
    let lexer = VariableLexer::new(variable);
    let tokens: Vec<_> = lexer.collect();
    assert_eq!(
        tokens,
        vec![
            Ok(VariableToken {
                token_type: VariableTokenType::Variable,
                content: "foo.bar",
                at: (1, 8),
            }),
            Ok(VariableToken {
                token_type: VariableTokenType::Filter,
                content: "default",
                at: (9, 16),
            }),
            Err(VariableLexerError::IncompleteString { at: (19, 23) }),
        ]
    );
}

#[test]
fn test_lex_translated_text_argument_missing_string() {
    let variable = " foo.bar|default:_( ";
    let lexer = VariableLexer::new(variable);
    let tokens: Vec<_> = lexer.collect();
    assert_eq!(
        tokens,
        vec![
            Ok(VariableToken {
                token_type: VariableTokenType::Variable,
                content: "foo.bar",
                at: (1, 8),
            }),
            Ok(VariableToken {
                token_type: VariableTokenType::Filter,
                content: "default",
                at: (9, 16),
            }),
            Err(VariableLexerError::MissingTranslatedString { at: (17, 19) }),
        ]
    );
}

#[test]
fn test_lex_translated_text_argument_missing_string_trailing_chars() {
    let variable = " foo.bar|default:_(foo) ";
    let lexer = VariableLexer::new(variable);
    let tokens: Vec<_> = lexer.collect();
    assert_eq!(
        tokens,
        vec![
            Ok(VariableToken {
                token_type: VariableTokenType::Variable,
                content: "foo.bar",
                at: (1, 8),
            }),
            Ok(VariableToken {
                token_type: VariableTokenType::Filter,
                content: "default",
                at: (9, 16),
            }),
            Err(VariableLexerError::MissingTranslatedString { at: (17, 23) }),
        ]
    );
}

#[test]
fn test_lex_string_argument_remainder() {
    let variable = " foo.bar|default:\"spam\"title ";
    let lexer = VariableLexer::new(variable);
    let tokens: Vec<_> = lexer.collect();
    assert_eq!(
        tokens,
        vec![
            Ok(VariableToken {
                token_type: VariableTokenType::Variable,
                content: "foo.bar",
                at: (1, 8),
            }),
            Ok(VariableToken {
                token_type: VariableTokenType::Filter,
                content: "default",
                at: (9, 16),
            }),
            Err(VariableLexerError::InvalidRemainder { at: (23, 28) }),
        ]
    );
}

#[test]
fn test_lex_string_argument_remainder_before_filter() {
    let variable = " foo.bar|default:\"spam\"title|title ";
    let lexer = VariableLexer::new(variable);
    let tokens: Vec<_> = lexer.collect();
    assert_eq!(
        tokens,
        vec![
            Ok(VariableToken {
                token_type: VariableTokenType::Variable,
                content: "foo.bar",
                at: (1, 8),
            }),
            Ok(VariableToken {
                token_type: VariableTokenType::Filter,
                content: "default",
                at: (9, 16),
            }),
            Err(VariableLexerError::InvalidRemainder { at: (23, 28) }),
        ]
    );
}
