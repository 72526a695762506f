use django_template_core::lex::{
    Lexer, Token, VariableLexer, VariableLexerError, VariableToken, VariableTokenType,
};
use django_template_core::parse::{
    Argument, ArgumentType, Filter, FilterType, ParseError, Parser, Text, TokenTree, Variable,
};

fn span_of(token: &Token) -> (usize, usize) {
    match token {
        Token::Text { at, .. } => *at,
        Token::Variable { at, .. } => *at,
        Token::Tag { at, .. } => *at,
        Token::Comment { at, .. } => *at,
    }
}

fn reconstruct(template: &str) -> String {
    let tokens = Lexer::new(template).collect();
    let mut text = String::new();
    for token in &tokens {
        let (start, end) = span_of(token);
        text.push_str(&template[start..end]);
    }
    text
}

#[test]
fn spans_partition_the_template() {
    let templates = [
        "text\n{% if test %}{{ varvalue }}{% endif %}{#comment {{not a var}} {%not a block%} #}end text",
        "{% verbatim special %}Don't {% endverbatim %} just yet{% endverbatim special %}",
        "{{ unterminated } and {% also %",
        "héllo {{ wörld }} ünïcode",
        "",
    ];
    for template in templates {
        let tokens = Lexer::new(template).collect();
        let mut expected_start = 0;
        for token in &tokens {
            let (start, end) = span_of(token);
            assert_eq!(start, expected_start);
            assert!(start < end);
            expected_start = end;
        }
        assert_eq!(expected_start, template.len());
        assert_eq!(reconstruct(template), template);
    }
}

#[test]
fn relexing_the_reconstruction_gives_the_same_tokens() {
    let template = "a{# c #}b{{ x|lower }}{% verbatim %}{{y}}{% endverbatim %}";
    let rebuilt = reconstruct(template);
    assert_eq!(Lexer::new(&rebuilt).collect(), Lexer::new(template).collect());
}

#[test]
fn reparsing_the_reconstruction_gives_the_same_tree() {
    let template = "a{# c #}b{{ x|lower }}{{ y|default:'z' }}";
    let rebuilt = reconstruct(template);
    assert_eq!(Parser::new(&rebuilt).parse(), Parser::new(template).parse());
}

#[test]
fn verbatim_passthrough() {
    let template = "{% verbatim %}{{bare}}{% endverbatim %}";
    let tokens = Lexer::new(template).collect();
    assert_eq!(
        tokens,
        vec![
            Token::Tag { tag: " verbatim ", at: (0, 14) },
            Token::Text { text: "{{bare}}", at: (14, 22) },
            Token::Tag { tag: " endverbatim ", at: (22, 39) },
        ]
    );
}

#[test]
fn unterminated_verbatim_runs_to_the_end() {
    let template = "{% verbatim %}abc";
    let tokens = Lexer::new(template).collect();
    assert_eq!(
        tokens,
        vec![
            Token::Tag { tag: " verbatim ", at: (0, 14) },
            Token::Text { text: "abc", at: (14, 17) },
        ]
    );
}

#[test]
fn verbatim_closer_is_matched_from_its_fourth_character() {
    let template = "{% verbatim %}x{% abcverbatim %}";
    let tokens = Lexer::new(template).collect();
    assert_eq!(
        tokens,
        vec![
            Token::Tag { tag: " verbatim ", at: (0, 14) },
            Token::Text { text: "x", at: (14, 15) },
            Token::Tag { tag: " abcverbatim ", at: (15, 32) },
        ]
    );
}

#[test]
fn short_multibyte_tag_inside_verbatim_is_content() {
    let template = "{% verbatim %}{% ab€ %}{% endverbatim %}";
    let tokens = Lexer::new(template).collect();
    assert_eq!(
        tokens,
        vec![
            Token::Tag { tag: " verbatim ", at: (0, 14) },
            Token::Text { text: "{% ab€ %}", at: (14, 25) },
            Token::Tag { tag: " endverbatim ", at: (25, 42) },
        ]
    );
}

#[test]
fn closing_delimiter_is_searched_after_the_opener() {
    assert_eq!(Lexer::new("{%}").collect(), vec![Token::Text { text: "{%}", at: (0, 3) }]);
    assert_eq!(Lexer::new("{#}").collect(), vec![Token::Text { text: "{#}", at: (0, 3) }]);
    assert_eq!(
        Lexer::new("{%}x%}").collect(),
        vec![Token::Tag { tag: "}x", at: (0, 6) }]
    );
}

#[test]
fn offsets_are_bytes() {
    let template = "héllo {{ x }}";
    let tokens = Lexer::new(template).collect();
    assert_eq!(
        tokens,
        vec![
            Token::Text { text: "héllo ", at: (0, 7) },
            Token::Variable { variable: " x ", at: (7, 14) },
        ]
    );
}

#[test]
fn unicode_whitespace_is_trimmed() {
    let variable = "\u{a0}foo\u{a0}";
    let tokens = VariableLexer::new(variable).collect();
    assert_eq!(
        tokens,
        vec![Ok(VariableToken {
            token_type: VariableTokenType::Variable,
            content: "foo",
            at: (2, 5),
        })]
    );
}

#[test]
fn backslash_escapes_a_quote() {
    let variable = " foo|default:'a\\'b' ";
    let tokens = VariableLexer::new(variable).collect();
    assert_eq!(
        tokens,
        vec![
            Ok(VariableToken {
                token_type: VariableTokenType::Variable,
                content: "foo",
                at: (1, 4),
            }),
            Ok(VariableToken {
                token_type: VariableTokenType::Filter,
                content: "default",
                at: (5, 12),
            }),
            Ok(VariableToken {
                token_type: VariableTokenType::Text,
                content: "a\\'b",
                at: (13, 19),
            }),
        ]
    );
}

#[test]
fn leading_underscore_spans_up_to_whitespace() {
    let variable = " foo|default:_sp am ";
    let tokens = VariableLexer::new(variable).collect();
    assert_eq!(tokens[2], Err(VariableLexerError::LeadingUnderscore { at: (13, 16) }));
    assert_eq!(tokens.len(), 3);
}

#[test]
fn lexer_errors_are_placed_in_the_template() {
    let mut parser = Parser::new("{{ foo|bar:_x }}");
    assert_eq!(
        parser.parse(),
        Err(ParseError::LexerError(VariableLexerError::LeadingUnderscore { at: (11, 13) }))
    );
    let mut parser = Parser::new("{{ foo|bar:'x }}");
    assert_eq!(
        parser.parse(),
        Err(ParseError::LexerError(VariableLexerError::IncompleteString { at: (11, 13) }))
    );
}

#[test]
fn text_comments_and_variables() {
    let template = "a{# c #}b{{ x }}";
    let mut parser = Parser::new(template);
    assert_eq!(
        parser.parse().unwrap(),
        vec![
            TokenTree::Text(Text::new((0, 1))),
            TokenTree::Text(Text::new((8, 9))),
            TokenTree::Variable(Variable::new((12, 13))),
        ]
    );
}

#[test]
fn float_literals() {
    for (template, len) in [("{{ foo|bar:5. }}", 2), ("{{ foo|bar:1e5 }}", 3), ("{{ foo|bar:.5 }}", 0)] {
        let mut parser = Parser::new(template);
        let result = parser.parse();
        if len == 0 {
            // A leading `.` is not a numeric literal: it is read as a variable.
            let nodes = result.unwrap();
            assert!(matches!(
                &nodes[0],
                TokenTree::Filter(f) if matches!(
                    f.filter,
                    FilterType::External(Some(Argument { argument_type: ArgumentType::Variable(_), .. }))
                )
            ));
            continue;
        }
        let nodes = result.unwrap();
        let literal = Text::new((11, 11 + len));
        let expected = TokenTree::Filter(Box::new(Filter {
            at: (7, 10),
            left: TokenTree::Variable(Variable::new((3, 6))),
            filter: FilterType::External(Some(Argument {
                at: (11, 11 + len),
                argument_type: ArgumentType::Float(literal),
            })),
        }));
        assert_eq!(nodes, vec![expected]);
        assert!(literal.content(template).parse::<f64>().is_ok());
    }
}

#[test]
fn exponent_without_digits_is_invalid() {
    let mut parser = Parser::new("{{ foo|bar:1e }}");
    assert_eq!(parser.parse(), Err(ParseError::InvalidNumber { at: (11, 13) }));
}

#[test]
fn integer_argument_holds_its_value() {
    let mut parser = Parser::new("{{ foo|bar:123 }}");
    let nodes = parser.parse().unwrap();
    match &nodes[0] {
        TokenTree::Filter(f) => match &f.filter {
            FilterType::External(Some(Argument { argument_type: ArgumentType::Int(n), .. })) => {
                assert_eq!(n.to_string(), "123");
            },
            other => panic!("unexpected filter {:?}", other),
        },
        other => panic!("unexpected node {:?}", other),
    }
}

#[test]
fn lower_without_argument() {
    let mut parser = Parser::new("{{ foo|lower }}");
    assert_eq!(
        parser.parse().unwrap(),
        vec![TokenTree::Filter(Box::new(Filter {
            at: (7, 12),
            left: TokenTree::Variable(Variable::new((3, 6))),
            filter: FilterType::Lower,
        }))]
    );
}

#[test]
fn filter_new_checks_the_name() {
    let template = "lower default other";
    let left = || TokenTree::Variable(Variable::new((0, 0)));
    let arg = || Argument { at: (0, 1), argument_type: ArgumentType::Variable(Variable::new((0, 1))) };
    assert_eq!(
        Filter::new(template, (0, 5), left(), None),
        Ok(Filter { at: (0, 5), left: left(), filter: FilterType::Lower })
    );
    assert_eq!(
        Filter::new(template, (0, 5), left(), Some(arg())),
        Err(ParseError::UnexpectedArgument { at: (0, 1) })
    );
    assert_eq!(
        Filter::new(template, (6, 13), left(), None),
        Err(ParseError::MissingArgument { at: (6, 13) })
    );
    assert_eq!(
        Filter::new(template, (14, 19), left(), Some(arg())),
        Ok(Filter { at: (14, 19), left: left(), filter: FilterType::External(Some(arg())) })
    );
}

#[test]
fn error_messages() {
    assert_eq!(ParseError::EmptyVariable { at: (0, 5) }.message(), "Empty variable tag");
    assert_eq!(
        ParseError::LexerError(VariableLexerError::InvalidRemainder { at: (0, 1) }).message(),
        "Could not parse the remainder"
    );
}

#[test]
fn spans_are_half_open() {
    let template = "{{ foo.bar.baz }}";
    let variable = Variable::new((3, 14));
    assert_eq!(variable.content(template), "foo.bar.baz");
    assert_eq!(variable.parts(template), vec!["foo", "bar", "baz"]);
    assert_eq!(
        Filter::new("xdefaultx", (1, 8), TokenTree::Variable(Variable::new((0, 0))), None),
        Err(ParseError::MissingArgument { at: (1, 8) })
    );
}

#[test]
fn first_error_wins() {
    let mut parser = Parser::new("{{ a|lower:x }}{{ }}");
    assert_eq!(parser.parse(), Err(ParseError::UnexpectedArgument { at: (11, 12) }));
    let mut parser = Parser::new("ab{{ }}");
    assert_eq!(parser.parse(), Err(ParseError::EmptyVariable { at: (2, 7) }));
}
