use django_template_core::lex::{Lexer, Token};

#[test]
fn test_lex_empty() {
    let template = "";
    let lexer = Lexer::new(template);
    let tokens: Vec<_> = lexer.collect();
    assert_eq!(tokens, vec![]);
}

#[test]
fn test_lex_text() {
    let template = "Just some text";
    let lexer = Lexer::new(template);
    let tokens: Vec<_> = lexer.collect();
    assert_eq!(
        tokens,
        vec![Token::Text {
            text: template,
            at: (0, 14),
        }]
    );
}

#[test]
fn test_lex_text_whitespace() {
    let template = "    ";
    let lexer = Lexer::new(template);
    let tokens: Vec<_> = lexer.collect();
    assert_eq!(
        tokens,
        vec![Token::Text {
            text: template,
            at: (0, 4),
        }]
    );
}

#[test]
fn test_lex_comment() {
    let template = "{# comment #}";
    let lexer = Lexer::new(template);
    let tokens: Vec<_> = lexer.collect();
    assert_eq!(
        tokens,
        vec![Token::Comment {
            comment: " comment ",
            at: (0, 13),
        }]
    );
}

#[test]
fn test_lex_variable() {
    let template = "{{ foo.bar|title }}";
    let lexer = Lexer::new(template);
    let tokens: Vec<_> = lexer.collect();
    assert_eq!(
        tokens,
        vec![Token::Variable {
            variable: " foo.bar|title ",
            at: (0, 19),
        }]
    );
}

#[test]
fn test_lex_tag() {
    let template = "{% for foo in bar %}";
    let lexer = Lexer::new(template);
    let tokens: Vec<_> = lexer.collect();
    assert_eq!(
        tokens,
        vec![Token::Tag {
            tag: " for foo in bar ",
            at: (0, 20),
        }]
    );
}

#[test]
fn test_lex_incomplete_comment() {
    let template = "{# comment #";
    let lexer = Lexer::new(template);
    let tokens: Vec<_> = lexer.collect();
    assert_eq!(
        tokens,
        vec![Token::Text {
            text: template,
            at: (0, 12),
        }]
    );
}

#[test]
fn test_lex_incomplete_variable() {
    let template = "{{ foo.bar|title }";
    let lexer = Lexer::new(template);
    let tokens: Vec<_> = lexer.collect();
    assert_eq!(
        tokens,
        vec![Token::Text {
            text: template,
            at: (0, 18),
        }]
    );
}

#[test]
fn test_lex_incomplete_tag() {
    let template = "{% for foo in bar %";
    let lexer = Lexer::new(template);
    let tokens: Vec<_> = lexer.collect();
    assert_eq!(
        tokens,
        vec![Token::Text {
            text: template,
            at: (0, 19),
        }]
    );
}

#[test]
fn test_django_example() {
    let template = "text\n{% if test %}{{ varvalue }}{% endif %}{#comment {{not a var}} {%not a block%} #}end text";
    let lexer = Lexer::new(template);
    let tokens: Vec<_> = lexer.collect();
    assert_eq!(
        tokens,
        vec![
            Token::Text {
                text: "text\n",
                at: (0, 5),
            },
            Token::Tag {
                tag: " if test ",
                at: (5, 18),
            },
            Token::Variable {
                variable: " varvalue ",
                at: (18, 32),
            },
            Token::Tag {
                tag: " endif ",
                at: (32, 43),
            },
            Token::Comment {
                comment: "comment {{not a var}} {%not a block%} ",
                at: (43, 85),
            },
            Token::Text {
                text: "end text",
                at: (85, 93),
            },
        ]
    );
}

#[test]
fn test_verbatim_with_variable() {
    let template = "{% verbatim %}{{bare   }}{% endverbatim %}";
    let lexer = Lexer::new(template);
    let tokens: Vec<_> = lexer.collect();
    assert_eq!(
        tokens,
        vec![
            Token::Tag {
                tag: " verbatim ",
                at: (0, 14),
            },
            Token::Text {
                text: "{{bare   }}",
                at: (14, 25),
            },
            Token::Tag {
                tag: " endverbatim ",
                at: (25, 42),
            },
        ]
    );
}

#[test]
fn test_verbatim_with_tag() {
    let template = "{% verbatim %}{% endif %}{% endverbatim %}";
    let lexer = Lexer::new(template);
    let tokens: Vec<_> = lexer.collect();
    assert_eq!(
        tokens,
        vec![
            Token::Tag {
                tag: " verbatim ",
                at: (0, 14),
            },
            Token::Text {
                text: "{% endif %}",
                at: (14, 25),
            },
            Token::Tag {
                tag: " endverbatim ",
                at: (25, 42),
            },
        ]
    );
}

#[test]
fn test_verbatim_with_verbatim_tag() {
    let template = "{% verbatim %}It's the {% verbatim %} tag{% endverbatim %}";
    let lexer = Lexer::new(template);
    let tokens: Vec<_> = lexer.collect();
    assert_eq!(
        tokens,
        vec![
            Token::Tag {
                tag: " verbatim ",
                at: (0, 14),
            },
            Token::Text {
                text: "It's the {% verbatim %} tag",
                at: (14, 41),
            },
            Token::Tag {
                tag: " endverbatim ",
                at: (41, 58),
            },
        ]
    );
}

#[test]
fn test_verbatim_nested() {
    let template = "{% verbatim %}{% verbatim %}{% endverbatim %}{% endverbatim %}";
    let lexer = Lexer::new(template);
    let tokens: Vec<_> = lexer.collect();
    assert_eq!(
        tokens,
        vec![
            Token::Tag {
                tag: " verbatim ",
                at: (0, 14),
            },
            Token::Text {
                text: "{% verbatim %}",
                at: (14, 28),
            },
            Token::Tag {
                tag: " endverbatim ",
                at: (28, 45),
            },
            Token::Tag {
                tag: " endverbatim ",
                at: (45, 62),
            },
        ]
    );
}

#[test]
fn test_verbatim_adjacent() {
    let template = "{% verbatim %}{% endverbatim %}{% verbatim %}{% endverbatim %}";
    let lexer = Lexer::new(template);
    let tokens: Vec<_> = lexer.collect();
    assert_eq!(
        tokens,
        vec![
            Token::Tag {
                tag: " verbatim ",
                at: (0, 14),
            },
            Token::Tag {
                tag: " endverbatim ",
                at: (14, 31),
            },
            Token::Tag {
                tag: " verbatim ",
                at: (31, 45),
            },
            Token::Tag {
                tag: " endverbatim ",
                at: (45, 62),
            },
        ]
    );
}

#[test]
fn test_verbatim_special() {
    let template =
        "{% verbatim special %}Don't {% endverbatim %} just yet{% endverbatim special %}";
    let lexer = Lexer::new(template);
    let tokens: Vec<_> = lexer.collect();
    assert_eq!(
        tokens,
        vec![
            Token::Tag {
                tag: " verbatim special ",
                at: (0, 22),
            },
            Token::Text {
                text: "Don't {% endverbatim %} just yet",
                at: (22, 54),
            },
            Token::Tag {
                tag: " endverbatim special ",
                at: (54, 79),
            },
        ]
    );
}
