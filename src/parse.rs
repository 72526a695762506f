//! The parser: turns the structural tokens of a template into a list of
//! nodes, building a left-associative filter chain for each variable.
//!
//! Spans in the tree and in `ParseError` are half-open `(start, end)` byte
//! ranges of the template.

use vstd::prelude::*;
use vstd::string::*;
use num_bigint::BigInt;
use crate::lex::{lex_step, lex_tokens, lemma_step_advances, Lexeme, Lexer, Token, TokenKind};
use crate::number::{bigint_of, decimal_float, int_syntax, is_decimal_float, parse_integer};
use crate::text::{chars_of, cut_ok, lemma_cut_after_ascii, lemma_str_chars, slice, str_eq};
use crate::variable_lex::{
    content_bounds, find_byte, lemma_find_byte, step_matches, var_tokens, within, VarLexeme, VariableLexer,
    VariableLexerError, VariableToken, VariableTokenType, DOT,
};

verus! {

/// A block tag. There is no tag grammar yet: the parser never produces this
/// node, and nothing outside this crate can build one.
#[derive(Clone, Copy, Debug, PartialEq, Eq)]
pub struct Tag {
    at: (usize, usize),
}

/// A dotted variable path, such as `foo.bar.baz`.
#[derive(Clone, Copy, Debug, PartialEq, Eq)]
pub struct Variable {
    /// The byte range `(start, end)` of the path.
    pub at: (usize, usize),
}

/// Literal text.
#[derive(Clone, Copy, Debug, PartialEq, Eq)]
pub struct Text {
    /// The byte range `(start, end)` of the text.
    pub at: (usize, usize),
}

/// Whether `at` is a `(start, end)` range of `template` whose ends fall on
/// character boundaries.
pub open spec fn span_ok(template: &str, at: (usize, usize)) -> bool {
    let b = template.spec_bytes();
    &&& at.0 <= at.1 <= b.len()
    &&& cut_ok(b, at.0 as int)
    &&& cut_ok(b, at.1 as int)
}

/// The bytes of a `(start, end)` range.
pub open spec fn span_bytes(b: Seq<u8>, at: (usize, usize)) -> Seq<u8> {
    b.subrange(at.0 as int, at.1 as int)
}

/// The spans of the `.`-separated parts of `b[a..c]`.
pub open spec fn dot_parts(b: Seq<u8>, a: int, c: int) -> Seq<(int, int)>
    decreases c - a,
    via dot_parts_decreases
{
    if a < 0 || a > c || c > b.len() {
        Seq::empty()
    } else {
        let d = find_byte(b, a, c, DOT);
        if d >= c {
            seq![(a, c)]
        } else {
            seq![(a, d)] + dot_parts(b, d + 1, c)
        }
    }
}

#[via_fn]
proof fn dot_parts_decreases(b: Seq<u8>, a: int, c: int) {
    if 0 <= a <= c <= b.len() {
        lemma_find_byte(b, a, c, DOT);
    }
}

impl Variable {
    pub fn new(at: (usize, usize)) -> (r: Self)
        ensures
            r.at == at,
    {
        Variable { at }
    }

    /// The path's text.
    pub fn content<'t>(&self, template: &'t str) -> (r: &'t str)
        requires
            span_ok(template, self.at),
        ensures
            r.spec_bytes() == span_bytes(template.spec_bytes(), self.at),
    {
        slice(template, self.at.0, self.at.1)
    }

    /// The path's segments, split at each `.`.
    pub fn parts<'t>(&self, template: &'t str) -> (r: Vec<&'t str>)
        requires
            span_ok(template, self.at),
        ensures
            ({
                let b = template.spec_bytes();
                let p = dot_parts(b, self.at.0 as int, self.at.1 as int);
                &&& r@.len() == p.len()
                &&& forall|i: int|
                    0 <= i < r@.len() ==> (#[trigger] r@[i]).spec_bytes() == b.subrange(
                        p[i].0,
                        p[i].1,
                    )
            }),
    {
        let ghost b = template.spec_bytes();
        let bytes = template.as_bytes();
        let end = self.at.1;
        let ghost all = dot_parts(b, self.at.0 as int, end as int);
        proof {
            lemma_str_chars(template);
        }
        let mut parts: Vec<&'t str> = Vec::new();
        let mut start = self.at.0;
        loop
            invariant
                bytes@ == b,
                b == template.spec_bytes(),
                all == dot_parts(b, self.at.0 as int, end as int),
                end == self.at.1,
                end <= b.len(),
                start <= end,
                cut_ok(b, start as int),
                cut_ok(b, end as int),
                vstd::utf8::valid_utf8(b),
                parts@.len() + dot_parts(b, start as int, end as int).len() == all.len(),
                forall|i: int|
                    0 <= i < dot_parts(b, start as int, end as int).len() ==> #[trigger] dot_parts(
                        b,
                        start as int,
                        end as int,
                    )[i] == all[parts@.len() + i],
                forall|i: int|
                    0 <= i < parts@.len() ==> (#[trigger] parts@[i]).spec_bytes() == b.subrange(
                        all[i].0,
                        all[i].1,
                    ),
            decreases end - start,
        {
            let ghost rest = dot_parts(b, start as int, end as int);
            proof {
                lemma_find_byte(b, start as int, end as int, DOT);
            }
            let d = crate::variable_lex::find_byte_in(bytes, start, end, DOT);
            if d >= end {
                let piece = slice(template, start, end);
                proof {
                    assert(rest == seq![(start as int, end as int)]);
                    assert(rest[0] == all[parts@.len() as int]);
                }
                parts.push(piece);
                return parts;
            }
            proof {
                lemma_cut_after_ascii(b, d as int);
            }
            let piece = slice(template, start, d);
            proof {
                let next = dot_parts(b, d + 1, end as int);
                assert(rest == seq![(start as int, d as int)] + next);
                assert(rest[0] == all[parts@.len() as int]);
                assert forall|i: int| 0 <= i < next.len() implies #[trigger] next[i] == all[
                    parts@.len() + 1 + i
                ] by {
                    assert(next[i] == rest[i + 1]);
                }
            }
            parts.push(piece);
            start = d + 1;
        }
    }
}

impl Text {
    pub fn new(at: (usize, usize)) -> (r: Self)
        ensures
            r.at == at,
    {
        Text { at }
    }

    /// The text itself.
    pub fn content<'t>(&self, template: &'t str) -> (r: &'t str)
        requires
            span_ok(template, self.at),
        ensures
            r.spec_bytes() == span_bytes(template.spec_bytes(), self.at),
    {
        slice(template, self.at.0, self.at.1)
    }
}

/// What a filter does with its argument.
#[derive(Debug, PartialEq)]
pub enum FilterType {
    /// `default`: its argument is required.
    Default(Argument),
    /// A filter this parser does not know; its argument is not checked.
    External(Option<Argument>),
    /// `lower`: it takes no argument.
    Lower,
}

/// A filter applied to the tree on its left.
#[derive(Debug, PartialEq)]
pub struct Filter {
    /// The byte range `(start, end)` of the filter's name.
    pub at: (usize, usize),
    pub left: TokenTree,
    pub filter: FilterType,
}

/// A node of the syntax tree.
#[derive(Debug, PartialEq)]
pub enum TokenTree {
    Text(Text),
    TranslatedText(Text),
    Tag(Tag),
    Variable(Variable),
    Filter(Box<Filter>),
}

/// The first problem found in a template. Every span is a half-open
/// `(start, end)` byte range of the template.
#[derive(Clone, Copy, Debug, PartialEq, Eq)]
pub enum ParseError {
    /// `{{ }}` holds nothing but whitespace.
    EmptyVariable { at: (usize, usize) },
    /// `default` has no argument.
    MissingArgument { at: (usize, usize) },
    /// The expression could not be lexed.
    LexerError(VariableLexerError),
    /// A numeric argument is neither an integer nor a float.
    InvalidNumber { at: (usize, usize) },
    /// `lower` has an argument.
    UnexpectedArgument { at: (usize, usize) },
}

impl ParseError {
    /// The text that describes this error.
    pub open spec fn message_spec(&self) -> Seq<char> {
        match self {
            ParseError::EmptyVariable { .. } => "Empty variable tag"@,
            ParseError::MissingArgument { .. } => "Expected an argument"@,
            ParseError::LexerError(e) => e.message_spec(),
            ParseError::InvalidNumber { .. } => "Invalid numeric literal"@,
            ParseError::UnexpectedArgument { .. } => "Expected an argument"@,
        }
    }

    /// The message that describes this error.
    pub fn message(&self) -> (r: &'static str)
        ensures
            r@ == self.message_spec(),
    {
        match self {
            ParseError::EmptyVariable { .. } => "Empty variable tag",
            ParseError::MissingArgument { .. } => "Expected an argument",
            ParseError::LexerError(e) => e.message(),
            ParseError::InvalidNumber { .. } => "Invalid numeric literal",
            ParseError::UnexpectedArgument { .. } => "Expected an argument",
        }
    }
}

/// The value of a filter argument.
#[derive(Debug, PartialEq)]
pub enum ArgumentType {
    Variable(Variable),
    Text(Text),
    TranslatedText(Text),
    Int(BigInt),
    /// A decimal floating-point literal, as the span of its text.
    Float(Text),
}

/// A filter argument.
#[derive(Debug, PartialEq)]
pub struct Argument {
    /// The byte range `(start, end)` of the whole argument, quotes included.
    pub at: (usize, usize),
    pub argument_type: ArgumentType,
}

/// The span of bytes `a..c`.
pub open spec fn span(a: int, c: int) -> (usize, usize) {
    (a as usize, c as usize)
}

/// A lexer error of the content that starts at `base`, as a span of the
/// template.
pub open spec fn relocate(e: VariableLexerError, base: int) -> VariableLexerError {
    let at = span(base + e.span().0, base + e.span().1);
    match e {
        VariableLexerError::LeadingUnderscore { .. } => VariableLexerError::LeadingUnderscore { at },
        VariableLexerError::IncompleteString { .. } => VariableLexerError::IncompleteString { at },
        VariableLexerError::IncompleteTranslatedString { .. } => {
            VariableLexerError::IncompleteTranslatedString { at }
        },
        VariableLexerError::MissingTranslatedString { .. } => {
            VariableLexerError::MissingTranslatedString { at }
        },
        VariableLexerError::InvalidRemainder { .. } => VariableLexerError::InvalidRemainder { at },
    }
}

/// The filter named `name` at `at`, applied to `left` with argument `arg`.
pub open spec fn filter_spec(
    name: Seq<char>,
    at: (usize, usize),
    left: TokenTree,
    arg: Option<Argument>,
) -> Result<Filter, ParseError> {
    if name == "default"@ {
        match arg {
            Some(a) => Ok(Filter { at, left, filter: FilterType::Default(a) }),
            None => Err(ParseError::MissingArgument { at }),
        }
    } else if name == "lower"@ {
        match arg {
            Some(a) => Err(ParseError::UnexpectedArgument { at: a.at }),
            None => Ok(Filter { at, left, filter: FilterType::Lower }),
        }
    } else {
        Ok(Filter { at, left, filter: FilterType::External(arg) })
    }
}

/// The argument that token `l` of the content `v` (which starts at `base` in
/// the template) denotes.
pub open spec fn argument_spec(v: Seq<u8>, base: int, l: VarLexeme) -> Result<Argument, ParseError> {
    let at = span(base + l.1, base + l.2);
    match l.0 {
        VariableTokenType::Variable => Ok(
            Argument { at, argument_type: ArgumentType::Variable(Variable { at }) },
        ),
        VariableTokenType::Text => Ok(
            Argument {
                at,
                argument_type: ArgumentType::Text(Text { at: span(base + l.1 + 1, base + l.2 - 1) }),
            },
        ),
        VariableTokenType::TranslatedText => Ok(
            Argument {
                at,
                argument_type: ArgumentType::TranslatedText(
                    Text { at: span(base + l.1 + 3, base + l.2 - 2) },
                ),
            },
        ),
        _ => {
            let digits = v.subrange(l.1, l.2);
            if int_syntax(chars_of(digits)) {
                Ok(Argument { at, argument_type: ArgumentType::Int(bigint_of(chars_of(digits))) })
            } else if decimal_float(digits) {
                Ok(Argument { at, argument_type: ArgumentType::Float(Text { at }) })
            } else {
                Err(ParseError::InvalidNumber { at })
            }
        },
    }
}

/// Whether token `i` exists and is an argument (anything but a filter name
/// or an error).
pub open spec fn is_argument(toks: Seq<Result<VarLexeme, VariableLexerError>>, i: int) -> bool {
    0 <= i < toks.len() && toks[i] is Ok && (toks[i]->Ok_0).0 != VariableTokenType::Filter
}

/// Folds the filters from token `i` on onto `acc`, left to right.
pub open spec fn chain(
    v: Seq<u8>,
    base: int,
    toks: Seq<Result<VarLexeme, VariableLexerError>>,
    i: int,
    acc: TokenTree,
) -> Result<TokenTree, ParseError>
    decreases toks.len() - i,
{
    if i < 0 || i >= toks.len() {
        Ok(acc)
    } else {
        match toks[i] {
            Err(e) => Err(ParseError::LexerError(relocate(e, base))),
            Ok(f) => {
                if i + 1 < toks.len() && toks[i + 1] is Err {
                    Err(ParseError::LexerError(relocate(toks[i + 1]->Err_0, base)))
                } else {
                    let has_arg = is_argument(toks, i + 1);
                    let arg = if has_arg {
                        match argument_spec(v, base, toks[i + 1]->Ok_0) {
                            Ok(a) => Ok(Some(a)),
                            Err(e) => Err(e),
                        }
                    } else {
                        Ok(None)
                    };
                    match arg {
                        Err(e) => Err(e),
                        Ok(a) => match filter_spec(
                            chars_of(v.subrange(content_bounds(f).0, content_bounds(f).1)),
                            span(base + f.1, base + f.2),
                            acc,
                            a,
                        ) {
                            Err(e) => Err(e),
                            Ok(flt) => chain(
                                v,
                                base,
                                toks,
                                if has_arg {
                                    i + 2
                                } else {
                                    i + 1
                                },
                                TokenTree::Filter(Box::new(flt)),
                            ),
                        },
                    }
                }
            },
        }
    }
}

/// The tree for a `{{ ... }}` token spanning `s..e`, whose content `v`
/// starts at `s + 2`.
pub open spec fn variable_tree(v: Seq<u8>, s: int, e: int) -> Result<TokenTree, ParseError> {
    let base = s + 2;
    let toks = var_tokens(v);
    if toks.len() == 0 {
        Err(ParseError::EmptyVariable { at: span(s, e) })
    } else {
        match toks[0] {
            Err(x) => Err(ParseError::LexerError(relocate(x, base))),
            Ok(l) => chain(
                v,
                base,
                toks,
                1,
                TokenTree::Variable(Variable { at: span(base + l.1, base + l.2) }),
            ),
        }
    }
}

/// Whether no token is a block tag.
pub open spec fn no_tags(toks: Seq<Lexeme>) -> bool {
    forall|i: int| 0 <= i < toks.len() ==> (#[trigger] toks[i]).0 != TokenKind::Tag
}

/// The nodes for tokens `toks` of template bytes `b`, after the nodes `acc`:
/// text gives a text node, a comment gives nothing, a variable gives its
/// filter chain; the first error ends the parse.
pub open spec fn parse_acc(b: Seq<u8>, toks: Seq<Lexeme>, acc: Seq<TokenTree>) -> Result<
    Seq<TokenTree>,
    ParseError,
>
    decreases toks.len(),
{
    if toks.len() == 0 {
        Ok(acc)
    } else {
        let t = toks[0];
        match t.0 {
            TokenKind::Text => parse_acc(
                b,
                toks.drop_first(),
                acc.push(TokenTree::Text(Text { at: span(t.1, t.2) })),
            ),
            TokenKind::Variable => match variable_tree(b.subrange(t.1 + 2, t.2 - 2), t.1, t.2) {
                Err(e) => Err(e),
                Ok(n) => parse_acc(b, toks.drop_first(), acc.push(n)),
            },
            // Comments give no node; tags are never reached (see `Parser::parse`).
            _ => parse_acc(b, toks.drop_first(), acc),
        }
    }
}

/// The parse of a whole template.
pub open spec fn parse_template(b: Seq<u8>) -> Result<Seq<TokenTree>, ParseError> {
    parse_acc(b, lex_tokens(b), Seq::empty())
}

/// Parsing the text that the template's token spans reconstruct gives the
/// same result as parsing the template itself.
pub proof fn lemma_reparse_reconstruction(b: Seq<u8>)
    ensures
        parse_template(crate::lex::covered(b, lex_tokens(b))) == parse_template(b),
{
    crate::lex::lemma_tokens_partition(b);
}

impl Filter {
    /// The filter whose name spans `at` in `template`, applied to `left`
    /// with argument `right`: `default` requires an argument, `lower`
    /// refuses one, any other name is an external filter.
    pub fn new(template: &str, at: (usize, usize), left: TokenTree, right: Option<Argument>) -> (r:
        Result<Self, ParseError>)
        requires
            span_ok(template, at),
        ensures
            r == filter_spec(chars_of(span_bytes(template.spec_bytes(), at)), at, left, right),
    {
        let name = slice(template, at.0, at.1);
        proof {
            lemma_str_chars(name);
        }
        Filter::named(name, at, left, right)
    }

    fn named(name: &str, at: (usize, usize), left: TokenTree, right: Option<Argument>) -> (r: Result<
        Self,
        ParseError,
    >)
        ensures
            r == filter_spec(name@, at, left, right),
    {
        if str_eq(name, "default") {
            match right {
                Some(right) => Ok(Filter { at, left, filter: FilterType::Default(right) }),
                None => Err(ParseError::MissingArgument { at }),
            }
        } else if str_eq(name, "lower") {
            match right {
                Some(right) => Err(ParseError::UnexpectedArgument { at: right.at }),
                None => Ok(Filter { at, left, filter: FilterType::Lower }),
            }
        } else {
            Ok(Filter { at, left, filter: FilterType::External(right) })
        }
    }
}

fn relocate_error(e: VariableLexerError, base: usize, n: usize) -> (r: VariableLexerError)
    requires
        e.span().0 <= e.span().1 <= n,
        base + n <= usize::MAX,
    ensures
        r == relocate(e, base as int),
{
    let at = match e {
        VariableLexerError::LeadingUnderscore { at } => at,
        VariableLexerError::IncompleteString { at } => at,
        VariableLexerError::IncompleteTranslatedString { at } => at,
        VariableLexerError::MissingTranslatedString { at } => at,
        VariableLexerError::InvalidRemainder { at } => at,
    };
    let at = (base + at.0, base + at.1);
    match e {
        VariableLexerError::LeadingUnderscore { .. } => VariableLexerError::LeadingUnderscore { at },
        VariableLexerError::IncompleteString { .. } => VariableLexerError::IncompleteString { at },
        VariableLexerError::IncompleteTranslatedString { .. } => {
            VariableLexerError::IncompleteTranslatedString { at }
        },
        VariableLexerError::MissingTranslatedString { .. } => {
            VariableLexerError::MissingTranslatedString { at }
        },
        VariableLexerError::InvalidRemainder { .. } => VariableLexerError::InvalidRemainder { at },
    }
}

/// The argument that token `t` of content `v` (starting at `base`) denotes.
fn argument(t: VariableToken, base: usize, n: usize, Ghost(v): Ghost<Seq<u8>>, Ghost(l): Ghost<VarLexeme>) -> (r: Result<Argument, ParseError>)
    requires
        t.is_lexeme(v, l),
        within(Ok(t), n as int),
        base + n <= usize::MAX,
    ensures
        r == argument_spec(v, base as int, l),
{
    let at = (base + t.at.0, base + t.at.1);
    match t.token_type {
        VariableTokenType::Variable => Ok(
            Argument { at, argument_type: ArgumentType::Variable(Variable { at }) },
        ),
        VariableTokenType::Text => Ok(
            Argument {
                at,
                argument_type: ArgumentType::Text(Text { at: (at.0 + 1, at.1 - 1) }),
            },
        ),
        VariableTokenType::TranslatedText => Ok(
            Argument {
                at,
                argument_type: ArgumentType::TranslatedText(Text { at: (at.0 + 3, at.1 - 2) }),
            },
        ),
        _ => {
            proof {
                lemma_str_chars(t.content);
            }
            match parse_integer(t.content) {
                Some(value) => Ok(Argument { at, argument_type: ArgumentType::Int(value) }),
                None => {
                    if is_decimal_float(t.content) {
                        Ok(Argument { at, argument_type: ArgumentType::Float(Text { at }) })
                    } else {
                        Err(ParseError::InvalidNumber { at })
                    }
                },
            }
        },
    }
}

/// The parser over one template.
pub struct Parser<'t> {
    template: &'t str,
    lexer: Lexer<'t>,
}

impl<'t> Parser<'t> {
    pub closed spec fn source(&self) -> &'t str {
        self.template
    }

    /// The structural tokens that have yet to be parsed.
    pub closed spec fn pending(&self) -> Seq<Lexeme> {
        self.lexer.remaining()
    }

    pub closed spec fn wf(&self) -> bool {
        self.lexer.wf() && self.lexer.source() == self.template
    }

    pub fn new(template: &'t str) -> (r: Self)
        ensures
            r.wf(),
            r.source() == template,
            r.pending() == lex_tokens(template.spec_bytes()),
    {
        Parser { template, lexer: Lexer::new(template) }
    }

    /// The nodes of the template, in order, or the first error. Block tags
    /// have no grammar yet, so the template must hold none.
    pub fn parse(&mut self) -> (r: Result<Vec<TokenTree>, ParseError>)
        requires
            old(self).wf(),
            no_tags(old(self).pending()),
        ensures
            final(self).wf(),
            final(self).source() == old(self).source(),
            match parse_acc(old(self).source().spec_bytes(), old(self).pending(), Seq::empty()) {
                Ok(nodes) => r is Ok && r->Ok_0@ == nodes,
                Err(e) => r == Err::<Vec<TokenTree>, ParseError>(e),
            },
    {
        let ghost b = self.template.spec_bytes();
        let ghost all = self.pending();
        let mut nodes: Vec<TokenTree> = Vec::new();
        proof {
            self.lexer.lemma_position();
        }
        loop
            invariant
                self.wf(),
                self.template == old(self).template,
                b == self.template.spec_bytes(),
                all == old(self).pending(),
                no_tags(self.pending()),
                0 <= self.lexer.position() <= b.len(),
                b.len() <= usize::MAX,
                parse_acc(b, self.pending(), nodes@) == parse_acc(b, all, Seq::empty()),
            decreases b.len() - self.lexer.position(),
        {
            let ghost p = self.lexer.position();
            let ghost m = self.lexer.mode();
            let ghost toks = self.pending();
            proof {
                if p < b.len() {
                    lemma_step_advances(b, p, m);
                    let (k, e, m2) = lex_step(b, p, m);
                    assert(toks == seq![(k, p, e)] + crate::lex::lex_from(b, e, m2));
                    assert(toks[0] == (k, p, e));
                    assert(toks.drop_first() == crate::lex::lex_from(b, e, m2));
                }
            }
            match self.lexer.next() {
                None => {
                    proof {
                        assert(toks =~= Seq::<Lexeme>::empty());
                    }
                    return Ok(nodes);
                },
                Some(token) => {
                    proof {
                        assert(no_tags(toks.drop_first())) by {
                            assert forall|i: int| 0 <= i < toks.drop_first().len() implies (
                            #[trigger] toks.drop_first()[i]).0 != TokenKind::Tag by {
                                assert(toks.drop_first()[i] == toks[i + 1]);
                            }
                        }
                        assert(toks[0].0 != TokenKind::Tag);
                    }
                    match token {
                        Token::Text { at, .. } => {
                            nodes.push(TokenTree::Text(Text::new(at)));
                        },
                        Token::Comment { .. } => {},
                        Token::Variable { variable, at } => {
                            match parse_variable(variable, at.0, at.1) {
                                Ok(node) => nodes.push(node),
                                Err(e) => return Err(e),
                            }
                        },
                        Token::Tag { .. } => {
                            return vstd::pervasive::unreached();
                        },
                    }
                },
            }
        }
    }
}

/// The filter chain of a `{{ ... }}` token spanning `s..e` whose content is
/// `variable`.
fn parse_variable(variable: &str, s: usize, e: usize) -> (r: Result<TokenTree, ParseError>)
    requires
        s + 4 <= e,
        variable.spec_bytes().len() == e - s - 4,
    ensures
        r == variable_tree(variable.spec_bytes(), s as int, e as int),
{
    let ghost v = variable.spec_bytes();
    let n = variable.as_bytes().len();
    let base = s + 2;
    let lexer = VariableLexer::new(variable);
    let toks = lexer.collect();
    let ghost spec_toks = var_tokens(v);
    proof {
        assert(spec_toks == lexer.remaining());
        if toks@.len() > 0 {
            assert(step_matches(v, toks@[0], spec_toks[0]));
            assert(within(toks@[0], n as int));
        }
    }
    if toks.len() == 0 {
        return Err(ParseError::EmptyVariable { at: (s, e) });
    }
    let mut tree = match toks[0] {
        Err(x) => {
            let r = Err(ParseError::LexerError(relocate_error(x, base, n)));
            proof {
                assert(spec_toks[0] == Err::<VarLexeme, VariableLexerError>(x));
                assert(variable_tree(v, s as int, e as int) == Err::<TokenTree, ParseError>(ParseError::LexerError(relocate(x, base as int))));
            }
            return r;
        },
        Ok(t) => TokenTree::Variable(Variable::new((base + t.at.0, base + t.at.1))),
    };
    proof {
        assert(step_matches(v, toks@[0], spec_toks[0]));
        assert(within(toks@[0], n as int));
    }
    let mut i: usize = 1;
    while i < toks.len()
        invariant
            toks@.len() == spec_toks.len(),
            spec_toks == var_tokens(v),
            v == variable.spec_bytes(),
            forall|j: int| 0 <= j < toks@.len() ==> step_matches(v, #[trigger] toks@[j], spec_toks[j]),
            forall|j: int| 0 <= j < toks@.len() ==> within(#[trigger] toks@[j], n as int),
            base == s + 2,
            base + n <= usize::MAX,
            n == v.len(),
            1 <= i,
            chain(v, base as int, spec_toks, i as int, tree) == variable_tree(v, s as int, e as int),
        decreases toks@.len() - i,
    {
        let ghost ii = i as int;
        proof {
            assert(step_matches(v, toks@[ii], spec_toks[ii]));
            assert(within(toks@[ii], n as int));
            if ii + 1 < toks@.len() {
                assert(step_matches(v, toks@[ii + 1], spec_toks[ii + 1]));
                assert(within(toks@[ii + 1], n as int));
            }
        }
        let ghost acc = tree;
        let f = match toks[i] {
            Err(x) => {
                let r = Err(ParseError::LexerError(relocate_error(x, base, n)));
                proof {
                    assert(spec_toks[ii] == Err::<VarLexeme, VariableLexerError>(x));
                }
                return r;
            },
            Ok(f) => f,
        };
        let ghost fl = spec_toks[ii]->Ok_0;
        proof {
            assert(spec_toks[ii] is Ok);
            assert(f.is_lexeme(v, fl));
            lemma_str_chars(f.content);
        }
        let mut next = i + 1;
        let mut arg: Option<Argument> = None;
        if i + 1 < toks.len() {
            match toks[i + 1] {
                Err(x) => {
                    let r = Err(ParseError::LexerError(relocate_error(x, base, n)));
                    proof {
                        assert(spec_toks[ii + 1] == Err::<VarLexeme, VariableLexerError>(x));
                    }
                    return r;
                },
                Ok(t) => {
                    proof {
                        assert(spec_toks[ii + 1] is Ok);
                    }
                    if t.token_type != VariableTokenType::Filter {
                        let ghost al = spec_toks[ii + 1]->Ok_0;
                        proof {
                            assert(is_argument(spec_toks, ii + 1));
                        }
                        match argument(t, base, n, Ghost(v), Ghost(al)) {
                            Ok(a) => {
                                arg = Some(a);
                            },
                            Err(err) => {
                                return Err(err);
                            },
                        }
                        next = i + 2;
                    } else {
                        proof {
                            assert(!is_argument(spec_toks, ii + 1));
                        }
                    }
                },
            }
        }
        let at = (base + f.at.0, base + f.at.1);
        let ghost spec_arg: Result<Option<Argument>, ParseError> = Ok(arg);
        proof {
            assert(f.content@ == chars_of(v.subrange(content_bounds(fl).0, content_bounds(fl).1)));
            assert(at == span(base + fl.1, base + fl.2));
        }
        match Filter::named(f.content, at, tree, arg) {
            Ok(filter) => {
                tree = TokenTree::Filter(Box::new(filter));
            },
            Err(err) => {
                return Err(err);
            },
        }
        i = next;
    }
    Ok(tree)
}

} // verus!
