//! The expression lexer: splits the content of a `{{ ... }}` token into a
//! variable path, filter names and filter arguments.
//!
//! It is specified by `var_step`, the token (or error) produced from a
//! position of the variable's bytes in a given mode, and `var_from`, the
//! whole sequence from there on.

use vstd::prelude::*;
use vstd::string::*;
use vstd::utf8::*;
use crate::text::{
    blank, chars_of, cut_ok, lemma_cut_after_ascii, lemma_str_chars,
    lemma_trim_start_shape, lemma_trim_start_unique, lemma_word_unique, lemma_split_bytes, leading_word, slice,
    trim_left, trim_right, trim_spec, trim_start_spec, word_spec,
};

verus! {

/// `|`
pub const PIPE: u8 = 0x7c;

/// `:`
pub const COLON: u8 = 0x3a;

/// `_`
pub const UNDERSCORE: u8 = 0x5f;

/// `(`
pub const LPAREN: u8 = 0x28;

/// `)`
pub const RPAREN: u8 = 0x29;

/// `'`
pub const SQUOTE: u8 = 0x27;

/// `"`
pub const DQUOTE: u8 = 0x22;

/// `\`
pub const BACKSLASH: u8 = 0x5c;

/// `.`
pub const DOT: u8 = 0x2e;

/// `e`
pub const LOWER_E: u8 = 0x65;

/// `0`
pub const DIGIT_0: u8 = 0x30;

/// `9`
pub const DIGIT_9: u8 = 0x39;

/// What an expression token is.
#[derive(Clone, Copy, Debug, PartialEq, Eq, Structural)]
pub enum VariableTokenType {
    Text,
    Variable,
    Filter,
    Numeric,
    TranslatedText,
}

/// A token of a variable expression. `at` is the half-open byte range
/// `(start, end)` it covers within the lexed content, quotes and the
/// translation marker included; `content` is its text without them.
#[derive(Clone, Copy, Debug, PartialEq, Eq)]
pub struct VariableToken<'t> {
    pub token_type: VariableTokenType,
    pub content: &'t str,
    pub at: (usize, usize),
}

/// The ways lexing a variable expression can fail. Each carries the
/// half-open byte range `(start, end)` of the offending text.
#[derive(Clone, Copy, Debug, PartialEq, Eq)]
pub enum VariableLexerError {
    /// An argument starts with `_` without being a translated string.
    LeadingUnderscore { at: (usize, usize) },
    /// A string literal runs to the end of the content.
    IncompleteString { at: (usize, usize) },
    /// A translated string lacks its closing `)`.
    IncompleteTranslatedString { at: (usize, usize) },
    /// `_(` is not followed by a string literal.
    MissingTranslatedString { at: (usize, usize) },
    /// Something other than whitespace follows an argument.
    InvalidRemainder { at: (usize, usize) },
}

impl VariableLexerError {
    /// The text that describes this error.
    pub open spec fn message_spec(&self) -> Seq<char> {
        match self {
            VariableLexerError::LeadingUnderscore { .. } => {
                "Variables and attributes may not begin with underscores"@
            },
            VariableLexerError::IncompleteString { .. } => "Expected a complete string literal"@,
            VariableLexerError::IncompleteTranslatedString { .. } => {
                "Expected a complete translation string"@
            },
            VariableLexerError::MissingTranslatedString { .. } => {
                "Expected a string literal within translation"@
            },
            VariableLexerError::InvalidRemainder { .. } => "Could not parse the remainder"@,
        }
    }

    /// The message that describes this error.
    pub fn message(&self) -> (r: &'static str)
        ensures
            r@ == self.message_spec(),
    {
        match self {
            VariableLexerError::LeadingUnderscore { .. } => {
                "Variables and attributes may not begin with underscores"
            },
            VariableLexerError::IncompleteString { .. } => "Expected a complete string literal",
            VariableLexerError::IncompleteTranslatedString { .. } => {
                "Expected a complete translation string"
            },
            VariableLexerError::MissingTranslatedString { .. } => {
                "Expected a string literal within translation"
            },
            VariableLexerError::InvalidRemainder { .. } => "Could not parse the remainder",
        }
    }

    /// The byte range of the error.
    pub open spec fn span(&self) -> (usize, usize) {
        match self {
            VariableLexerError::LeadingUnderscore { at } => *at,
            VariableLexerError::IncompleteString { at } => *at,
            VariableLexerError::IncompleteTranslatedString { at } => *at,
            VariableLexerError::MissingTranslatedString { at } => *at,
            VariableLexerError::InvalidRemainder { at } => *at,
        }
    }
}

/// What the lexer expects next.
#[derive(Clone, Copy, Debug, PartialEq, Eq, Structural)]
pub enum Mode {
    /// The variable path that starts the expression.
    Variable,
    /// A filter name.
    Filter,
    /// The argument of the filter just lexed.
    Argument,
}

/// A token as the specification sees it: its type and its byte range.
pub type VarLexeme = (VariableTokenType, int, int);

/// The outcome of one step: a token or an error, the next position, the end
/// of what is left to lex, and the next mode.
pub type VarStep = (Result<VarLexeme, VariableLexerError>, int, int, Mode);

/// The byte range of a token's content: without quotes for a string, without
/// `_('` and `')` for a translated string.
pub open spec fn content_bounds(l: VarLexeme) -> (int, int) {
    match l.0 {
        VariableTokenType::Text => (l.1 + 1, l.2 - 1),
        VariableTokenType::TranslatedText => (l.1 + 3, l.2 - 2),
        _ => (l.1, l.2),
    }
}

impl<'t> VariableToken<'t> {
    /// This token is lexeme `l` of the bytes `v`.
    pub open spec fn is_lexeme(&self, v: Seq<u8>, l: VarLexeme) -> bool {
        &&& self.token_type == l.0
        &&& self.at.0 == l.1
        &&& self.at.1 == l.2
        &&& self.content.spec_bytes() == v.subrange(content_bounds(l).0, content_bounds(l).1)
    }
}

/// The first offset in `from..to` holding byte `x`, or `to`.
pub open spec fn find_byte(b: Seq<u8>, from: int, to: int, x: u8) -> int
    decreases to - from,
{
    if from < 0 || from >= to || to > b.len() {
        to
    } else if b[from] == x {
        from
    } else {
        find_byte(b, from + 1, to, x)
    }
}

pub open spec fn is_digit(c: u8) -> bool {
    DIGIT_0 <= c <= DIGIT_9
}

/// A byte that a numeric literal may hold.
pub open spec fn is_numeric_byte(c: u8) -> bool {
    is_digit(c) || c == DOT || c == LOWER_E
}

/// The end of the run of numeric bytes that starts at `from`.
pub open spec fn numeric_end(b: Seq<u8>, from: int, to: int) -> int
    decreases to - from,
{
    if from < 0 || from >= to || to > b.len() {
        to
    } else if is_numeric_byte(b[from]) {
        numeric_end(b, from + 1, to)
    } else {
        from
    }
}

/// Scanning a string literal from `i` (just after its opening quote `q`), the
/// offset of its closing quote, or `to` if there is none. A backslash
/// escapes the byte after it.
pub open spec fn string_close(b: Seq<u8>, i: int, to: int, q: u8) -> int
    decreases to - i,
{
    if i < 0 || i >= to || to > b.len() {
        to
    } else if b[i] == BACKSLASH {
        if i + 2 > to {
            to
        } else {
            string_close(b, i + 2, to, q)
        }
    } else if b[i] == q {
        i
    } else {
        string_close(b, i + 1, to, q)
    }
}

/// Whether the bytes `a..c` are all whitespace.
pub open spec fn blank_between(v: Seq<u8>, a: int, c: int) -> bool {
    blank(chars_of(v.subrange(a, c)))
}

/// The end of the run of non-whitespace characters that starts at `a`.
pub open spec fn word_end(v: Seq<u8>, a: int, c: int) -> int {
    a + encode_utf8(word_spec(chars_of(v.subrange(a, c)))).len()
}

/// Where the trimmed content of `v` starts.
pub open spec fn content_start(v: Seq<u8>) -> int {
    v.len() - encode_utf8(trim_start_spec(chars_of(v))).len()
}

/// Where the trimmed content of `v` ends.
pub open spec fn content_end(v: Seq<u8>) -> int {
    content_start(v) + encode_utf8(trim_spec(chars_of(v))).len()
}

pub open spec fn fail(e: VariableLexerError, z: int) -> VarStep {
    (Err(e), z, z, Mode::Filter)
}

pub open spec fn span_of(a: int, c: int) -> (usize, usize) {
    (a as usize, c as usize)
}

/// A variable path from `o`: up to the next `|`, or to the end.
pub open spec fn lex_path(v: Seq<u8>, o: int, z: int) -> VarStep {
    let f = find_byte(v, o, z, PIPE);
    if f >= z {
        (Ok((VariableTokenType::Variable, o, z)), z, z, Mode::Filter)
    } else {
        (Ok((VariableTokenType::Variable, o, f)), f + 1, z, Mode::Filter)
    }
}

/// A filter name from `o`: up to a `:` that comes before the next `|` (an
/// argument follows), else up to the next `|`, else to the end.
pub open spec fn lex_filter(v: Seq<u8>, o: int, z: int) -> VarStep {
    let f = find_byte(v, o, z, PIPE);
    let a = find_byte(v, o, z, COLON);
    if f >= z && a >= z {
        (Ok((VariableTokenType::Filter, o, z)), z, z, Mode::Filter)
    } else if a < f {
        (Ok((VariableTokenType::Filter, o, a)), a + 1, z, Mode::Argument)
    } else {
        (Ok((VariableTokenType::Filter, o, f)), f + 1, z, Mode::Filter)
    }
}

/// After an argument that ends at `q`: only whitespace may come before the
/// next `|` (or the end).
pub open spec fn with_remainder(v: Seq<u8>, tok: VarLexeme, q: int, z: int) -> VarStep {
    let f = find_byte(v, q, z, PIPE);
    if blank_between(v, q, f) {
        if f < z {
            (Ok(tok), f + 1, z, Mode::Filter)
        } else {
            (Ok(tok), q, z, Mode::Filter)
        }
    } else {
        fail(VariableLexerError::InvalidRemainder { at: span_of(q, f) }, z)
    }
}

/// A string literal whose opening quote is at `o`: the offset after its
/// closing quote, or the error for a literal that never closes.
pub open spec fn lex_string(v: Seq<u8>, o: int, z: int) -> Result<int, VariableLexerError> {
    let k = string_close(v, o + 1, z, v[o]);
    if k >= z {
        Err(VariableLexerError::IncompleteString { at: span_of(o, z) })
    } else {
        Ok(k + 1)
    }
}

/// A translated string `_('...')` that starts at `o`.
pub open spec fn lex_translated(v: Seq<u8>, o: int, z: int) -> VarStep {
    let s = o + 2;
    if s >= z {
        fail(VariableLexerError::MissingTranslatedString { at: span_of(o, s) }, z)
    } else if v[s] == SQUOTE || v[s] == DQUOTE {
        match lex_string(v, s, z) {
            Err(e) => fail(e, z),
            Ok(after) => {
                if after < z && v[after] == RPAREN {
                    with_remainder(v, (VariableTokenType::TranslatedText, o, after + 1), after + 1, z)
                } else {
                    fail(
                        VariableLexerError::IncompleteTranslatedString { at: span_of(o, after) },
                        z,
                    )
                }
            },
        }
    } else {
        fail(VariableLexerError::MissingTranslatedString { at: span_of(o, z) }, z)
    }
}

/// A filter argument that starts at `o`, dispatched on its first byte.
pub open spec fn lex_argument(v: Seq<u8>, o: int, z: int) -> VarStep {
    let c = v[o];
    if c == UNDERSCORE {
        if o + 1 < z && v[o + 1] == LPAREN {
            lex_translated(v, o, z)
        } else {
            fail(VariableLexerError::LeadingUnderscore { at: span_of(o, word_end(v, o, z)) }, z)
        }
    } else if c == SQUOTE || c == DQUOTE {
        match lex_string(v, o, z) {
            Err(e) => fail(e, z),
            Ok(after) => with_remainder(v, (VariableTokenType::Text, o, after), after, z),
        }
    } else if is_digit(c) {
        let n = numeric_end(v, o, z);
        with_remainder(v, (VariableTokenType::Numeric, o, n), n, z)
    } else {
        lex_path(v, o, z)
    }
}

/// One step of the expression lexer at `o`, with `z` the end of what is left.
pub open spec fn var_step(v: Seq<u8>, o: int, z: int, mode: Mode) -> VarStep {
    match mode {
        Mode::Variable => lex_path(v, o, z),
        Mode::Filter => lex_filter(v, o, z),
        Mode::Argument => lex_argument(v, o, z),
    }
}

/// The tokens and errors from `o` on.
pub open spec fn var_from(v: Seq<u8>, o: int, z: int, mode: Mode) -> Seq<
    Result<VarLexeme, VariableLexerError>,
>
    decreases z - o,
    via var_from_decreases
{
    if o < 0 || o >= z || z > v.len() {
        Seq::empty()
    } else {
        let (r, o2, z2, m) = var_step(v, o, z, mode);
        seq![r] + var_from(v, o2, z2, m)
    }
}

#[via_fn]
proof fn var_from_decreases(v: Seq<u8>, o: int, z: int, mode: Mode) {
    if 0 <= o < z <= v.len() {
        lemma_var_step(v, o, z, mode);
    }
}

/// The tokens of the trimmed content of `v`.
pub open spec fn var_tokens(v: Seq<u8>) -> Seq<Result<VarLexeme, VariableLexerError>> {
    var_from(v, content_start(v), content_end(v), Mode::Variable)
}

pub proof fn lemma_find_byte(b: Seq<u8>, from: int, to: int, x: u8)
    requires
        0 <= from <= to <= b.len(),
    ensures
        from <= find_byte(b, from, to, x) <= to,
        find_byte(b, from, to, x) < to ==> b[find_byte(b, from, to, x)] == x,
        forall|i: int| from <= i < find_byte(b, from, to, x) ==> #[trigger] b[i] != x,
    decreases to - from,
{
    if from < to && b[from] != x {
        lemma_find_byte(b, from + 1, to, x);
    }
}

pub proof fn lemma_numeric_end(b: Seq<u8>, from: int, to: int)
    requires
        0 <= from <= to <= b.len(),
    ensures
        from <= numeric_end(b, from, to) <= to,
        forall|i: int| from <= i < numeric_end(b, from, to) ==> is_numeric_byte(#[trigger] b[i]),
        from < to && is_numeric_byte(b[from]) ==> from < numeric_end(b, from, to),
    decreases to - from,
{
    if from < to && is_numeric_byte(b[from]) {
        lemma_numeric_end(b, from + 1, to);
    }
}

pub proof fn lemma_string_close(b: Seq<u8>, i: int, to: int, q: u8)
    requires
        0 <= i <= to <= b.len(),
    ensures
        i <= string_close(b, i, to, q) <= to,
        string_close(b, i, to, q) < to ==> b[string_close(b, i, to, q)] == q,
    decreases to - i,
{
    if i < to {
        if b[i] == BACKSLASH {
            if i + 2 <= to {
                lemma_string_close(b, i + 2, to, q);
            }
        } else if b[i] != q {
            lemma_string_close(b, i + 1, to, q);
        }
    }
}

/// Each step either consumes bytes or empties what is left, and stays within
/// it.
pub proof fn lemma_var_step(v: Seq<u8>, o: int, z: int, mode: Mode)
    requires
        0 <= o < z <= v.len(),
    ensures
        ({
            let (r, o2, z2, m) = var_step(v, o, z, mode);
            &&& (z2 == z && o < o2 <= z) || (z2 == z && o2 == z) || (o2 == z2 && z2 == z)
        }),
{
    lemma_find_byte(v, o, z, PIPE);
    lemma_find_byte(v, o, z, COLON);
    if mode == Mode::Argument {
        let c = v[o];
        if c == SQUOTE || c == DQUOTE {
            lemma_string_close(v, o + 1, z, c);
            let k = string_close(v, o + 1, z, c);
            if k < z {
                lemma_find_byte(v, k + 1, z, PIPE);
            }
        } else if is_digit(c) {
            lemma_numeric_end(v, o, z);
            lemma_find_byte(v, numeric_end(v, o, z), z, PIPE);
        } else if c == UNDERSCORE && o + 2 < z && (v[o + 2] == SQUOTE || v[o + 2] == DQUOTE) {
            lemma_string_close(v, o + 3, z, v[o + 2]);
            let k = string_close(v, o + 3, z, v[o + 2]);
            if k + 2 <= z {
                lemma_find_byte(v, k + 2, z, PIPE);
            }
        }
    }
}

/// The lexer over the content of one `{{ ... }}` token.
pub struct VariableLexer<'t> {
    variable: &'t str,
    byte: usize,
    end: usize,
    mode: Mode,
}

impl<'t> VariableLexer<'t> {
    /// The content being lexed.
    pub closed spec fn source(&self) -> &'t str {
        self.variable
    }

    /// Where the next token starts.
    pub closed spec fn position(&self) -> int {
        self.byte as int
    }

    /// Where what is left to lex ends.
    pub closed spec fn limit(&self) -> int {
        self.end as int
    }

    pub closed spec fn state(&self) -> Mode {
        self.mode
    }

    pub closed spec fn wf(&self) -> bool {
        let v = self.variable.spec_bytes();
        &&& self.byte <= self.end <= v.len()
        &&& cut_ok(v, self.byte as int)
        &&& cut_ok(v, self.end as int)
    }

    /// What this lexer has yet to produce.
    pub open spec fn remaining(&self) -> Seq<Result<VarLexeme, VariableLexerError>> {
        var_from(self.source().spec_bytes(), self.position(), self.limit(), self.state())
    }

    /// A lexer over `variable` with surrounding whitespace trimmed.
    pub fn new(variable: &'t str) -> (r: Self)
        ensures
            r.wf(),
            r.source() == variable,
            r.position() == content_start(variable.spec_bytes()),
            r.limit() == content_end(variable.spec_bytes()),
            r.state() == Mode::Variable,
            r.remaining() == var_tokens(variable.spec_bytes()),
    {
        let ghost v = variable.spec_bytes();
        proof {
            lemma_str_chars(variable);
        }
        let rest = trim_left(variable);
        let len = variable.as_bytes().len();
        let start = len - rest.as_bytes().len();
        let trimmed = trim_right(rest);
        let end = start + trimmed.as_bytes().len();
        proof {
            lemma_str_chars(rest);
            assert(trimmed@ == trim_spec(variable@));
            let rb = rest.spec_bytes();
            assert(rb == v.skip(start as int));
            if end < v.len() {
                if (end - start) < rb.len() {
                    assert(v[end as int] == rb[end - start]);
                }
            }
        }
        VariableLexer { variable, byte: start, end, mode: Mode::Variable }
    }

    /// The next token or error, or `None` when nothing is left.
    pub fn next(&mut self) -> (r: Option<Result<VariableToken<'t>, VariableLexerError>>)
        requires
            old(self).wf(),
        ensures
            final(self).wf(),
            final(self).source() == old(self).source(),
            ({
                let v = old(self).source().spec_bytes();
                let o = old(self).position();
                let z = old(self).limit();
                if o >= z {
                    r is None && final(self).position() == o && final(self).limit() == z
                        && final(self).state() == old(self).state()
                } else {
                    let (res, o2, z2, m) = var_step(v, o, z, old(self).state());
                    &&& r is Some
                    &&& step_matches(v, r->0, res)
                    &&& within(r->0, v.len() as int)
                    &&& final(self).position() == o2
                    &&& final(self).limit() == z2
                    &&& final(self).state() == m
                }
            }),
    {
        if self.byte >= self.end {
            return None;
        }
        let (res, o2, z2, m) = step(self.variable, self.byte, self.end, self.mode);
        self.byte = o2;
        self.end = z2;
        self.mode = m;
        Some(res)
    }

    /// All the remaining tokens, ending with the first error if there is one.
    pub fn collect(self) -> (r: Vec<Result<VariableToken<'t>, VariableLexerError>>)
        requires
            self.wf(),
        ensures
            r@.len() == self.remaining().len(),
            forall|i: int|
                0 <= i < r@.len() ==> step_matches(
                    self.source().spec_bytes(),
                    #[trigger] r@[i],
                    self.remaining()[i],
                ),
            forall|i: int| 0 <= i < r@.len() ==> within(#[trigger] r@[i], self.source().spec_bytes().len() as int),
    {
        let ghost v = self.source().spec_bytes();
        let ghost all = self.remaining();
        let mut lexer = self;
        let mut out: Vec<Result<VariableToken<'t>, VariableLexerError>> = Vec::new();
        let ghost mut done: Seq<Result<VarLexeme, VariableLexerError>> = Seq::empty();
        loop
            invariant
                lexer.wf(),
                all == self.remaining(),
                v == self.source().spec_bytes(),
                lexer.source().spec_bytes() == v,
                done + lexer.remaining() == all,
                out@.len() == done.len(),
                forall|i: int| 0 <= i < done.len() ==> step_matches(v, #[trigger] out@[i], done[i]),
                forall|i: int| 0 <= i < out@.len() ==> within(#[trigger] out@[i], v.len() as int),
            decreases lexer.limit() - lexer.position(),
        {
            let ghost o = lexer.position();
            let ghost z = lexer.limit();
            let ghost m = lexer.state();
            proof {
                if o < z {
                    lemma_var_step(v, o, z, m);
                }
            }
            match lexer.next() {
                None => {
                    proof {
                        assert(lexer.remaining() =~= Seq::<Result<VarLexeme, VariableLexerError>>::empty());
                        assert(done + lexer.remaining() =~= done);
                    }
                    return out;
                },
                Some(res) => {
                    proof {
                        let (r, o2, z2, m2) = var_step(v, o, z, m);
                        assert(var_from(v, o, z, m) == seq![r] + var_from(v, o2, z2, m2));
                        assert(done.push(r) + var_from(v, o2, z2, m2) =~= done + var_from(
                            v,
                            o,
                            z,
                            m,
                        ));
                        done = done.push(r);
                    }
                    out.push(res);
                },
            }
        }
    }
}

/// The spans of a result lie within `0..n`, start before end, and a string
/// token is wide enough for its delimiters.
pub open spec fn within(r: Result<VariableToken, VariableLexerError>, n: int) -> bool {
    match r {
        Ok(t) => {
            &&& t.at.0 <= t.at.1 <= n
            &&& t.token_type == VariableTokenType::Text ==> t.at.0 + 2 <= t.at.1
            &&& t.token_type == VariableTokenType::TranslatedText ==> t.at.0 + 5 <= t.at.1
        },
        Err(e) => e.span().0 <= e.span().1 <= n,
    }
}

/// An executed step agrees with the specified one.
pub open spec fn step_matches(
    v: Seq<u8>,
    r: Result<VariableToken, VariableLexerError>,
    s: Result<VarLexeme, VariableLexerError>,
) -> bool {
    match (r, s) {
        (Ok(t), Ok(l)) => t.is_lexeme(v, l),
        (Err(e), Err(f)) => e == f,
        _ => false,
    }
}

/// The first offset in `from..to` of `b` holding `x`, or `to`.
pub(crate) fn find_byte_in(b: &[u8], from: usize, to: usize, x: u8) -> (r: usize)
    requires
        from <= to <= b@.len(),
    ensures
        r == find_byte(b@, from as int, to as int, x),
{
    let mut i = from;
    while i < to
        invariant
            from <= i <= to <= b@.len(),
            find_byte(b@, i as int, to as int, x) == find_byte(b@, from as int, to as int, x),
        decreases to - i,
    {
        if b[i] == x {
            return i;
        }
        i = i + 1;
    }
    to
}

fn numeric_end_in(b: &[u8], from: usize, to: usize) -> (r: usize)
    requires
        from <= to <= b@.len(),
    ensures
        r == numeric_end(b@, from as int, to as int),
{
    let mut i = from;
    while i < to
        invariant
            from <= i <= to <= b@.len(),
            numeric_end(b@, i as int, to as int) == numeric_end(b@, from as int, to as int),
        decreases to - i,
    {
        let c = b[i];
        if !((DIGIT_0 <= c && c <= DIGIT_9) || c == DOT || c == LOWER_E) {
            return i;
        }
        i = i + 1;
    }
    to
}

fn string_close_in(b: &[u8], from: usize, to: usize, q: u8) -> (r: usize)
    requires
        from <= to <= b@.len(),
    ensures
        r == string_close(b@, from as int, to as int, q),
{
    let mut i = from;
    while i < to
        invariant
            from <= i,
            to <= b@.len(),
            string_close(b@, i as int, to as int, q) == string_close(b@, from as int, to as int, q),
        decreases to - i,
    {
        if b[i] == BACKSLASH {
            if to - i < 2 {
                return to;
            }
            i = i + 2;
        } else if b[i] == q {
            return i;
        } else {
            i = i + 1;
        }
    }
    to
}

/// Whether the bytes `a..c` of `v` are all whitespace.
fn blank_in(v: &str, a: usize, c: usize) -> (r: bool)
    requires
        a <= c <= v.spec_bytes().len(),
        cut_ok(v.spec_bytes(), a as int),
        cut_ok(v.spec_bytes(), c as int),
    ensures
        r == blank_between(v.spec_bytes(), a as int, c as int),
{
    let part = slice(v, a, c);
    let rest = trim_left(part);
    proof {
        lemma_str_chars(part);
        lemma_trim_start_shape(part@);
        if blank(part@) {
            assert(part@.take(part@.len() as int) =~= part@);
            lemma_trim_start_unique(part@, part@.len() as int);
            assert(part@.skip(part@.len() as int) =~= Seq::<char>::empty());
        }
        if rest@.len() == 0 {
            assert(part@.take(part@.len() as int) =~= part@);
        }
    }
    rest.as_bytes().len() == 0
}

/// A token of type `ty` covering `s..e` of `v`.
fn make_token<'t>(v: &'t str, ty: VariableTokenType, s: usize, e: usize) -> (r: VariableToken<'t>)
    requires
        content_bounds((ty, s as int, e as int)).0 <= content_bounds((ty, s as int, e as int)).1
            <= v.spec_bytes().len(),
        0 <= content_bounds((ty, s as int, e as int)).0,
        cut_ok(v.spec_bytes(), content_bounds((ty, s as int, e as int)).0),
        cut_ok(v.spec_bytes(), content_bounds((ty, s as int, e as int)).1),
    ensures
        r.is_lexeme(v.spec_bytes(), (ty, s as int, e as int)),
{
    let content = match ty {
        VariableTokenType::Text => slice(v, s + 1, e - 1),
        VariableTokenType::TranslatedText => slice(v, s + 3, e - 2),
        _ => slice(v, s, e),
    };
    VariableToken { token_type: ty, content, at: (s, e) }
}

/// The state after an error: nothing left.
fn failed<'t>(e: VariableLexerError, z: usize) -> (r: (
    Result<VariableToken<'t>, VariableLexerError>,
    usize,
    usize,
    Mode,
))
    ensures
        r.0 == Err::<VariableToken<'t>, VariableLexerError>(e),
        r.1 == z,
        r.2 == z,
        r.3 == Mode::Filter,
{
    (Err(e), z, z, Mode::Filter)
}

/// Whether the result of a step satisfies the invariant of the lexer.
pub open spec fn step_ok(v: Seq<u8>, o: int, z: int, mode: Mode, r: (Result<VariableToken, VariableLexerError>, usize, usize, Mode)) -> bool {
    let (res, o2, z2, m) = var_step(v, o, z, mode);
    &&& step_matches(v, r.0, res)
    &&& r.1 == o2
    &&& r.2 == z2
    &&& r.3 == m
    &&& r.1 <= r.2 <= v.len()
    &&& cut_ok(v, r.1 as int)
    &&& cut_ok(v, r.2 as int)
    &&& within(r.0, z)
}

fn step_path<'t>(v: &'t str, o: usize, z: usize) -> (r: (
    Result<VariableToken<'t>, VariableLexerError>,
    usize,
    usize,
    Mode,
))
    requires
        o < z <= v.spec_bytes().len(),
        cut_ok(v.spec_bytes(), o as int),
        cut_ok(v.spec_bytes(), z as int),
    ensures
        step_ok(v.spec_bytes(), o as int, z as int, Mode::Variable, r),
        r.1 <= r.2 <= v.spec_bytes().len(),
{
    let ghost b = v.spec_bytes();
    let bytes = v.as_bytes();
    proof {
        lemma_str_chars(v);
        lemma_find_byte(b, o as int, z as int, PIPE);
    }
    let f = find_byte_in(bytes, o, z, PIPE);
    if f >= z {
        (Ok(make_token(v, VariableTokenType::Variable, o, z)), z, z, Mode::Filter)
    } else {
        proof {
            lemma_cut_after_ascii(b, f as int);
        }
        (Ok(make_token(v, VariableTokenType::Variable, o, f)), f + 1, z, Mode::Filter)
    }
}

fn step_filter<'t>(v: &'t str, o: usize, z: usize) -> (r: (
    Result<VariableToken<'t>, VariableLexerError>,
    usize,
    usize,
    Mode,
))
    requires
        o < z <= v.spec_bytes().len(),
        cut_ok(v.spec_bytes(), o as int),
        cut_ok(v.spec_bytes(), z as int),
    ensures
        step_ok(v.spec_bytes(), o as int, z as int, Mode::Filter, r),
{
    let ghost b = v.spec_bytes();
    let bytes = v.as_bytes();
    proof {
        lemma_str_chars(v);
        lemma_find_byte(b, o as int, z as int, PIPE);
        lemma_find_byte(b, o as int, z as int, COLON);
    }
    let f = find_byte_in(bytes, o, z, PIPE);
    let a = find_byte_in(bytes, o, z, COLON);
    if f >= z && a >= z {
        (Ok(make_token(v, VariableTokenType::Filter, o, z)), z, z, Mode::Filter)
    } else if a < f {
        proof {
            lemma_cut_after_ascii(b, a as int);
        }
        (Ok(make_token(v, VariableTokenType::Filter, o, a)), a + 1, z, Mode::Argument)
    } else {
        proof {
            lemma_cut_after_ascii(b, f as int);
        }
        (Ok(make_token(v, VariableTokenType::Filter, o, f)), f + 1, z, Mode::Filter)
    }
}

/// After an argument token `tok` that ends at `q`, check what follows it.
fn remainder<'t>(v: &'t str, tok: VariableToken<'t>, q: usize, z: usize) -> (r: (
    Result<VariableToken<'t>, VariableLexerError>,
    usize,
    usize,
    Mode,
))
    requires
        q <= z <= v.spec_bytes().len(),
        cut_ok(v.spec_bytes(), q as int),
        cut_ok(v.spec_bytes(), z as int),
    ensures
        ({
            let (res, o2, z2, m) = with_remainder(
                v.spec_bytes(),
                (tok.token_type, tok.at.0 as int, tok.at.1 as int),
                q as int,
                z as int,
            );
            &&& match res {
                Ok(_) => r.0 == Ok::<VariableToken<'t>, VariableLexerError>(tok),
                Err(e) => r.0 == Err::<VariableToken<'t>, VariableLexerError>(e),
            }
            &&& r.1 == o2
            &&& r.2 == z2
            &&& r.3 == m
            &&& r.1 <= r.2 <= v.spec_bytes().len()
            &&& cut_ok(v.spec_bytes(), r.1 as int)
            &&& cut_ok(v.spec_bytes(), r.2 as int)
            &&& (within(Ok(tok), q as int) ==> within(r.0, z as int))
        }),
{
    let ghost b = v.spec_bytes();
    let bytes = v.as_bytes();
    proof {
        lemma_str_chars(v);
        lemma_find_byte(b, q as int, z as int, PIPE);
    }
    let f = find_byte_in(bytes, q, z, PIPE);
    if blank_in(v, q, f) {
        if f < z {
            proof {
                lemma_cut_after_ascii(b, f as int);
            }
            (Ok(tok), f + 1, z, Mode::Filter)
        } else {
            (Ok(tok), q, z, Mode::Filter)
        }
    } else {
        failed(VariableLexerError::InvalidRemainder { at: (q, f) }, z)
    }
}

/// A string literal whose opening quote is at `o`: the offset after its
/// closing quote.
fn scan_string(v: &str, o: usize, z: usize) -> (r: Result<usize, VariableLexerError>)
    requires
        o < z <= v.spec_bytes().len(),
    ensures
        match r {
            Ok(after) => {
                &&& lex_string(v.spec_bytes(), o as int, z as int) == Ok::<int, VariableLexerError>(
                    after as int,
                )
                &&& o + 2 <= after <= z
                &&& v.spec_bytes()[after - 1] == v.spec_bytes()[o as int]
            },
            Err(e) => lex_string(v.spec_bytes(), o as int, z as int) == Err::<
                int,
                VariableLexerError,
            >(e),
        },
{
    let ghost b = v.spec_bytes();
    let bytes = v.as_bytes();
    let q = bytes[o];
    proof {
        lemma_string_close(b, o + 1, z as int, q);
    }
    let k = string_close_in(bytes, o + 1, z, q);
    if k >= z {
        Err(VariableLexerError::IncompleteString { at: (o, z) })
    } else {
        Ok(k + 1)
    }
}

fn step_argument<'t>(v: &'t str, o: usize, z: usize) -> (r: (
    Result<VariableToken<'t>, VariableLexerError>,
    usize,
    usize,
    Mode,
))
    requires
        o < z <= v.spec_bytes().len(),
        cut_ok(v.spec_bytes(), o as int),
        cut_ok(v.spec_bytes(), z as int),
    ensures
        step_ok(v.spec_bytes(), o as int, z as int, Mode::Argument, r),
{
    let ghost b = v.spec_bytes();
    let bytes = v.as_bytes();
    proof {
        lemma_str_chars(v);
    }
    let c = bytes[o];
    if c == UNDERSCORE {
        if o + 1 < z && bytes[o + 1] == LPAREN {
            let s = o + 2;
            if s >= z {
                return failed(VariableLexerError::MissingTranslatedString { at: (o, s) }, z);
            }
            let q = bytes[s];
            if q == SQUOTE || q == DQUOTE {
                match scan_string(v, s, z) {
                    Err(e) => failed(e, z),
                    Ok(after) => {
                        if after < z && bytes[after] == RPAREN {
                            proof {
                                lemma_cut_after_ascii(b, s as int);
                                lemma_cut_after_ascii(b, after as int);
                            }
                            let tok = make_token(
                                v,
                                VariableTokenType::TranslatedText,
                                o,
                                after + 1,
                            );
                            remainder(v, tok, after + 1, z)
                        } else {
                            failed(
                                VariableLexerError::IncompleteTranslatedString { at: (o, after) },
                                z,
                            )
                        }
                    },
                }
            } else {
                failed(VariableLexerError::MissingTranslatedString { at: (o, z) }, z)
            }
        } else {
            let part = slice(v, o, z);
            let word = leading_word(part);
            proof {
                lemma_str_chars(part);
                lemma_word_unique(part@, word@.len() as int);
                lemma_split_bytes(part@, word@.len() as int);
            }
            let end = o + word.as_bytes().len();
            failed(VariableLexerError::LeadingUnderscore { at: (o, end) }, z)
        }
    } else if c == SQUOTE || c == DQUOTE {
        match scan_string(v, o, z) {
            Err(e) => failed(e, z),
            Ok(after) => {
                proof {
                    lemma_cut_after_ascii(b, o as int);
                    lemma_cut_after_ascii(b, after - 1);
                }
                let tok = make_token(v, VariableTokenType::Text, o, after);
                remainder(v, tok, after, z)
            },
        }
    } else if DIGIT_0 <= c && c <= DIGIT_9 {
        let n = numeric_end_in(bytes, o, z);
        proof {
            lemma_numeric_end(b, o as int, z as int);
            assert(is_numeric_byte(b[o as int]));
            lemma_cut_after_ascii(b, n - 1);
        }
        let tok = make_token(v, VariableTokenType::Numeric, o, n);
        remainder(v, tok, n, z)
    } else {
        step_path(v, o, z)
    }
}

/// One step of the lexer.
fn step<'t>(v: &'t str, o: usize, z: usize, mode: Mode) -> (r: (
    Result<VariableToken<'t>, VariableLexerError>,
    usize,
    usize,
    Mode,
))
    requires
        o < z <= v.spec_bytes().len(),
        cut_ok(v.spec_bytes(), o as int),
        cut_ok(v.spec_bytes(), z as int),
    ensures
        step_ok(v.spec_bytes(), o as int, z as int, mode, r),
{
    match mode {
        Mode::Variable => step_path(v, o, z),
        Mode::Filter => step_filter(v, o, z),
        Mode::Argument => step_argument(v, o, z),
    }
}

} // verus!
