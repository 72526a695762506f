//! The structural lexer: splits a template into text, `{{ variable }}`,
//! `{% tag %}` and `{# comment #}` tokens, passing verbatim blocks through as
//! text.
//!
//! The lexer is specified as a state machine over the template's bytes:
//! `lex_step` gives the token that starts at an offset in a given mode, and
//! `lex_from` the whole token sequence from there on.

use vstd::prelude::*;
use vstd::string::*;
use vstd::utf8::*;
use crate::text::{
    chars_of, cut_ok, lemma_cut_after_ascii, lemma_cut_start, lemma_str_chars, slice, str_eq, trim, trim_spec,
};

pub use crate::variable_lex::{VariableLexer, VariableLexerError, VariableToken, VariableTokenType};

verus! {

/// `{`
pub const LBRACE: u8 = 0x7b;

/// `}`
pub const RBRACE: u8 = 0x7d;

/// `%`
pub const PERCENT: u8 = 0x25;

/// `#`
pub const HASH: u8 = 0x23;

/// The four kinds of structural token.
#[derive(Clone, Copy, Debug, PartialEq, Eq, Structural)]
pub enum TokenKind {
    Text,
    Variable,
    Tag,
    Comment,
}

/// A token of the template. `at` is the half-open byte range `(start, end)`
/// that the token covers, delimiters included; the `&str` is the token's
/// text without its delimiters.
#[derive(Debug, PartialEq, Eq)]
pub enum Token<'t> {
    Text { text: &'t str, at: (usize, usize) },
    Variable { variable: &'t str, at: (usize, usize) },
    Tag { tag: &'t str, at: (usize, usize) },
    Comment { comment: &'t str, at: (usize, usize) },
}

/// A token as the specification sees it: its kind and its byte range.
pub type Lexeme = (TokenKind, int, int);

impl<'t> Token<'t> {
    pub open spec fn kind(&self) -> TokenKind {
        match self {
            Token::Text { .. } => TokenKind::Text,
            Token::Variable { .. } => TokenKind::Variable,
            Token::Tag { .. } => TokenKind::Tag,
            Token::Comment { .. } => TokenKind::Comment,
        }
    }

    pub open spec fn at(&self) -> (usize, usize) {
        match self {
            Token::Text { at, .. } => *at,
            Token::Variable { at, .. } => *at,
            Token::Tag { at, .. } => *at,
            Token::Comment { at, .. } => *at,
        }
    }

    pub open spec fn content(&self) -> &'t str {
        match self {
            Token::Text { text, .. } => *text,
            Token::Variable { variable, .. } => *variable,
            Token::Tag { tag, .. } => *tag,
            Token::Comment { comment, .. } => *comment,
        }
    }

    /// This token is lexeme `l` of buffer `b`, and its text is the lexeme's
    /// bytes without delimiters.
    pub open spec fn is_lexeme(&self, b: Seq<u8>, l: Lexeme) -> bool {
        &&& self.kind() == l.0
        &&& self.at().0 == l.1
        &&& self.at().1 == l.2
        &&& self.content().spec_bytes() == inner_bytes(b, l)
    }
}

/// The bytes of a lexeme without its delimiters.
pub open spec fn inner_bytes(b: Seq<u8>, l: Lexeme) -> Seq<u8> {
    if l.0 == TokenKind::Text {
        b.subrange(l.1, l.2)
    } else {
        b.subrange(l.1 + 2, l.2 - 2)
    }
}

/// The first offset `i >= from` at which the bytes `x y` occur, or the
/// buffer's length if there is none.
pub open spec fn find_pair(b: Seq<u8>, from: int, x: u8, y: u8) -> int
    decreases b.len() - from,
{
    if from < 0 || from + 1 >= b.len() {
        b.len() as int
    } else if b[from] == x && b[from + 1] == y {
        from
    } else {
        find_pair(b, from + 1, x, y)
    }
}

/// Whether `{{`, `{%` or `{#` starts at offset `i`.
pub open spec fn opener_at(b: Seq<u8>, i: int) -> bool {
    &&& 0 <= i
    &&& i + 1 < b.len()
    &&& b[i] == LBRACE
    &&& (b[i + 1] == LBRACE || b[i + 1] == PERCENT || b[i + 1] == HASH)
}

/// The first offset `i >= from` at which an opening delimiter starts, or the
/// buffer's length if there is none.
pub open spec fn next_opener(b: Seq<u8>, from: int) -> int
    decreases b.len() - from,
{
    if from < 0 || from + 1 >= b.len() {
        b.len() as int
    } else if opener_at(b, from) {
        from
    } else {
        next_opener(b, from + 1)
    }
}

/// The second byte of the closing delimiter that matches the opener whose
/// second byte is `k`: `}}`, `%}` or `#}`.
pub open spec fn closer(k: u8) -> u8 {
    if k == LBRACE {
        RBRACE
    } else {
        k
    }
}

pub open spec fn kind_of(k: u8) -> TokenKind {
    if k == LBRACE {
        TokenKind::Variable
    } else if k == PERCENT {
        TokenKind::Tag
    } else {
        TokenKind::Comment
    }
}

/// Trimmed tag content that opens a verbatim block.
pub open spec fn is_verbatim_opener(t: Seq<char>) -> bool {
    t == "verbatim"@ || ("verbatim "@.len() <= t.len() && t.take("verbatim "@.len() as int)
        == "verbatim "@)
}

/// Trimmed tag content that closes the verbatim block opened by `ident`:
/// everything from its fourth character on is `ident`.
pub open spec fn closes(t: Seq<char>, ident: Seq<char>) -> bool {
    t.len() >= 3 && t.skip(3) == ident
}

/// The trimmed characters between offsets `a` and `c`.
pub open spec fn trimmed(b: Seq<u8>, a: int, c: int) -> Seq<char> {
    trim_spec(chars_of(b.subrange(a, c)))
}

/// In verbatim mode, the offset of the `{%` that starts the tag closing
/// the block opened by `ident`, searching from `from`; the buffer's length if
/// there is none.
pub open spec fn verbatim_close(b: Seq<u8>, from: int, ident: Seq<char>) -> int
    decreases b.len() - from,
    via verbatim_close_decreases
{
    if from < 0 || from > b.len() {
        b.len() as int
    } else {
        let s = find_pair(b, from, LBRACE, PERCENT);
        if s >= b.len() {
            b.len() as int
        } else {
            let c = find_pair(b, s + 2, PERCENT, RBRACE);
            if c >= b.len() {
                b.len() as int
            } else if closes(trimmed(b, s + 2, c), ident) {
                s
            } else {
                verbatim_close(b, c + 2, ident)
            }
        }
    }
}

#[via_fn]
proof fn verbatim_close_decreases(b: Seq<u8>, from: int, ident: Seq<char>) {
    if 0 <= from <= b.len() {
        lemma_find_pair(b, from, LBRACE, PERCENT);
        let s = find_pair(b, from, LBRACE, PERCENT);
        if s < b.len() {
            lemma_find_pair(b, s + 2, PERCENT, RBRACE);
        }
    }
}

/// The token that starts at offset `p` in mode `mode` (`None` outside a
/// verbatim block, `Some(ident)` inside one): its kind, its end, and the mode
/// after it.
pub open spec fn lex_step(b: Seq<u8>, p: int, mode: Option<Seq<char>>) -> (
    TokenKind,
    int,
    Option<Seq<char>>,
) {
    match mode {
        None => {
            if opener_at(b, p) {
                let k = b[p + 1];
                let c = find_pair(b, p + 2, closer(k), RBRACE);
                if c >= b.len() {
                    (TokenKind::Text, b.len() as int, None)
                } else {
                    let t = trimmed(b, p + 2, c);
                    (
                        kind_of(k),
                        c + 2,
                        if k == PERCENT && is_verbatim_opener(t) {
                            Some(t)
                        } else {
                            None
                        },
                    )
                }
            } else {
                (TokenKind::Text, next_opener(b, p), None)
            }
        },
        Some(ident) => {
            let s = verbatim_close(b, p, ident);
            if s >= b.len() {
                (TokenKind::Text, b.len() as int, None)
            } else if s == p {
                (TokenKind::Tag, find_pair(b, p + 2, PERCENT, RBRACE) + 2, None)
            } else {
                (TokenKind::Text, s, None)
            }
        },
    }
}

/// The tokens from offset `p` in mode `mode` to the end of the buffer.
pub open spec fn lex_from(b: Seq<u8>, p: int, mode: Option<Seq<char>>) -> Seq<Lexeme>
    decreases b.len() - p,
    via lex_from_decreases
{
    if p < 0 || p >= b.len() {
        Seq::empty()
    } else {
        let (k, e, m) = lex_step(b, p, mode);
        seq![(k, p, e)] + lex_from(b, e, m)
    }
}

#[via_fn]
proof fn lex_from_decreases(b: Seq<u8>, p: int, mode: Option<Seq<char>>) {
    if 0 <= p < b.len() {
        lemma_step_advances(b, p, mode);
    }
}

/// The tokens of a whole template.
pub open spec fn lex_tokens(b: Seq<u8>) -> Seq<Lexeme> {
    lex_from(b, 0, None)
}

pub proof fn lemma_find_pair(b: Seq<u8>, from: int, x: u8, y: u8)
    requires
        0 <= from,
    ensures
        from <= find_pair(b, from, x, y) <= b.len() || (from > b.len() && find_pair(b, from, x, y)
            == b.len()),
        find_pair(b, from, x, y) < b.len() ==> {
            let r = find_pair(b, from, x, y);
            r + 1 < b.len() && b[r] == x && b[r + 1] == y
        },
        forall|i: int|
            from <= i < find_pair(b, from, x, y) && i + 1 < b.len() ==> !(#[trigger] b[i] == x
                && b[i + 1] == y),
    decreases b.len() - from,
{
    if from + 1 < b.len() && !(b[from] == x && b[from + 1] == y) {
        lemma_find_pair(b, from + 1, x, y);
    }
}

pub proof fn lemma_next_opener(b: Seq<u8>, from: int)
    requires
        0 <= from <= b.len(),
    ensures
        from <= next_opener(b, from) <= b.len(),
        next_opener(b, from) < b.len() ==> opener_at(b, next_opener(b, from)),
        forall|i: int| from <= i < next_opener(b, from) ==> !opener_at(b, i),
    decreases b.len() - from,
{
    if from + 1 < b.len() && !opener_at(b, from) {
        lemma_next_opener(b, from + 1);
    }
}

pub proof fn lemma_verbatim_close(b: Seq<u8>, from: int, ident: Seq<char>)
    requires
        0 <= from <= b.len(),
    ensures
        from <= verbatim_close(b, from, ident) <= b.len(),
        verbatim_close(b, from, ident) < b.len() ==> {
            let s = verbatim_close(b, from, ident);
            &&& s + 1 < b.len()
            &&& b[s] == LBRACE
            &&& b[s + 1] == PERCENT
            &&& find_pair(b, s + 2, PERCENT, RBRACE) < b.len()
        },
    decreases b.len() - from,
{
    lemma_find_pair(b, from, LBRACE, PERCENT);
    let s = find_pair(b, from, LBRACE, PERCENT);
    if s < b.len() {
        lemma_find_pair(b, s + 2, PERCENT, RBRACE);
        let c = find_pair(b, s + 2, PERCENT, RBRACE);
        if c < b.len() && !closes(trimmed(b, s + 2, c), ident) {
            lemma_verbatim_close(b, c + 2, ident);
        }
    }
}

/// Each step covers at least one byte and stays within the buffer.
pub proof fn lemma_step_advances(b: Seq<u8>, p: int, mode: Option<Seq<char>>)
    requires
        0 <= p < b.len(),
    ensures
        p < lex_step(b, p, mode).1 <= b.len(),
        lex_step(b, p, mode).0 != TokenKind::Text ==> p + 4 <= lex_step(b, p, mode).1,
{
    match mode {
        None => {
            if opener_at(b, p) {
                lemma_find_pair(b, p + 2, closer(b[p + 1]), RBRACE);
            } else {
                lemma_next_opener(b, p);
            }
        },
        Some(ident) => {
            lemma_verbatim_close(b, p, ident);
            lemma_find_pair(b, p + 2, PERCENT, RBRACE);
        },
    }
}

/// The tokens from `p` on cover `p..len` contiguously, in order.
pub proof fn lemma_lex_from_contiguous(b: Seq<u8>, p: int, mode: Option<Seq<char>>)
    requires
        0 <= p <= b.len(),
    ensures
        ({
            let t = lex_from(b, p, mode);
            &&& (t.len() == 0 <==> p == b.len())
            &&& t.len() > 0 ==> t[0].1 == p && t.last().2 == b.len()
            &&& forall|i: int| 0 <= i < t.len() ==> #[trigger] t[i].1 < t[i].2
            &&& forall|i: int| 0 <= i < t.len() - 1 ==> #[trigger] t[i].2 == t[i + 1].1
        }),
    decreases b.len() - p,
{
    if p < b.len() {
        lemma_step_advances(b, p, mode);
        let (k, e, m) = lex_step(b, p, mode);
        lemma_lex_from_contiguous(b, e, m);
        let rest = lex_from(b, e, m);
        let t = lex_from(b, p, mode);
        assert(t == seq![(k, p, e)] + rest);
        assert forall|i: int| 0 <= i < t.len() implies #[trigger] t[i].1 < t[i].2 by {
            if i > 0 {
                assert(t[i] == rest[i - 1]);
            }
        }
        assert forall|i: int| 0 <= i < t.len() - 1 implies #[trigger] t[i].2 == t[i + 1].1 by {
            if i > 0 {
                assert(t[i] == rest[i - 1]);
                assert(t[i + 1] == rest[i]);
            }
        }
        if rest.len() > 0 {
            assert(t.last() == rest.last());
        }
    }
}

/// The bytes that a sequence of lexemes covers, concatenated.
pub open spec fn covered(b: Seq<u8>, t: Seq<Lexeme>) -> Seq<u8>
    decreases t.len(),
{
    if t.len() == 0 {
        Seq::empty()
    } else {
        b.subrange(t[0].1, t[0].2) + covered(b, t.drop_first())
    }
}

proof fn lemma_covered_from(b: Seq<u8>, p: int, mode: Option<Seq<char>>)
    requires
        0 <= p <= b.len(),
    ensures
        covered(b, lex_from(b, p, mode)) == b.subrange(p, b.len() as int),
    decreases b.len() - p,
{
    let t = lex_from(b, p, mode);
    if p == b.len() {
        assert(b.subrange(p, b.len() as int) =~= Seq::<u8>::empty());
    } else {
        lemma_step_advances(b, p, mode);
        let (k, e, m) = lex_step(b, p, mode);
        lemma_covered_from(b, e, m);
        assert(t.drop_first() == lex_from(b, e, m));
        assert(b.subrange(p, e) + b.subrange(e, b.len() as int) =~= b.subrange(p, b.len() as int));
    }
}

/// The tokens of a template partition it: they cover `0..len` in order with
/// no gap and no overlap, each token is non-empty, and concatenating the
/// bytes of their spans gives back the template.
pub proof fn lemma_tokens_partition(b: Seq<u8>)
    ensures
        ({
            let t = lex_tokens(b);
            &&& (t.len() == 0 <==> b.len() == 0)
            &&& t.len() > 0 ==> t[0].1 == 0 && t.last().2 == b.len()
            &&& forall|i: int| 0 <= i < t.len() ==> #[trigger] t[i].1 < t[i].2
            &&& forall|i: int| 0 <= i < t.len() - 1 ==> #[trigger] t[i].2 == t[i + 1].1
            &&& covered(b, t) == b
        }),
{
    lemma_lex_from_contiguous(b, 0, None);
    lemma_covered_from(b, 0, None);
    assert(b.subrange(0, b.len() as int) =~= b);
}

/// Lexing the text that the tokens' spans reconstruct gives the same tokens
/// as lexing the template itself.
pub proof fn lemma_relex_reconstruction(b: Seq<u8>)
    ensures
        lex_tokens(covered(b, lex_tokens(b))) == lex_tokens(b),
{
    lemma_tokens_partition(b);
}

/// The first offset `>= from` at which the bytes `x y` occur, or `b.len()`.
pub(crate) fn find_pair_in(b: &[u8], from: usize, x: u8, y: u8) -> (r: usize)
    ensures
        r == find_pair(b@, from as int, x, y),
{
    let mut i = from;
    while i < b.len() && i + 1 < b.len()
        invariant
            from <= i,
            find_pair(b@, i as int, x, y) == find_pair(b@, from as int, x, y),
        decreases b@.len() - i,
    {
        if b[i] == x && b[i + 1] == y {
            return i;
        }
        i = i + 1;
    }
    b.len()
}

fn next_opener_in(b: &[u8], from: usize) -> (r: usize)
    ensures
        r == next_opener(b@, from as int),
{
    let mut i = from;
    while i < b.len() && i + 1 < b.len()
        invariant
            from <= i,
            next_opener(b@, i as int) == next_opener(b@, from as int),
        decreases b@.len() - i,
    {
        if b[i] == LBRACE && (b[i + 1] == LBRACE || b[i + 1] == PERCENT || b[i + 1] == HASH) {
            return i;
        }
        i = i + 1;
    }
    b.len()
}

fn is_verbatim_opener_exec(t: &str) -> (r: bool)
    ensures
        r == is_verbatim_opener(t@),
{
    if str_eq(t, "verbatim") {
        return true;
    }
    let word = "verbatim ";
    let n = t.unicode_len();
    let w = word.unicode_len();
    if w <= n {
        let head = t.substring_char(0, w);
        proof {
            assert(t@.subrange(0, w as int) == t@.take(w as int));
        }
        str_eq(head, word)
    } else {
        false
    }
}

fn closes_exec(t: &str, ident: &str) -> (r: bool)
    ensures
        r == closes(t@, ident@),
{
    let n = t.unicode_len();
    if n < 3 {
        return false;
    }
    let tail = t.substring_char(3, n);
    proof {
        assert(t@.subrange(3, n as int) == t@.skip(3));
    }
    str_eq(tail, ident)
}

/// The structural lexer over one template.
pub struct Lexer<'t> {
    template: &'t str,
    byte: usize,
    /// The template's length in bytes.
    len: usize,
    verbatim: Option<&'t str>,
}

impl<'t> Lexer<'t> {
    /// The template being lexed.
    pub closed spec fn source(&self) -> &'t str {
        self.template
    }

    /// The offset of the next token.
    pub closed spec fn position(&self) -> int {
        self.byte as int
    }

    /// The lexer's mode: `Some(ident)` inside a verbatim block opened by
    /// `ident`.
    pub closed spec fn mode(&self) -> Option<Seq<char>> {
        match self.verbatim {
            Some(v) => Some(v@),
            None => None,
        }
    }

    pub closed spec fn wf(&self) -> bool {
        &&& self.len == self.template.spec_bytes().len()
        &&& self.byte <= self.len
        &&& cut_ok(self.template.spec_bytes(), self.byte as int)
    }

    /// The offset of the next token lies within the template, whose length
    /// fits a `usize`.
    pub proof fn lemma_position(&self)
        requires
            self.wf(),
        ensures
            0 <= self.position() <= self.source().spec_bytes().len() <= usize::MAX,
    {
    }

    /// The tokens that this lexer has yet to produce.
    pub open spec fn remaining(&self) -> Seq<Lexeme> {
        lex_from(self.source().spec_bytes(), self.position(), self.mode())
    }

    pub fn new(template: &'t str) -> (r: Self)
        ensures
            r.wf(),
            r.source() == template,
            r.position() == 0,
            r.mode() is None,
            r.remaining() == lex_tokens(template.spec_bytes()),
    {
        proof {
            lemma_str_chars(template);
            lemma_cut_start(template.spec_bytes());
        }
        Lexer { template, byte: 0, len: template.as_bytes().len(), verbatim: None }
    }

    /// A text token from the current offset to `end`.
    fn text_to(&mut self, end: usize) -> (r: Token<'t>)
        requires
            old(self).wf(),
            old(self).byte < end <= old(self).template.spec_bytes().len(),
            cut_ok(old(self).template.spec_bytes(), end as int),
        ensures
            final(self).template == old(self).template,
            final(self).byte == end,
            final(self).verbatim is None,
            final(self).wf(),
            r.is_lexeme(
                old(self).template.spec_bytes(),
                (TokenKind::Text, old(self).byte as int, end as int),
            ),
    {
        let start = self.byte;
        let text = slice(self.template, start, end);
        self.byte = end;
        self.verbatim = None;
        Token::Text { text, at: (start, end) }
    }

    /// A delimited token from the current offset, whose closing delimiter
    /// starts at `close`.
    fn delimited(&mut self, kind: TokenKind, close: usize) -> (r: Token<'t>)
        requires
            old(self).wf(),
            kind != TokenKind::Text,
            old(self).byte + 2 <= close,
            close + 2 <= old(self).template.spec_bytes().len(),
            old(self).template.spec_bytes()[old(self).byte + 1] < 0x80,
            old(self).template.spec_bytes()[close as int] < 0x80,
            old(self).template.spec_bytes()[close + 1] < 0x80,
        ensures
            final(self).template == old(self).template,
            final(self).byte == close + 2,
            final(self).verbatim == old(self).verbatim,
            final(self).wf(),
            r.is_lexeme(
                old(self).template.spec_bytes(),
                (kind, old(self).byte as int, close + 2),
            ),
    {
        let ghost b = self.template.spec_bytes();
        proof {
            lemma_str_chars(self.template);
            lemma_cut_after_ascii(b, self.byte + 1);
            lemma_cut_after_ascii(b, close + 1);
        }
        let start = self.byte;
        let content = slice(self.template, start + 2, close);
        let at = (start, close + 2);
        self.byte = close + 2;
        match kind {
            TokenKind::Variable => Token::Variable { variable: content, at },
            TokenKind::Tag => Token::Tag { tag: content, at },
            _ => Token::Comment { comment: content, at },
        }
    }

    /// The trimmed characters between offsets `a` and `c` of the template.
    fn trimmed_content(&self, a: usize, c: usize) -> (r: &'t str)
        requires
            self.wf(),
            2 <= a <= c < self.template.spec_bytes().len(),
            self.template.spec_bytes()[a - 1] < 0x80,
            self.template.spec_bytes()[c as int] < 0x80,
        ensures
            r@ == trimmed(self.template.spec_bytes(), a as int, c as int),
    {
        let ghost b = self.template.spec_bytes();
        proof {
            lemma_str_chars(self.template);
            lemma_cut_after_ascii(b, a - 1);
        }
        let raw = slice(self.template, a, c);
        proof {
            lemma_str_chars(raw);
        }
        trim(raw)
    }

    fn lex_tag(&mut self) -> (r: Token<'t>)
        requires
            old(self).wf(),
            old(self).verbatim is None,
            opener_at(old(self).template.spec_bytes(), old(self).byte as int),
        ensures
            final(self).template == old(self).template,
            final(self).wf(),
            ({
                let b = old(self).template.spec_bytes();
                let (k, e, m) = lex_step(b, old(self).byte as int, None);
                &&& r.is_lexeme(b, (k, old(self).byte as int, e))
                &&& final(self).byte == e
                &&& final(self).mode() == m
            }),
    {
        let ghost b = self.template.spec_bytes();
        let bytes = self.template.as_bytes();
        let start = self.byte;
        let k = bytes[start + 1];
        let end_byte = if k == LBRACE {
            RBRACE
        } else {
            k
        };
        let close = find_pair_in(bytes, start + 2, end_byte, RBRACE);
        proof {
            lemma_find_pair(b, start + 2, end_byte, RBRACE);
        }
        if close >= bytes.len() {
            return self.text_to(bytes.len());
        }
        if k == LBRACE {
            self.delimited(TokenKind::Variable, close)
        } else if k == HASH {
            self.delimited(TokenKind::Comment, close)
        } else {
            let t = self.trimmed_content(start + 2, close);
            let token = self.delimited(TokenKind::Tag, close);
            if is_verbatim_opener_exec(t) {
                self.verbatim = Some(t);
            }
            token
        }
    }

    fn lex_verbatim(&mut self, ident: &'t str) -> (r: Token<'t>)
        requires
            old(self).wf(),
            old(self).verbatim == Some(ident),
            old(self).byte < old(self).template.spec_bytes().len(),
        ensures
            final(self).template == old(self).template,
            final(self).wf(),
            ({
                let b = old(self).template.spec_bytes();
                let (k, e, m) = lex_step(b, old(self).byte as int, Some(ident@));
                &&& r.is_lexeme(b, (k, old(self).byte as int, e))
                &&& final(self).byte == e
                &&& final(self).mode() == m
            }),
    {
        let ghost b = self.template.spec_bytes();
        let bytes = self.template.as_bytes();
        let len = bytes.len();
        let start = self.byte;
        let mut from = start;
        loop
            invariant
                bytes@ == b,
                len == b.len(),
                start <= from <= len,
                start < len,
                old(self).byte == start,
                old(self).verbatim == Some(ident),
                self.wf(),
                self.byte == start,
                self.template == old(self).template,
                self.verbatim == old(self).verbatim,
                self.template.spec_bytes() == b,
                verbatim_close(b, from as int, ident@) == verbatim_close(b, start as int, ident@),
            decreases len + 1 - from,
        {
            let s = find_pair_in(bytes, from, LBRACE, PERCENT);
            proof {
                lemma_find_pair(b, from as int, LBRACE, PERCENT);
            }
            if s >= len {
                proof {
                    assert(verbatim_close(b, start as int, ident@) == b.len());
                }
                return self.text_to(len);
            }
            let c = find_pair_in(bytes, s + 2, PERCENT, RBRACE);
            proof {
                lemma_find_pair(b, s + 2, PERCENT, RBRACE);
            }
            if c >= len {
                proof {
                    assert(verbatim_close(b, start as int, ident@) == b.len());
                }
                return self.text_to(len);
            }
            let t = self.trimmed_content(s + 2, c);
            if closes_exec(t, ident) {
                proof {
                    lemma_str_chars(self.template);
                    assert(verbatim_close(b, start as int, ident@) == s as int);
                }
                if s == start {
                    self.verbatim = None;
                    let token = self.delimited(TokenKind::Tag, c);
                    proof {
                        assert(lex_step(b, start as int, Some(ident@)) == (TokenKind::Tag, c + 2, None::<Seq<char>>));
                    }
                    return token;
                } else {
                    let token = self.text_to(s);
                    proof {
                        assert(lex_step(b, start as int, Some(ident@)) == (TokenKind::Text, s as int, None::<Seq<char>>));
                    }
                    return token;
                }
            }
            proof {
                assert(verbatim_close(b, from as int, ident@) == verbatim_close(b, c + 2, ident@));
            }
            from = c + 2;
        }
    }

    /// The next token, or `None` at the end of the template.
    pub fn next(&mut self) -> (r: Option<Token<'t>>)
        requires
            old(self).wf(),
        ensures
            final(self).wf(),
            final(self).source() == old(self).source(),
            ({
                let b = old(self).source().spec_bytes();
                let p = old(self).position();
                if p >= b.len() {
                    r is None && final(self).position() == p && final(self).mode()
                        == old(self).mode()
                } else {
                    let (k, e, m) = lex_step(b, p, old(self).mode());
                    &&& r is Some
                    &&& r->0.is_lexeme(b, (k, p, e))
                    &&& final(self).position() == e
                    &&& final(self).mode() == m
                }
            }),
    {
        let ghost b = self.template.spec_bytes();
        let bytes = self.template.as_bytes();
        if self.byte >= bytes.len() {
            return None;
        }
        match self.verbatim {
            Some(ident) => Some(self.lex_verbatim(ident)),
            None => {
                let start = self.byte;
                if start + 1 < bytes.len() && bytes[start] == LBRACE && (bytes[start + 1] == LBRACE
                    || bytes[start + 1] == PERCENT || bytes[start + 1] == HASH) {
                    Some(self.lex_tag())
                } else {
                    let next = next_opener_in(bytes, start);
                    proof {
                        lemma_next_opener(b, start as int);
                    }
                    Some(self.text_to(next))
                }
            },
        }
    }

    /// All the remaining tokens, in order.
    pub fn collect(self) -> (r: Vec<Token<'t>>)
        requires
            self.wf(),
        ensures
            r@.len() == self.remaining().len(),
            forall|i: int|
                0 <= i < r@.len() ==> #[trigger] r@[i].is_lexeme(
                    self.source().spec_bytes(),
                    self.remaining()[i],
                ),
    {
        let ghost b = self.source().spec_bytes();
        let ghost all = self.remaining();
        let mut lexer = self;
        let mut tokens: Vec<Token<'t>> = Vec::new();
        let ghost mut done: Seq<Lexeme> = Seq::empty();
        loop
            invariant
                lexer.wf(),
                all == self.remaining(),
                b == self.source().spec_bytes(),
                lexer.source().spec_bytes() == b,
                0 <= lexer.position() <= b.len(),
                done + lexer.remaining() == all,
                tokens@.len() == done.len(),
                forall|i: int| 0 <= i < done.len() ==> #[trigger] tokens@[i].is_lexeme(b, done[i]),
            decreases b.len() - lexer.position(),
        {
            let ghost p = lexer.position();
            let ghost m = lexer.mode();
            proof {
                if p < b.len() {
                    lemma_step_advances(b, p, m);
                }
            }
            match lexer.next() {
                None => {
                    proof {
                        assert(lexer.remaining() =~= Seq::<Lexeme>::empty());
                        assert(done + lexer.remaining() =~= done);
                    }
                    return tokens;
                },
                Some(token) => {
                    proof {
                        let (k, e, m2) = lex_step(b, p, m);
                        assert(lex_from(b, p, m) == seq![(k, p, e)] + lex_from(b, e, m2));
                        assert(done.push((k, p, e)) + lex_from(b, e, m2) =~= done + lex_from(
                            b,
                            p,
                            m,
                        ));
                        done = done.push((k, p, e));
                    }
                    tokens.push(token);
                },
            }
        }
    }
}

} // verus!
