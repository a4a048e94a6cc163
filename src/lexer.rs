//! The lexer: text to tokens.
use vstd::prelude::*;
use crate::text::{advance, byte_len, chars_of, copy_range, is_ws, is_ws_char, utf8_size};

verus! {

#[derive(Clone, Copy, PartialEq, Eq, Debug, Structural)]
pub enum TokenKind {
    /// An identifier or a quoted string.
    Id,
    LBrace,
    RBrace,
    LBracket,
    RBracket,
    Semicolon,
    Comma,
    Equals,
    /// `->`
    Arrow,
    /// `--`
    Line,
    Strict,
    Graph,
    Digraph,
    Subgraph,
    Node,
    Edge,
}

/// One token: its kind, its text (for a quoted string, the text between the
/// quotes with `\"` turned into `"`), whether it was quoted, and the byte
/// offset of its first character in the lexed text.
#[derive(Debug)]
pub struct Token {
    pub kind: TokenKind,
    pub text: Vec<char>,
    pub quoted: bool,
    pub offset: usize,
}

pub ghost struct TokenView {
    pub kind: TokenKind,
    pub text: Seq<char>,
    pub quoted: bool,
    pub offset: nat,
}

impl View for Token {
    type V = TokenView;

    open spec fn view(&self) -> TokenView {
        TokenView { kind: self.kind, text: self.text@, quoted: self.quoted, offset: self.offset as nat }
    }
}

#[derive(Clone, Copy, PartialEq, Eq, Debug, Structural)]
pub enum LexErrorReason {
    /// A `"` with no closing `"` after it.
    UnterminatedString,
    /// A character that can start no token.
    UnexpectedChar(char),
}

/// A lexing failure, at the byte offset where the bad token starts.
#[derive(Clone, Copy, PartialEq, Eq, Debug, Structural)]
pub struct LexError {
    pub offset: usize,
    pub reason: LexErrorReason,
}

/// Characters that make up an unquoted identifier: ASCII letters and digits,
/// and `_`. Any other name is written quoted.
pub open spec fn is_id_char(c: char) -> bool {
    ||| ('a' <= c && c <= 'z')
    ||| ('A' <= c && c <= 'Z')
    ||| ('0' <= c && c <= '9')
    ||| c == '_'
}

fn is_id_char_exec(c: char) -> (r: bool)
    ensures
        r == is_id_char(c),
{
    ('a' <= c && c <= 'z') || ('A' <= c && c <= 'Z') || ('0' <= c && c <= '9') || c == '_'
}

/// The one-character tokens.
pub open spec fn punct_kind(c: char) -> Option<TokenKind> {
    if c == '{' {
        Some(TokenKind::LBrace)
    } else if c == '}' {
        Some(TokenKind::RBrace)
    } else if c == '[' {
        Some(TokenKind::LBracket)
    } else if c == ']' {
        Some(TokenKind::RBracket)
    } else if c == ';' {
        Some(TokenKind::Semicolon)
    } else if c == ',' {
        Some(TokenKind::Comma)
    } else if c == '=' {
        Some(TokenKind::Equals)
    } else {
        None
    }
}

fn punct_kind_exec(c: char) -> (r: Option<TokenKind>)
    ensures
        r == punct_kind(c),
{
    if c == '{' {
        Some(TokenKind::LBrace)
    } else if c == '}' {
        Some(TokenKind::RBrace)
    } else if c == '[' {
        Some(TokenKind::LBracket)
    } else if c == ']' {
        Some(TokenKind::RBracket)
    } else if c == ';' {
        Some(TokenKind::Semicolon)
    } else if c == ',' {
        Some(TokenKind::Comma)
    } else if c == '=' {
        Some(TokenKind::Equals)
    } else {
        None
    }
}

/// ASCII upper-case letters to lower case; every other character unchanged.
pub open spec fn lower(c: char) -> char {
    if 'A' <= c && c <= 'Z' {
        ((c as u8) + 32) as char
    } else {
        c
    }
}

/// `t` spells the lower-case word `kw`, ignoring ASCII case.
pub open spec fn spells(t: Seq<char>, kw: Seq<char>) -> bool {
    t.len() == kw.len() && forall|i: int| 0 <= i < t.len() ==> lower(#[trigger] t[i]) == kw[i]
}

/// The kind of an unquoted word: one of the keywords, in any case, or an identifier.
pub open spec fn word_kind(t: Seq<char>) -> TokenKind {
    if spells(t, seq!['s', 't', 'r', 'i', 'c', 't']) {
        TokenKind::Strict
    } else if spells(t, seq!['g', 'r', 'a', 'p', 'h']) {
        TokenKind::Graph
    } else if spells(t, seq!['d', 'i', 'g', 'r', 'a', 'p', 'h']) {
        TokenKind::Digraph
    } else if spells(t, seq!['s', 'u', 'b', 'g', 'r', 'a', 'p', 'h']) {
        TokenKind::Subgraph
    } else if spells(t, seq!['n', 'o', 'd', 'e']) {
        TokenKind::Node
    } else if spells(t, seq!['e', 'd', 'g', 'e']) {
        TokenKind::Edge
    } else {
        TokenKind::Id
    }
}

fn spells_exec(t: &[char], kw: &[char]) -> (r: bool)
    ensures
        r == spells(t@, kw@),
{
    if t.len() != kw.len() {
        return false;
    }
    let mut i: usize = 0;
    while i < t.len()
        invariant
            t@.len() == kw@.len(),
            i <= t.len(),
            forall|j: int| 0 <= j < i ==> lower(#[trigger] t@[j]) == kw@[j],
        decreases t.len() - i,
    {
        let c = t[i];
        let l = if 'A' <= c && c <= 'Z' {
            ((c as u8) + 32) as char
        } else {
            c
        };
        if l != kw[i] {
            return false;
        }
        i = i + 1;
    }
    true
}

fn word_kind_exec(t: &[char]) -> (r: TokenKind)
    ensures
        r == word_kind(t@),
{
    let strict = ['s', 't', 'r', 'i', 'c', 't'];
    let graph = ['g', 'r', 'a', 'p', 'h'];
    let digraph = ['d', 'i', 'g', 'r', 'a', 'p', 'h'];
    let subgraph = ['s', 'u', 'b', 'g', 'r', 'a', 'p', 'h'];
    let node = ['n', 'o', 'd', 'e'];
    let edge = ['e', 'd', 'g', 'e'];
    assert(strict@ =~= seq!['s', 't', 'r', 'i', 'c', 't']);
    assert(graph@ =~= seq!['g', 'r', 'a', 'p', 'h']);
    assert(digraph@ =~= seq!['d', 'i', 'g', 'r', 'a', 'p', 'h']);
    assert(subgraph@ =~= seq!['s', 'u', 'b', 'g', 'r', 'a', 'p', 'h']);
    assert(node@ =~= seq!['n', 'o', 'd', 'e']);
    assert(edge@ =~= seq!['e', 'd', 'g', 'e']);
    if spells_exec(t, &strict) {
        TokenKind::Strict
    } else if spells_exec(t, &graph) {
        TokenKind::Graph
    } else if spells_exec(t, &digraph) {
        TokenKind::Digraph
    } else if spells_exec(t, &subgraph) {
        TokenKind::Subgraph
    } else if spells_exec(t, &node) {
        TokenKind::Node
    } else if spells_exec(t, &edge) {
        TokenKind::Edge
    } else {
        TokenKind::Id
    }
}

/// Where the scanner stands between two characters: between tokens, inside an
/// unquoted word, or inside a quoted string.
#[derive(Clone, Copy, PartialEq, Eq, Debug, Structural)]
pub enum Scan {
    Between,
    Word,
    Quoted,
}

pub open spec fn scan_rank(m: Scan) -> nat {
    if m is Between {
        0
    } else {
        1
    }
}

/// `t` in front of the tokens of `r`, or the error of `r`.
pub open spec fn cons(t: TokenView, r: Result<Seq<TokenView>, LexError>) -> Result<
    Seq<TokenView>,
    LexError,
> {
    match r {
        Ok(ts) => Ok(seq![t] + ts),
        Err(e) => Err(e),
    }
}

/// The tokens of `s` from index `i` on, in scanning state `m`; `start` is where
/// the current word or string began, `acc` the string's text read so far.
pub open spec fn lex_from(s: Seq<char>, i: nat, m: Scan, start: nat, acc: Seq<char>) -> Result<
    Seq<TokenView>,
    LexError,
>
    decreases s.len() - i, scan_rank(m),
{
    match m {
        Scan::Word => {
            if i < s.len() && is_id_char(s[i as int]) {
                lex_from(s, i + 1, Scan::Word, start, acc)
            } else {
                let t = s.subrange(start as int, i as int);
                cons(
                    TokenView { kind: word_kind(t), text: t, quoted: false, offset: utf8_size(s.take(start as int)) },
                    lex_from(s, i, Scan::Between, 0, Seq::empty()),
                )
            }
        },
        Scan::Quoted => {
            if i >= s.len() {
                Err(LexError {
                    offset: utf8_size(s.take(start as int)) as usize,
                    reason: LexErrorReason::UnterminatedString,
                })
            } else if s[i as int] == '"' {
                cons(
                    TokenView { kind: TokenKind::Id, text: acc, quoted: true, offset: utf8_size(s.take(start as int)) },
                    lex_from(s, i + 1, Scan::Between, 0, Seq::empty()),
                )
            } else if s[i as int] == '\\' && i + 1 < s.len() && s[i + 1 as int] == '"' {
                lex_from(s, i + 2, Scan::Quoted, start, acc.push('"'))
            } else {
                lex_from(s, i + 1, Scan::Quoted, start, acc.push(s[i as int]))
            }
        },
        Scan::Between => {
            if i >= s.len() {
                Ok(Seq::empty())
            } else {
                let c = s[i as int];
                if is_ws(c) {
                    lex_from(s, i + 1, Scan::Between, 0, Seq::empty())
                } else if c == '"' {
                    lex_from(s, i + 1, Scan::Quoted, i, Seq::empty())
                } else if is_id_char(c) {
                    lex_from(s, i + 1, Scan::Word, i, Seq::empty())
                } else if punct_kind(c) is Some {
                    cons(
                        TokenView { kind: punct_kind(c)->0, text: seq![c], quoted: false, offset: utf8_size(s.take(i as int)) },
                        lex_from(s, i + 1, Scan::Between, 0, Seq::empty()),
                    )
                } else if c == '-' && i + 1 < s.len() && (s[i + 1 as int] == '>' || s[i + 1 as int] == '-') {
                    let kind = if s[i + 1 as int] == '>' {
                        TokenKind::Arrow
                    } else {
                        TokenKind::Line
                    };
                    cons(
                        TokenView {
                            kind,
                            text: s.subrange(i as int, i + 2 as int),
                            quoted: false,
                            offset: utf8_size(s.take(i as int)),
                        },
                        lex_from(s, i + 2, Scan::Between, 0, Seq::empty()),
                    )
                } else {
                    Err(LexError {
                        offset: utf8_size(s.take(i as int)) as usize,
                        reason: LexErrorReason::UnexpectedChar(c),
                    })
                }
            }
        },
    }
}

/// The tokens of `s`: whitespace between tokens is skipped, words and quoted
/// strings are read whole, `->` and `--` are edge operators.
pub open spec fn lex(s: Seq<char>) -> Result<Seq<TokenView>, LexError> {
    lex_from(s, 0, Scan::Between, 0, Seq::empty())
}

pub open spec fn views(ts: Seq<Token>) -> Seq<TokenView> {
    ts.map_values(|t: Token| t@)
}

/// `ts` in front of the tokens of `r`, or the error of `r`.
pub open spec fn prepend(ts: Seq<TokenView>, r: Result<Seq<TokenView>, LexError>) -> Result<
    Seq<TokenView>,
    LexError,
> {
    match r {
        Ok(rest) => Ok(ts + rest),
        Err(e) => Err(e),
    }
}

proof fn lemma_prepend_cons(ts: Seq<TokenView>, t: TokenView, r: Result<Seq<TokenView>, LexError>)
    ensures
        prepend(ts, cons(t, r)) == prepend(ts.push(t), r),
{
    if let Ok(rest) = r {
        assert(ts + (seq![t] + rest) =~= ts.push(t) + rest);
    }
}

/// Appends `t` to `toks`, keeping track of the views.
fn push_token(toks: &mut Vec<Token>, t: Token)
    ensures
        views(final(toks)@) == views(old(toks)@).push(t@),
{
    toks.push(t);
    assert(views(toks@) =~= views(old(toks)@).push(t@));
}

/// Splits a text into tokens, or reports the first character where no token
/// can be read.
pub fn tokenize(text: &str) -> (r: Result<Vec<Token>, LexError>)
    ensures
        match r {
            Ok(ts) => lex(text@) == Ok::<Seq<TokenView>, LexError>(views(ts@)),
            Err(e) => lex(text@) == Err::<Seq<TokenView>, LexError>(e),
        },
{
    let s = chars_of(text);
    let total = byte_len(text);
    let ghost tot = total as nat;
    let mut toks: Vec<Token> = Vec::new();
    let mut i: usize = 0;
    let mut b: usize = 0;
    let mut m = Scan::Between;
    let mut start: usize = 0;
    let mut start_b: usize = 0;
    let mut acc: Vec<char> = Vec::new();
    assert(views(toks@) =~= Seq::<TokenView>::empty());
    assert(Seq::<TokenView>::empty() + Seq::<TokenView>::empty() =~= Seq::<TokenView>::empty());
    assert(s@.take(0) =~= Seq::<char>::empty());
    loop
        invariant
            s@ == text@,
            tot == utf8_size(s@),
            tot == total as nat,
            i <= s.len(),
            start <= i,
            b as nat == utf8_size(s@.take(i as int)),
            start_b as nat == utf8_size(s@.take(start as int)),
            m is Between ==> start == 0 && acc@ == Seq::<char>::empty(),
            lex(s@) == prepend(views(toks@), lex_from(s@, i as nat, m, start as nat, acc@)),
        decreases s.len() - i, scan_rank(m),
    {
        match m {
            Scan::Word => {
                if i < s.len() && is_id_char_exec(s[i]) {
                    b = advance(&s, i, b, Ghost(tot));
                    i = i + 1;
                } else {
                    let text = copy_range(&s, start, i);
                    let kind = word_kind_exec(text.as_slice());
                    let ghost t = TokenView { kind, text: text@, quoted: false, offset: start_b as nat };
                    proof {
                        lemma_prepend_cons(views(toks@), t, lex_from(s@, i as nat, Scan::Between, 0, Seq::empty()));
                    }
                    push_token(&mut toks, Token { kind, text, quoted: false, offset: start_b });
                    m = Scan::Between;
                    start = 0;
                    start_b = 0;
                    acc = Vec::new();
                }
            },
            Scan::Quoted => {
                if i >= s.len() {
                    return Err(LexError { offset: start_b, reason: LexErrorReason::UnterminatedString });
                } else if s[i] == '"' {
                    let text = acc;
                    let ghost t = TokenView { kind: TokenKind::Id, text: text@, quoted: true, offset: start_b as nat };
                    proof {
                        lemma_prepend_cons(views(toks@), t, lex_from(s@, (i + 1) as nat, Scan::Between, 0, Seq::empty()));
                    }
                    push_token(&mut toks, Token { kind: TokenKind::Id, text, quoted: true, offset: start_b });
                    m = Scan::Between;
                    start = 0;
                    start_b = 0;
                    acc = Vec::new();
                    b = advance(&s, i, b, Ghost(tot));
                    i = i + 1;
                } else if s[i] == '\\' && i + 1 < s.len() && s[i + 1] == '"' {
                    acc.push('"');
                    b = advance(&s, i, b, Ghost(tot));
                    b = advance(&s, i + 1, b, Ghost(tot));
                    i = i + 2;
                } else {
                    acc.push(s[i]);
                    b = advance(&s, i, b, Ghost(tot));
                    i = i + 1;
                }
            },
            Scan::Between => {
                if i >= s.len() {
                    assert(views(toks@) + Seq::<TokenView>::empty() =~= views(toks@));
                    return Ok(toks);
                }
                let c = s[i];
                if is_ws_char(c) {
                    b = advance(&s, i, b, Ghost(tot));
                    i = i + 1;
                } else if c == '"' {
                    m = Scan::Quoted;
                    start = i;
                    start_b = b;
                    b = advance(&s, i, b, Ghost(tot));
                    i = i + 1;
                } else if is_id_char_exec(c) {
                    m = Scan::Word;
                    start = i;
                    start_b = b;
                    b = advance(&s, i, b, Ghost(tot));
                    i = i + 1;
                } else if let Some(kind) = punct_kind_exec(c) {
                    let mut text: Vec<char> = Vec::new();
                    text.push(c);
                    let ghost t = TokenView { kind, text: text@, quoted: false, offset: b as nat };
                    proof {
                        assert(text@ =~= seq![c]);
                        lemma_prepend_cons(views(toks@), t, lex_from(s@, (i + 1) as nat, Scan::Between, 0, Seq::empty()));
                    }
                    push_token(&mut toks, Token { kind, text, quoted: false, offset: b });
                    b = advance(&s, i, b, Ghost(tot));
                    i = i + 1;
                } else if c == '-' && i + 1 < s.len() && (s[i + 1] == '>' || s[i + 1] == '-') {
                    let kind = if s[i + 1] == '>' {
                        TokenKind::Arrow
                    } else {
                        TokenKind::Line
                    };
                    let text = copy_range(&s, i, i + 2);
                    let ghost t = TokenView { kind, text: text@, quoted: false, offset: b as nat };
                    proof {
                        lemma_prepend_cons(views(toks@), t, lex_from(s@, (i + 2) as nat, Scan::Between, 0, Seq::empty()));
                    }
                    push_token(&mut toks, Token { kind, text, quoted: false, offset: b });
                    b = advance(&s, i, b, Ghost(tot));
                    b = advance(&s, i + 1, b, Ghost(tot));
                    i = i + 2;
                } else {
                    return Err(LexError { offset: b, reason: LexErrorReason::UnexpectedChar(c) });
                }
            },
        }
    }
}

} // verus!
