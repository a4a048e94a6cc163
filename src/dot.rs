//! From DOT text to the canonical graph: comment pass, lexer, parser, canonicalizer.
use vstd::prelude::*;
use crate::comments::{comment_at, lemma_trailing_comment_stripped, strip_comments, stripped};
use crate::graph::{GraphData, GraphView, canon, canonicalize, canonical_view, lemma_canon_closed, lemma_node_ids_of_canonical, node_ids};
use crate::lexer::{LexError, lex, tokenize};
use crate::parser::{ParseError, ParseErrorView, parse_spec, parse_tokens};
use crate::text::{all_ws, byte_len, utf8_size};

verus! {

/// Why a text could not be read as a graph.
#[derive(Debug)]
pub enum DotError {
    Lex(LexError),
    Parse(ParseError),
}

pub ghost enum DotErrorView {
    Lex(LexError),
    Parse(ParseErrorView),
}

impl View for DotError {
    type V = DotErrorView;

    open spec fn view(&self) -> DotErrorView {
        match self {
            DotError::Lex(e) => DotErrorView::Lex(*e),
            DotError::Parse(e) => DotErrorView::Parse(e@),
        }
    }
}

/// The canonical graph of a DOT text, or why there is none. Positions in
/// errors are byte offsets into the text after its comments were removed.
pub open spec fn graph_of(text: Seq<char>) -> Result<GraphView, DotErrorView> {
    let s = stripped(text);
    match lex(s) {
        Err(e) => Err(DotErrorView::Lex(e)),
        Ok(toks) => match parse_spec(toks, utf8_size(s)) {
            Err(e) => Err(DotErrorView::Parse(e)),
            Ok(ast) => Ok(canonical_view(ast.stmts)),
        },
    }
}

pub open spec fn result_view(r: Result<GraphData, DotError>) -> Result<GraphView, DotErrorView> {
    match r {
        Ok(g) => Ok(g@),
        Err(e) => Err(e@),
    }
}

/// Reads DOT text into its canonical graph: comments are removed, the rest is
/// lexed and parsed, and the syntax tree is canonicalized. Any lexical or
/// grammar error ends the call; no partial graph is returned.
pub fn parse_graph(dot: &str) -> (r: Result<GraphData, DotError>)
    ensures
        result_view(r) == graph_of(dot@),
{
    let cleaned = strip_comments(dot);
    match tokenize(cleaned.as_str()) {
        Err(e) => Err(DotError::Lex(e)),
        Ok(toks) => match parse_tokens(&toks, byte_len(cleaned.as_str())) {
            Err(e) => Err(DotError::Parse(e)),
            Ok(ast) => Ok(canonicalize(&ast)),
        },
    }
}

/// In a graph read from any text, no node appears twice, and every endpoint of
/// every edge is one of the nodes: a node mentioned only in an edge is never lost.
pub proof fn lemma_endpoints_are_nodes(text: Seq<char>)
    ensures
        match graph_of(text) {
            Ok(g) => {
                &&& node_ids(g).no_duplicates()
                &&& forall|i: int|
                    0 <= i < g.links.len() ==> node_ids(g).contains(#[trigger] g.links[i].source)
                        && node_ids(g).contains(g.links[i].target)
            },
            Err(_) => true,
        },
{
    let s = stripped(text);
    if let Ok(toks) = lex(s) {
        if let Ok(ast) = parse_spec(toks, utf8_size(s)) {
            lemma_canon_closed(ast.stmts);
            lemma_node_ids_of_canonical(canon(ast.stmts).0);
        }
    }
}

/// Reading the same text twice gives the same outcome: equal node lists and
/// equal edge lists, in the same order, or the same error.
pub proof fn lemma_graph_of_deterministic(t1: Seq<char>, t2: Seq<char>)
    requires
        t1 == t2,
    ensures
        graph_of(t1) == graph_of(t2),
{
}

/// `l // c` reads exactly as `l` does, for a line `l` whose code has no `//`
/// (and that does not end in `/`), that holds not only whitespace, and a
/// comment `c` without a line break.
pub proof fn lemma_trailing_comment_ignored(l: Seq<char>, c: Seq<char>)
    requires
        forall|i: int| 0 <= i < l.len() ==> l[i] != '\n',
        forall|i: int| !comment_at(l, i),
        l.len() > 0 ==> l.last() != '/',
        !all_ws(l),
        forall|i: int| 0 <= i < c.len() ==> c[i] != '\n',
    ensures
        graph_of(l + seq!['/', '/'] + c) == graph_of(l),
{
    lemma_trailing_comment_stripped(l, c);
}

} // verus!
