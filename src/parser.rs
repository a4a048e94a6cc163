//! The parser: tokens to a syntax tree.
//!
//! Grammar (keywords in any case):
//!
//! ```text
//! graph     := ["strict"] ("graph" | "digraph") [ID] "{" stmt_list "}"
//! stmt_list := { statement [";"] }
//! statement := node_stmt | edge_stmt | attr_stmt | subgraph
//! node_stmt := ID ["[" attr_list "]"]
//! edge_stmt := endpoint edge_op endpoint { edge_op endpoint } ["[" attr_list "]"]
//! endpoint  := ID | subgraph
//! edge_op   := "->" | "--"
//! attr_stmt := ("graph" | "node" | "edge") "[" attr_list "]"
//! attr_list := { ID "=" ID [","] }
//! subgraph  := "subgraph" [ID] "{" stmt_list "}"
//! ```
//!
//! The tree is stored flat, in pre-order: a subgraph is a `Subgraph` statement,
//! followed by the statements of its body, closed by an `EndSubgraph` statement.
//! A subgraph that is an edge endpoint stands for the nodes its body mentions.
//! An edge statement takes its place where its chain begins, so it comes
//! before the bodies of the subgraphs among its endpoints: nodes are then
//! met in the order of their first mention in the text. A bare `ID` followed
//! by `[` is a node statement with attributes.
use vstd::prelude::*;
use crate::lexer::{Token, TokenKind, TokenView, views};
use crate::text::copy_text;
use crate::graph::{canon, mentioned_from};

verus! {

/// One `key = value` pair of an attribute list.
#[derive(Debug)]
pub struct Attr {
    pub key: Vec<char>,
    pub value: Vec<char>,
}

impl View for Attr {
    type V = (Seq<char>, Seq<char>);

    open spec fn view(&self) -> (Seq<char>, Seq<char>) {
        (self.key@, self.value@)
    }
}

/// What an attribute statement sets defaults for.
#[derive(Clone, Copy, PartialEq, Eq, Debug, Structural)]
pub enum AttrTarget {
    Graph,
    Node,
    Edge,
}

#[allow(inconsistent_fields)]
#[derive(Debug)]
pub enum Stmt {
    Node { id: Vec<char>, attrs: Vec<Attr> },
    /// A chain `e1 -> e2 -> ...` of at least two endpoints, each given as the
    /// nodes it stands for: its identifier, or the nodes of a subgraph's body.
    Edge { endpoints: Vec<Vec<Vec<char>>>, attrs: Vec<Attr> },
    Attr { target: AttrTarget, attrs: Vec<Attr> },
    /// Opens a subgraph; its body runs up to the matching `EndSubgraph`.
    Subgraph { id: Option<Vec<char>> },
    EndSubgraph,
}

#[allow(inconsistent_fields)]
pub ghost enum StmtView {
    Node { id: Seq<char>, attrs: Seq<(Seq<char>, Seq<char>)> },
    Edge { endpoints: Seq<Seq<Seq<char>>>, attrs: Seq<(Seq<char>, Seq<char>)> },
    Attr { target: AttrTarget, attrs: Seq<(Seq<char>, Seq<char>)> },
    Subgraph { id: Option<Seq<char>> },
    EndSubgraph,
}

pub open spec fn attr_views(a: Seq<Attr>) -> Seq<(Seq<char>, Seq<char>)> {
    a.map_values(|x: Attr| x@)
}

pub open spec fn text_views(a: Seq<Vec<char>>) -> Seq<Seq<char>> {
    a.map_values(|x: Vec<char>| x@)
}

pub open spec fn group_views(gs: Seq<Vec<Vec<char>>>) -> Seq<Seq<Seq<char>>> {
    gs.map_values(|g: Vec<Vec<char>>| text_views(g@))
}

pub open spec fn opt_view(o: Option<Vec<char>>) -> Option<Seq<char>> {
    match o {
        Some(v) => Some(v@),
        None => None,
    }
}

impl View for Stmt {
    type V = StmtView;

    open spec fn view(&self) -> StmtView {
        match self {
            Stmt::Node { id, attrs } => StmtView::Node { id: id@, attrs: attr_views(attrs@) },
            Stmt::Edge { endpoints, attrs } => StmtView::Edge {
                endpoints: group_views(endpoints@),
                attrs: attr_views(attrs@),
            },
            Stmt::Attr { target, attrs } => StmtView::Attr {
                target: *target,
                attrs: attr_views(attrs@),
            },
            Stmt::Subgraph { id } => StmtView::Subgraph { id: opt_view(*id) },
            Stmt::EndSubgraph => StmtView::EndSubgraph,
        }
    }
}

pub open spec fn stmt_views(a: Seq<Stmt>) -> Seq<StmtView> {
    a.map_values(|x: Stmt| x@)
}

/// The syntax tree of a whole graph.
#[derive(Debug)]
pub struct DotGraph {
    pub strict: bool,
    pub directed: bool,
    pub id: Option<Vec<char>>,
    pub stmts: Vec<Stmt>,
}

pub ghost struct DotGraphView {
    pub strict: bool,
    pub directed: bool,
    pub id: Option<Seq<char>>,
    pub stmts: Seq<StmtView>,
}

impl View for DotGraph {
    type V = DotGraphView;

    open spec fn view(&self) -> DotGraphView {
        DotGraphView {
            strict: self.strict,
            directed: self.directed,
            id: opt_view(self.id),
            stmts: stmt_views(self.stmts@),
        }
    }
}

/// What the parser was looking for when it failed.
#[derive(Clone, Copy, PartialEq, Eq, Debug, Structural)]
pub enum Expected {
    /// `graph` or `digraph`
    GraphKind,
    /// `{`
    LBrace,
    /// `[`
    LBracket,
    /// `=`
    Equals,
    Identifier,
    /// an attribute name or `]`
    AttrName,
    /// a statement or `}`
    Statement,
    /// nothing more after the closing `}`
    EndOfInput,
}

/// A grammar violation: where it happened (the byte offset of the offending
/// token, or the byte length of the text at its end), what was expected, and
/// the token found there (`None` at the end of the text).
#[derive(Debug)]
pub struct ParseError {
    pub position: usize,
    pub expected: Expected,
    pub found: Option<Token>,
}

pub ghost struct ParseErrorView {
    pub position: nat,
    pub expected: Expected,
    pub found: Option<TokenView>,
}

impl View for ParseError {
    type V = ParseErrorView;

    open spec fn view(&self) -> ParseErrorView {
        ParseErrorView {
            position: self.position as nat,
            expected: self.expected,
            found: match self.found {
                Some(t) => Some(t@),
                None => None,
            },
        }
    }
}

/// What the parser is in the middle of: the statement list, an edge chain
/// (after an endpoint), or an attribute list (after its `[`).
#[derive(Clone, Copy, PartialEq, Eq, Debug, Structural)]
pub enum Mode {
    Stmts,
    Chain,
    Attrs,
}

/// The statement that an attribute list belongs to.
#[derive(Clone, Copy, PartialEq, Eq, Debug, Structural)]
pub enum Owner {
    NodeStmt,
    EdgeStmt,
    Defaults(AttrTarget),
}

/// An open subgraph: the index of its `Subgraph` statement, and, when it is an
/// edge endpoint, the endpoints of the chain before it and the index of the
/// chain's edge statement.
pub struct Frame {
    pub open: usize,
    pub chain: Option<Vec<Vec<Vec<char>>>>,
    pub slot: usize,
}

pub ghost struct FrameView {
    pub open: nat,
    pub chain: Option<Seq<Seq<Seq<char>>>>,
    pub slot: nat,
}

impl View for Frame {
    type V = FrameView;

    open spec fn view(&self) -> FrameView {
        FrameView {
            open: self.open as nat,
            chain: match self.chain {
                Some(c) => Some(group_views(c@)),
                None => None,
            },
            slot: self.slot as nat,
        }
    }
}

pub open spec fn frame_views(f: Seq<Frame>) -> Seq<FrameView> {
    f.map_values(|x: Frame| x@)
}

pub open spec fn mode_rank(m: Mode) -> nat {
    if m is Stmts {
        0
    } else {
        1
    }
}

pub open spec fn is_edge_op(k: TokenKind) -> bool {
    k == TokenKind::Arrow || k == TokenKind::Line
}

/// The error at token index `p`, or at the end of the text when `p` is past the tokens.
pub open spec fn error_at(t: Seq<TokenView>, eof: nat, p: nat, e: Expected) -> ParseErrorView {
    if p < t.len() {
        ParseErrorView { position: t[p as int].offset, expected: e, found: Some(t[p as int]) }
    } else {
        ParseErrorView { position: eof, expected: e, found: None }
    }
}

/// Past an optional `;` at index `p`.
pub open spec fn skip_semi(t: Seq<TokenView>, p: nat) -> nat {
    if p < t.len() && t[p as int].kind == TokenKind::Semicolon {
        p + 1
    } else {
        p
    }
}

pub open spec fn kind_at(t: Seq<TokenView>, p: nat, k: TokenKind) -> bool {
    p < t.len() && t[p as int].kind == k
}

/// The head of the subgraph whose `subgraph` keyword stands at index `q`: its
/// name and the index after its `{`, or the index where the `{` is missing.
pub open spec fn subgraph_head(t: Seq<TokenView>, q: nat) -> Result<(Option<Seq<char>>, nat), nat> {
    if kind_at(t, q + 1, TokenKind::Id) {
        if kind_at(t, q + 2, TokenKind::LBrace) {
            Ok((Some(t[q + 1 as int].text), q + 3))
        } else {
            Err(q + 2)
        }
    } else if kind_at(t, q + 1, TokenKind::LBrace) {
        Ok((None, q + 2))
    } else {
        Err(q + 1)
    }
}

/// The statement that an attribute list completes.
pub open spec fn finish(
    owner: Owner,
    eps: Seq<Seq<Seq<char>>>,
    attrs: Seq<(Seq<char>, Seq<char>)>,
) -> StmtView {
    match owner {
        Owner::NodeStmt => StmtView::Node { id: eps[0][0], attrs },
        Owner::EdgeStmt => StmtView::Edge { endpoints: eps, attrs },
        Owner::Defaults(target) => StmtView::Attr { target, attrs },
    }
}

/// The statements `out` once the statement that an attribute list or an edge
/// chain completes is in place: an edge statement fills the place `slot` that
/// its chain took when it began, any other statement comes last.
pub open spec fn complete(
    owner: Owner,
    eps: Seq<Seq<Seq<char>>>,
    attrs: Seq<(Seq<char>, Seq<char>)>,
    out: Seq<StmtView>,
    slot: nat,
) -> Seq<StmtView> {
    if owner is EdgeStmt {
        out.update(slot as int, finish(owner, eps, attrs))
    } else {
        out.push(finish(owner, eps, attrs))
    }
}

/// The target of an attribute statement's keyword.
pub open spec fn defaults_target(k: TokenKind) -> AttrTarget {
    if k == TokenKind::Graph {
        AttrTarget::Graph
    } else if k == TokenKind::Node {
        AttrTarget::Node
    } else {
        AttrTarget::Edge
    }
}

/// The statements of the tokens `t` from index `p` on, appended to `out`.
/// `frames` are the open subgraphs, innermost last; `eps` holds the endpoints
/// of the edge chain (or the id of the node) being read, `attrs` the
/// attributes read so far, and `slot` the place in `out` of the edge statement
/// of the chain being read. An edge statement takes its place when its chain
/// begins, so it comes before the body of any subgraph among its endpoints.
pub open spec fn parse_from(
    t: Seq<TokenView>,
    eof: nat,
    p: nat,
    frames: Seq<FrameView>,
    m: Mode,
    owner: Owner,
    eps: Seq<Seq<Seq<char>>>,
    attrs: Seq<(Seq<char>, Seq<char>)>,
    slot: nat,
    out: Seq<StmtView>,
) -> Result<Seq<StmtView>, ParseErrorView>
    decreases t.len() - p, mode_rank(m),
{
    match m {
        Mode::Chain => {
            if p < t.len() && is_edge_op(t[p as int].kind) {
                if kind_at(t, p + 1, TokenKind::Id) {
                    parse_from(t, eof, p + 2, frames, Mode::Chain, owner,
                        eps.push(seq![t[p + 1 as int].text]), attrs, slot, out)
                } else if kind_at(t, p + 1, TokenKind::Subgraph) {
                    match subgraph_head(t, p + 1) {
                        Ok((id, next)) => parse_from(
                            t,
                            eof,
                            next,
                            frames.push(FrameView { open: out.len(), chain: Some(eps), slot }),
                            Mode::Stmts,
                            owner,
                            Seq::empty(),
                            Seq::empty(),
                            slot,
                            out.push(StmtView::Subgraph { id }),
                        ),
                        Err(q) => Err(error_at(t, eof, q, Expected::LBrace)),
                    }
                } else {
                    Err(error_at(t, eof, p + 1, Expected::Identifier))
                }
            } else if kind_at(t, p, TokenKind::LBracket) {
                parse_from(t, eof, p + 1, frames, Mode::Attrs, owner, eps, attrs, slot, out)
            } else {
                parse_from(
                    t,
                    eof,
                    skip_semi(t, p),
                    frames,
                    Mode::Stmts,
                    owner,
                    Seq::empty(),
                    Seq::empty(),
                    slot,
                    complete(owner, eps, attrs, out, slot),
                )
            }
        },
        Mode::Attrs => {
            if kind_at(t, p, TokenKind::RBracket) {
                parse_from(
                    t,
                    eof,
                    skip_semi(t, p + 1),
                    frames,
                    Mode::Stmts,
                    owner,
                    Seq::empty(),
                    Seq::empty(),
                    slot,
                    complete(owner, eps, attrs, out, slot),
                )
            } else if kind_at(t, p, TokenKind::Id) {
                if !kind_at(t, p + 1, TokenKind::Equals) {
                    Err(error_at(t, eof, p + 1, Expected::Equals))
                } else if !kind_at(t, p + 2, TokenKind::Id) {
                    Err(error_at(t, eof, p + 2, Expected::Identifier))
                } else {
                    let q: nat = if kind_at(t, p + 3, TokenKind::Comma) {
                        p + 4
                    } else {
                        p + 3
                    };
                    parse_from(t, eof, q, frames, Mode::Attrs, owner, eps,
                        attrs.push((t[p as int].text, t[p + 2 as int].text)), slot, out)
                }
            } else {
                Err(error_at(t, eof, p, Expected::AttrName))
            }
        },
        Mode::Stmts => {
            if p >= t.len() {
                Err(error_at(t, eof, p, Expected::Statement))
            } else {
                let k = t[p as int].kind;
                if k == TokenKind::RBrace {
                    if frames.len() == 0 {
                        if p + 1 < t.len() {
                            Err(error_at(t, eof, p + 1, Expected::EndOfInput))
                        } else {
                            Ok(out)
                        }
                    } else {
                        let f = frames.last();
                        let group = canon(out.subrange(f.open + 1 as int, out.len() as int)).0;
                        let closed = out.push(StmtView::EndSubgraph);
                        match f.chain {
                            Some(ch) => parse_from(t, eof, p + 1, frames.drop_last(), Mode::Chain,
                                Owner::EdgeStmt, ch.push(group), Seq::empty(), f.slot, closed),
                            None => if p + 1 < t.len() && is_edge_op(t[p + 1 as int].kind) {
                                parse_from(t, eof, p + 1, frames.drop_last(), Mode::Chain,
                                    Owner::EdgeStmt, seq![group], Seq::empty(), closed.len(),
                                    closed.push(StmtView::Edge { endpoints: seq![group], attrs: Seq::empty() }))
                            } else {
                                parse_from(t, eof, skip_semi(t, p + 1), frames.drop_last(),
                                    Mode::Stmts, owner, eps, attrs, slot, closed)
                            },
                        }
                    }
                } else if k == TokenKind::Subgraph {
                    match subgraph_head(t, p) {
                        Ok((id, next)) => parse_from(
                            t,
                            eof,
                            next,
                            frames.push(FrameView { open: out.len(), chain: None, slot }),
                            Mode::Stmts,
                            owner,
                            eps,
                            attrs,
                            slot,
                            out.push(StmtView::Subgraph { id }),
                        ),
                        Err(q) => Err(error_at(t, eof, q, Expected::LBrace)),
                    }
                } else if k == TokenKind::Graph || k == TokenKind::Node || k == TokenKind::Edge {
                    if kind_at(t, p + 1, TokenKind::LBracket) {
                        parse_from(t, eof, p + 2, frames, Mode::Attrs,
                            Owner::Defaults(defaults_target(k)), eps, attrs, slot, out)
                    } else {
                        Err(error_at(t, eof, p + 1, Expected::LBracket))
                    }
                } else if k == TokenKind::Id {
                    let id = t[p as int].text;
                    if p + 1 < t.len() && is_edge_op(t[p + 1 as int].kind) {
                        parse_from(t, eof, p + 1, frames, Mode::Chain, Owner::EdgeStmt,
                            seq![seq![id]], attrs, out.len(),
                            out.push(StmtView::Edge { endpoints: seq![seq![id]], attrs: Seq::empty() }))
                    } else if kind_at(t, p + 1, TokenKind::LBracket) {
                        parse_from(t, eof, p + 2, frames, Mode::Attrs, Owner::NodeStmt,
                            seq![seq![id]], attrs, slot, out)
                    } else {
                        parse_from(t, eof, skip_semi(t, p + 1), frames, Mode::Stmts, owner, eps,
                            attrs, slot, out.push(StmtView::Node { id, attrs: Seq::empty() }))
                    }
                } else {
                    Err(error_at(t, eof, p, Expected::Statement))
                }
            }
        },
    }
}

/// A bare identifier followed by `[` begins a node statement with
/// attributes, never an edge chain.
pub proof fn lemma_id_before_bracket_is_node(
    t: Seq<TokenView>,
    eof: nat,
    p: nat,
    frames: Seq<FrameView>,
    owner: Owner,
    eps: Seq<Seq<Seq<char>>>,
    attrs: Seq<(Seq<char>, Seq<char>)>,
    slot: nat,
    out: Seq<StmtView>,
)
    requires
        kind_at(t, p, TokenKind::Id),
        kind_at(t, p + 1, TokenKind::LBracket),
    ensures
        parse_from(t, eof, p, frames, Mode::Stmts, owner, eps, attrs, slot, out) == parse_from(
            t,
            eof,
            p + 2,
            frames,
            Mode::Attrs,
            Owner::NodeStmt,
            seq![seq![t[p as int].text]],
            attrs,
            slot,
            out,
        ),
{
}

/// The syntax tree of the tokens `t` of a text of length `eof`.
pub open spec fn parse_spec(t: Seq<TokenView>, eof: nat) -> Result<DotGraphView, ParseErrorView> {
    let strict = kind_at(t, 0, TokenKind::Strict);
    let p: nat = if strict {
        1
    } else {
        0
    };
    if !(kind_at(t, p, TokenKind::Graph) || kind_at(t, p, TokenKind::Digraph)) {
        Err(error_at(t, eof, p, Expected::GraphKind))
    } else {
        let directed = kind_at(t, p, TokenKind::Digraph);
        let named = kind_at(t, p + 1, TokenKind::Id);
        let id = if named {
            Some(t[p + 1 as int].text)
        } else {
            None
        };
        let q: nat = if named {
            p + 2
        } else {
            p + 1
        };
        if !kind_at(t, q, TokenKind::LBrace) {
            Err(error_at(t, eof, q, Expected::LBrace))
        } else {
            match parse_from(
                t,
                eof,
                q + 1,
                Seq::empty(),
                Mode::Stmts,
                Owner::NodeStmt,
                Seq::empty(),
                Seq::empty(),
                0,
                Seq::empty(),
            ) {
                Ok(stmts) => Ok(DotGraphView { strict, directed, id, stmts }),
                Err(e) => Err(e),
            }
        }
    }
}

fn copy_token(t: &Token) -> (r: Token)
    ensures
        r@ == t@,
{
    Token { kind: t.kind, text: copy_text(&t.text), quoted: t.quoted, offset: t.offset }
}

fn error_exec(t: &Vec<Token>, eof: usize, p: usize, e: Expected) -> (r: ParseError)
    ensures
        r@ == error_at(views(t@), eof as nat, p as nat, e),
{
    if p < t.len() {
        ParseError { position: t[p].offset, expected: e, found: Some(copy_token(&t[p])) }
    } else {
        ParseError { position: eof, expected: e, found: None }
    }
}

fn kind_at_exec(t: &Vec<Token>, p: usize, k: TokenKind) -> (r: bool)
    ensures
        r == kind_at(views(t@), p as nat, k),
{
    p < t.len() && t[p].kind == k
}

fn is_edge_op_exec(k: TokenKind) -> (r: bool)
    ensures
        r == is_edge_op(k),
{
    k == TokenKind::Arrow || k == TokenKind::Line
}

fn skip_semi_exec(t: &Vec<Token>, p: usize) -> (r: usize)
    requires
        p <= t.len(),
    ensures
        r == skip_semi(views(t@), p as nat),
        p <= r <= t.len(),
{
    if p < t.len() && t[p].kind == TokenKind::Semicolon {
        p + 1
    } else {
        p
    }
}

fn subgraph_head_exec(t: &Vec<Token>, q: usize) -> (r: Result<(Option<Vec<char>>, usize), usize>)
    requires
        q < t.len(),
    ensures
        match r {
            Ok((id, next)) => subgraph_head(views(t@), q as nat) == Ok::<(Option<Seq<char>>, nat), nat>(
                (opt_view(id), next as nat),
            ) && q < next <= t.len(),
            Err(e) => subgraph_head(views(t@), q as nat) == Err::<(Option<Seq<char>>, nat), nat>(e as nat),
        },
{
    if kind_at_exec(t, q + 1, TokenKind::Id) {
        if kind_at_exec(t, q + 2, TokenKind::LBrace) {
            Ok((Some(copy_text(&t[q + 1].text)), q + 3))
        } else {
            Err(q + 2)
        }
    } else if kind_at_exec(t, q + 1, TokenKind::LBrace) {
        Ok((None, q + 2))
    } else {
        Err(q + 1)
    }
}

fn finish_exec(owner: Owner, eps: Vec<Vec<Vec<char>>>, attrs: Vec<Attr>) -> (r: Stmt)
    requires
        owner is NodeStmt ==> eps.len() == 1 && eps@[0].len() == 1,
    ensures
        r@ == finish(owner, group_views(eps@), attr_views(attrs@)),
{
    match owner {
        Owner::NodeStmt => {
            let mut eps = eps;
            let mut g = eps.pop().unwrap();
            let id = g.pop().unwrap();
            Stmt::Node { id, attrs }
        },
        Owner::EdgeStmt => Stmt::Edge { endpoints: eps, attrs },
        Owner::Defaults(target) => Stmt::Attr { target, attrs },
    }
}

/// Puts the statement that an attribute list or an edge chain completes in place.
fn complete_exec(
    owner: Owner,
    eps: Vec<Vec<Vec<char>>>,
    attrs: Vec<Attr>,
    out: &mut Vec<Stmt>,
    slot: usize,
)
    requires
        owner is NodeStmt ==> eps.len() == 1 && eps@[0].len() == 1,
        owner is EdgeStmt ==> slot < old(out).len(),
    ensures
        stmt_views(final(out)@) == complete(owner, group_views(eps@), attr_views(attrs@),
            stmt_views(old(out)@), slot as nat),
        final(out)@.len() >= old(out)@.len(),
{
    let edge = owner == Owner::EdgeStmt;
    let s = finish_exec(owner, eps, attrs);
    if edge {
        let ghost before = out@;
        out.set(slot, s);
        assert(stmt_views(out@) =~= stmt_views(before).update(slot as int, s@));
    } else {
        push_stmt(out, s);
    }
}

fn push_stmt(out: &mut Vec<Stmt>, s: Stmt)
    ensures
        stmt_views(final(out)@) == stmt_views(old(out)@).push(s@),
        final(out)@.len() == old(out)@.len() + 1,
{
    out.push(s);
    assert(stmt_views(out@) =~= stmt_views(old(out)@).push(s@));
}

fn push_group(eps: &mut Vec<Vec<Vec<char>>>, g: Vec<Vec<char>>)
    ensures
        group_views(final(eps)@) == group_views(old(eps)@).push(text_views(g@)),
        final(eps)@ == old(eps)@.push(g),
{
    eps.push(g);
    assert(group_views(eps@) =~= group_views(old(eps)@).push(text_views(g@)));
}

fn push_attr(attrs: &mut Vec<Attr>, a: Attr)
    ensures
        attr_views(final(attrs)@) == attr_views(old(attrs)@).push(a@),
{
    attrs.push(a);
    assert(attr_views(attrs@) =~= attr_views(old(attrs)@).push(a@));
}

fn push_frame(frames: &mut Vec<Frame>, f: Frame)
    ensures
        frame_views(final(frames)@) == frame_views(old(frames)@).push(f@),
        final(frames)@.len() == old(frames)@.len() + 1,
        forall|k: int| 0 <= k < old(frames)@.len() ==> final(frames)@[k] == old(frames)@[k],
        final(frames)@.last() == f,
{
    frames.push(f);
    assert(frame_views(frames@) =~= frame_views(old(frames)@).push(f@));
}

/// A chain whose only endpoint is the identifier `id`.
fn single(id: Vec<char>) -> (r: Vec<Vec<Vec<char>>>)
    ensures
        group_views(r@) == seq![seq![id@]],
        r.len() == 1 && r@[0].len() == 1,
{
    let mut g: Vec<Vec<char>> = Vec::new();
    g.push(id);
    assert(text_views(g@) =~= seq![id@]);
    let mut r: Vec<Vec<Vec<char>>> = Vec::new();
    push_group(&mut r, g);
    assert(group_views(r@) =~= seq![seq![id@]]);
    r
}

/// The statement list that starts at token `p0`, up to the `}` that closes the
/// graph, which must be the last token.
fn parse_body(t: &Vec<Token>, eof: usize, p0: usize) -> (r: Result<Vec<Stmt>, ParseError>)
    requires
        p0 <= t.len(),
    ensures
        match r {
            Ok(s) => parse_from(views(t@), eof as nat, p0 as nat, Seq::empty(), Mode::Stmts,
                Owner::NodeStmt, Seq::empty(), Seq::empty(), 0, Seq::empty())
                == Ok::<Seq<StmtView>, ParseErrorView>(stmt_views(s@)),
            Err(e) => parse_from(views(t@), eof as nat, p0 as nat, Seq::empty(), Mode::Stmts,
                Owner::NodeStmt, Seq::empty(), Seq::empty(), 0, Seq::empty())
                == Err::<Seq<StmtView>, ParseErrorView>(e@),
        },
{
    let ghost tv = views(t@);
    let ghost goal = parse_from(tv, eof as nat, p0 as nat, Seq::empty(), Mode::Stmts,
        Owner::NodeStmt, Seq::empty(), Seq::empty(), 0, Seq::empty());
    let mut p: usize = p0;
    let mut frames: Vec<Frame> = Vec::new();
    let mut m = Mode::Stmts;
    let mut owner = Owner::NodeStmt;
    let mut eps: Vec<Vec<Vec<char>>> = Vec::new();
    let mut attrs: Vec<Attr> = Vec::new();
    let mut slot: usize = 0;
    let mut out: Vec<Stmt> = Vec::new();
    assert(frame_views(frames@) =~= Seq::<FrameView>::empty());
    assert(group_views(eps@) =~= Seq::<Seq<Seq<char>>>::empty());
    assert(attr_views(attrs@) =~= Seq::<(Seq<char>, Seq<char>)>::empty());
    assert(stmt_views(out@) =~= Seq::<StmtView>::empty());
    loop
        invariant
            tv == views(t@),
            p <= t.len(),
            m is Chain ==> owner == Owner::EdgeStmt,
            m is Attrs && owner is NodeStmt ==> eps.len() == 1 && eps@[0].len() == 1,
            !(m is Stmts) && owner is EdgeStmt ==> slot < out.len(),
            forall|k: int| 0 <= k < frames.len() ==> #[trigger] frames@[k].open < out.len(),
            forall|k: int|
                0 <= k < frames.len() && (#[trigger] frames@[k]).chain is Some ==> frames@[k].slot
                    < out.len(),
            goal == parse_from(views(t@), eof as nat, p0 as nat, Seq::empty(), Mode::Stmts,
                Owner::NodeStmt, Seq::empty(), Seq::empty(), 0, Seq::empty()),
            goal == parse_from(tv, eof as nat, p as nat, frame_views(frames@), m, owner,
                group_views(eps@), attr_views(attrs@), slot as nat, stmt_views(out@)),
        decreases t.len() - p, mode_rank(m),
    {
        match m {
            Mode::Chain => {
                if p < t.len() && is_edge_op_exec(t[p].kind) {
                    if kind_at_exec(t, p + 1, TokenKind::Id) {
                        let mut g: Vec<Vec<char>> = Vec::new();
                        g.push(copy_text(&t[p + 1].text));
                        assert(text_views(g@) =~= seq![tv[p + 1].text]);
                        push_group(&mut eps, g);
                        p = p + 2;
                    } else if kind_at_exec(t, p + 1, TokenKind::Subgraph) {
                        match subgraph_head_exec(t, p + 1) {
                            Ok((id, next)) => {
                                let saved = eps;
                                eps = Vec::new();
                                assert(group_views(eps@) =~= Seq::<Seq<Seq<char>>>::empty());
                                let f = Frame { open: out.len(), chain: Some(saved), slot };
                                assert(f@ == FrameView {
                                    open: out.len() as nat,
                                    chain: Some(group_views(saved@)),
                                    slot: slot as nat,
                                });
                                push_frame(&mut frames, f);
                                push_stmt(&mut out, Stmt::Subgraph { id });
                                attrs = Vec::new();
                                assert(attr_views(attrs@) =~= Seq::<(Seq<char>, Seq<char>)>::empty());
                                p = next;
                                m = Mode::Stmts;
                            },
                            Err(q) => {
                                return Err(error_exec(t, eof, q, Expected::LBrace));
                            },
                        }
                    } else {
                        return Err(error_exec(t, eof, p + 1, Expected::Identifier));
                    }
                } else if kind_at_exec(t, p, TokenKind::LBracket) {
                    p = p + 1;
                    m = Mode::Attrs;
                } else {
                    complete_exec(owner, eps, attrs, &mut out, slot);
                    eps = Vec::new();
                    attrs = Vec::new();
                    assert(group_views(eps@) =~= Seq::<Seq<Seq<char>>>::empty());
                    assert(attr_views(attrs@) =~= Seq::<(Seq<char>, Seq<char>)>::empty());
                    p = skip_semi_exec(t, p);
                    m = Mode::Stmts;
                }
            },
            Mode::Attrs => {
                if kind_at_exec(t, p, TokenKind::RBracket) {
                    complete_exec(owner, eps, attrs, &mut out, slot);
                    eps = Vec::new();
                    attrs = Vec::new();
                    assert(group_views(eps@) =~= Seq::<Seq<Seq<char>>>::empty());
                    assert(attr_views(attrs@) =~= Seq::<(Seq<char>, Seq<char>)>::empty());
                    p = skip_semi_exec(t, p + 1);
                    m = Mode::Stmts;
                } else if kind_at_exec(t, p, TokenKind::Id) {
                    if !kind_at_exec(t, p + 1, TokenKind::Equals) {
                        return Err(error_exec(t, eof, p + 1, Expected::Equals));
                    } else if !kind_at_exec(t, p + 2, TokenKind::Id) {
                        return Err(error_exec(t, eof, p + 2, Expected::Identifier));
                    }
                    let a = Attr { key: copy_text(&t[p].text), value: copy_text(&t[p + 2].text) };
                    push_attr(&mut attrs, a);
                    if kind_at_exec(t, p + 3, TokenKind::Comma) {
                        p = p + 4;
                    } else {
                        p = p + 3;
                    }
                } else {
                    return Err(error_exec(t, eof, p, Expected::AttrName));
                }
            },
            Mode::Stmts => {
                if p >= t.len() {
                    return Err(error_exec(t, eof, p, Expected::Statement));
                }
                let k = t[p].kind;
                if k == TokenKind::RBrace {
                    if frames.len() == 0 {
                        if p + 1 < t.len() {
                            return Err(error_exec(t, eof, p + 1, Expected::EndOfInput));
                        }
                        return Ok(out);
                    }
                    let ghost fv = frame_views(frames@);
                    let f = frames.pop().unwrap();
                    assert(frame_views(frames@) =~= fv.drop_last());
                    assert(f@ == fv.last());
                    let group = mentioned_from(&out, f.open + 1);
                    assert(stmt_views(out@).subrange(f.open + 1, out.len() as int)
                        == stmt_views(out@).subrange(fv.last().open + 1 as int, stmt_views(out@).len() as int));
                    push_stmt(&mut out, Stmt::EndSubgraph);
                    match f.chain {
                        Some(ch) => {
                            let mut ch = ch;
                            push_group(&mut ch, group);
                            eps = ch;
                            attrs = Vec::new();
                            assert(attr_views(attrs@) =~= Seq::<(Seq<char>, Seq<char>)>::empty());
                            slot = f.slot;
                            owner = Owner::EdgeStmt;
                            m = Mode::Chain;
                            p = p + 1;
                        },
                        None => {
                            if p + 1 < t.len() && is_edge_op_exec(t[p + 1].kind) {
                                let ghost gv = text_views(group@);
                                let mut ch: Vec<Vec<Vec<char>>> = Vec::new();
                                push_group(&mut ch, group);
                                assert(group_views(ch@) =~= seq![gv]);
                                slot = out.len();
                                eps = ch;
                                let none: Vec<Attr> = Vec::new();
                                assert(attr_views(none@) =~= Seq::<(Seq<char>, Seq<char>)>::empty());
                                let placeholder = Stmt::Edge { endpoints: copy_groups(&eps), attrs: none };
                                push_stmt(&mut out, placeholder);
                                attrs = Vec::new();
                                assert(attr_views(attrs@) =~= Seq::<(Seq<char>, Seq<char>)>::empty());
                                owner = Owner::EdgeStmt;
                                m = Mode::Chain;
                                p = p + 1;
                            } else {
                                p = skip_semi_exec(t, p + 1);
                            }
                        },
                    }
                } else if k == TokenKind::Subgraph {
                    match subgraph_head_exec(t, p) {
                        Ok((id, next)) => {
                            let f = Frame { open: out.len(), chain: None, slot };
                            push_frame(&mut frames, f);
                            push_stmt(&mut out, Stmt::Subgraph { id });
                            p = next;
                        },
                        Err(q) => {
                            return Err(error_exec(t, eof, q, Expected::LBrace));
                        },
                    }
                } else if k == TokenKind::Graph || k == TokenKind::Node || k == TokenKind::Edge {
                    if kind_at_exec(t, p + 1, TokenKind::LBracket) {
                        let target = if k == TokenKind::Graph {
                            AttrTarget::Graph
                        } else if k == TokenKind::Node {
                            AttrTarget::Node
                        } else {
                            AttrTarget::Edge
                        };
                        owner = Owner::Defaults(target);
                        m = Mode::Attrs;
                        p = p + 2;
                    } else {
                        return Err(error_exec(t, eof, p + 1, Expected::LBracket));
                    }
                } else if k == TokenKind::Id {
                    if p + 1 < t.len() && is_edge_op_exec(t[p + 1].kind) {
                        eps = single(copy_text(&t[p].text));
                        let none: Vec<Attr> = Vec::new();
                        assert(attr_views(none@) =~= Seq::<(Seq<char>, Seq<char>)>::empty());
                        slot = out.len();
                        push_stmt(&mut out, Stmt::Edge { endpoints: single(copy_text(&t[p].text)), attrs: none });
                        owner = Owner::EdgeStmt;
                        m = Mode::Chain;
                        p = p + 1;
                    } else if kind_at_exec(t, p + 1, TokenKind::LBracket) {
                        eps = single(copy_text(&t[p].text));
                        owner = Owner::NodeStmt;
                        m = Mode::Attrs;
                        p = p + 2;
                    } else {
                        let none: Vec<Attr> = Vec::new();
                        assert(attr_views(none@) =~= Seq::<(Seq<char>, Seq<char>)>::empty());
                        push_stmt(&mut out, Stmt::Node { id: copy_text(&t[p].text), attrs: none });
                        p = skip_semi_exec(t, p + 1);
                    }
                } else {
                    return Err(error_exec(t, eof, p, Expected::Statement));
                }
            },
        }
    }
}

/// A copy of a chain of endpoint groups.
fn copy_groups(gs: &Vec<Vec<Vec<char>>>) -> (r: Vec<Vec<Vec<char>>>)
    ensures
        group_views(r@) == group_views(gs@),
{
    let mut r: Vec<Vec<Vec<char>>> = Vec::new();
    let mut k: usize = 0;
    while k < gs.len()
        invariant
            k <= gs.len(),
            group_views(r@) == group_views(gs@).take(k as int),
        decreases gs.len() - k,
    {
        let mut g: Vec<Vec<char>> = Vec::new();
        let mut j: usize = 0;
        while j < gs[k].len()
            invariant
                k < gs.len(),
                j <= gs@[k as int].len(),
                text_views(g@) == text_views(gs@[k as int]@).take(j as int),
            decreases gs@[k as int].len() - j,
        {
            let ghost before = g@;
            g.push(copy_text(&gs[k][j]));
            assert(text_views(g@) =~= text_views(before).push(gs@[k as int]@[j as int]@));
            assert(text_views(gs@[k as int]@).take(j + 1) =~= text_views(gs@[k as int]@).take(j as int).push(
                gs@[k as int]@[j as int]@,
            ));
            j = j + 1;
        }
        assert(text_views(gs@[k as int]@).take(gs@[k as int].len() as int) =~= text_views(gs@[k as int]@));
        let ghost before = r@;
        push_group(&mut r, g);
        assert(group_views(gs@).take(k + 1) =~= group_views(gs@).take(k as int).push(
            group_views(gs@)[k as int],
        ));
        k = k + 1;
    }
    assert(group_views(gs@).take(gs.len() as int) =~= group_views(gs@));
    r
}

/// Parses the tokens `t` of a text of length `eof` into the syntax tree of one graph.
pub fn parse_tokens(t: &Vec<Token>, eof: usize) -> (r: Result<DotGraph, ParseError>)
    ensures
        match r {
            Ok(g) => parse_spec(views(t@), eof as nat) == Ok::<DotGraphView, ParseErrorView>(g@),
            Err(e) => parse_spec(views(t@), eof as nat) == Err::<DotGraphView, ParseErrorView>(e@),
        },
{
    let strict = kind_at_exec(t, 0, TokenKind::Strict);
    let p: usize = if strict {
        1
    } else {
        0
    };
    if !(kind_at_exec(t, p, TokenKind::Graph) || kind_at_exec(t, p, TokenKind::Digraph)) {
        return Err(error_exec(t, eof, p, Expected::GraphKind));
    }
    let directed = kind_at_exec(t, p, TokenKind::Digraph);
    let named = kind_at_exec(t, p + 1, TokenKind::Id);
    let id = if named {
        Some(copy_text(&t[p + 1].text))
    } else {
        None
    };
    let q: usize = if named {
        p + 2
    } else {
        p + 1
    };
    if !kind_at_exec(t, q, TokenKind::LBrace) {
        return Err(error_exec(t, eof, q, Expected::LBrace));
    }
    match parse_body(t, eof, q + 1) {
        Ok(stmts) => Ok(DotGraph { strict, directed, id, stmts }),
        Err(e) => Err(e),
    }
}

} // verus!
