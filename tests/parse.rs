use dot_delta::lexer::{LexErrorReason, TokenKind};
use dot_delta::parser::Expected;
use dot_delta::{parse_graph, DotError, GraphData};

fn ids(g: &GraphData) -> Vec<String> {
    g.nodes.iter().map(|n| n.id.clone()).collect()
}

fn pairs(g: &GraphData) -> Vec<(String, String)> {
    g.links.iter().map(|l| (l.source.clone(), l.target.clone())).collect()
}

fn labels(g: &GraphData) -> Vec<Option<String>> {
    g.links.iter().map(|l| l.label.clone()).collect()
}

fn p(a: &str, b: &str) -> (String, String) {
    (a.to_string(), b.to_string())
}

#[test]
fn scenario_edge_with_label() {
    let g = parse_graph("digraph { a -> b [label=\"x\"]; b -> c; }").unwrap();
    assert_eq!(ids(&g), vec!["a", "b", "c"]);
    assert_eq!(pairs(&g), vec![p("a", "b"), p("b", "c")]);
    assert_eq!(labels(&g), vec![Some("x".to_string()), None]);
    for n in &g.nodes {
        assert_eq!(n.id, n.name);
    }
}

#[test]
fn scenario_missing_endpoint() {
    match parse_graph("digraph { a -> ; }") {
        Err(DotError::Parse(e)) => {
            assert_eq!(e.expected, Expected::Identifier);
            let found = e.found.expect("a token was found");
            assert_eq!(found.kind, TokenKind::Semicolon);
            assert_eq!(e.position, 15);
        }
        other => panic!("expected a parse error, got {:?}", other),
    }
}

#[test]
fn scenario_edge_chain() {
    let g = parse_graph("digraph { a -> b -> c [label=\"e\"] }").unwrap();
    assert_eq!(pairs(&g), vec![p("a", "b"), p("b", "c")]);
    assert_eq!(labels(&g), vec![Some("e".to_string()), Some("e".to_string())]);
    assert_eq!(ids(&g), vec!["a", "b", "c"]);
}

#[test]
fn endpoints_are_nodes() {
    let g = parse_graph("graph { x; y -- z; z -- x; w }").unwrap();
    assert_eq!(ids(&g), vec!["x", "y", "z", "w"]);
    for l in &g.links {
        assert!(ids(&g).contains(&l.source));
        assert!(ids(&g).contains(&l.target));
    }
}

#[test]
fn parsing_twice_gives_the_same_graph() {
    let text = "digraph G { a -> b; c; b -> a [color=red]; subgraph s { d -> a } }";
    let g1 = parse_graph(text).unwrap();
    let g2 = parse_graph(text).unwrap();
    assert_eq!(ids(&g1), ids(&g2));
    assert_eq!(pairs(&g1), pairs(&g2));
    assert_eq!(labels(&g1), labels(&g2));
}

#[test]
fn trailing_comment_parses_like_plain_line() {
    let g1 = parse_graph("digraph { a -> b // comment\n}").unwrap();
    let g2 = parse_graph("digraph { a -> b\n}").unwrap();
    assert_eq!(ids(&g1), ids(&g2));
    assert_eq!(pairs(&g1), pairs(&g2));
}

#[test]
fn comment_line_contributes_no_tokens() {
    let g = parse_graph("digraph {\n   // a -> b\n  c -> d\n}").unwrap();
    assert_eq!(ids(&g), vec!["c", "d"]);
    assert_eq!(pairs(&g), vec![p("c", "d")]);
}

#[test]
fn parallel_edges_are_kept() {
    let g = parse_graph("digraph { a -> b [label=one]; a -> b [label=two] }").unwrap();
    assert_eq!(pairs(&g), vec![p("a", "b"), p("a", "b")]);
    assert_eq!(labels(&g), vec![Some("one".to_string()), Some("two".to_string())]);
}

#[test]
fn last_attribute_value_wins() {
    let g = parse_graph("digraph { a -> b [label=x, color=red, label=y] }").unwrap();
    assert_eq!(labels(&g), vec![Some("y".to_string())]);
    assert_eq!(
        g.links[0].attributes,
        vec![p("label", "y"), p("color", "red")]
    );
}

#[test]
fn redeclared_node_is_not_duplicated() {
    let g = parse_graph("digraph { a [shape=box]; a; b -> a; a [color=red] }").unwrap();
    assert_eq!(ids(&g), vec!["a", "b"]);
}

#[test]
fn subgraphs_are_flattened() {
    let g = parse_graph("digraph { subgraph cluster { a -> b; subgraph { c } }; b -> d }").unwrap();
    assert_eq!(ids(&g), vec!["a", "b", "c", "d"]);
    assert_eq!(pairs(&g), vec![p("a", "b"), p("b", "d")]);
}

#[test]
fn attribute_statements_have_no_effect() {
    let g = parse_graph("strict digraph { graph [rankdir=LR]; node [shape=box]; edge [color=red]; a -> b }").unwrap();
    assert_eq!(ids(&g), vec!["a", "b"]);
    assert_eq!(labels(&g), vec![None]);
    assert!(g.links[0].attributes.is_empty());
}

#[test]
fn keywords_ignore_case() {
    let g = parse_graph("DiGraph { Node [shape=box]; a -> b }").unwrap();
    assert_eq!(ids(&g), vec!["a", "b"]);
}

#[test]
fn quoted_identifiers_are_unescaped() {
    let g = parse_graph("digraph { \"a b\" -> \"say \\\"hi\\\"\" [label=\"x -> y\"] }").unwrap();
    assert_eq!(ids(&g), vec!["a b", "say \"hi\""]);
    assert_eq!(labels(&g), vec![Some("x -> y".to_string())]);
}

#[test]
fn quoted_keyword_is_an_identifier() {
    let g = parse_graph("digraph { \"node\" -> \"edge\" }").unwrap();
    assert_eq!(ids(&g), vec!["node", "edge"]);
}

#[test]
fn empty_graph() {
    let g = parse_graph("graph {}").unwrap();
    assert!(g.nodes.is_empty());
    assert!(g.links.is_empty());
}

#[test]
fn unterminated_string_is_a_lex_error() {
    match parse_graph("digraph { a -> \"b }") {
        Err(DotError::Lex(e)) => {
            assert_eq!(e.reason, LexErrorReason::UnterminatedString);
            assert_eq!(e.offset, 15);
        }
        other => panic!("expected a lex error, got {:?}", other),
    }
}

#[test]
fn unexpected_character_is_a_lex_error() {
    match parse_graph("digraph { a -> b; @ }") {
        Err(DotError::Lex(e)) => {
            assert_eq!(e.reason, LexErrorReason::UnexpectedChar('@'));
            assert_eq!(e.offset, 18);
        }
        other => panic!("expected a lex error, got {:?}", other),
    }
}

#[test]
fn missing_graph_keyword() {
    match parse_graph("{ a }") {
        Err(DotError::Parse(e)) => {
            assert_eq!(e.expected, Expected::GraphKind);
            assert_eq!(e.position, 0);
        }
        other => panic!("expected a parse error, got {:?}", other),
    }
}

#[test]
fn missing_closing_brace() {
    match parse_graph("digraph { a -> b") {
        Err(DotError::Parse(e)) => {
            assert_eq!(e.expected, Expected::Statement);
            assert!(e.found.is_none());
            assert_eq!(e.position, 16);
        }
        other => panic!("expected a parse error, got {:?}", other),
    }
}

#[test]
fn text_after_the_graph() {
    match parse_graph("digraph { a } b") {
        Err(DotError::Parse(e)) => {
            assert_eq!(e.expected, Expected::EndOfInput);
            assert_eq!(e.position, 14);
        }
        other => panic!("expected a parse error, got {:?}", other),
    }
}

#[test]
fn attribute_without_value() {
    match parse_graph("digraph { a [label] }") {
        Err(DotError::Parse(e)) => assert_eq!(e.expected, Expected::Equals),
        other => panic!("expected a parse error, got {:?}", other),
    }
    match parse_graph("digraph { a [label=] }") {
        Err(DotError::Parse(e)) => assert_eq!(e.expected, Expected::Identifier),
        other => panic!("expected a parse error, got {:?}", other),
    }
    match parse_graph("digraph { a [; ] }") {
        Err(DotError::Parse(e)) => assert_eq!(e.expected, Expected::AttrName),
        other => panic!("expected a parse error, got {:?}", other),
    }
}

#[test]
fn subgraph_without_brace() {
    match parse_graph("digraph { subgraph s a }") {
        Err(DotError::Parse(e)) => assert_eq!(e.expected, Expected::LBrace),
        other => panic!("expected a parse error, got {:?}", other),
    }
    match parse_graph("digraph { node shape }") {
        Err(DotError::Parse(e)) => assert_eq!(e.expected, Expected::LBracket),
        other => panic!("expected a parse error, got {:?}", other),
    }
}

#[test]
fn subgraph_as_edge_target() {
    let g = parse_graph("digraph { a -> subgraph { b c } }").unwrap();
    assert_eq!(ids(&g), vec!["a", "b", "c"]);
    assert_eq!(pairs(&g), vec![p("a", "b"), p("a", "c")]);
}

#[test]
fn subgraph_as_edge_source() {
    let g = parse_graph("digraph { subgraph { x y } -> z [label=l] }").unwrap();
    assert_eq!(ids(&g), vec!["x", "y", "z"]);
    assert_eq!(pairs(&g), vec![p("x", "z"), p("y", "z")]);
    assert_eq!(labels(&g), vec![Some("l".to_string()), Some("l".to_string())]);
}

#[test]
fn subgraph_in_the_middle_of_a_chain() {
    let g = parse_graph("digraph { a -> subgraph s { b -> c } -> d; }").unwrap();
    assert_eq!(ids(&g), vec!["a", "b", "c", "d"]);
    assert_eq!(
        pairs(&g),
        vec![p("a", "b"), p("a", "c"), p("b", "d"), p("c", "d"), p("b", "c")]
    );
}

#[test]
fn subgraph_endpoint_without_brace() {
    match parse_graph("digraph { a -> subgraph }") {
        Err(DotError::Parse(e)) => {
            assert_eq!(e.expected, Expected::LBrace);
            assert_eq!(e.found.map(|t| t.kind), Some(TokenKind::RBrace));
        }
        other => panic!("expected a parse error, got {:?}", other),
    }
}

#[test]
fn offsets_count_bytes() {
    match parse_graph("digraph { \"é\" -> \"x }") {
        Err(DotError::Lex(e)) => {
            assert_eq!(e.reason, LexErrorReason::UnterminatedString);
            assert_eq!(e.offset, 18);
        }
        other => panic!("expected a lex error, got {:?}", other),
    }
    match parse_graph("digraph { \"é\" -> ; }") {
        Err(DotError::Parse(e)) => {
            assert_eq!(e.expected, Expected::Identifier);
            assert_eq!(e.position, 18);
        }
        other => panic!("expected a parse error, got {:?}", other),
    }
    let g = parse_graph("digraph { \"é\" -> \"ü\" }").unwrap();
    assert_eq!(ids(&g), vec!["é", "ü"]);
}

#[test]
fn end_of_text_position_counts_bytes() {
    match parse_graph("digraph { \"é\"") {
        Err(DotError::Parse(e)) => {
            assert_eq!(e.expected, Expected::Statement);
            assert!(e.found.is_none());
            assert_eq!(e.position, 14);
        }
        other => panic!("expected a parse error, got {:?}", other),
    }
}

#[test]
fn unquoted_non_ascii_is_a_lex_error() {
    match parse_graph("digraph { é -> b }") {
        Err(DotError::Lex(e)) => {
            assert_eq!(e.reason, LexErrorReason::UnexpectedChar('é'));
            assert_eq!(e.offset, 10);
        }
        other => panic!("expected a lex error, got {:?}", other),
    }
}

#[test]
fn graph_attribute_assignment_is_rejected() {
    match parse_graph("digraph { a = b }") {
        Err(DotError::Parse(e)) => {
            assert_eq!(e.expected, Expected::Statement);
            assert_eq!(e.found.map(|t| t.kind), Some(TokenKind::Equals));
        }
        other => panic!("expected a parse error, got {:?}", other),
    }
}

#[test]
fn bare_braces_are_rejected() {
    match parse_graph("digraph { { a } }") {
        Err(DotError::Parse(e)) => {
            assert_eq!(e.expected, Expected::Statement);
            assert_eq!(e.position, 10);
        }
        other => panic!("expected a parse error, got {:?}", other),
    }
    match parse_graph("digraph { a -> { b } }") {
        Err(DotError::Parse(e)) => assert_eq!(e.expected, Expected::Identifier),
        other => panic!("expected a parse error, got {:?}", other),
    }
}

#[test]
fn lone_carriage_return_at_end_is_kept() {
    assert_eq!(dot_delta::strip_comments("a\r"), "a\r");
    assert_eq!(dot_delta::strip_comments("a\r\nb\r"), "a\nb\r");
}
