//! Reading DOT graph descriptions into a canonical node/edge model, and the
//! structural difference between two such graphs.
//!
//! Text flows one way: the comment pass removes `//` comments, the lexer turns
//! the rest into tokens, the parser builds a syntax tree, the canonicalizer
//! builds the graph, and the delta engine compares two graphs.
mod text;
pub mod comments;
pub mod lexer;
pub mod parser;
pub mod graph;
pub mod dot;
pub mod delta;

pub use comments::strip_comments;
pub use delta::{compute_delta, GraphDelta};
pub use dot::{parse_graph, DotError};
pub use graph::{GraphData, GraphLink, GraphNode};
