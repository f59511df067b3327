//! Link graphs over a corpus of interlinked markdown documents: starting from one
//! document, every document within a bounded number of hops is discovered through
//! forward links (found in a document's text) and backward links (found in the
//! documents beside it), with each document's shortest distance from the start.
pub mod graph;
pub mod links;
pub mod path;
pub mod reduce;
pub mod search;
pub mod text;
pub mod traversal;
