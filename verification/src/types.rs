//! Identifier types and small enums shared by the whole crate.

use vstd::prelude::*;

verus! {

/// A single token position in the key/value cache.
#[derive(Debug, Clone, Copy, PartialEq, Eq, Structural, Hash)]
pub struct TokenId(pub usize);

/// Unique identifier for a node of the web.
#[derive(Debug, Clone, Copy, PartialEq, Eq, Structural, Hash)]
pub struct WebNodeId(pub usize);

/// Types of edges between nodes.
#[derive(Debug, Clone, Copy, PartialEq, Eq, Structural)]
pub enum EdgeKind {
    Semantic,
    Positional,
    ConversationTurn,
    Custom(u8),
}

/// Marker for the block compressor attached to a web. The compression
/// itself works on serialized payloads and is done outside this crate.
#[derive(Debug, Clone, Copy)]
pub struct KvWebCompressor;

impl KvWebCompressor {
    pub fn new() -> (c: Self)
        ensures
            c == KvWebCompressor,
    {
        KvWebCompressor
    }
}

} // verus!
