//! The path-routing trie: pattern parsing, the trie engine itself, and
//! the parameter captures a lookup produces.

pub mod laws;
pub mod node;
pub mod params;
pub mod segs;

pub use node::Kind;
pub use node::PathParseError;
pub use node::PathTrie;
pub use node::TrieBuilder;
pub use params::Param;
pub use params::Params;
