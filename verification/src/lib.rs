//! A compressed prefix trie ("radix trie") for matching URL-style paths
//! against registered route patterns and extracting named parameters.
//!
//! The heart of the crate is [`path::node::PathTrie`], which stores route
//! patterns made of static text, `:name` parameters and a trailing `*`
//! wildcard, resolves lookups with a fixed static/parameter/wildcard
//! precedence, and supports a path-compression pass that collapses chains
//! of single-child static nodes.  Two simpler companions share the same
//! split/merge vocabulary: [`radix::RadixNode`], a generic radix tree over
//! arbitrary key sequences, and [`trie::TrieNode`], a plain uncompressed
//! trie.

pub mod path;
pub mod radix;
pub mod trie;

use vstd::prelude::*;
use vstd::std_specs::cmp::PartialEqSpec;

verus! {

/// Common interface of the companion tries: lookup, insertion with
/// replacement, and removal with optional pruning of whole subtrees.
///
/// The declarations only demand a lawful key equality and, where the
/// walk must take at least one step, a nonempty key; each implementing
/// type exposes inherent methods of the same names whose contracts pin
/// the behaviour down, and the trait methods forward to those.
pub trait TrieExt<K: PartialEqSpec, V>: Sized {
    fn get(&self, key: &[K]) -> Option<&V>
        requires
            K::obeys_eq_spec(),
            key@.len() > 0,
    ;

    fn insert(&mut self, key: &[K], value: V) -> Result<Option<V>, ()>
        requires
            K::obeys_eq_spec(),
    ;

    fn remove(&mut self, key: &[K], prune: bool) -> Option<Self>
        requires
            K::obeys_eq_spec(),
            key@.len() > 0,
    ;
}

} // verus!
