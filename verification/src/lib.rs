//! A prefix tree over sequences of Unicode scalar values.
//!
//! [`Trie`] stores strings and enumerates those that share a prefix. Common
//! prefixes are stored once, so a prefix query only walks the matching
//! subtree.
//!
//! - [`trie`] holds the trie and the enumerations of suffixes and of whole
//!   strings that it hands out.
//! - [`node`] holds [`TrieNode`], the recursive structure underneath, with
//!   insertion, descent, removal with pruning, and the cutting off of a
//!   subtree.
//! - [`child_iter`] holds the walk over a subtree that the enumerations pull
//!   from, one node at a time.
//! - [`paths`] and [`terminator`] hold the mathematical vocabulary in which
//!   all of it is specified: a tree as the set of its paths, and the strings
//!   that such a set stores under the stop symbol. The laws of the trie are
//!   stated and proved there.
//! - [`text`] holds what the tree needs of `char`s and strings.

pub mod child_iter;
pub mod node;
pub mod paths;
pub mod terminator;
pub mod text;
pub mod trie;

pub use child_iter::{ChildIter, LeafIter};
pub use node::TrieNode;
pub use trie::{ContentIterator, SuffixIterator, Trie};
