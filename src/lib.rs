//! An x-fast trie: an ordered index over fixed-width unsigned keys with
//! constant-time lookup and predecessor queries in time logarithmic in the
//! key width.
use vstd::prelude::*;

pub mod node;
pub mod prefix;
pub mod xfast_trie;

pub use node::XFastNode;
pub use xfast_trie::{TrieError, XFastTrie, DEFAULT_WIDTH};

verus! {

} // verus!
