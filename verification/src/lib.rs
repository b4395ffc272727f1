//! A verified streaming Merkle tree layer over the BLAKE3 hash.
//!
//! Given a byte blob, the library produces an *outboard*: a side file of
//! interior hash pairs laid out in post-order, such that any contiguous
//! sub-range of the blob can be transmitted together with a small proof and
//! verified incrementally against a single 32-byte root hash.

mod codec;
mod hash;
mod iter;
mod node;
mod outboard;
mod ranges;
mod stack;
mod tree;
mod units;

pub use codec::DecodeError;
pub use iter::NodeInfo;
pub use node::{LeafNode, TreeNode};
pub use ranges::ChunkRanges;
pub use tree::{BaoTree, PostOrderOffset};
pub use units::{BlockNum, ByteNum, ChunkNum, PONum};
