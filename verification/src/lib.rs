//! An immediate-mode UI declaration library backed by a persistent per-node
//! cache.
//!
//! Callers rebuild a lightweight frame tree every tick through the builder
//! methods on [`Context`], then run the two-phase layout engine with
//! [`Context::update_layout`]. Layout results are written back into a
//! persistent store keyed by a structural identity ([`NodeKey`]) derived from
//! the call path, so geometry survives across frames while the arena of
//! [`FrameNode`] records is rebuilt from scratch each frame.

pub mod geometry;
pub mod key;
pub mod store;
pub mod tree;
pub mod layout;
pub mod laws;
pub mod matching;

pub use geometry::Axis;
pub use geometry::SemanticSize;
pub use geometry::Size;
pub use key::NodeKey;
pub use store::PersistentNodeData;
pub use tree::Context;
pub use tree::FrameNode;
pub use matching::Match;
pub use matching::SimpleSinkError;
