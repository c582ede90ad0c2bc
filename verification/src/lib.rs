//! The delta dependency tree of a pack, and the index of a pack.
//!
//! A pack stores many of its objects as deltas against another entry of the same pack. A
//! [`tree::Tree`] records for each entry where it starts and ends and which entries are
//! deltas against it. It is filled while the pack is read front to back, sealed once the end
//! of the entries is known, and then handed out in chunks that can be worked on
//! independently: see [`tree::SealedTree::into_chunks`]. [`index::encode`] writes the index
//! of a pack, and [`index::decode`] reads it.
//!
//! What each function does is stated over mathematical values: an item is an
//! [`item::ItemView`], a tree is a [`model::TreeView`], the chunks of a tree are
//! [`walk::chunks_of`], and the bytes of an index are [`index::index_body`].
pub mod bytes;
pub mod error;
pub mod frames;
pub mod from_offsets;
pub mod index;
pub mod item;
pub mod model;
pub mod partition;
pub mod records;
pub mod soundness;
pub mod traverse;
pub mod tree;
pub mod walk;
