//! Operational-transform core of a collaborative text editor: attributed operations,
//! deltas with composition and transformation, a canonicalizing builder, a word codec
//! for deltas and revisions, and the session that reconciles local and remote revisions.

pub mod attributes;
pub mod delta;
pub mod builder;
pub mod compose;
pub mod transform;
pub mod checksum;
pub mod session;
pub mod codec;
pub mod semantics;
