//! Integer core of a procedural city generator: the ring layout of the
//! duplicated footprints, the flat duplicate index and its decoding, the
//! remapping of face indices into the combined mesh, and the text form of
//! a face line.

pub mod layout;
pub mod faces;
pub mod wire;
