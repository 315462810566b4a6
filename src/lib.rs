//! A consistent-hashing ring: keys in a 64-bit coordinate space are owned by the
//! node whose replica position is their nearest clockwise successor.
pub mod hashing;
pub mod node;
pub mod placement;
pub mod ring;
