//! Placement of nucleotide sequences on a reference phylogeny through an
//! index of hashed k-mers.
pub mod codec;
pub mod index;
pub mod tree;
pub mod placement;
pub mod builder;
pub mod sequence;
pub mod response;
