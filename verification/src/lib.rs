//! A small collection of verified puzzle computations built around a knot
//! hash: a non-cryptographic digest computed by repeatedly reversing wrapping
//! sub-ranges of a circular buffer.  The hash feeds a 128x128 bit grid whose
//! 4-connected regions are counted by an explicit-stack flood fill.  The
//! companion modules hold independent computations that share the same style:
//! a spiral memory grid, a garbage/group stream scorer, a firewall trip
//! simulation, dueling generators, a memory-bank reallocation loop and a
//! spinlock buffer.

pub mod firewall;
pub mod generators;
pub mod knot;
pub mod knothash;
pub mod memory;
pub mod regions;
pub mod spinlock;
pub mod spiral;
pub mod streams;
pub mod text;
