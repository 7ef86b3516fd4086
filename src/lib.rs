//! Hierarchical sky cells (HEALPix nested scheme) and multi-order coverages
//! built from them: cell arithmetic, single-integer cell addresses, range
//! coverages with their set algebra, and a compact text notation.

pub mod cell;
pub mod uniq;
pub mod sentinel;
pub mod ranges;
pub mod moc;
pub mod normalized;
pub mod bmoc;
pub mod edge;
pub mod ascii;
