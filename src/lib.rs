//! Fixed-width fractions laid out along the Stern–Brocot tree.
//!
//! A value of width `w` is a `w`-bit pattern. Zero stands for the fraction 0;
//! any other pattern names a node of the tree: its lowest set bit is the
//! marker, and the bits above the marker, read from the top, are the left (0)
//! and right (1) turns taken from the root 1/1.
//!
//! The layout makes the order of the patterns as unsigned integers the order
//! of the fractions, so the unsigned types compare by their bits. `model`
//! states what a pattern means, `node` holds the algorithms for every width,
//! and `laws` proves what holds of them together: round trips, inversion,
//! order and the shape of the tree.

pub mod ifrac8;
pub mod laws;
pub mod model;
pub mod node;
mod ufrac16;
mod ufrac32;
mod ufrac64;
mod ufrac8;

pub use ifrac8::IFrac8;
pub use ufrac16::UFrac16;
pub use ufrac32::UFrac32;
pub use ufrac64::UFrac64;
pub use ufrac8::UFrac8;


