//! Hexagonal grid addressed by a single spiral index.
//!
//! Position `0` is the central hex, and every further hex lies on one of the
//! hexagonal rings that surround it. Ring `k > 0` holds `6 * k` hexes, starting
//! with the hex on its top edge and growing clockwise.

pub mod convert;
pub mod position;
