//! A weighted fair-interleaving shuffle engine.
//!
//! Items are grouped into named buckets and expanded into a slot table, one
//! slot per unit of weight.  The table is permuted at random and then repaired
//! by a bounded local sweep that spreads out slots owned by the same item;
//! when no item holds more than half the slots and the lookahead bound allows
//! a window, a final guaranteed pass leaves no two adjacent slots with the
//! same owner.  A two-level composition applies the same scheme to whole
//! buckets, so that no single bucket clusters in the flattened output.

pub mod counter;
pub mod counts;
pub mod keys;
pub mod nested;
pub mod playlist;
pub mod rng;
pub mod shuffle;
pub mod spread;
pub mod tags;
