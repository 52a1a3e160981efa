//! A succinct indexed bit vector: packed bit storage, constant-ish-time rank
//! queries through a two-level precomputed index, logarithmic-time select
//! queries by binary search over rank, and a sparse array built on top of all
//! three that stores one value per present position.

pub mod bit_vector;
pub mod bits;
pub mod codec;
pub mod count;
pub mod rank_support;
pub mod select_support;
pub mod sparse_array;
pub mod utils;
