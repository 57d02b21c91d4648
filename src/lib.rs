//! Basis enumeration for many-body quantum states: dense mixed-radix
//! multi-indices with their one- and two-coordinate neighbours, and
//! fermionic occupation states in combinatorial order.

pub mod error;
pub mod mixed_radix;
pub mod odometer;
pub mod dense;
pub mod occupation;
pub mod rank;

pub use dense::{DenseOneBodyIterator, DenseState, DenseTwoBodyIterator};
pub use error::BasisError;
pub use occupation::{init_sd_state, is_occupied, next_sd_state, single_excitation, SdOneBodyIterator};
pub use rank::{binomial, checked_binomial, sd_rank, sd_unrank};
