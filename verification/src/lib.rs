//! A fixed-price sale of a bundle of non-fungible tokens, with royalty vaults,
//! modelled over plain values: addresses are byte arrays, amounts are
//! fixed-point decimals counted in attos, and vaults are vectors of ids.

pub mod decimal;
pub mod resources;
pub mod vaults;
pub mod sale;
pub mod laws;
