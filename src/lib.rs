//! Binary codec for the legacy UTXO declaration and the ownership check of
//! legacy addresses.

pub mod address;
pub mod bytes;
pub mod legacy;
pub mod value;
