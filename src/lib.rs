//! Orchestration core for threshold-ECDSA ceremonies: a type-erased party
//! driver, a local round-robin simulator, a store of interactive signing
//! sessions and the validation and assembly steps of key generation.

pub mod codec;
pub mod dkg;
pub mod driver;
pub mod sign;
pub mod simulate;
pub mod types;
