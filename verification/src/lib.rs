//! A token-swap venue whose execution price is supplied by an external,
//! authorized agent after the swap request has begun executing.
//!
//! The library holds the verified core: the deposit ledger, the pool
//! registry with its share accounting, and the suspend/resume settlement
//! protocol keyed by correlation tokens. Host plumbing (message decoding,
//! promises, outbound transfers) lives outside the library and hands in
//! plain values.

pub mod amap;
pub mod contract;
pub mod keys;
pub mod model;
pub mod types;
