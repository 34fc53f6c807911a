//! The records that the neighbouring services exchange, as plain data.

pub mod fee_rate_canister_did;
pub mod fomowell_token;
pub mod user_canister_did;
