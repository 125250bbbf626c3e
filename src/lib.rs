//! Epoch management for a proof-of-stake chain: the block ledger, epoch
//! boundaries, stake-weighted seat assignment, kickout and stake tracking,
//! and inflation rewards, with integer arithmetic throughout.
pub mod types;
pub mod order;
pub mod reward;
pub mod sampler;
pub mod kickout;
pub mod manager;
pub mod crypto;
pub mod test_utils;
