//! A transaction mempool for an account-based sequencer: a pool of pending transactions, a
//! priority queue holding the next eligible transaction of each account, and the engine that
//! keeps both aligned with account nonces and committed blocks.

pub mod address_to_nonce;
pub mod mempool;
pub mod transaction_pool;
pub mod transaction_queue;
pub mod types;
