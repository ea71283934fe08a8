use vstd::prelude::*;

verus! {

/// Identifies an account.
pub type ContractAddress = u64;

/// A per-account counter: the position of a transaction in its account's sequence.
pub type Nonce = u64;

/// The unique content identifier of a transaction.
pub type TransactionHash = u64;

/// The priority fee that a transaction offers to the sequencer.
pub type Tip = u64;

/// A bid per unit of L2 gas.
pub type GasPrice = u128;

/// A transaction as the mempool holds it: the fields that identify and order it.
#[derive(Clone, Copy, Debug, PartialEq, Eq, Structural)]
pub struct AccountTransaction {
    pub contract_address: ContractAddress,
    pub nonce: Nonce,
    pub tx_hash: TransactionHash,
    pub tip: Tip,
    pub max_l2_gas_price: GasPrice,
}

/// A compact summary of a transaction, used for ordering and identity.
#[derive(Clone, Copy, Debug, PartialEq, Eq, Structural)]
pub struct TransactionReference {
    pub address: ContractAddress,
    pub nonce: Nonce,
    pub tx_hash: TransactionHash,
    pub tip: Tip,
    pub max_l2_gas_price: GasPrice,
}

/// The reference that summarises `tx`.
pub open spec fn reference_of(tx: AccountTransaction) -> TransactionReference {
    TransactionReference {
        address: tx.contract_address,
        nonce: tx.nonce,
        tx_hash: tx.tx_hash,
        tip: tx.tip,
        max_l2_gas_price: tx.max_l2_gas_price,
    }
}

impl TransactionReference {
    pub fn new(tx: &AccountTransaction) -> (r: TransactionReference)
        ensures
            r == reference_of(*tx),
    {
        TransactionReference {
            address: tx.contract_address,
            nonce: tx.nonce,
            tx_hash: tx.tx_hash,
            tip: tx.tip,
            max_l2_gas_price: tx.max_l2_gas_price,
        }
    }
}

/// The nonce of an account as reported by the gateway or by a committed block.
#[derive(Clone, Copy, Debug, PartialEq, Eq, Structural)]
pub struct AccountState {
    pub address: ContractAddress,
    pub nonce: Nonce,
}

/// Errors reported by the mempool.
#[derive(Clone, Copy, Debug, PartialEq, Eq, Structural)]
pub enum MempoolError {
    NonceTooOld { address: ContractAddress, nonce: Nonce },
    DuplicateNonce { address: ContractAddress, nonce: Nonce },
    DuplicateTransaction { tx_hash: TransactionHash },
    TransactionNotFound { tx_hash: TransactionHash },
    NonceOverflow { nonce: Nonce },
}

pub type MempoolResult<T> = Result<T, MempoolError>;

/// The nonce that follows `nonce`, or `NonceOverflow` when there is none.
pub fn try_increment_nonce(nonce: Nonce) -> (r: MempoolResult<Nonce>)
    ensures
        nonce < u64::MAX ==> r == Ok::<Nonce, MempoolError>((nonce + 1) as u64),
        nonce == u64::MAX ==> r == Err::<Nonce, MempoolError>(MempoolError::NonceOverflow { nonce }),
{
    if nonce < u64::MAX {
        Ok(nonce + 1)
    } else {
        Err(MempoolError::NonceOverflow { nonce })
    }
}

} // verus!
