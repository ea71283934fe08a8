use vstd::prelude::*;

use crate::types::{
    reference_of, AccountState, AccountTransaction, ContractAddress, MempoolError, MempoolResult,
    Nonce, TransactionHash, TransactionReference,
};

verus! {

/// Whether `s` holds a transaction with hash `h`.
pub open spec fn has_hash(s: Seq<AccountTransaction>, h: TransactionHash) -> bool {
    exists|i: int| 0 <= i < s.len() && s[i].tx_hash == h
}

/// Whether `s` holds a transaction of `address` with `nonce`.
pub open spec fn has_slot(s: Seq<AccountTransaction>, address: ContractAddress, nonce: Nonce) -> bool {
    exists|i: int| 0 <= i < s.len() && s[i].contract_address == address && s[i].nonce == nonce
}

/// Whether `s` holds the transaction that `t` summarises.
pub open spec fn has_reference(s: Seq<AccountTransaction>, t: TransactionReference) -> bool {
    exists|j: int| 0 <= j < s.len() && reference_of(#[trigger] s[j]) == t
}

/// Hashes are unique, and so are (address, nonce) pairs.
pub open spec fn pool_wf(s: Seq<AccountTransaction>) -> bool {
    forall|i: int, j: int|
        0 <= i < s.len() && 0 <= j < s.len() && i != j ==> {
            &&& s[i].tx_hash != s[j].tx_hash
            &&& !(s[i].contract_address == s[j].contract_address && s[i].nonce == s[j].nonce)
        }
}

/// Whether `tx` is garbage once `address` has reached `nonce`.
pub open spec fn is_stale(tx: AccountTransaction, address: ContractAddress, nonce: Nonce) -> bool {
    tx.contract_address == address && tx.nonce < nonce
}

/// Keeps what is not stale for `address` at `nonce`.
pub open spec fn fresh_for(address: ContractAddress, nonce: Nonce) -> spec_fn(AccountTransaction) -> bool {
    |t: AccountTransaction| !is_stale(t, address, nonce)
}

/// What `s.filter(f)` holds: the members of `s` that `f` keeps.
pub proof fn lemma_filter_membership(s: Seq<AccountTransaction>, f: spec_fn(AccountTransaction) -> bool)
    ensures
        forall|t: AccountTransaction| #[trigger] s.filter(f).contains(t) <==> (s.contains(t) && f(t)),
{
    assert forall|t: AccountTransaction| #[trigger] s.filter(f).contains(t) <==> (s.contains(t) && f(t)) by {
        if s.filter(f).contains(t) {
            s.lemma_filter_contains_rev(f, t);
            let k = choose|k: int| 0 <= k < s.filter(f).len() && s.filter(f)[k] == t;
            s.lemma_filter_pred(f, k);
        }
        if s.contains(t) && f(t) {
            let i = choose|i: int| 0 <= i < s.len() && s[i] == t;
            s.lemma_filter_contains(f, i);
        }
    }
}

/// All transactions held by the mempool, indexed by hash and by (address, nonce).
pub struct TransactionPool {
    txs: Vec<AccountTransaction>,
}

impl View for TransactionPool {
    type V = Seq<AccountTransaction>;

    closed spec fn view(&self) -> Seq<AccountTransaction> {
        self.txs@
    }
}

impl TransactionPool {
    pub open spec fn wf(&self) -> bool {
        pool_wf(self@)
    }

    pub fn new() -> (r: TransactionPool)
        ensures
            r.wf(),
            r@ == Seq::<AccountTransaction>::empty(),
    {
        TransactionPool { txs: Vec::new() }
    }

    pub fn len(&self) -> (r: usize)
        ensures
            r == self@.len(),
    {
        self.txs.len()
    }

    fn find_hash(&self, h: TransactionHash) -> (r: Option<usize>)
        ensures
            match r {
                Some(i) => i < self@.len() && self@[i as int].tx_hash == h,
                None => !has_hash(self@, h),
            },
    {
        let mut i: usize = 0;
        while i < self.txs.len()
            invariant
                i <= self.txs@.len(),
                forall|k: int| 0 <= k < i ==> self.txs@[k].tx_hash != h,
            decreases self.txs@.len() - i,
        {
            if self.txs[i].tx_hash == h {
                return Some(i);
            }
            i = i + 1;
        }
        None
    }

    fn find_slot(&self, address: ContractAddress, nonce: Nonce) -> (r: Option<usize>)
        ensures
            match r {
                Some(i) => i < self@.len() && self@[i as int].contract_address == address
                    && self@[i as int].nonce == nonce,
                None => !has_slot(self@, address, nonce),
            },
    {
        let mut i: usize = 0;
        while i < self.txs.len()
            invariant
                i <= self.txs@.len(),
                forall|k: int|
                    0 <= k < i ==> !(self.txs@[k].contract_address == address
                        && self.txs@[k].nonce == nonce),
            decreases self.txs@.len() - i,
        {
            if self.txs[i].contract_address == address && self.txs[i].nonce == nonce {
                return Some(i);
            }
            i = i + 1;
        }
        None
    }

    /// Adds `tx`, unless its hash or its (address, nonce) is already held.
    pub fn insert(&mut self, tx: AccountTransaction) -> (r: MempoolResult<()>)
        requires
            old(self).wf(),
        ensures
            final(self).wf(),
            has_hash(old(self)@, tx.tx_hash) ==> r == Err::<(), MempoolError>(
                MempoolError::DuplicateTransaction { tx_hash: tx.tx_hash },
            ) && final(self)@ == old(self)@,
            !has_hash(old(self)@, tx.tx_hash) && has_slot(old(self)@, tx.contract_address, tx.nonce)
                ==> r == Err::<(), MempoolError>(
                MempoolError::DuplicateNonce { address: tx.contract_address, nonce: tx.nonce },
            ) && final(self)@ == old(self)@,
            !has_hash(old(self)@, tx.tx_hash) && !has_slot(
                old(self)@,
                tx.contract_address,
                tx.nonce,
            ) ==> r is Ok && final(self)@ == old(self)@.push(tx),
    {
        if self.find_hash(tx.tx_hash).is_some() {
            return Err(MempoolError::DuplicateTransaction { tx_hash: tx.tx_hash });
        }
        if self.find_slot(tx.contract_address, tx.nonce).is_some() {
            return Err(MempoolError::DuplicateNonce { address: tx.contract_address, nonce: tx.nonce });
        }
        self.txs.push(tx);
        Ok(())
    }

    /// Removes the transaction with hash `h` and returns it.
    pub fn remove(&mut self, h: TransactionHash) -> (r: MempoolResult<AccountTransaction>)
        requires
            old(self).wf(),
        ensures
            final(self).wf(),
            !has_hash(old(self)@, h) ==> r == Err::<AccountTransaction, MempoolError>(
                MempoolError::TransactionNotFound { tx_hash: h },
            ) && final(self)@ == old(self)@,
            has_hash(old(self)@, h) ==> r is Ok,
            r matches Ok(tx) ==> exists|i: int|
                0 <= i < old(self)@.len() && old(self)@[i] == tx && tx.tx_hash == h
                    && final(self)@ == old(self)@.remove(i),
    {
        match self.find_hash(h) {
            Some(i) => {
                let tx = self.txs.remove(i);
                proof {
                    assert(old(self)@[i as int] == tx);
                }
                Ok(tx)
            },
            None => Err(MempoolError::TransactionNotFound { tx_hash: h }),
        }
    }

    /// Removes every transaction of `address` whose nonce is below `nonce`.
    pub fn remove_up_to_nonce(&mut self, address: ContractAddress, nonce: Nonce)
        requires
            old(self).wf(),
        ensures
            final(self).wf(),
            final(self)@ == old(self)@.filter(fresh_for(address, nonce)),
    {
        let ghost pred = fresh_for(address, nonce);
        let mut kept: Vec<AccountTransaction> = Vec::new();
        let mut i: usize = 0;
        while i < self.txs.len()
            invariant
                i <= self.txs@.len(),
                pred == fresh_for(address, nonce),
                kept@ == self.txs@.subrange(0, i as int).filter(pred),
                pool_wf(self.txs@),
                pool_wf(kept@),
                forall|a: int|
                    0 <= a < kept@.len() ==> exists|k: int| 0 <= k < i && #[trigger] kept@[a] == self.txs@[k],
            decreases self.txs@.len() - i,
        {
            let tx = self.txs[i];
            proof {
                let s = self.txs@.subrange(0, i as int + 1);
                assert(s.drop_last() =~= self.txs@.subrange(0, i as int));
                assert(s.last() == tx);
                assert(pred(tx) == !(tx.contract_address == address && tx.nonce < nonce));
                reveal(Seq::filter);
                assert(s.filter(pred) == (if pred(tx) {
                    s.drop_last().filter(pred).push(tx)
                } else {
                    s.drop_last().filter(pred)
                }));
            }
            if !(tx.contract_address == address && tx.nonce < nonce) {
                kept.push(tx);
                proof {
                    assert(kept@[kept@.len() - 1] == self.txs@[i as int]);
                }
            }
            i = i + 1;
        }
        proof {
            assert(self.txs@.subrange(0, i as int) =~= self.txs@);
        }
        self.txs = kept;
    }
    /// The transaction with hash `h`.
    pub fn get_by_tx_hash(&self, h: TransactionHash) -> (r: MempoolResult<AccountTransaction>)
        ensures
            !has_hash(self@, h) ==> r == Err::<AccountTransaction, MempoolError>(
                MempoolError::TransactionNotFound { tx_hash: h },
            ),
            has_hash(self@, h) ==> r is Ok,
            r matches Ok(tx) ==> tx.tx_hash == h && self@.contains(tx),
    {
        match self.find_hash(h) {
            Some(i) => {
                proof {
                    assert(self@[i as int] == self.txs@[i as int]);
                }
                Ok(self.txs[i])
            },
            None => Err(MempoolError::TransactionNotFound { tx_hash: h }),
        }
    }

    /// The reference of the transaction of `address` with `nonce`, if one is held.
    pub fn get_by_address_and_nonce(&self, address: ContractAddress, nonce: Nonce) -> (r: Option<
        TransactionReference,
    >)
        ensures
            r is Some <==> has_slot(self@, address, nonce),
            r matches Some(t) ==> t.address == address && t.nonce == nonce && has_reference(self@, t),
    {
        match self.find_slot(address, nonce) {
            Some(i) => {
                let t = TransactionReference::new(&self.txs[i]);
                proof {
                    assert(reference_of(self@[i as int]) == t);
                }
                Some(t)
            },
            None => None,
        }
    }

    /// The transaction that an account at `account_state` may run next, if one is held.
    pub fn get_next_eligible_tx(&self, account_state: AccountState) -> (r: Option<
        TransactionReference,
    >)
        ensures
            r is Some <==> has_slot(self@, account_state.address, account_state.nonce),
            r matches Some(t) ==> t.address == account_state.address && t.nonce
                == account_state.nonce && has_reference(self@, t),
    {
        self.get_by_address_and_nonce(account_state.address, account_state.nonce)
    }

    /// The reference of the transaction of `address` with the smallest nonce, if any is held.
    pub fn get_lowest_nonce_tx(&self, address: ContractAddress) -> (r: Option<TransactionReference>)
        ensures
            r is Some <==> exists|i: int| 0 <= i < self@.len() && self@[i].contract_address == address,
            r matches Some(t) ==> {
                &&& t.address == address
                &&& has_reference(self@, t)
                &&& forall|i: int|
                    0 <= i < self@.len() && self@[i].contract_address == address ==> t.nonce
                        <= #[trigger] self@[i].nonce
            },
    {
        let mut best: Option<usize> = None;
        let mut i: usize = 0;
        while i < self.txs.len()
            invariant
                i <= self.txs@.len(),
                best is None ==> forall|k: int| 0 <= k < i ==> self.txs@[k].contract_address != address,
                best matches Some(b) ==> {
                    &&& b < i
                    &&& self.txs@[b as int].contract_address == address
                    &&& forall|k: int|
                        0 <= k < i && self.txs@[k].contract_address == address
                            ==> self.txs@[b as int].nonce <= #[trigger] self.txs@[k].nonce
                },
            decreases self.txs@.len() - i,
        {
            if self.txs[i].contract_address == address {
                match best {
                    Some(b) => {
                        if self.txs[i].nonce < self.txs[b].nonce {
                            best = Some(i);
                        }
                    },
                    None => {
                        best = Some(i);
                    },
                }
            }
            i = i + 1;
        }
        match best {
            Some(b) => {
                let t = TransactionReference::new(&self.txs[b]);
                proof {
                    assert(reference_of(self@[b as int]) == t);
                }
                Some(t)
            },
            None => None,
        }
    }
}

} // verus!
