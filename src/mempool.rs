use vstd::prelude::*;

use crate::address_to_nonce::AddressToNonce;
use crate::transaction_pool::{
    fresh_for, has_hash, has_reference, has_slot, lemma_filter_membership, pool_wf, TransactionPool,
};
use crate::transaction_queue::{
    has_address, has_priority_over, is_ready, is_ready_chunk, sorted_by_priority, TransactionQueue,
};
use crate::types::{
    reference_of, try_increment_nonce, AccountState, AccountTransaction, ContractAddress,
    GasPrice, MempoolError, MempoolResult, Nonce, TransactionHash, TransactionReference,
};

verus! {

/// How the mempool treats a transaction that takes the (address, nonce) of a held one.
#[derive(Clone, Copy, Debug)]
pub struct MempoolConfig {
    pub enable_fee_escalation: bool,
    /// Percentage by which tip and max gas price must rise for a replacement (10 for 10%).
    pub fee_escalation_percentage: u8,
}

impl Default for MempoolConfig {
    fn default() -> (r: MempoolConfig)
        ensures
            r.enable_fee_escalation,
            r.fee_escalation_percentage == 10,
    {
        MempoolConfig { enable_fee_escalation: true, fee_escalation_percentage: 10 }
    }
}

/// A transaction to add, with the state of its account as the gateway saw it.
pub struct AddTransactionArgs {
    pub tx: AccountTransaction,
    pub account_state: AccountState,
}

/// A committed block: the next nonce of each account it touched, and its transactions.
pub struct CommitBlockArgs {
    pub address_to_nonce: AddressToNonce,
    pub tx_hashes: Vec<TransactionHash>,
}

/// Whether `incoming` rises above `existing` by at least `pct` percent, rounding the increase
/// down; false where the threshold does not fit in 128 bits.
pub open spec fn increased_enough_by(pct: int, existing: int, incoming: int) -> bool {
    &&& existing * pct <= u128::MAX
    &&& existing + (existing * pct) / 100 <= u128::MAX
    &&& incoming >= existing + (existing * pct) / 100
}

/// Whether `incoming` may replace `existing` under escalation percentage `pct`.
pub open spec fn should_replace(
    pct: int,
    existing: TransactionReference,
    incoming: TransactionReference,
) -> bool {
    &&& increased_enough_by(pct, existing.tip as int, incoming.tip as int)
    &&& increased_enough_by(pct, existing.max_l2_gas_price as int, incoming.max_l2_gas_price as int)
}

/// A replacement that qualifies stays qualified when the incoming tip and gas price rise.
pub proof fn lemma_replacement_monotone(
    pct: int,
    a: TransactionReference,
    b: TransactionReference,
    c: TransactionReference,
)
    requires
        should_replace(pct, a, b),
        c.tip >= b.tip,
        c.max_l2_gas_price >= b.max_l2_gas_price,
    ensures
        should_replace(pct, a, c),
{
}

/// What nonce validation of an incoming transaction of `address` with `nonce` gives.
pub open spec fn nonce_check(
    staged: Map<ContractAddress, Nonce>,
    queue: Seq<TransactionReference>,
    address: ContractAddress,
    nonce: Nonce,
) -> MempoolResult<()> {
    if staged.contains_key(address) && nonce < staged[address] {
        Err(MempoolError::NonceTooOld { address, nonce })
    } else if exists|i: int| 0 <= i < queue.len() && queue[i].address == address && nonce <= queue[i].nonce {
        Err(MempoolError::DuplicateNonce { address, nonce })
    } else {
        Ok(())
    }
}

/// The nonce that `address` is expected to send next: the staged one, else the recorded one,
/// else the one the gateway reported.
pub open spec fn expected_nonce(
    staged: Map<ContractAddress, Nonce>,
    account_nonces: Map<ContractAddress, Nonce>,
    address: ContractAddress,
    reported: Nonce,
) -> Nonce {
    if staged.contains_key(address) {
        staged[address]
    } else if account_nonces.contains_key(address) {
        account_nonces[address]
    } else {
        reported
    }
}

/// Whether `s[i]` is the transaction of `address` with `nonce`.
pub open spec fn at_slot(s: Seq<AccountTransaction>, i: int, address: ContractAddress, nonce: Nonce) -> bool {
    0 <= i < s.len() && s[i].contract_address == address && s[i].nonce == nonce
}

/// `s` with `s[i]` removed still holds `s[j]`, for `j != i`, at the returned index.
proof fn lemma_index_after_remove<A>(s: Seq<A>, i: int, j: int) -> (k: int)
    requires
        0 <= i < s.len(),
        0 <= j < s.len(),
        i != j,
    ensures
        0 <= k < s.remove(i).len(),
        s.remove(i)[k] == s[j],
{
    if j < i {
        j
    } else {
        j - 1
    }
}

/// The references of `txs`.
pub open spec fn refs_of(txs: Seq<AccountTransaction>) -> Seq<TransactionReference> {
    txs.map_values(|t: AccountTransaction| reference_of(t))
}

/// Whether `t` is the next-nonce transaction of some reference in `rs`.
pub open spec fn follows_some(rs: Seq<TransactionReference>, t: TransactionReference) -> bool {
    exists|k: int| 0 <= k < rs.len() && rs[k].address == t.address && t.nonce == rs[k].nonce + 1
}

proof fn lemma_follows_push(rs: Seq<TransactionReference>, c: TransactionReference, t: TransactionReference)
    ensures
        follows_some(rs.push(c), t) <==> (follows_some(rs, t) || (c.address == t.address && t.nonce
            == c.nonce + 1)),
{
    if follows_some(rs, t) {
        let k = choose|k: int| 0 <= k < rs.len() && rs[k].address == t.address && t.nonce == rs[k].nonce + 1;
        assert(rs.push(c)[k] == rs[k]);
    }
    if c.address == t.address && t.nonce == c.nonce + 1 {
        assert(rs.push(c)[rs.len() as int] == c);
    }
    if follows_some(rs.push(c), t) {
        let k = choose|k: int|
            0 <= k < rs.push(c).len() && rs.push(c)[k].address == t.address && t.nonce == rs.push(c)[k].nonce + 1;
        if k < rs.len() {
            assert(rs.push(c)[k] == rs[k]);
        }
    }
}

proof fn lemma_push_contains<A>(s: Seq<A>, x: A, u: A)
    ensures
        s.push(x).contains(u) <==> (s.contains(u) || u == x),
{
    if s.contains(u) {
        let k = choose|k: int| 0 <= k < s.len() && s[k] == u;
        assert(s.push(x)[k] == u);
    }
    if u == x {
        assert(s.push(x)[s.len() as int] == u);
    }
    if s.push(x).contains(u) {
        let k = choose|k: int| 0 <= k < s.push(x).len() && s.push(x)[k] == u;
        if k < s.len() {
            assert(s[k] == u);
        }
    }
}

proof fn lemma_subrange_step<A>(s: Seq<A>, i: int, u: A)
    requires
        0 <= i < s.len(),
    ensures
        s.subrange(i, s.len() as int).contains(u) <==> (u == s[i] || s.subrange(i + 1, s.len() as int).contains(u)),
{
    let a = s.subrange(i, s.len() as int);
    let b = s.subrange(i + 1, s.len() as int);
    assert(a[0] == s[i]);
    if a.contains(u) {
        let k = choose|k: int| 0 <= k < a.len() && a[k] == u;
        if k > 0 {
            assert(b[k - 1] == u);
        }
    }
    if b.contains(u) {
        let k = choose|k: int| 0 <= k < b.len() && b[k] == u;
        assert(a[k + 1] == u);
    }
}

/// What a successful `get_txs(n)` from `pre` to `post` that returned `txs` guarantees.
pub open spec fn dispensed(pre: Mempool, n: nat, txs: Seq<AccountTransaction>, post: Mempool) -> bool {
    &&& post.pool() == pre.pool()
    &&& txs.len() <= n
    &&& forall|k: int| 0 <= k < txs.len() ==> pre.pool().contains(#[trigger] txs[k])
    &&& forall|k: int|
        0 <= k < txs.len() ==> {
            &&& post.staged().contains_key(#[trigger] txs[k].contract_address)
            &&& post.staged()[txs[k].contract_address] > txs[k].nonce
        }
    &&& forall|k: int|
        0 <= k < txs.len() && pre.staged().contains_key(#[trigger] txs[k].contract_address)
            ==> txs[k].nonce >= pre.staged()[txs[k].contract_address]
    &&& forall|k: int|
        0 <= k < txs.len() ==> is_ready(reference_of(#[trigger] txs[k]), post.gas_price_threshold())
    &&& forall|k1: int, k2: int|
        0 <= k1 < k2 < txs.len() && txs[k1].contract_address == txs[k2].contract_address
            ==> txs[k1].nonce < txs[k2].nonce
    &&& txs.len() < n ==> forall|t: TransactionReference|
        post.queue().contains(t) ==> !is_ready(t, post.gas_price_threshold())
    &&& forall|k1: int, k2: int|
        0 <= k1 < k2 < txs.len() && pre.queue().contains(reference_of(#[trigger] txs[k1]))
            && pre.queue().contains(reference_of(#[trigger] txs[k2])) ==> !has_priority_over(
            reference_of(txs[k2]),
            reference_of(txs[k1]),
        )
    &&& forall|k: int, t: TransactionReference|
        0 <= k < txs.len() && pre.queue().contains(reference_of(#[trigger] txs[k]))
            && #[trigger] pre.queue().contains(t) && is_ready(t, pre.gas_price_threshold()) && (
        forall|m: int| 0 <= m < txs.len() ==> reference_of(txs[m]) != t) ==> !has_priority_over(
            t,
            reference_of(txs[k]),
        )
    &&& forall|k: int|
        0 <= k < txs.len() ==> pre.queue().contains(#[trigger] refs_of(txs)[k]) || follows_some(
            refs_of(txs).take(k),
            refs_of(txs)[k],
        )
    &&& forall|t: TransactionReference|
        #[trigger] post.queue().contains(t) <==> (!refs_of(txs).contains(t) && (pre.queue().contains(t)
            || (has_reference(pre.pool(), t) && follows_some(refs_of(txs), t))))
    &&& forall|k: int|
        0 <= k < txs.len() && (forall|k2: int|
            k < k2 < txs.len() ==> txs[k2].contract_address != txs[k].contract_address)
            ==> post.staged()[#[trigger] txs[k].contract_address] == txs[k].nonce + 1
    &&& forall|a: ContractAddress|
        (forall|k: int| 0 <= k < txs.len() ==> txs[k].contract_address != a) ==> {
            &&& #[trigger] post.staged().contains_key(a) == pre.staged().contains_key(a)
            &&& pre.staged().contains_key(a) ==> post.staged()[a] == pre.staged()[a]
        }
}

/// Two successive `get_txs` calls, with nothing in between, hand out no transaction, and no
/// hash, twice.
pub proof fn lemma_get_txs_disjoint(
    m0: Mempool,
    n1: nat,
    txs1: Seq<AccountTransaction>,
    m1: Mempool,
    n2: nat,
    txs2: Seq<AccountTransaction>,
    m2: Mempool,
)
    requires
        m0.wf(),
        dispensed(m0, n1, txs1, m1),
        dispensed(m1, n2, txs2, m2),
    ensures
        forall|i: int, j: int| 0 <= i < txs1.len() && 0 <= j < txs2.len() ==> txs1[i] != txs2[j],
        forall|i: int, j: int|
            0 <= i < txs1.len() && 0 <= j < txs2.len() ==> txs1[i].tx_hash != txs2[j].tx_hash,
{
    assert forall|i: int, j: int| 0 <= i < txs1.len() && 0 <= j < txs2.len() implies txs1[i].tx_hash
        != txs2[j].tx_hash by {
        if txs1[i].tx_hash == txs2[j].tx_hash {
            assert(m0.pool().contains(txs1[i]));
            assert(m1.pool().contains(txs2[j]));
            let a = choose|a: int| 0 <= a < m0.pool().len() && m0.pool()[a] == txs1[i];
            let b = choose|b: int| 0 <= b < m0.pool().len() && m0.pool()[b] == txs2[j];
            assert(pool_wf(m0.pool()));
            assert(a == b);
            assert(m1.staged().contains_key(txs1[i].contract_address));
            assert(txs2[j].nonce >= m1.staged()[txs2[j].contract_address]);
        }
    }
    assert forall|i: int, j: int| 0 <= i < txs1.len() && 0 <= j < txs2.len() implies txs1[i]
        != txs2[j] by {
        if txs1[i] == txs2[j] {
            assert(m1.staged().contains_key(txs1[i].contract_address));
            assert(txs2[j].nonce >= m1.staged()[txs2[j].contract_address]);
        }
    }
}

/// The mempool: pending transactions, the queue of those eligible now, and the nonce tables.
pub struct Mempool {
    config: MempoolConfig,
    tx_pool: TransactionPool,
    tx_queue: TransactionQueue,
    mempool_state: AddressToNonce,
    account_nonces: AddressToNonce,
}

/// In every well-formed state: held transactions have unique hashes and unique
/// (address, nonce) pairs, every queued reference names a held transaction, the queue
/// holds at most one reference per account, and a queued reference of a staged account sits at
/// the staged nonce.
pub proof fn lemma_mempool_invariants(m: Mempool)
    requires
        m.wf(),
    ensures
        pool_wf(m.pool()),
        forall|i: int| 0 <= i < m.queue().len() ==> has_reference(m.pool(), #[trigger] m.queue()[i]),
        forall|i: int, j: int|
            0 <= i < m.queue().len() && 0 <= j < m.queue().len() && i != j ==> m.queue()[i].address
                != m.queue()[j].address,
        forall|i: int|
            0 <= i < m.queue().len() && m.staged().contains_key(#[trigger] m.queue()[i].address)
                ==> m.queue()[i].nonce == m.staged()[m.queue()[i].address],
{
}

impl Default for Mempool {
    fn default() -> (r: Mempool)
        ensures
            r.wf(),
            r.config().enable_fee_escalation,
            r.config().fee_escalation_percentage == 10,
            r.pool() == Seq::<AccountTransaction>::empty(),
            r.queue() == Seq::<TransactionReference>::empty(),
            r.staged() == Map::<ContractAddress, Nonce>::empty(),
            r.account_nonces() == Map::<ContractAddress, Nonce>::empty(),
            r.gas_price_threshold() == 0,
    {
        Mempool::new(MempoolConfig::default())
    }
}

impl Mempool {
    pub closed spec fn config(&self) -> MempoolConfig {
        self.config
    }

    /// Every held transaction.
    pub closed spec fn pool(&self) -> Seq<AccountTransaction> {
        self.tx_pool@
    }

    /// The queued references.
    pub closed spec fn queue(&self) -> Seq<TransactionReference> {
        self.tx_queue@
    }

    pub closed spec fn gas_price_threshold(&self) -> GasPrice {
        self.tx_queue.threshold()
    }

    /// The next nonce of each account whose transactions were handed out in this block cycle.
    pub closed spec fn staged(&self) -> Map<ContractAddress, Nonce> {
        self.mempool_state@
    }

    /// The most recent authoritative nonce of each account.
    pub closed spec fn account_nonces(&self) -> Map<ContractAddress, Nonce> {
        self.account_nonces@
    }

    /// The nonce tables are well formed, and every queued reference names a held transaction.
    pub closed spec fn core_wf(&self) -> bool {
        &&& self.tx_pool.wf()
        &&& self.tx_queue.wf()
        &&& self.mempool_state.wf()
        &&& self.account_nonces.wf()
        &&& forall|i: int|
            0 <= i < self.tx_queue@.len() ==> has_reference(self.tx_pool@, #[trigger] self.tx_queue@[i])
    }

    /// Queued references of staged accounts sit at the staged nonce, and every staged account
    /// has a held transaction below its staged nonce.
    pub closed spec fn staged_wf(&self) -> bool {
        &&& forall|i: int|
            0 <= i < self.tx_queue@.len() && self.mempool_state@.contains_key(
                #[trigger] self.tx_queue@[i].address,
            ) ==> self.tx_queue@[i].nonce == self.mempool_state@[self.tx_queue@[i].address]
        &&& forall|a: ContractAddress|
            #[trigger] self.mempool_state@.contains_key(a) ==> exists|j: int|
                0 <= j < self.tx_pool@.len() && self.tx_pool@[j].contract_address == a
                    && self.tx_pool@[j].nonce < self.mempool_state@[a]
    }

    pub closed spec fn wf(&self) -> bool {
        self.core_wf() && self.staged_wf()
    }

    pub fn new(config: MempoolConfig) -> (r: Mempool)
        ensures
            r.wf(),
            r.config() == config,
            r.pool() == Seq::<AccountTransaction>::empty(),
            r.queue() == Seq::<TransactionReference>::empty(),
            r.staged() == Map::<ContractAddress, Nonce>::empty(),
            r.account_nonces() == Map::<ContractAddress, Nonce>::empty(),
            r.gas_price_threshold() == 0,
    {
        Mempool {
            config,
            tx_pool: TransactionPool::new(),
            tx_queue: TransactionQueue::new(),
            mempool_state: AddressToNonce::new(),
            account_nonces: AddressToNonce::new(),
        }
    }

    /// The ready queued references, by priority.
    pub fn iter(&self) -> (r: Vec<TransactionReference>)
        requires
            self.wf(),
        ensures
            sorted_by_priority(r@),
            forall|t: TransactionReference|
                r@.contains(t) <==> (self.queue().contains(t) && is_ready(
                    t,
                    self.gas_price_threshold(),
                )),
            r@.no_duplicates(),
            forall|i: int, j: int| 0 <= i < j < r@.len() ==> has_priority_over(r@[i], r@[j]),
    {
        let r = self.tx_queue.iter_over_ready_txs();
        proof {
            assert forall|i: int, j: int| 0 <= i < j < r@.len() implies has_priority_over(r@[i], r@[j]) by {
                assert(r@.contains(r@[i]) && r@.contains(r@[j]));
                let a = choose|a: int| 0 <= a < self.tx_queue@.len() && self.tx_queue@[a] == r@[i];
                let b = choose|b: int| 0 <= b < self.tx_queue@.len() && self.tx_queue@[b] == r@[j];
                assert(has_reference(self.tx_pool@, self.tx_queue@[a]));
                assert(has_reference(self.tx_pool@, self.tx_queue@[b]));
                let wa = choose|w: int| 0 <= w < self.tx_pool@.len() && reference_of(#[trigger] self.tx_pool@[w]) == r@[i];
                let wb = choose|w: int| 0 <= w < self.tx_pool@.len() && reference_of(#[trigger] self.tx_pool@[w]) == r@[j];
                assert(r@[i].address != r@[j].address);
                assert(wa != wb);
                assert(self.tx_pool@[wa].tx_hash != self.tx_pool@[wb].tx_hash);
                assert(r@[i].tx_hash != r@[j].tx_hash);
                assert(!has_priority_over(r@[j], r@[i]));
            }
        }
        r
    }

    /// Changes the gas price that queued transactions need to be dispensed.
    pub fn update_gas_price_threshold(&mut self, threshold: GasPrice)
        requires
            old(self).wf(),
        ensures
            final(self).wf(),
            final(self).gas_price_threshold() == threshold,
            final(self).queue() == old(self).queue(),
            final(self).pool() == old(self).pool(),
            final(self).staged() == old(self).staged(),
            final(self).account_nonces() == old(self).account_nonces(),
            final(self).config() == old(self).config(),
    {
        self.tx_queue.update_gas_price_threshold(threshold);
    }

    fn increased_enough(&self, existing_value: u128, incoming_value: u128) -> (r: bool)
        ensures
            r == increased_enough_by(
                self.config.fee_escalation_percentage as int,
                existing_value as int,
                incoming_value as int,
            ),
    {
        let percentage = self.config.fee_escalation_percentage as u128;
        match existing_value.checked_mul(percentage) {
            None => false,
            Some(product) => match existing_value.checked_add(product / 100) {
                None => false,
                Some(qualified) => incoming_value >= qualified,
            },
        }
    }

    fn should_replace_tx(
        &self,
        existing_tx: &TransactionReference,
        incoming_tx: &TransactionReference,
    ) -> (r: bool)
        ensures
            r == should_replace(self.config.fee_escalation_percentage as int, *existing_tx, *incoming_tx),
    {
        self.increased_enough(existing_tx.tip as u128, incoming_tx.tip as u128)
            && self.increased_enough(existing_tx.max_l2_gas_price, incoming_tx.max_l2_gas_price)
    }
    fn validate_incoming_tx_nonce(&self, address: ContractAddress, tx_nonce: Nonce) -> (r:
        MempoolResult<()>)
        requires
            self.core_wf(),
        ensures
            r == nonce_check(self.staged(), self.queue(), address, tx_nonce),
    {
        match self.mempool_state.get(address) {
            Some(mempool_state_nonce) => {
                if tx_nonce < mempool_state_nonce {
                    return Err(MempoolError::NonceTooOld { address, nonce: tx_nonce });
                }
            },
            None => {},
        }
        match self.tx_queue.get_nonce(address) {
            Some(queued_nonce) => {
                if tx_nonce <= queued_nonce {
                    return Err(MempoolError::DuplicateNonce { address, nonce: tx_nonce });
                }
                proof {
                    assert forall|i: int|
                        0 <= i < self.tx_queue@.len() && self.tx_queue@[i].address == address
                            implies !(tx_nonce <= self.tx_queue@[i].nonce) by {
                        let k = choose|k: int|
                            0 <= k < self.tx_queue@.len() && self.tx_queue@[k].address == address
                                && self.tx_queue@[k].nonce == queued_nonce;
                        assert(k == i);
                    }
                }
            },
            None => {},
        }
        Ok(())
    }

    fn handle_fee_escalation(&mut self, incoming_tx: &AccountTransaction) -> (r: MempoolResult<()>)
        requires
            old(self).wf(),
            nonce_check(
                old(self).staged(),
                old(self).queue(),
                incoming_tx.contract_address,
                incoming_tx.nonce,
            ) is Ok,
        ensures
            final(self).wf(),
            final(self).queue() == old(self).queue(),
            final(self).staged() == old(self).staged(),
            final(self).account_nonces() == old(self).account_nonces(),
            final(self).config() == old(self).config(),
            final(self).gas_price_threshold() == old(self).gas_price_threshold(),
            !old(self).config().enable_fee_escalation || !has_slot(
                old(self).pool(),
                incoming_tx.contract_address,
                incoming_tx.nonce,
            ) ==> r is Ok && final(self).pool() == old(self).pool(),
            forall|i: int|
                old(self).config().enable_fee_escalation && at_slot(
                    old(self).pool(),
                    i,
                    incoming_tx.contract_address,
                    incoming_tx.nonce,
                ) ==> if should_replace(
                    old(self).config().fee_escalation_percentage as int,
                    reference_of(#[trigger] old(self).pool()[i]),
                    reference_of(*incoming_tx),
                ) {
                    r is Ok && final(self).pool() == old(self).pool().remove(i)
                } else {
                    r == Err::<(), MempoolError>(
                        MempoolError::DuplicateNonce {
                            address: incoming_tx.contract_address,
                            nonce: incoming_tx.nonce,
                        },
                    ) && final(self).pool() == old(self).pool()
                },
    {
        if !self.config.enable_fee_escalation {
            return Ok(());
        }
        let incoming_tx_ref = TransactionReference::new(incoming_tx);
        let address = incoming_tx_ref.address;
        let nonce = incoming_tx_ref.nonce;
        let existing_tx_ref = match self.tx_pool.get_by_address_and_nonce(address, nonce) {
            Some(t) => t,
            None => {
                return Ok(());
            },
        };
        let ghost j = choose|j: int|
            0 <= j < self.tx_pool@.len() && reference_of(#[trigger] self.tx_pool@[j])
                == existing_tx_ref;
        proof {
            assert forall|i: int| at_slot(self.tx_pool@, i, address, nonce) implies i == j by {}
        }
        if !self.should_replace_tx(&existing_tx_ref, &incoming_tx_ref) {
            return Err(MempoolError::DuplicateNonce { address, nonce });
        }
        let ghost old_pool = self.tx_pool@;
        let removed = self.tx_pool.remove(existing_tx_ref.tx_hash);
        proof {
            let i = choose|i: int|
                0 <= i < old_pool.len() && old_pool[i] == removed->Ok_0 && removed->Ok_0.tx_hash
                    == existing_tx_ref.tx_hash && self.tx_pool@ == old_pool.remove(i);
            assert(i == j);
            assert forall|q: int| 0 <= q < self.tx_queue@.len() implies has_reference(
                self.tx_pool@,
                #[trigger] self.tx_queue@[q],
            ) by {
                let w = choose|w: int|
                    0 <= w < old_pool.len() && reference_of(#[trigger] old_pool[w])
                        == self.tx_queue@[q];
                let k = lemma_index_after_remove(old_pool, i, w);
                assert(reference_of(self.tx_pool@[k]) == self.tx_queue@[q]);
            }
            assert forall|a: ContractAddress| #[trigger] self.mempool_state@.contains_key(a) implies exists|w: int|
                0 <= w < self.tx_pool@.len() && self.tx_pool@[w].contract_address == a
                    && self.tx_pool@[w].nonce < self.mempool_state@[a] by {
                let w = choose|w: int|
                    0 <= w < old_pool.len() && old_pool[w].contract_address == a
                        && old_pool[w].nonce < self.mempool_state@[a];
                let k = lemma_index_after_remove(old_pool, i, w);
                assert(self.tx_pool@[k] == old_pool[w]);
            }
        }
        Ok(())
    }

    /// Adds a transaction. The account state must be that of the transaction's sender.
    pub fn add_tx(&mut self, args: AddTransactionArgs) -> (r: MempoolResult<()>)
        requires
            old(self).wf(),
            args.account_state.address == args.tx.contract_address,
        ensures
            final(self).wf(),
            final(self).config() == old(self).config(),
            final(self).gas_price_threshold() == old(self).gas_price_threshold(),
            final(self).staged() == old(self).staged(),
            ({
                let tx = args.tx;
                let address = tx.contract_address;
                let reported = args.account_state.nonce;
                let checked = nonce_check(old(self).staged(), old(self).queue(), address, tx.nonce);
                let escalate = old(self).config().enable_fee_escalation && has_slot(
                    old(self).pool(),
                    address,
                    tx.nonce,
                );
                let expected = expected_nonce(
                    old(self).staged(),
                    old(self).account_nonces(),
                    address,
                    reported,
                );
                let unchanged = final(self).pool() == old(self).pool() && final(self).queue()
                    == old(self).queue() && final(self).account_nonces()
                    == old(self).account_nonces();
                let booked = final(self).account_nonces() == (if old(self).staged().contains_key(
                    address,
                ) || old(self).account_nonces().contains_key(address) {
                    old(self).account_nonces()
                } else {
                    old(self).account_nonces().insert(address, reported)
                }) && final(self).queue() == (if tx.nonce == expected && !has_address(
                    old(self).queue(),
                    address,
                ) {
                    old(self).queue().push(reference_of(tx))
                } else {
                    old(self).queue()
                });
                &&& checked is Err ==> r == checked && unchanged
                &&& checked is Ok && !escalate ==> {
                    &&& has_hash(old(self).pool(), tx.tx_hash) ==> r == Err::<(), MempoolError>(
                        MempoolError::DuplicateTransaction { tx_hash: tx.tx_hash },
                    ) && unchanged
                    &&& !has_hash(old(self).pool(), tx.tx_hash) && has_slot(
                        old(self).pool(),
                        address,
                        tx.nonce,
                    ) ==> r == Err::<(), MempoolError>(
                        MempoolError::DuplicateNonce { address, nonce: tx.nonce },
                    ) && unchanged
                    &&& !has_hash(old(self).pool(), tx.tx_hash) && !has_slot(
                        old(self).pool(),
                        address,
                        tx.nonce,
                    ) ==> r is Ok && final(self).pool() == old(self).pool().push(tx) && booked
                }
                &&& forall|i: int|
                    checked is Ok && escalate && at_slot(old(self).pool(), i, address, tx.nonce)
                        ==> if !should_replace(
                        old(self).config().fee_escalation_percentage as int,
                        reference_of(#[trigger] old(self).pool()[i]),
                        reference_of(tx),
                    ) {
                        r == Err::<(), MempoolError>(
                            MempoolError::DuplicateNonce { address, nonce: tx.nonce },
                        ) && unchanged
                    } else if has_hash(old(self).pool().remove(i), tx.tx_hash) {
                        r == Err::<(), MempoolError>(
                            MempoolError::DuplicateTransaction { tx_hash: tx.tx_hash },
                        ) && final(self).pool() == old(self).pool().remove(i) && final(self).queue()
                            == old(self).queue() && final(self).account_nonces()
                            == old(self).account_nonces()
                    } else {
                        r is Ok && final(self).pool() == old(self).pool().remove(i).push(tx)
                            && booked
                    }
            }),
    {
        let tx = args.tx;
        let account_state = args.account_state;
        let tx_ref = TransactionReference::new(&tx);
        match self.validate_incoming_tx_nonce(tx_ref.address, tx_ref.nonce) {
            Err(e) => {
                return Err(e);
            },
            Ok(()) => {},
        }
        match self.handle_fee_escalation(&tx) {
            Err(e) => {
                return Err(e);
            },
            Ok(()) => {},
        }
        let ghost mid = *self;
        match self.tx_pool.insert(tx) {
            Err(e) => {
                return Err(e);
            },
            Ok(()) => {},
        }
        proof {
            assert(reference_of(self.tx_pool@[mid.tx_pool@.len() as int]) == reference_of(tx));
            assert forall|q: int| 0 <= q < self.tx_queue@.len() implies has_reference(
                self.tx_pool@,
                #[trigger] self.tx_queue@[q],
            ) by {
                let w = choose|w: int|
                    0 <= w < mid.tx_pool@.len() && reference_of(#[trigger] mid.tx_pool@[w])
                        == self.tx_queue@[q];
                assert(self.tx_pool@[w] == mid.tx_pool@[w]);
            }
            assert forall|a: ContractAddress| #[trigger] self.mempool_state@.contains_key(a) implies exists|w: int|
                0 <= w < self.tx_pool@.len() && self.tx_pool@[w].contract_address == a
                    && self.tx_pool@[w].nonce < self.mempool_state@[a] by {
                let w = choose|w: int|
                    0 <= w < mid.tx_pool@.len() && mid.tx_pool@[w].contract_address == a
                        && mid.tx_pool@[w].nonce < self.mempool_state@[a];
                assert(self.tx_pool@[w] == mid.tx_pool@[w]);
            }
        }
        let address = account_state.address;
        let expected = match self.mempool_state.get(address) {
            Some(n) => n,
            None => match self.account_nonces.get(address) {
                Some(n) => n,
                None => {
                    self.account_nonces.insert(address, account_state.nonce);
                    account_state.nonce
                },
            },
        };
        if tx_ref.nonce == expected && self.tx_queue.get_nonce(address).is_none() {
            self.tx_queue.insert(tx_ref);
            proof {
                assert(has_reference(self.tx_pool@, tx_ref));
            }
        }
        Ok(())
    }
    /// Hands out up to `n_txs` transactions by priority, chaining each account's next
    /// transaction into the queue. They stay in the pool until a block commits them.
    #[verifier::rlimit(100)]
    pub fn get_txs(&mut self, n_txs: usize) -> (r: MempoolResult<Vec<AccountTransaction>>)
        requires
            old(self).wf(),
        ensures
            final(self).wf(),
            final(self).pool() == old(self).pool(),
            final(self).account_nonces() == old(self).account_nonces(),
            final(self).config() == old(self).config(),
            final(self).gas_price_threshold() == old(self).gas_price_threshold(),
            (forall|i: int| 0 <= i < old(self).pool().len() ==> old(self).pool()[i].nonce < u64::MAX)
                ==> r is Ok,
            r is Err ==> r == Err::<Vec<AccountTransaction>, MempoolError>(
                MempoolError::NonceOverflow { nonce: u64::MAX },
            ),
            r matches Ok(txs) ==> dispensed(*old(self), n_txs as nat, txs@, *final(self)),
            r is Err ==> exists|i: int|
                0 <= i < old(self).pool().len() && old(self).pool()[i].nonce == u64::MAX,
    {
        let ghost pre = *self;
        let mut refs: Vec<TransactionReference> = Vec::new();
        let mut n_remaining = n_txs;
        while n_remaining > 0 && self.tx_queue.has_ready_txs()
            invariant
                self.wf(),
                pre == *old(self),
                self.tx_pool@ == pre.tx_pool@,
                self.account_nonces@ == pre.account_nonces@,
                self.config == pre.config,
                self.tx_queue.threshold() == pre.tx_queue.threshold(),
                refs@.len() + n_remaining == n_txs,
                forall|k: int| 0 <= k < refs@.len() ==> has_reference(self.tx_pool@, #[trigger] refs@[k]),
                forall|k: int| 0 <= k < refs@.len() ==> is_ready(#[trigger] refs@[k], pre.tx_queue.threshold()),
                forall|k1: int, k2: int|
                    0 <= k1 < k2 < refs@.len() && refs@[k1].address == refs@[k2].address
                        ==> refs@[k1].nonce < refs@[k2].nonce,
                forall|k: int|
                    0 <= k < refs@.len() ==> {
                        &&& self.mempool_state@.contains_key(#[trigger] refs@[k].address)
                        &&& self.mempool_state@[refs@[k].address] > refs@[k].nonce
                    },
                forall|k: int|
                    0 <= k < refs@.len() && pre.mempool_state@.contains_key(#[trigger] refs@[k].address)
                        ==> refs@[k].nonce >= pre.mempool_state@[refs@[k].address],
                forall|a: ContractAddress|
                    #[trigger] pre.mempool_state@.contains_key(a) ==> self.mempool_state@.contains_key(a)
                        && self.mempool_state@[a] >= pre.mempool_state@[a],
                refs@.len() == 0 ==> self.tx_queue@ == pre.tx_queue@,
                forall|t: TransactionReference|
                    #[trigger] self.tx_queue@.contains(t) <==> (!refs@.contains(t) && (pre.tx_queue@.contains(t)
                        || (has_reference(self.tx_pool@, t) && follows_some(refs@, t)))),
                forall|k: int|
                    0 <= k < refs@.len() ==> pre.tx_queue@.contains(#[trigger] refs@[k]) || follows_some(
                        refs@.take(k),
                        refs@[k],
                    ),
                forall|k: int|
                    0 <= k < refs@.len() && (forall|k2: int|
                        k < k2 < refs@.len() ==> refs@[k2].address != refs@[k].address)
                        ==> self.mempool_state@[#[trigger] refs@[k].address] == refs@[k].nonce + 1,
                forall|a: ContractAddress|
                    (forall|k: int| 0 <= k < refs@.len() ==> refs@[k].address != a) ==> {
                        &&& #[trigger] self.mempool_state@.contains_key(a) == pre.mempool_state@.contains_key(a)
                        &&& pre.mempool_state@.contains_key(a) ==> self.mempool_state@[a] == pre.mempool_state@[a]
                    },
                forall|t: TransactionReference|
                    #[trigger] pre.tx_queue@.contains(t) ==> self.tx_queue@.contains(t) || refs@.contains(t),
                refs@.len() > 0 && n_remaining > 0 ==> forall|t: TransactionReference|
                    #[trigger] self.tx_queue@.contains(t) && pre.tx_queue@.contains(t) ==> !is_ready(
                        t,
                        pre.tx_queue.threshold(),
                    ),
                forall|k1: int, k2: int|
                    0 <= k1 < k2 < refs@.len() && pre.tx_queue@.contains(#[trigger] refs@[k1])
                        && pre.tx_queue@.contains(#[trigger] refs@[k2]) ==> !has_priority_over(
                        refs@[k2],
                        refs@[k1],
                    ),
                forall|k: int, t: TransactionReference|
                    0 <= k < refs@.len() && pre.tx_queue@.contains(#[trigger] refs@[k])
                        && #[trigger] self.tx_queue@.contains(t) && pre.tx_queue@.contains(t) && is_ready(
                        t,
                        pre.tx_queue.threshold(),
                    ) ==> !has_priority_over(t, refs@[k]),
            decreases n_remaining,
        {
            let ghost q_before = self.tx_queue@;
            let chunk = self.tx_queue.pop_ready_chunk(n_remaining);
            proof {
                if chunk@.len() == 0 {
                    let t = choose|t: TransactionReference|
                        q_before.contains(t) && is_ready(t, self.tx_queue.threshold());
                    assert(self.tx_queue@.contains(t));
                }
                assert forall|j: int| 0 <= j < chunk@.len() implies has_reference(
                    self.tx_pool@,
                    #[trigger] chunk@[j],
                ) && (self.mempool_state@.contains_key(chunk@[j].address) ==> chunk@[j].nonce
                    == self.mempool_state@[chunk@[j].address]) by {
                    assert(chunk@.contains(chunk@[j]));
                    let w = choose|w: int| 0 <= w < q_before.len() && q_before[w] == chunk@[j];
                    assert(has_reference(self.tx_pool@, q_before[w]));
                }
                assert forall|j: int| 0 <= j < chunk@.len() implies !has_address(
                    self.tx_queue@,
                    #[trigger] chunk@[j].address,
                ) by {
                    if has_address(self.tx_queue@, chunk@[j].address) {
                        let w = choose|w: int|
                            0 <= w < self.tx_queue@.len() && self.tx_queue@[w].address
                                == chunk@[j].address;
                        assert(self.tx_queue@.contains(self.tx_queue@[w]));
                    }
                }
                assert forall|q: int| 0 <= q < self.tx_queue@.len() implies has_reference(
                    self.tx_pool@,
                    #[trigger] self.tx_queue@[q],
                ) && (self.mempool_state@.contains_key(self.tx_queue@[q].address)
                    ==> self.tx_queue@[q].nonce == self.mempool_state@[self.tx_queue@[q].address]) by {
                    assert(self.tx_queue@.contains(self.tx_queue@[q]));
                    let w = choose|w: int| 0 <= w < q_before.len() && q_before[w] == self.tx_queue@[q];
                    assert(has_reference(self.tx_pool@, q_before[w]));
                }
            }
            let ghost refs0 = refs@;
            let ghost q_pop = self.tx_queue@;
            let ghost thr = pre.tx_queue.threshold();
            let ghost orig = pre.tx_queue@;
            proof {
                assert(chunk@.subrange(0, chunk@.len() as int) =~= chunk@);
                assert forall|t: TransactionReference| #[trigger] self.tx_queue@.contains(t) <==> (
                !refs@.contains(t) && !chunk@.subrange(0, chunk@.len() as int).contains(t) && (orig.contains(t)
                    || (has_reference(self.tx_pool@, t) && follows_some(refs@, t)))) by {
                    assert(q_before.contains(t) <==> (q_pop.contains(t) || chunk@.contains(t)));
                }
                assert forall|j: int| 0 <= j < chunk@.len() implies (orig.contains(#[trigger] chunk@[j])
                    || follows_some(refs@, chunk@[j])) && !refs@.contains(chunk@[j]) by {
                    assert(chunk@.contains(chunk@[j]));
                    assert(q_before.contains(chunk@[j]));
                }
            }
            let mut i: usize = 0;
            while i < chunk.len()
                invariant
                    refs0.len() + n_remaining == n_txs,
                    orig == pre.tx_queue@,
                    thr == pre.tx_queue.threshold(),
                    chunk@.len() > 0,
                    refs@ == refs0 + chunk@.subrange(0, i as int),
                    forall|t: TransactionReference|
                        #[trigger] self.tx_queue@.contains(t) <==> (!refs@.contains(t) && !chunk@.subrange(
                            i as int,
                            chunk@.len() as int,
                        ).contains(t) && (orig.contains(t) || (has_reference(self.tx_pool@, t)
                            && follows_some(refs@, t)))),
                    forall|j: int|
                        i <= j < chunk@.len() ==> (orig.contains(#[trigger] chunk@[j]) || follows_some(
                            refs@,
                            chunk@[j],
                        )) && !refs@.contains(chunk@[j]),
                    forall|k: int|
                        0 <= k < refs@.len() ==> orig.contains(#[trigger] refs@[k]) || follows_some(
                            refs@.take(k),
                            refs@[k],
                        ),
                    forall|k: int|
                        0 <= k < refs@.len() && (forall|k2: int|
                            k < k2 < refs@.len() ==> refs@[k2].address != refs@[k].address)
                            ==> self.mempool_state@[#[trigger] refs@[k].address] == refs@[k].nonce + 1,
                    forall|a: ContractAddress|
                        (forall|k: int| 0 <= k < refs@.len() ==> refs@[k].address != a) ==> {
                            &&& #[trigger] self.mempool_state@.contains_key(a) == pre.mempool_state@.contains_key(a)
                            &&& pre.mempool_state@.contains_key(a) ==> self.mempool_state@[a] == pre.mempool_state@[a]
                        },
                    is_ready_chunk(q_before, thr, n_remaining as nat, chunk@, q_pop),
                    forall|t: TransactionReference|
                        #[trigger] orig.contains(t) ==> (self.tx_queue@.contains(t) <==> q_pop.contains(t)),
                    refs0.len() == 0 ==> q_before == orig,
                    forall|t: TransactionReference|
                        #[trigger] orig.contains(t) ==> q_before.contains(t) || refs0.contains(t),
                    refs0.len() > 0 ==> forall|t: TransactionReference|
                        #[trigger] q_before.contains(t) && orig.contains(t) ==> !is_ready(t, thr),
                    forall|k1: int, k2: int|
                        0 <= k1 < k2 < refs0.len() && orig.contains(#[trigger] refs0[k1])
                            && orig.contains(#[trigger] refs0[k2]) ==> !has_priority_over(refs0[k2], refs0[k1]),
                    forall|k: int, t: TransactionReference|
                        0 <= k < refs0.len() && orig.contains(#[trigger] refs0[k])
                            && #[trigger] q_before.contains(t) && orig.contains(t) && is_ready(t, thr)
                            ==> !has_priority_over(t, refs0[k]),
                    self.wf(),
                    pre == *old(self),
                    self.tx_pool@ == pre.tx_pool@,
                    self.account_nonces@ == pre.account_nonces@,
                    self.config == pre.config,
                    self.tx_queue.threshold() == pre.tx_queue.threshold(),
                    i <= chunk@.len(),
                    chunk@.len() <= n_remaining,
                    refs@.len() + n_remaining == n_txs + i,
                    forall|j: int, k: int|
                        0 <= j < k < chunk@.len() ==> chunk@[j].address != chunk@[k].address,
                    forall|j: int| i <= j < chunk@.len() ==> has_reference(self.tx_pool@, #[trigger] chunk@[j]),
                    forall|j: int| i <= j < chunk@.len() ==> !has_address(self.tx_queue@, #[trigger] chunk@[j].address),
                    forall|j: int|
                        i <= j < chunk@.len() && self.mempool_state@.contains_key(#[trigger] chunk@[j].address)
                            ==> chunk@[j].nonce == self.mempool_state@[chunk@[j].address],
                    forall|k: int| 0 <= k < refs@.len() ==> has_reference(self.tx_pool@, #[trigger] refs@[k]),
                    forall|k: int| 0 <= k < refs@.len() ==> is_ready(#[trigger] refs@[k], pre.tx_queue.threshold()),
                    forall|j: int| 0 <= j < chunk@.len() ==> is_ready(#[trigger] chunk@[j], pre.tx_queue.threshold()),
                    forall|k1: int, k2: int|
                        0 <= k1 < k2 < refs@.len() && refs@[k1].address == refs@[k2].address
                            ==> refs@[k1].nonce < refs@[k2].nonce,
                    forall|k: int|
                        0 <= k < refs@.len() ==> {
                            &&& self.mempool_state@.contains_key(#[trigger] refs@[k].address)
                            &&& self.mempool_state@[refs@[k].address] > refs@[k].nonce
                        },
                    forall|k: int|
                        0 <= k < refs@.len() && pre.mempool_state@.contains_key(#[trigger] refs@[k].address)
                            ==> refs@[k].nonce >= pre.mempool_state@[refs@[k].address],
                    forall|a: ContractAddress|
                        #[trigger] pre.mempool_state@.contains_key(a) ==> self.mempool_state@.contains_key(a)
                            && self.mempool_state@[a] >= pre.mempool_state@[a],
                decreases chunk@.len() - i,
            {
                let c = chunk[i];
                let next = match try_increment_nonce(c.nonce) {
                    Ok(next) => next,
                    Err(e) => {
                        proof {
                            let w = choose|w: int|
                                0 <= w < self.tx_pool@.len() && reference_of(#[trigger] self.tx_pool@[w]) == c;
                            assert(self.tx_pool@[w].nonce == u64::MAX);
                        }
                        return Err(e);
                    },
                };
                let ghost staged_before = self.mempool_state@;
                self.mempool_state.insert(c.address, next);
                proof {
                    let w = choose|w: int|
                        0 <= w < self.tx_pool@.len() && reference_of(#[trigger] self.tx_pool@[w]) == c;
                    assert(self.tx_pool@[w].contract_address == c.address);
                    assert forall|q: int|
                        0 <= q < self.tx_queue@.len() && self.mempool_state@.contains_key(
                            #[trigger] self.tx_queue@[q].address,
                        ) implies self.tx_queue@[q].nonce == self.mempool_state@[self.tx_queue@[q].address] by {
                        if self.tx_queue@[q].address == c.address {
                            assert(has_address(self.tx_queue@, chunk@[i as int].address));
                        }
                    }
                }
                let ghost q_ins = self.tx_queue@;
                let ghost mut added: Option<TransactionReference> = None;
                match self.tx_pool.get_next_eligible_tx(AccountState { address: c.address, nonce: next }) {
                    Some(t) => {
                        proof {
                            added = Some(t);
                            if orig.contains(t) {
                                if q_before.contains(t) {
                                    if q_pop.contains(t) {
                                        let w = choose|w: int| 0 <= w < q_ins.len() && q_ins[w] == t;
                                        assert(has_address(q_ins, chunk@[i as int].address));
                                    } else {
                                        let j = choose|j: int| 0 <= j < chunk@.len() && chunk@[j] == t;
                                        if j != i {
                                            assert(chunk@[j].address != chunk@[i as int].address);
                                        }
                                    }
                                } else {
                                    let k = choose|k: int| 0 <= k < refs0.len() && refs0[k] == t;
                                    assert(refs@[k] == refs0[k]);
                                    assert(staged_before.contains_key(refs@[k].address));
                                }
                            }
                        }
                        self.tx_queue.insert(t);
                        proof {
                            assert(self.tx_queue@[self.tx_queue@.len() - 1] == t);
                            assert forall|u: TransactionReference| #[trigger] orig.contains(u) implies (
                            self.tx_queue@.contains(u) <==> q_pop.contains(u)) by {
                                if self.tx_queue@.contains(u) {
                                    let k = choose|k: int| 0 <= k < self.tx_queue@.len() && self.tx_queue@[k] == u;
                                    if k < q_ins.len() {
                                        assert(q_ins[k] == u);
                                    }
                                }
                                if q_ins.contains(u) {
                                    let k = choose|k: int| 0 <= k < q_ins.len() && q_ins[k] == u;
                                    assert(self.tx_queue@[k] == u);
                                }
                            }
                        }
                    },
                    None => {},
                }
                let ghost refs_before = refs@;
                refs.push(c);
                proof {
                    assert forall|k1: int, k2: int|
                        0 <= k1 < k2 < refs@.len() && refs@[k1].address == refs@[k2].address
                            implies refs@[k1].nonce < refs@[k2].nonce by {
                        if k2 == refs_before.len() {
                            assert(refs_before[k1] == refs@[k1]);
                            assert(staged_before.contains_key(refs_before[k1].address));
                        }
                    }
                    assert forall|j: int| i + 1 <= j < chunk@.len() implies !has_address(
                        self.tx_queue@,
                        #[trigger] chunk@[j].address,
                    ) by {
                        if has_address(self.tx_queue@, chunk@[j].address) {
                            let w = choose|w: int|
                                0 <= w < self.tx_queue@.len() && self.tx_queue@[w].address
                                    == chunk@[j].address;
                            assert(chunk@[i as int].address != chunk@[j].address);
                        }
                    }
                }
                proof {
                    let a = c.address;
                    let len = chunk@.len() as int;
                    let pend = chunk@.subrange(i as int, len);
                    let pend_new = chunk@.subrange(i as int + 1, len);
                    assert(added is None ==> self.tx_queue@ == q_ins);
                    assert forall|k: int| 0 <= k < refs_before.len() && refs_before[k].address == a implies
                        refs_before[k].nonce < c.nonce by {
                        assert(staged_before.contains_key(refs_before[k].address));
                    }
                    assert forall|u: TransactionReference| #[trigger] self.tx_queue@.contains(u) <==> (
                    !refs@.contains(u) && !pend_new.contains(u) && (orig.contains(u) || (has_reference(
                        self.tx_pool@,
                        u,
                    ) && follows_some(refs@, u)))) by {
                        lemma_subrange_step(chunk@, i as int, u);
                        lemma_push_contains(refs_before, c, u);
                        lemma_follows_push(refs_before, c, u);
                        if let Some(t2) = added {
                            lemma_push_contains(q_ins, t2, u);
                        }
                        assert(q_ins.contains(u) <==> (!refs_before.contains(u) && !pend.contains(u) && (
                        orig.contains(u) || (has_reference(self.tx_pool@, u) && follows_some(refs_before, u)))));
                        if u.address == a && u.nonce == c.nonce + 1 {
                            if refs_before.contains(u) {
                                let k = choose|k: int| 0 <= k < refs_before.len() && refs_before[k] == u;
                            }
                            if pend_new.contains(u) {
                                let k = choose|k: int| 0 <= k < pend_new.len() && pend_new[k] == u;
                                assert(chunk@[i as int + 1 + k] == u);
                                assert(chunk@[i as int].address != chunk@[i as int + 1 + k].address);
                            }
                            if q_ins.contains(u) {
                                let k = choose|k: int| 0 <= k < q_ins.len() && q_ins[k] == u;
                                assert(has_address(q_ins, chunk@[i as int].address));
                            }
                            if has_reference(self.tx_pool@, u) {
                                let w = choose|w: int|
                                    0 <= w < self.tx_pool@.len() && reference_of(#[trigger] self.tx_pool@[w]) == u;
                                assert(has_slot(self.tx_pool@, a, next));
                                let t2 = added->Some_0;
                                let w2 = choose|w2: int|
                                    0 <= w2 < self.tx_pool@.len() && reference_of(#[trigger] self.tx_pool@[w2]) == t2;
                                assert(w == w2);
                            }
                        }
                    }
                    assert forall|j: int| i + 1 <= j < chunk@.len() implies (orig.contains(#[trigger] chunk@[j])
                        || follows_some(refs@, chunk@[j])) && !refs@.contains(chunk@[j]) by {
                        lemma_push_contains(refs_before, c, chunk@[j]);
                        lemma_follows_push(refs_before, c, chunk@[j]);
                    }
                    assert forall|k: int| 0 <= k < refs@.len() implies orig.contains(#[trigger] refs@[k])
                        || follows_some(refs@.take(k), refs@[k]) by {
                        if k < refs_before.len() {
                            assert(refs@.take(k) =~= refs_before.take(k));
                            assert(refs@[k] == refs_before[k]);
                        } else {
                            assert(refs@.take(k) =~= refs_before);
                        }
                    }
                    assert forall|k: int|
                        0 <= k < refs@.len() && (forall|k2: int|
                            k < k2 < refs@.len() ==> refs@[k2].address != refs@[k].address) implies
                        self.mempool_state@[#[trigger] refs@[k].address] == refs@[k].nonce + 1 by {
                        if k < refs_before.len() {
                            assert(refs@[k] == refs_before[k]);
                            assert(refs@[refs_before.len() as int] == c);
                            assert forall|k2: int| k < k2 < refs_before.len() implies refs_before[k2].address
                                != refs_before[k].address by {
                                assert(refs@[k2] == refs_before[k2]);
                            }
                        }
                    }
                    assert forall|b: ContractAddress|
                        (forall|k: int| 0 <= k < refs@.len() ==> refs@[k].address != b) implies {
                            &&& #[trigger] self.mempool_state@.contains_key(b) == pre.mempool_state@.contains_key(b)
                            &&& pre.mempool_state@.contains_key(b) ==> self.mempool_state@[b] == pre.mempool_state@[b]
                        } by {
                        assert(refs@[refs_before.len() as int] == c);
                        assert forall|k: int| 0 <= k < refs_before.len() implies refs_before[k].address != b by {
                            assert(refs@[k] == refs_before[k]);
                        }
                    }
                }
                assert(refs@ =~= refs0 + chunk@.subrange(0, i as int + 1));
                i = i + 1;
            }
            proof {
                assert(chunk@.subrange(0, i as int) =~= chunk@);
                assert(chunk@.subrange(i as int, chunk@.len() as int) =~= Seq::<TransactionReference>::empty());
                assert forall|t: TransactionReference| #[trigger] orig.contains(t) implies self.tx_queue@.contains(t)
                    || refs@.contains(t) by {
                    if q_before.contains(t) {
                        if !q_pop.contains(t) {
                            let j = choose|j: int| 0 <= j < chunk@.len() && chunk@[j] == t;
                            assert(refs@[refs0.len() + j] == t);
                        }
                    } else {
                        let k = choose|k: int| 0 <= k < refs0.len() && refs0[k] == t;
                        assert(refs@[k] == t);
                    }
                }
                assert forall|j: int| 0 <= j < chunk@.len() && refs0.len() > 0 implies !orig.contains(
                    #[trigger] chunk@[j],
                ) by {
                    assert(chunk@.contains(chunk@[j]));
                }
                assert forall|k1: int, k2: int|
                    0 <= k1 < k2 < refs@.len() && orig.contains(#[trigger] refs@[k1])
                        && orig.contains(#[trigger] refs@[k2]) implies !has_priority_over(refs@[k2], refs@[k1]) by {
                    if k2 >= refs0.len() {
                        assert(refs@[k2] == chunk@[k2 - refs0.len()]);
                        if k1 >= refs0.len() {
                            assert(refs@[k1] == chunk@[k1 - refs0.len()]);
                        }
                    } else {
                        assert(refs@[k1] == refs0[k1]);
                        assert(refs@[k2] == refs0[k2]);
                    }
                }
                assert forall|k: int, t: TransactionReference|
                    0 <= k < refs@.len() && orig.contains(#[trigger] refs@[k])
                        && #[trigger] self.tx_queue@.contains(t) && orig.contains(t) && is_ready(t, thr)
                        implies !has_priority_over(t, refs@[k]) by {
                    assert(q_pop.contains(t));
                    if k < refs0.len() {
                        assert(refs@[k] == refs0[k]);
                    } else {
                        assert(refs@[k] == chunk@[k - refs0.len()]);
                    }
                }
                if n_remaining - chunk@.len() > 0 {
                    assert forall|t: TransactionReference|
                        #[trigger] self.tx_queue@.contains(t) && orig.contains(t) implies !is_ready(t, thr) by {
                        assert(q_pop.contains(t));
                    }
                }
            }
            n_remaining = n_remaining - chunk.len();
        }
        let mut txs: Vec<AccountTransaction> = Vec::new();
        let mut k: usize = 0;
        while k < refs.len()
            invariant
                self.wf(),
                pre == *old(self),
                self.tx_pool@ == pre.tx_pool@,
                k <= refs@.len(),
                txs@.len() == k,
                forall|m: int| 0 <= m < refs@.len() ==> has_reference(self.tx_pool@, #[trigger] refs@[m]),
                forall|m: int| 0 <= m < refs@.len() ==> is_ready(#[trigger] refs@[m], pre.tx_queue.threshold()),
                forall|k1: int, k2: int|
                    0 <= k1 < k2 < refs@.len() && refs@[k1].address == refs@[k2].address
                        ==> refs@[k1].nonce < refs@[k2].nonce,
                forall|t: TransactionReference|
                    #[trigger] pre.tx_queue@.contains(t) ==> self.tx_queue@.contains(t) || refs@.contains(t),
                forall|k1: int, k2: int|
                    0 <= k1 < k2 < refs@.len() && pre.tx_queue@.contains(#[trigger] refs@[k1])
                        && pre.tx_queue@.contains(#[trigger] refs@[k2]) ==> !has_priority_over(
                        refs@[k2],
                        refs@[k1],
                    ),
                forall|k: int, t: TransactionReference|
                    0 <= k < refs@.len() && pre.tx_queue@.contains(#[trigger] refs@[k])
                        && #[trigger] self.tx_queue@.contains(t) && pre.tx_queue@.contains(t) && is_ready(
                        t,
                        pre.tx_queue.threshold(),
                    ) ==> !has_priority_over(t, refs@[k]),
                forall|m: int|
                    0 <= m < k ==> reference_of(#[trigger] txs@[m]) == refs@[m] && self.tx_pool@.contains(
                        txs@[m],
                    ),
                forall|t: TransactionReference|
                    #[trigger] self.tx_queue@.contains(t) <==> (!refs@.contains(t) && (pre.tx_queue@.contains(t)
                        || (has_reference(self.tx_pool@, t) && follows_some(refs@, t)))),
                forall|m: int|
                    0 <= m < refs@.len() ==> pre.tx_queue@.contains(#[trigger] refs@[m]) || follows_some(
                        refs@.take(m),
                        refs@[m],
                    ),
                forall|m: int|
                    0 <= m < refs@.len() && (forall|k2: int|
                        m < k2 < refs@.len() ==> refs@[k2].address != refs@[m].address)
                        ==> self.mempool_state@[#[trigger] refs@[m].address] == refs@[m].nonce + 1,
                forall|a: ContractAddress|
                    (forall|m: int| 0 <= m < refs@.len() ==> refs@[m].address != a) ==> {
                        &&& #[trigger] self.mempool_state@.contains_key(a) == pre.mempool_state@.contains_key(a)
                        &&& pre.mempool_state@.contains_key(a) ==> self.mempool_state@[a] == pre.mempool_state@[a]
                    },
            decreases refs@.len() - k,
        {
            let h = refs[k].tx_hash;
            proof {
                let w = choose|w: int|
                    0 <= w < self.tx_pool@.len() && reference_of(#[trigger] self.tx_pool@[w]) == refs@[k as int];
                assert(self.tx_pool@[w].tx_hash == h);
            }
            let tx = match self.tx_pool.get_by_tx_hash(h) {
                Ok(tx) => tx,
                Err(e) => {
                    return Err(e);
                },
            };
            proof {
                let w = choose|w: int|
                    0 <= w < self.tx_pool@.len() && reference_of(#[trigger] self.tx_pool@[w]) == refs@[k as int];
                let v = choose|v: int| 0 <= v < self.tx_pool@.len() && self.tx_pool@[v] == tx;
                assert(v == w);
            }
            txs.push(tx);
            k = k + 1;
        }
        proof {
            assert forall|m: int| 0 <= m < txs@.len() implies pre.pool().contains(#[trigger] txs@[m])
                && self.mempool_state@.contains_key(txs@[m].contract_address)
                && self.mempool_state@[txs@[m].contract_address] > txs@[m].nonce
                && (pre.mempool_state@.contains_key(txs@[m].contract_address)
                ==> txs@[m].nonce >= pre.mempool_state@[txs@[m].contract_address]) by {
                assert(reference_of(txs@[m]) == refs@[m]);
                assert(self.mempool_state@.contains_key(refs@[m].address));
                assert(pre.mempool_state@.contains_key(refs@[m].address) ==> refs@[m].nonce
                    >= pre.mempool_state@[refs@[m].address]);
                assert(is_ready(refs@[m], pre.tx_queue.threshold()));
            }
            assert forall|k1: int, k2: int|
                0 <= k1 < k2 < txs@.len() && txs@[k1].contract_address == txs@[k2].contract_address
                    implies txs@[k1].nonce < txs@[k2].nonce by {
                assert(reference_of(txs@[k1]) == refs@[k1]);
                assert(reference_of(txs@[k2]) == refs@[k2]);
            }
            assert forall|k1: int, k2: int|
                0 <= k1 < k2 < txs@.len() && pre.tx_queue@.contains(reference_of(#[trigger] txs@[k1]))
                    && pre.tx_queue@.contains(reference_of(#[trigger] txs@[k2])) implies !has_priority_over(
                reference_of(txs@[k2]),
                reference_of(txs@[k1]),
            ) by {
                assert(reference_of(txs@[k1]) == refs@[k1]);
                assert(reference_of(txs@[k2]) == refs@[k2]);
            }
            assert forall|k: int, t: TransactionReference|
                0 <= k < txs@.len() && pre.tx_queue@.contains(reference_of(#[trigger] txs@[k]))
                    && #[trigger] pre.tx_queue@.contains(t) && is_ready(t, pre.tx_queue.threshold()) && (
                forall|m: int| 0 <= m < txs@.len() ==> reference_of(txs@[m]) != t) implies !has_priority_over(
                t,
                reference_of(txs@[k]),
            ) by {
                assert(reference_of(txs@[k]) == refs@[k]);
                if refs@.contains(t) {
                    let m = choose|m: int| 0 <= m < refs@.len() && refs@[m] == t;
                    assert(reference_of(txs@[m]) == refs@[m]);
                }
            }
        }
        proof {
            assert(refs_of(txs@) =~= refs@);
            assert forall|m: int|
                0 <= m < txs@.len() && (forall|k2: int|
                    m < k2 < txs@.len() ==> txs@[k2].contract_address != txs@[m].contract_address)
                    implies self.mempool_state@[#[trigger] txs@[m].contract_address] == txs@[m].nonce + 1 by {
                assert(reference_of(txs@[m]) == refs@[m]);
                assert forall|k2: int| m < k2 < refs@.len() implies refs@[k2].address != refs@[m].address by {
                    assert(reference_of(txs@[k2]) == refs@[k2]);
                }
            }
            assert forall|a: ContractAddress|
                (forall|m: int| 0 <= m < txs@.len() ==> txs@[m].contract_address != a) implies {
                    &&& #[trigger] self.mempool_state@.contains_key(a) == pre.mempool_state@.contains_key(a)
                    &&& pre.mempool_state@.contains_key(a) ==> self.mempool_state@[a] == pre.mempool_state@[a]
                } by {
                assert forall|m: int| 0 <= m < refs@.len() implies refs@[m].address != a by {
                    assert(reference_of(txs@[m]) == refs@[m]);
                }
            }
        }
        Ok(txs)
    }
    fn align_to_account_state(&mut self, account_state: AccountState)
        requires
            old(self).core_wf(),
        ensures
            final(self).core_wf(),
            final(self).pool() == old(self).pool().filter(
                fresh_for(account_state.address, account_state.nonce),
            ),
            final(self).account_nonces() == old(self).account_nonces().insert(
                account_state.address,
                account_state.nonce,
            ),
            final(self).staged() == old(self).staged(),
            final(self).config() == old(self).config(),
            final(self).gas_price_threshold() == old(self).gas_price_threshold(),
            forall|t: TransactionReference|
                t.address != account_state.address ==> (final(self).queue().contains(t)
                    <==> old(self).queue().contains(t)),
            forall|t: TransactionReference|
                #[trigger] final(self).queue().contains(t) && t.address == account_state.address ==> t.nonce
                    == account_state.nonce,
            has_address(final(self).queue(), account_state.address) <==> has_slot(
                final(self).pool(),
                account_state.address,
                account_state.nonce,
            ),
    {
        let address = account_state.address;
        let nonce = account_state.nonce;
        let ghost q0 = self.tx_queue@;
        match self.tx_queue.get_nonce(address) {
            Some(queued_nonce) => {
                if queued_nonce != nonce {
                    self.tx_queue.remove(address);
                }
            },
            None => {},
        }
        let ghost q1 = self.tx_queue@;
        proof {
            assert forall|t: TransactionReference| t.address != address implies (q1.contains(t)
                <==> q0.contains(t)) by {
                if q1 != q0 {
                    let i = choose|i: int| 0 <= i < q0.len() && q0[i].address == address && q1 == q0.remove(i);
                    if q0.contains(t) {
                        let j = choose|j: int| 0 <= j < q0.len() && q0[j] == t;
                        let k = lemma_index_after_remove(q0, i, j);
                    }
                    if q1.contains(t) {
                        let k = choose|k: int| 0 <= k < q1.len() && q1[k] == t;
                        if k < i {
                            assert(q0[k] == t);
                        } else {
                            assert(q0[k + 1] == t);
                        }
                    }
                }
            }
            assert forall|i: int| 0 <= i < q1.len() && q1[i].address == address implies q1[i].nonce
                == nonce by {
                assert(q0.contains(q1[i]));
            }
        }
        let ghost p0 = self.tx_pool@;
        self.tx_pool.remove_up_to_nonce(address, nonce);
        proof {
            lemma_filter_membership(p0, fresh_for(address, nonce));
            assert forall|q: int| 0 <= q < self.tx_queue@.len() implies has_reference(
                self.tx_pool@,
                #[trigger] self.tx_queue@[q],
            ) by {
                let w = choose|w: int| 0 <= w < p0.len() && reference_of(#[trigger] p0[w]) == self.tx_queue@[q];
                assert(q1.contains(q1[q]));
                assert(fresh_for(address, nonce)(p0[w]));
                p0.lemma_filter_contains_rev(fresh_for(address, nonce), p0[w]);
                let k = choose|k: int| 0 <= k < self.tx_pool@.len() && self.tx_pool@[k] == p0[w];
                assert(reference_of(self.tx_pool@[k]) == self.tx_queue@[q]);
            }
        }
        self.account_nonces.insert(address, nonce);
        if self.tx_queue.get_nonce(address).is_none() {
            match self.tx_pool.get_by_address_and_nonce(address, nonce) {
                Some(t) => {
                    let ghost q2 = self.tx_queue@;
                    self.tx_queue.insert(t);
                    proof {
                        assert(self.tx_queue@[q2.len() as int] == t);
                        assert forall|u: TransactionReference|
                            #[trigger] self.tx_queue@.contains(u) && u.address == address implies u.nonce == nonce by {
                            lemma_push_contains(q2, t, u);
                            if q2.contains(u) {
                                let k = choose|k: int| 0 <= k < q2.len() && q2[k] == u;
                            }
                        }
                        assert forall|u: TransactionReference| u.address != address implies (
                        self.tx_queue@.contains(u) <==> q2.contains(u)) by {
                            if self.tx_queue@.contains(u) {
                                let k = choose|k: int| 0 <= k < self.tx_queue@.len() && self.tx_queue@[k] == u;
                                if k < q2.len() {
                                    assert(q2[k] == u);
                                }
                            }
                            if q2.contains(u) {
                                let k = choose|k: int| 0 <= k < q2.len() && q2[k] == u;
                                assert(self.tx_queue@[k] == u);
                            }
                        }
                    }
                },
                None => {},
            }
        } else {
            proof {
                let k = choose|k: int| 0 <= k < self.tx_queue@.len() && self.tx_queue@[k].address == address;
                assert(has_reference(self.tx_pool@, self.tx_queue@[k]));
                let w = choose|w: int|
                    0 <= w < self.tx_pool@.len() && reference_of(#[trigger] self.tx_pool@[w]) == self.tx_queue@[k];
                assert(at_slot(self.tx_pool@, w, address, nonce));
            }
        }
    }
    /// Drops the committed transaction with hash `h`, if it is held, and its queue entry.
    fn remove_committed(&mut self, h: TransactionHash)
        requires
            old(self).core_wf(),
        ensures
            final(self).core_wf(),
            final(self).config == old(self).config,
            final(self).tx_queue.threshold() == old(self).tx_queue.threshold(),
            final(self).account_nonces@ == old(self).account_nonces@,
            final(self).mempool_state@ == old(self).mempool_state@,
            forall|t: AccountTransaction|
                final(self).tx_pool@.contains(t) <==> (old(self).tx_pool@.contains(t) && t.tx_hash != h),
            !has_hash(old(self).tx_pool@, h) ==> final(self).tx_pool@ == old(self).tx_pool@
                && final(self).tx_queue@ == old(self).tx_queue@,
            forall|t: TransactionReference|
                #[trigger] final(self).tx_queue@.contains(t) <==> (old(self).tx_queue@.contains(t) && t.tx_hash != h),
    {
        let ghost q0 = self.tx_queue@;
        let ghost p0 = self.tx_pool@;
        match self.tx_pool.remove(h) {
            Ok(tx) => {
                let ghost ix = choose|ix: int|
                    0 <= ix < p0.len() && p0[ix] == tx && tx.tx_hash == h && self.tx_pool@
                        == p0.remove(ix);
                match self.tx_queue.get_nonce(tx.contract_address) {
                    Some(queued_nonce) => {
                        if queued_nonce == tx.nonce {
                            self.tx_queue.remove(tx.contract_address);
                        }
                    },
                    None => {},
                }
                proof {
                    assert forall|t: TransactionReference|
                        #[trigger] self.tx_queue@.contains(t) <==> (q0.contains(t) && t.tx_hash != h) by {
                        if q0.contains(t) {
                            let qi = choose|qi: int| 0 <= qi < q0.len() && q0[qi] == t;
                            assert(has_reference(p0, q0[qi]));
                            let w = choose|w: int| 0 <= w < p0.len() && reference_of(#[trigger] p0[w]) == t;
                            if t.tx_hash == h {
                                assert(w == ix);
                            } else {
                                assert(w != ix);
                            }
                            if self.tx_queue@ != q0 {
                                let ri = choose|ri: int|
                                    0 <= ri < q0.len() && q0[ri].address == tx.contract_address && self.tx_queue@
                                        == q0.remove(ri);
                                assert(q0[ri].nonce == tx.nonce);
                                if qi != ri {
                                    let v = lemma_index_after_remove(q0, ri, qi);
                                } else {
                                    assert(has_reference(p0, q0[ri]));
                                    let w2 = choose|w2: int| 0 <= w2 < p0.len() && reference_of(#[trigger] p0[w2]) == q0[ri];
                                    assert(w2 == ix);
                                }
                            }
                        }
                        if self.tx_queue@.contains(t) && self.tx_queue@ != q0 {
                            let ri = choose|ri: int|
                                0 <= ri < q0.len() && q0[ri].address == tx.contract_address && self.tx_queue@
                                    == q0.remove(ri);
                            let m = choose|m: int| 0 <= m < self.tx_queue@.len() && self.tx_queue@[m] == t;
                            if m < ri {
                                assert(q0[m] == t);
                            } else {
                                assert(q0[m + 1] == t);
                            }
                        }
                    }
                    assert forall|q: int| 0 <= q < self.tx_queue@.len() implies has_reference(
                        self.tx_pool@,
                        #[trigger] self.tx_queue@[q],
                    ) by {
                        let w = choose|w: int|
                            0 <= w < p0.len() && reference_of(#[trigger] p0[w]) == self.tx_queue@[q];
                        if w == ix {
                            assert(self.tx_queue@.contains(self.tx_queue@[q]));
                        }
                        let m = lemma_index_after_remove(p0, ix, w);
                        assert(reference_of(self.tx_pool@[m]) == self.tx_queue@[q]);
                    }
                    assert forall|t: AccountTransaction| self.tx_pool@.contains(t) <==> (p0.contains(t)
                        && t.tx_hash != h) by {
                        if p0.contains(t) && t.tx_hash != h {
                            let w = choose|w: int| 0 <= w < p0.len() && p0[w] == t;
                            let m = lemma_index_after_remove(p0, ix, w);
                        }
                        if self.tx_pool@.contains(t) {
                            let m = choose|m: int| 0 <= m < self.tx_pool@.len() && self.tx_pool@[m] == t;
                            if m < ix {
                                assert(p0[m] == t);
                            } else {
                                assert(p0[m + 1] == t);
                            }
                        }
                    }
                }
            },
            Err(_) => {
                proof {
                    assert forall|t: TransactionReference|
                        #[trigger] self.tx_queue@.contains(t) implies t.tx_hash != h by {
                        let qi = choose|qi: int| 0 <= qi < q0.len() && q0[qi] == t;
                        assert(has_reference(p0, q0[qi]));
                        let w = choose|w: int| 0 <= w < p0.len() && reference_of(#[trigger] p0[w]) == t;
                    }
                    assert forall|t: AccountTransaction| self.tx_pool@.contains(t) <==> (p0.contains(t)
                        && t.tx_hash != h) by {
                        if p0.contains(t) {
                            let w = choose|w: int| 0 <= w < p0.len() && p0[w] == t;
                        }
                    }
                }
            },
        }
    }

    /// Aligns the mempool with a committed block: advances the nonces of the accounts it
    /// touched, puts back the staged accounts it left out, drops its transactions, and ends
    /// the block cycle. A committed nonce never goes below the recorded one.
    #[verifier::rlimit(100)]
    pub fn commit_block(&mut self, args: CommitBlockArgs) -> (r: MempoolResult<()>)
        requires
            old(self).wf(),
            args.address_to_nonce.wf(),
            forall|a: ContractAddress|
                #[trigger] args.address_to_nonce@.contains_key(a) && old(self).account_nonces().contains_key(a)
                    ==> old(self).account_nonces()[a] <= args.address_to_nonce@[a],
        ensures
            final(self).wf(),
            r is Ok,
            final(self).staged() == Map::<ContractAddress, Nonce>::empty(),
            final(self).account_nonces() == old(self).account_nonces().union_prefer_right(
                args.address_to_nonce@,
            ),
            final(self).config() == old(self).config(),
            final(self).gas_price_threshold() == old(self).gas_price_threshold(),
            forall|t: AccountTransaction|
                final(self).pool().contains(t) <==> {
                    &&& old(self).pool().contains(t)
                    &&& !args.tx_hashes@.contains(t.tx_hash)
                    &&& !(args.address_to_nonce@.contains_key(t.contract_address) && t.nonce
                        < args.address_to_nonce@[t.contract_address])
                },
            forall|i: int|
                0 <= i < final(self).pool().len() && args.address_to_nonce@.contains_key(
                    #[trigger] final(self).pool()[i].contract_address,
                ) ==> final(self).pool()[i].nonce >= args.address_to_nonce@[final(self).pool()[i].contract_address],
            args.address_to_nonce@ == Map::<ContractAddress, Nonce>::empty() && args.tx_hashes@.len()
                == 0 ==> final(self).pool() == old(self).pool() && final(self).account_nonces()
                == old(self).account_nonces() && (old(self).staged() == Map::<
                ContractAddress,
                Nonce,
            >::empty() ==> final(self).queue() == old(self).queue()),
            args.tx_hashes@.len() == 0 ==> forall|a: ContractAddress|
                old(self).staged().contains_key(a) && !args.address_to_nonce@.contains_key(a)
                    ==> has_address(final(self).queue(), a),
            forall|t: TransactionReference|
                #[trigger] final(self).queue().contains(t) && args.address_to_nonce@.contains_key(t.address)
                    ==> t.nonce == args.address_to_nonce@[t.address],
            forall|t: TransactionReference, i: int|
                #[trigger] final(self).queue().contains(t) && old(self).staged().contains_key(t.address)
                    && !args.address_to_nonce@.contains_key(t.address) && 0 <= i < final(self).pool().len()
                    && #[trigger] final(self).pool()[i].contract_address == t.address ==> t.nonce
                    <= final(self).pool()[i].nonce,
            forall|a: ContractAddress|
                #[trigger] old(self).staged().contains_key(a) && !args.address_to_nonce@.contains_key(a) && (
                forall|i: int|
                    0 <= i < old(self).pool().len() && old(self).pool()[i].contract_address == a
                        ==> !args.tx_hashes@.contains(old(self).pool()[i].tx_hash)) ==> has_address(
                    final(self).queue(),
                    a,
                ),
            forall|t: TransactionReference|
                !args.address_to_nonce@.contains_key(t.address) && !old(self).staged().contains_key(t.address)
                    ==> (#[trigger] final(self).queue().contains(t) <==> (old(self).queue().contains(t)
                    && !args.tx_hashes@.contains(t.tx_hash))),
    {
        let ghost pre = *self;
        let ghost a2n = args.address_to_nonce@;
        let addresses = args.address_to_nonce.keys();
        let ghost done = Set::<ContractAddress>::empty();
        proof {
            assert(pre.account_nonces@.union_prefer_right(a2n.restrict(done)) =~= pre.account_nonces@);
        }
        let mut i: usize = 0;
        while i < addresses.len()
            invariant
                pre == *old(self),
                a2n == args.address_to_nonce@,
                args.address_to_nonce.wf(),
                self.core_wf(),
                self.mempool_state@ == pre.mempool_state@,
                self.config == pre.config,
                self.tx_queue.threshold() == pre.tx_queue.threshold(),
                i <= addresses@.len(),
                forall|a: ContractAddress| a2n.contains_key(a) <==> addresses@.contains(a),
                forall|k: int| 0 <= k < i ==> done.contains(#[trigger] addresses@[k]),
                forall|a: ContractAddress| done.contains(a) ==> a2n.contains_key(a),
                self.account_nonces@ == pre.account_nonces@.union_prefer_right(a2n.restrict(done)),
                forall|t: AccountTransaction|
                    self.tx_pool@.contains(t) <==> (pre.tx_pool@.contains(t) && !(done.contains(
                        t.contract_address,
                    ) && t.nonce < a2n[t.contract_address])),
                forall|a: ContractAddress|
                    #[trigger] self.mempool_state@.contains_key(a) && !a2n.contains_key(a)
                        ==> exists|w: int| 0 <= w < self.tx_pool@.len() && self.tx_pool@[w].contract_address == a,
                a2n == Map::<ContractAddress, Nonce>::empty() ==> self.tx_pool@ == pre.tx_pool@
                    && self.tx_queue@ == pre.tx_queue@,
                forall|t: TransactionReference|
                    !done.contains(t.address) ==> (#[trigger] self.tx_queue@.contains(t) <==> pre.tx_queue@.contains(t)),
                forall|t: TransactionReference|
                    #[trigger] self.tx_queue@.contains(t) && done.contains(t.address) ==> t.nonce == a2n[t.address],
            decreases addresses@.len() - i,
        {
            let address = addresses[i];
            proof {
                assert(addresses@.contains(address));
            }
            let next_nonce = match args.address_to_nonce.get(address) {
                Some(n) => n,
                None => 0,
            };
            let ghost p0 = self.tx_pool@;
            self.align_to_account_state(AccountState { address, nonce: next_nonce });
            proof {
                let f = fresh_for(address, next_nonce);
                lemma_filter_membership(p0, f);
                assert(self.account_nonces@ =~= pre.account_nonces@.union_prefer_right(
                    a2n.restrict(done.insert(address)),
                ));
                assert forall|a: ContractAddress|
                    #[trigger] self.mempool_state@.contains_key(a) && !a2n.contains_key(a)
                        implies exists|w: int| 0 <= w < self.tx_pool@.len() && self.tx_pool@[w].contract_address == a by {
                    let w = choose|w: int| 0 <= w < p0.len() && p0[w].contract_address == a;
                    assert(p0.contains(p0[w]));
                    assert(self.tx_pool@.contains(p0[w]));
                    let k = choose|k: int| 0 <= k < self.tx_pool@.len() && self.tx_pool@[k] == p0[w];
                }
                assert(a2n.contains_key(address));
                assert forall|t: TransactionReference|
                    #[trigger] self.tx_queue@.contains(t) && done.insert(address).contains(t.address) implies t.nonce
                        == a2n[t.address] by {
                    if t.address != address {
                        assert(done.contains(t.address));
                    }
                }
                done = done.insert(address);
            }
            i = i + 1;
        }
        proof {
            assert forall|a: ContractAddress| a2n.contains_key(a) implies done.contains(a) by {
                assert(addresses@.contains(a));
                let k = choose|k: int| 0 <= k < addresses@.len() && addresses@[k] == a;
            }
            assert(a2n.restrict(done) =~= a2n);
            assert forall|t: AccountTransaction|
                self.tx_pool@.contains(t) <==> (pre.tx_pool@.contains(t) && !(a2n.contains_key(
                    t.contract_address,
                ) && t.nonce < a2n[t.contract_address])) by {
                if a2n.contains_key(t.contract_address) {
                    assert(done.contains(t.contract_address));
                }
            }
        }
        let staged = self.mempool_state.keys();
        proof {
            if pre.mempool_state@ == Map::<ContractAddress, Nonce>::empty() && staged@.len() > 0 {
                assert(staged@.contains(staged@[0]));
            }
        }
        let ghost q_mid = self.tx_queue@;
        let ghost p_start = self.tx_pool@;
        proof {
            assert forall|t: TransactionReference|
                #[trigger] q_mid.contains(t) && a2n.contains_key(t.address) implies t.nonce == a2n[t.address] by {
                assert(done.contains(t.address));
            }
            assert forall|t: TransactionReference|
                !a2n.contains_key(t.address) implies (#[trigger] q_mid.contains(t) <==> pre.tx_queue@.contains(t)) by {
                if done.contains(t.address) {
                    assert(a2n.contains_key(t.address));
                }
            }
        }
        let mut j: usize = 0;
        while j < staged.len()
            invariant
                pre == *old(self),
                a2n == args.address_to_nonce@,
                args.address_to_nonce.wf(),
                self.core_wf(),
                self.mempool_state@ == pre.mempool_state@,
                self.config == pre.config,
                self.tx_queue.threshold() == pre.tx_queue.threshold(),
                j <= staged@.len(),
                pre.mempool_state@ == Map::<ContractAddress, Nonce>::empty() ==> staged@.len() == 0,
                self.tx_queue@ == q_mid || j > 0,
                self.account_nonces@ == pre.account_nonces@.union_prefer_right(a2n),
                self.tx_pool@ == p_start,
                forall|t: AccountTransaction|
                    p_start.contains(t) <==> (pre.tx_pool@.contains(t) && !(a2n.contains_key(
                        t.contract_address,
                    ) && t.nonce < a2n[t.contract_address])),
                forall|a: ContractAddress| pre.mempool_state@.contains_key(a) <==> staged@.contains(a),
                forall|a: ContractAddress|
                    #[trigger] pre.mempool_state@.contains_key(a) && !a2n.contains_key(a)
                        ==> exists|w: int| 0 <= w < p_start.len() && p_start[w].contract_address == a,
                forall|m: int|
                    0 <= m < j && !a2n.contains_key(#[trigger] staged@[m]) ==> has_address(
                        self.tx_queue@,
                        staged@[m],
                    ),
                forall|t: TransactionReference|
                    !a2n.contains_key(t.address) ==> (#[trigger] q_mid.contains(t) <==> pre.tx_queue@.contains(t)),
                forall|t: TransactionReference|
                    #[trigger] q_mid.contains(t) && a2n.contains_key(t.address) ==> t.nonce == a2n[t.address],
                forall|t: TransactionReference|
                    !(pre.mempool_state@.contains_key(t.address) && !a2n.contains_key(t.address))
                        ==> (#[trigger] self.tx_queue@.contains(t) <==> q_mid.contains(t)),
                forall|m: int, t: TransactionReference, w: int|
                    0 <= m < j && !a2n.contains_key(#[trigger] staged@[m]) && #[trigger] self.tx_queue@.contains(t)
                        && t.address == staged@[m] && 0 <= w < p_start.len() && #[trigger] p_start[w].contract_address
                        == t.address ==> t.nonce <= p_start[w].nonce,
            decreases staged@.len() - j,
        {
            let address = staged[j];
            let ghost q1 = self.tx_queue@;
            proof {
                assert(staged@.contains(address));
            }
            if !args.address_to_nonce.contains_key(address) {
                match self.tx_pool.get_lowest_nonce_tx(address) {
                    Some(t) => {
                        self.tx_queue.remove(address);
                        let ghost q2 = self.tx_queue@;
                        proof {
                            assert forall|k: int| 0 <= k < q2.len() implies q2[k].address != address by {}
                        }
                        self.tx_queue.insert(t);
                        proof {
                            assert(self.tx_queue@[q2.len() as int] == t);
                            assert forall|u: TransactionReference| #[trigger] self.tx_queue@.contains(u) implies
                                (u.address != address && q1.contains(u)) || u == t by {
                                lemma_push_contains(q2, t, u);
                                if q2.contains(u) {
                                    let m = choose|m: int| 0 <= m < q2.len() && q2[m] == u;
                                    if q2 != q1 {
                                        let ri = choose|ri: int|
                                            0 <= ri < q1.len() && q1[ri].address == address && q2 == q1.remove(ri);
                                        if m < ri {
                                            assert(q1[m] == u);
                                        } else {
                                            assert(q1[m + 1] == u);
                                        }
                                    }
                                }
                            }
                            assert forall|u: TransactionReference| u.address != address && q1.contains(u)
                                implies #[trigger] self.tx_queue@.contains(u) by {
                                lemma_push_contains(q2, t, u);
                                let m = choose|m: int| 0 <= m < q1.len() && q1[m] == u;
                                if q2 == q1 {
                                } else {
                                    let ri = choose|ri: int|
                                        0 <= ri < q1.len() && q1[ri].address == address && q2 == q1.remove(ri);
                                    let v = lemma_index_after_remove(q1, ri, m);
                                }
                            }
                            assert forall|m: int|
                                0 <= m <= j && !a2n.contains_key(#[trigger] staged@[m]) implies has_address(
                                    self.tx_queue@,
                                    staged@[m],
                                ) by {
                                if staged@[m] != address {
                                    let w = choose|w: int| 0 <= w < q1.len() && q1[w].address == staged@[m];
                                    if q2 == q1 {
                                        assert(self.tx_queue@[w] == q1[w]);
                                    } else {
                                        let i = choose|i: int|
                                            0 <= i < q1.len() && q1[i].address == address && q2 == q1.remove(i);
                                        let v = lemma_index_after_remove(q1, i, w);
                                        assert(self.tx_queue@[v] == q1[w]);
                                    }
                                }
                            }
                        }
                    },
                    None => {},
                }
            }
            j = j + 1;
        }
        let ghost p_mid = self.tx_pool@;
        let ghost q_rew = self.tx_queue@;
        proof {
            assert forall|a: ContractAddress|
                pre.mempool_state@.contains_key(a) && !a2n.contains_key(a) implies has_address(
                q_rew,
                a,
            ) by {
                assert(staged@.contains(a));
                let m = choose|m: int| 0 <= m < staged@.len() && staged@[m] == a;
            }
            assert forall|t: TransactionReference, w: int|
                #[trigger] q_rew.contains(t) && pre.mempool_state@.contains_key(t.address) && !a2n.contains_key(
                    t.address,
                ) && 0 <= w < p_start.len() && #[trigger] p_start[w].contract_address == t.address implies t.nonce
                    <= p_start[w].nonce by {
                assert(staged@.contains(t.address));
                let m = choose|m: int| 0 <= m < staged@.len() && staged@[m] == t.address;
            }
            assert forall|t: TransactionReference| #[trigger] q_rew.contains(t) implies has_reference(p_start, t) by {
                let q = choose|q: int| 0 <= q < q_rew.len() && q_rew[q] == t;
            }
        }
        let mut k: usize = 0;
        while k < args.tx_hashes.len()
            invariant
                pre == *old(self),
                a2n == args.address_to_nonce@,
                self.core_wf(),
                self.config == pre.config,
                self.tx_queue.threshold() == pre.tx_queue.threshold(),
                k <= args.tx_hashes@.len(),
                self.account_nonces@ == pre.account_nonces@.union_prefer_right(a2n),
                forall|t: AccountTransaction|
                    p_mid.contains(t) <==> (pre.tx_pool@.contains(t) && !(a2n.contains_key(
                        t.contract_address,
                    ) && t.nonce < a2n[t.contract_address])),
                forall|t: AccountTransaction|
                    self.tx_pool@.contains(t) <==> (p_mid.contains(t) && !args.tx_hashes@.subrange(
                        0,
                        k as int,
                    ).contains(t.tx_hash)),
                k == 0 ==> self.tx_pool@ == p_mid,
                k == 0 ==> self.tx_queue@ == q_rew,
                p_mid == p_start,
                forall|a: ContractAddress|
                    pre.mempool_state@.contains_key(a) && !a2n.contains_key(a) ==> has_address(q_rew, a),
                forall|t: TransactionReference, w: int|
                    #[trigger] q_rew.contains(t) && pre.mempool_state@.contains_key(t.address) && !a2n.contains_key(
                        t.address,
                    ) && 0 <= w < p_start.len() && #[trigger] p_start[w].contract_address == t.address ==> t.nonce
                        <= p_start[w].nonce,
                forall|t: TransactionReference| #[trigger] q_rew.contains(t) ==> has_reference(p_start, t),
                forall|t: TransactionReference|
                    #[trigger] self.tx_queue@.contains(t) <==> (q_rew.contains(t) && !args.tx_hashes@.subrange(
                        0,
                        k as int,
                    ).contains(t.tx_hash)),
                k == 0 ==> self.tx_queue@ == q_mid || pre.mempool_state@ != Map::<ContractAddress, Nonce>::empty(),
            decreases args.tx_hashes@.len() - k,
        {
            let h = args.tx_hashes[k];
            let ghost p0 = self.tx_pool@;
            let ghost prev = args.tx_hashes@.subrange(0, k as int);
            let ghost next_hashes = args.tx_hashes@.subrange(0, k as int + 1);
            assert(forall|t: AccountTransaction| p0.contains(t) <==> (p_mid.contains(t) && !prev.contains(t.tx_hash)));
            self.remove_committed(h);
            proof {
                assert(next_hashes =~= prev.push(h));
                assert forall|x: TransactionHash| next_hashes.contains(x) <==> (prev.contains(x) || x == h) by {
                    if next_hashes.contains(x) {
                        let m = choose|m: int| 0 <= m < next_hashes.len() && next_hashes[m] == x;
                        if m < prev.len() {
                            assert(prev[m] == x);
                        }
                    }
                    if prev.contains(x) {
                        let m = choose|m: int| 0 <= m < prev.len() && prev[m] == x;
                        assert(next_hashes[m] == x);
                    }
                    if x == h {
                        assert(next_hashes[prev.len() as int] == x);
                    }
                }
                assert forall|t: AccountTransaction| self.tx_pool@.contains(t) <==> (p_mid.contains(t)
                    && !next_hashes.contains(t.tx_hash)) by {
                    assert(next_hashes.contains(t.tx_hash) <==> (prev.contains(t.tx_hash) || t.tx_hash == h));
                    assert(p0.contains(t) <==> (p_mid.contains(t) && !prev.contains(t.tx_hash)));
                }
            }
            k = k + 1;
            assert(args.tx_hashes@.subrange(0, k as int) == next_hashes);
        }
        self.mempool_state.clear();
        proof {
            assert(args.tx_hashes@.subrange(0, k as int) =~= args.tx_hashes@);
            assert forall|t: TransactionReference, i: int|
                #[trigger] self.tx_queue@.contains(t) && pre.mempool_state@.contains_key(t.address)
                    && !a2n.contains_key(t.address) && 0 <= i < self.tx_pool@.len()
                    && #[trigger] self.tx_pool@[i].contract_address == t.address implies t.nonce
                    <= self.tx_pool@[i].nonce by {
                let x = self.tx_pool@[i];
                assert(self.tx_pool@.contains(x));
                assert(p_start.contains(x));
                let w = choose|w: int| 0 <= w < p_start.len() && p_start[w] == x;
                assert(q_rew.contains(t));
            }
            assert forall|a: ContractAddress|
                #[trigger] old(self).staged().contains_key(a) && !args.address_to_nonce@.contains_key(a) && (
                forall|i: int|
                    0 <= i < old(self).pool().len() && old(self).pool()[i].contract_address == a
                        ==> !args.tx_hashes@.contains(old(self).pool()[i].tx_hash)) implies has_address(
                self.tx_queue@,
                a,
            ) by {
                assert(pre.mempool_state@.contains_key(a));
                assert(has_address(q_rew, a));
                let q = choose|q: int| 0 <= q < q_rew.len() && q_rew[q].address == a;
                let u = q_rew[q];
                assert(q_rew.contains(u));
                let w = choose|w: int| 0 <= w < p_start.len() && reference_of(#[trigger] p_start[w]) == u;
                assert(p_start.contains(p_start[w]));
                assert(pre.tx_pool@.contains(p_start[w]));
                let i0 = choose|i0: int| 0 <= i0 < pre.tx_pool@.len() && pre.tx_pool@[i0] == p_start[w];
                assert(old(self).pool()[i0].contract_address == a);
                assert(!args.tx_hashes@.contains(u.tx_hash));
                assert(self.tx_queue@.contains(u));
                let m = choose|m: int| 0 <= m < self.tx_queue@.len() && self.tx_queue@[m] == u;
            }
            assert forall|i: int|
                0 <= i < self.tx_pool@.len() && a2n.contains_key(
                    #[trigger] self.tx_pool@[i].contract_address,
                ) implies self.tx_pool@[i].nonce >= a2n[self.tx_pool@[i].contract_address] by {
                let x = self.tx_pool@[i];
                assert(self.tx_pool@.contains(x));
                assert(p_mid.contains(x));
            }
        }
        Ok(())
    }
    /// The number of held transactions.
    pub fn pool_len(&self) -> (r: usize)
        ensures
            r == self.pool().len(),
    {
        self.tx_pool.len()
    }

    /// Whether a transaction with hash `h` is held.
    pub fn contains_tx(&self, h: TransactionHash) -> (r: bool)
        ensures
            r == has_hash(self.pool(), h),
    {
        self.tx_pool.get_by_tx_hash(h).is_ok()
    }

    /// The staged next nonce of `address`, if it has one.
    pub fn staged_nonce(&self, address: ContractAddress) -> (r: Option<Nonce>)
        requires
            self.wf(),
        ensures
            r == (if self.staged().contains_key(address) {
                Some(self.staged()[address])
            } else {
                None::<Nonce>
            }),
    {
        self.mempool_state.get(address)
    }

    /// The recorded nonce of `address`, if it has one.
    pub fn account_nonce(&self, address: ContractAddress) -> (r: Option<Nonce>)
        requires
            self.wf(),
        ensures
            r == (if self.account_nonces().contains_key(address) {
                Some(self.account_nonces()[address])
            } else {
                None::<Nonce>
            }),
    {
        self.account_nonces.get(address)
    }
}

} // verus!
