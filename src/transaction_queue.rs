use vstd::prelude::*;

use crate::types::{ContractAddress, GasPrice, Nonce, TransactionReference};

verus! {

/// Priority order: a higher tip first, then the smaller hash.
pub open spec fn has_priority_over(a: TransactionReference, b: TransactionReference) -> bool {
    a.tip > b.tip || (a.tip == b.tip && a.tx_hash < b.tx_hash)
}

/// Whether `t` may be dispensed under `threshold`.
pub open spec fn is_ready(t: TransactionReference, threshold: GasPrice) -> bool {
    t.max_l2_gas_price >= threshold
}

/// Whether `q` holds an entry for `address`.
pub open spec fn has_address(q: Seq<TransactionReference>, address: ContractAddress) -> bool {
    exists|i: int| 0 <= i < q.len() && q[i].address == address
}

/// At most one entry per address.
pub open spec fn queue_wf(q: Seq<TransactionReference>) -> bool {
    forall|i: int, j: int|
        0 <= i < q.len() && 0 <= j < q.len() && i != j ==> q[i].address != q[j].address
}

/// No entry of `s` comes before an earlier one in priority order.
pub open spec fn sorted_by_priority(s: Seq<TransactionReference>) -> bool {
    forall|i: int, j: int| 0 <= i < j < s.len() ==> !has_priority_over(s[j], s[i])
}

/// Whether `chunk` is what dispensing up to `n` ready entries of `q` under `threshold` gives,
/// with `rest` what stays queued.
pub open spec fn is_ready_chunk(
    q: Seq<TransactionReference>,
    threshold: GasPrice,
    n: nat,
    chunk: Seq<TransactionReference>,
    rest: Seq<TransactionReference>,
) -> bool {
    &&& chunk.len() <= n
    &&& sorted_by_priority(chunk)
    &&& forall|i: int| 0 <= i < chunk.len() ==> is_ready(#[trigger] chunk[i], threshold)
    &&& forall|t: TransactionReference| q.contains(t) <==> (rest.contains(t) || chunk.contains(t))
    &&& forall|t: TransactionReference| !(rest.contains(t) && chunk.contains(t))
    &&& forall|i: int, t: TransactionReference|
        0 <= i < chunk.len() && #[trigger] rest.contains(t) && is_ready(t, threshold) ==> !has_priority_over(
            t,
            #[trigger] chunk[i],
        )
    &&& chunk.len() < n ==> forall|t: TransactionReference|
        rest.contains(t) ==> !is_ready(t, threshold)
}

fn priority_over(a: &TransactionReference, b: &TransactionReference) -> (r: bool)
    ensures
        r == has_priority_over(*a, *b),
{
    a.tip > b.tip || (a.tip == b.tip && a.tx_hash < b.tx_hash)
}

/// The transactions eligible for sequencing: one per account, ordered by priority.
pub struct TransactionQueue {
    txs: Vec<TransactionReference>,
    gas_price_threshold: GasPrice,
}

impl View for TransactionQueue {
    type V = Seq<TransactionReference>;

    closed spec fn view(&self) -> Seq<TransactionReference> {
        self.txs@
    }
}

impl TransactionQueue {
    pub open spec fn wf(&self) -> bool {
        queue_wf(self@)
    }

    /// The gas price below which entries are held but not dispensed.
    pub closed spec fn threshold(&self) -> GasPrice {
        self.gas_price_threshold
    }

    pub fn new() -> (r: TransactionQueue)
        ensures
            r.wf(),
            r@ == Seq::<TransactionReference>::empty(),
            r.threshold() == 0,
    {
        TransactionQueue { txs: Vec::new(), gas_price_threshold: 0 }
    }

    pub fn len(&self) -> (r: usize)
        ensures
            r == self@.len(),
    {
        self.txs.len()
    }

    fn find(&self, address: ContractAddress) -> (r: Option<usize>)
        ensures
            match r {
                Some(i) => i < self@.len() && self@[i as int].address == address,
                None => !has_address(self@, address),
            },
    {
        let mut i: usize = 0;
        while i < self.txs.len()
            invariant
                i <= self.txs@.len(),
                forall|k: int| 0 <= k < i ==> self.txs@[k].address != address,
            decreases self.txs@.len() - i,
        {
            if self.txs[i].address == address {
                return Some(i);
            }
            i = i + 1;
        }
        None
    }

    /// Adds `t`; the queue must hold no entry of its address.
    pub fn insert(&mut self, t: TransactionReference)
        requires
            old(self).wf(),
            !has_address(old(self)@, t.address),
        ensures
            final(self).wf(),
            final(self)@ == old(self)@.push(t),
            final(self).threshold() == old(self).threshold(),
    {
        self.txs.push(t);
    }

    /// Removes the entry of `address`, if any; returns whether one was removed.
    pub fn remove(&mut self, address: ContractAddress) -> (r: bool)
        requires
            old(self).wf(),
        ensures
            final(self).wf(),
            r == has_address(old(self)@, address),
            !r ==> final(self)@ == old(self)@,
            r ==> exists|i: int|
                0 <= i < old(self)@.len() && old(self)@[i].address == address && final(self)@
                    == old(self)@.remove(i),
            final(self).threshold() == old(self).threshold(),
    {
        match self.find(address) {
            Some(i) => {
                self.txs.remove(i);
                true
            },
            None => false,
        }
    }

    /// The nonce of the entry of `address`, if any.
    pub fn get_nonce(&self, address: ContractAddress) -> (r: Option<Nonce>)
        ensures
            r is Some <==> has_address(self@, address),
            r matches Some(n) ==> exists|i: int|
                0 <= i < self@.len() && self@[i].address == address && self@[i].nonce == n,
    {
        match self.find(address) {
            Some(i) => Some(self.txs[i].nonce),
            None => None,
        }
    }

    fn best_ready(&self) -> (r: Option<usize>)
        ensures
            r is None ==> forall|t: TransactionReference|
                self@.contains(t) ==> !is_ready(t, self.threshold()),
            r matches Some(b) ==> {
                &&& b < self@.len()
                &&& is_ready(self@[b as int], self.threshold())
                &&& forall|t: TransactionReference|
                    self@.contains(t) && is_ready(t, self.threshold()) ==> !has_priority_over(
                        t,
                        self@[b as int],
                    )
            },
    {
        let mut best: Option<usize> = None;
        let mut i: usize = 0;
        while i < self.txs.len()
            invariant
                i <= self.txs@.len(),
                best is None ==> forall|k: int|
                    0 <= k < i ==> !is_ready(#[trigger] self.txs@[k], self.gas_price_threshold),
                best matches Some(b) ==> {
                    &&& b < i
                    &&& is_ready(self.txs@[b as int], self.gas_price_threshold)
                    &&& forall|k: int|
                        0 <= k < i && is_ready(self.txs@[k], self.gas_price_threshold)
                            ==> !has_priority_over(#[trigger] self.txs@[k], self.txs@[b as int])
                },
            decreases self.txs@.len() - i,
        {
            if self.txs[i].max_l2_gas_price >= self.gas_price_threshold {
                match best {
                    Some(b) => {
                        if priority_over(&self.txs[i], &self.txs[b]) {
                            best = Some(i);
                        }
                    },
                    None => {
                        best = Some(i);
                    },
                }
            }
            i = i + 1;
        }
        best
    }

    /// Whether some entry is ready.
    pub fn has_ready_txs(&self) -> (r: bool)
        ensures
            r <==> exists|t: TransactionReference| self@.contains(t) && is_ready(t, self.threshold()),
    {
        match self.best_ready() {
            Some(b) => {
                proof {
                    assert(self@.contains(self@[b as int]));
                }
                true
            },
            None => false,
        }
    }

    /// Removes and returns up to `n` ready entries of the highest priority, in priority order.
    pub fn pop_ready_chunk(&mut self, n: usize) -> (r: Vec<TransactionReference>)
        requires
            old(self).wf(),
        ensures
            final(self).wf(),
            final(self).threshold() == old(self).threshold(),
            is_ready_chunk(old(self)@, old(self).threshold(), n as nat, r@, final(self)@),
            final(self)@.len() + r@.len() == old(self)@.len(),
            forall|i: int, j: int| 0 <= i < j < r@.len() ==> r@[i].address != r@[j].address,
            forall|i: int, t: TransactionReference|
                0 <= i < r@.len() && #[trigger] final(self)@.contains(t) ==> t.address
                    != #[trigger] r@[i].address,
    {
        let ghost q0 = self.txs@;
        let mut chunk: Vec<TransactionReference> = Vec::new();
        while chunk.len() < n
            invariant
                queue_wf(q0),
                queue_wf(self.txs@),
                self.gas_price_threshold == old(self).gas_price_threshold,
                q0 == old(self)@,
                chunk@.len() <= n,
                self.txs@.len() + chunk@.len() == q0.len(),
                forall|i: int, j: int|
                    0 <= i < j < chunk@.len() ==> chunk@[i].address != chunk@[j].address,
                forall|i: int, t: TransactionReference|
                    0 <= i < chunk@.len() && #[trigger] self.txs@.contains(t) ==> t.address
                        != #[trigger] chunk@[i].address,
                sorted_by_priority(chunk@),
                forall|i: int|
                    0 <= i < chunk@.len() ==> is_ready(#[trigger] chunk@[i], self.gas_price_threshold),
                forall|t: TransactionReference|
                    q0.contains(t) <==> (self.txs@.contains(t) || chunk@.contains(t)),
                forall|t: TransactionReference| !(self.txs@.contains(t) && chunk@.contains(t)),
                forall|i: int, t: TransactionReference|
                    0 <= i < chunk@.len() && #[trigger] self.txs@.contains(t) && is_ready(
                        t,
                        self.gas_price_threshold,
                    ) ==> !has_priority_over(t, #[trigger] chunk@[i]),
            ensures
                chunk@.len() < n ==> forall|t: TransactionReference|
                    self.txs@.contains(t) ==> !is_ready(t, self.gas_price_threshold),
            decreases self.txs@.len(),
        {
            match self.best_ready() {
                None => {
                    proof {
                        assert(self@ == self.txs@);
                        assert(self.threshold() == self.gas_price_threshold);
                    }
                    break;
                },
                Some(b) => {
                    let ghost before = self.txs@;
                    let ghost chunk_before = chunk@;
                    let t = self.txs.remove(b);
                    proof {
                        assert(before.contains(t));
                        assert forall|u: TransactionReference|
                            #[trigger] self.txs@.contains(u) implies before.contains(u) && u != t by {
                            let k = choose|k: int| 0 <= k < self.txs@.len() && self.txs@[k] == u;
                            if k < b {
                                assert(before[k] == u);
                                assert(before[k].address != before[b as int].address);
                            } else {
                                assert(before[k + 1] == u);
                                assert(before[k + 1].address != before[b as int].address);
                            }
                        }
                        assert forall|u: TransactionReference|
                            before.contains(u) && u != t implies #[trigger] self.txs@.contains(u) by {
                            let k = choose|k: int| 0 <= k < before.len() && before[k] == u;
                            if k < b {
                                assert(self.txs@[k] == u);
                            } else {
                                assert(self.txs@[k - 1] == u);
                            }
                        }
                    }
                    chunk.push(t);
                    proof {
                        assert forall|u: TransactionReference|
                            #[trigger] chunk@.contains(u) <==> (chunk_before.contains(u) || u == t) by {
                            if chunk@.contains(u) {
                                let k = choose|k: int| 0 <= k < chunk@.len() && chunk@[k] == u;
                                if k < chunk_before.len() {
                                    assert(chunk_before[k] == u);
                                }
                            }
                            if chunk_before.contains(u) {
                                let k = choose|k: int| 0 <= k < chunk_before.len() && chunk_before[k] == u;
                                assert(chunk@[k] == u);
                            }
                            if u == t {
                                assert(chunk@[chunk_before.len() as int] == u);
                            }
                        }
                    }
                },
            }
        }
        chunk
    }

    /// The ready entries in priority order, without removing them.
    pub fn iter_over_ready_txs(&self) -> (r: Vec<TransactionReference>)
        requires
            self.wf(),
        ensures
            sorted_by_priority(r@),
            forall|t: TransactionReference|
                r@.contains(t) <==> (self@.contains(t) && is_ready(t, self.threshold())),
            forall|i: int, j: int| 0 <= i < j < r@.len() ==> r@[i].address != r@[j].address,
            r@.no_duplicates(),
    {
        let mut txs: Vec<TransactionReference> = Vec::new();
        let mut i: usize = 0;
        while i < self.txs.len()
            invariant
                i <= self.txs@.len(),
                txs@ == self.txs@.subrange(0, i as int),
            decreases self.txs@.len() - i,
        {
            txs.push(self.txs[i]);
            i = i + 1;
        }
        assert(txs@ =~= self.txs@);
        let mut copy = TransactionQueue { txs, gas_price_threshold: self.gas_price_threshold };
        let r = copy.pop_ready_chunk(self.txs.len());
        assert forall|i: int, j: int| 0 <= i < r@.len() && 0 <= j < r@.len() && i != j implies r@[i]
            != r@[j] by {
            if i < j {
                assert(r@[i].address != r@[j].address);
            } else {
                assert(r@[j].address != r@[i].address);
            }
        }
        r
    }

    /// Changes which entries are ready; no entry enters or leaves the queue.
    pub fn update_gas_price_threshold(&mut self, threshold: GasPrice)
        ensures
            final(self)@ == old(self)@,
            final(self).threshold() == threshold,
    {
        self.gas_price_threshold = threshold;
    }
}

} // verus!
