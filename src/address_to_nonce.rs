use vstd::prelude::*;

use crate::types::{ContractAddress, Nonce};

verus! {

/// A map from account address to nonce.
pub struct AddressToNonce {
    entries: Vec<(ContractAddress, Nonce)>,
    map: Ghost<Map<ContractAddress, Nonce>>,
}

impl View for AddressToNonce {
    type V = Map<ContractAddress, Nonce>;

    closed spec fn view(&self) -> Map<ContractAddress, Nonce> {
        self.map@
    }
}

impl AddressToNonce {
    /// The entries list each key once, and hold exactly the pairs of the map.
    pub closed spec fn wf(&self) -> bool {
        &&& forall|i: int, j: int|
            0 <= i < j < self.entries@.len() ==> self.entries@[i].0 != self.entries@[j].0
        &&& forall|i: int|
            0 <= i < self.entries@.len() ==> {
                &&& #[trigger] self.map@.contains_key(self.entries@[i].0)
                &&& self.map@[self.entries@[i].0] == self.entries@[i].1
            }
        &&& forall|k: ContractAddress|
            #[trigger] self.map@.contains_key(k) ==> exists|i: int|
                0 <= i < self.entries@.len() && self.entries@[i].0 == k
    }

    pub fn new() -> (r: AddressToNonce)
        ensures
            r.wf(),
            r@ == Map::<ContractAddress, Nonce>::empty(),
    {
        AddressToNonce { entries: Vec::new(), map: Ghost(Map::empty()) }
    }

    fn find(&self, address: ContractAddress) -> (r: Option<usize>)
        requires
            self.wf(),
        ensures
            match r {
                Some(i) => i < self.entries@.len() && self.entries@[i as int].0 == address,
                None => !self@.contains_key(address),
            },
    {
        let mut i: usize = 0;
        while i < self.entries.len()
            invariant
                self.wf(),
                i <= self.entries@.len(),
                forall|k: int| 0 <= k < i ==> self.entries@[k].0 != address,
            decreases self.entries@.len() - i,
        {
            if self.entries[i].0 == address {
                return Some(i);
            }
            i = i + 1;
        }
        None
    }

    pub fn get(&self, address: ContractAddress) -> (r: Option<Nonce>)
        requires
            self.wf(),
        ensures
            r == (if self@.contains_key(address) {
                Some(self@[address])
            } else {
                None::<Nonce>
            }),
    {
        match self.find(address) {
            Some(i) => Some(self.entries[i].1),
            None => None,
        }
    }

    pub fn contains_key(&self, address: ContractAddress) -> (r: bool)
        requires
            self.wf(),
        ensures
            r == self@.contains_key(address),
    {
        self.find(address).is_some()
    }

    pub fn insert(&mut self, address: ContractAddress, nonce: Nonce)
        requires
            old(self).wf(),
        ensures
            final(self).wf(),
            final(self)@ == old(self)@.insert(address, nonce),
    {
        let ghost old_entries = self.entries@;
        match self.find(address) {
            Some(i) => {
                self.entries.set(i, (address, nonce));
                self.map = Ghost(self.map@.insert(address, nonce));
                assert forall|k: ContractAddress| #[trigger] self.map@.contains_key(k) implies exists|j: int|
                    0 <= j < self.entries@.len() && self.entries@[j].0 == k by {
                    if k != address {
                        let j = choose|j: int| 0 <= j < old_entries.len() && old_entries[j].0 == k;
                        assert(self.entries@[j].0 == k);
                    } else {
                        assert(self.entries@[i as int].0 == k);
                    }
                }
            },
            None => {
                self.entries.push((address, nonce));
                self.map = Ghost(self.map@.insert(address, nonce));
                assert forall|k: ContractAddress| #[trigger] self.map@.contains_key(k) implies exists|j: int|
                    0 <= j < self.entries@.len() && self.entries@[j].0 == k by {
                    if k != address {
                        let j = choose|j: int| 0 <= j < old_entries.len() && old_entries[j].0 == k;
                        assert(self.entries@[j].0 == k);
                    } else {
                        assert(self.entries@[old_entries.len() as int].0 == k);
                    }
                }
            },
        }
    }

    pub fn clear(&mut self)
        ensures
            final(self).wf(),
            final(self)@ == Map::<ContractAddress, Nonce>::empty(),
    {
        self.entries.clear();
        self.map = Ghost(Map::empty());
    }

    /// The addresses of the map, each once.
    pub fn keys(&self) -> (r: Vec<ContractAddress>)
        requires
            self.wf(),
        ensures
            forall|a: ContractAddress| self@.contains_key(a) <==> r@.contains(a),
    {
        let mut r: Vec<ContractAddress> = Vec::new();
        let mut i: usize = 0;
        while i < self.entries.len()
            invariant
                self.wf(),
                i <= self.entries@.len(),
                r@.len() == i,
                forall|k: int| 0 <= k < i ==> r@[k] == self.entries@[k].0,
            decreases self.entries@.len() - i,
        {
            r.push(self.entries[i].0);
            i = i + 1;
        }
        assert forall|a: ContractAddress| self@.contains_key(a) <==> r@.contains(a) by {
            if self@.contains_key(a) {
                let j = choose|j: int| 0 <= j < self.entries@.len() && self.entries@[j].0 == a;
                assert(r@[j] == a);
            }
            if r@.contains(a) {
                let j = choose|j: int| 0 <= j < r@.len() && r@[j] == a;
                assert(self.map@.contains_key(self.entries@[j].0));
            }
        }
        r
    }
}

} // verus!
