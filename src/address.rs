use vstd::prelude::*;

verus! {

/// A 32-byte account address, held as its two big-endian halves.
#[derive(Clone, Copy, Debug, PartialEq, Eq, Hash, Structural)]
pub struct AccountAddress {
    pub high: u128,
    pub low: u128,
}

impl AccountAddress {
    pub fn new(high: u128, low: u128) -> (r: AccountAddress)
        ensures
            r.high == high,
            r.low == low,
    {
        AccountAddress { high, low }
    }
}

/// The map that a list of pairs describes, a later pair for an address
/// replacing an earlier one.
pub open spec fn pairs_to_map<V>(pairs: Seq<(AccountAddress, V)>) -> Map<AccountAddress, V>
    decreases pairs.len(),
{
    if pairs.len() == 0 {
        Map::empty()
    } else {
        pairs_to_map(pairs.drop_last()).insert(pairs.last().0, pairs.last().1)
    }
}

/// The addresses of a list of pairs, in order.
pub open spec fn pair_addresses<V>(pairs: Seq<(AccountAddress, V)>) -> Seq<AccountAddress> {
    pairs.map_values(|p: (AccountAddress, V)| p.0)
}

/// The map of a list of pairs is finite and has at most one key per pair,
/// exactly one when no address repeats.
pub proof fn lemma_pairs_to_map_len<V>(pairs: Seq<(AccountAddress, V)>)
    ensures
        pairs_to_map(pairs).dom().finite(),
        pairs_to_map(pairs).dom().len() <= pairs.len(),
        pairs_to_map(pairs).dom() == pair_addresses(pairs).to_set(),
        pair_addresses(pairs).no_duplicates() ==> pairs_to_map(pairs).dom().len() == pairs.len(),
    decreases pairs.len(),
{
    if pairs.len() > 0 {
        let init = pairs.drop_last();
        lemma_pairs_to_map_len(init);
        assert(pair_addresses(init) =~= pair_addresses(pairs).drop_last());
        assert(pairs_to_map(pairs).dom() =~= pair_addresses(pairs).to_set()) by {
            assert forall|a: AccountAddress|
                pair_addresses(pairs).contains(a) implies pairs_to_map(pairs).dom().contains(
                a,
            ) by {
                let i = choose|i: int| 0 <= i < pairs.len() && pair_addresses(pairs)[i] == a;
                if i < pairs.len() - 1 {
                    assert(pair_addresses(init)[i] == a);
                }
            }
            assert forall|a: AccountAddress|
                pairs_to_map(pairs).dom().contains(a) implies pair_addresses(pairs).contains(
                a,
            ) by {
                if a != pairs.last().0 {
                    let i = choose|i: int| 0 <= i < init.len() && pair_addresses(init)[i] == a;
                    assert(pair_addresses(pairs)[i] == a);
                } else {
                    assert(pair_addresses(pairs)[pairs.len() - 1] == a);
                }
            }
        }
        if pair_addresses(pairs).no_duplicates() {
            assert(!pair_addresses(init).contains(pairs.last().0)) by {
                if pair_addresses(init).contains(pairs.last().0) {
                    let i = choose|i: int|
                        0 <= i < init.len() && pair_addresses(init)[i] == pairs.last().0;
                    assert(pair_addresses(pairs)[i] == pair_addresses(pairs)[pairs.len() - 1]);
                }
            }
        }
    } else {
        assert(pairs_to_map(pairs).dom() =~= pair_addresses(pairs).to_set());
    }
}

proof fn lemma_index_of_unique(s: Seq<AccountAddress>, i: int)
    requires
        s.no_duplicates(),
        0 <= i < s.len(),
    ensures
        s.contains(s[i]),
        s.index_of(s[i]) == i,
{
    assert(s.contains(s[i]));
}

/// A finite map keyed by account address, kept as a list of entries with
/// distinct addresses.
pub struct AddressMap<V> {
    entries: Vec<(AccountAddress, V)>,
}

impl<V> View for AddressMap<V> {
    type V = Map<AccountAddress, V>;

    closed spec fn view(&self) -> Map<AccountAddress, V> {
        Map::new(
            |k: AccountAddress| self.key_seq().contains(k),
            |k: AccountAddress| self.entries@[self.key_seq().index_of(k)].1,
        )
    }
}

impl<V> AddressMap<V> {
    closed spec fn key_seq(&self) -> Seq<AccountAddress> {
        self.entries@.map_values(|e: (AccountAddress, V)| e.0)
    }

    /// Each address occurs in at most one entry.
    pub closed spec fn wf(&self) -> bool {
        self.key_seq().no_duplicates()
    }

    proof fn lemma_entry(&self, i: int)
        requires
            self.wf(),
            0 <= i < self.entries@.len(),
        ensures
            self@.contains_key(self.entries@[i].0),
            self@[self.entries@[i].0] == self.entries@[i].1,
    {
        lemma_index_of_unique(self.key_seq(), i);
    }

    proof fn lemma_dom(&self)
        requires
            self.wf(),
        ensures
            self@.dom() == self.key_seq().to_set(),
            self@.dom().finite(),
            self@.dom().len() == self.entries@.len(),
    {
        assert(self@.dom() =~= self.key_seq().to_set());
        self.key_seq().unique_seq_to_set();
    }

    pub fn new() -> (r: AddressMap<V>)
        ensures
            r.wf(),
            r@ == Map::<AccountAddress, V>::empty(),
    {
        let r = AddressMap { entries: Vec::new() };
        assert(r@ =~= Map::<AccountAddress, V>::empty());
        r
    }

    /// The number of addresses in the map.
    pub fn len(&self) -> (r: usize)
        requires
            self.wf(),
        ensures
            r == self@.len(),
            self@.dom().finite(),
    {
        proof {
            self.lemma_dom();
        }
        self.entries.len()
    }

    fn find(&self, k: &AccountAddress) -> (r: Option<usize>)
        requires
            self.wf(),
        ensures
            match r {
                Some(i) => i < self.entries@.len() && self.entries@[i as int].0 == *k,
                None => !self@.contains_key(*k),
            },
    {
        let mut i: usize = 0;
        while i < self.entries.len()
            invariant
                i <= self.entries@.len(),
                forall|j: int| 0 <= j < i ==> (#[trigger] self.entries@[j]).0 != *k,
            decreases self.entries@.len() - i,
        {
            if self.entries[i].0 == *k {
                return Some(i);
            }
            i = i + 1;
        }
        assert(!self.key_seq().contains(*k));
        None
    }

    pub fn contains_key(&self, k: &AccountAddress) -> (r: bool)
        requires
            self.wf(),
        ensures
            r == self@.contains_key(*k),
    {
        match self.find(k) {
            Some(i) => {
                proof {
                    self.lemma_entry(i as int);
                }
                true
            },
            None => false,
        }
    }

    /// The addresses of the map, each once.
    pub fn keys(&self) -> (r: Vec<AccountAddress>)
        requires
            self.wf(),
        ensures
            r@.no_duplicates(),
            r@.to_set() == self@.dom(),
            r@.len() == self@.len(),
    {
        let mut r: Vec<AccountAddress> = Vec::new();
        let mut i: usize = 0;
        while i < self.entries.len()
            invariant
                i <= self.entries@.len(),
                r@ == self.key_seq().subrange(0, i as int),
            decreases self.entries@.len() - i,
        {
            r.push(self.entries[i].0);
            i = i + 1;
            assert(r@ =~= self.key_seq().subrange(0, i as int));
        }
        proof {
            assert(r@ =~= self.key_seq());
            self.lemma_dom();
        }
        r
    }

    /// Set the value of `k`, adding it if it is absent.
    pub fn insert(&mut self, k: AccountAddress, v: V)
        requires
            old(self).wf(),
        ensures
            final(self).wf(),
            final(self)@ == old(self)@.insert(k, v),
    {
        let ghost before = *self;
        match self.find(&k) {
            Some(i) => {
                self.entries.set(i, (k, v));
                proof {
                    assert(self.key_seq() =~= before.key_seq());
                    assert(before.key_seq()[i as int] == k);
                    assert(self@.dom() =~= before@.insert(k, v).dom());
                    assert forall|a: AccountAddress| #[trigger]
                        self@.contains_key(a) implies self@[a] == before@.insert(k, v)[a] by {
                        let j = self.key_seq().index_of(a);
                        if a != k {
                            assert(j != i);
                        } else {
                            lemma_index_of_unique(self.key_seq(), i as int);
                        }
                    }
                    assert(self@ =~= before@.insert(k, v));
                }
            },
            None => {
                self.entries.push((k, v));
                proof {
                    assert(self.key_seq() =~= before.key_seq().push(k));
                    assert(self.wf());
                    assert forall|a: AccountAddress|
                        before@.insert(k, v).contains_key(a) implies self@.contains_key(a) by {
                        if a != k {
                            let j = choose|j: int|
                                0 <= j < before.key_seq().len() && before.key_seq()[j] == a;
                            assert(self.key_seq()[j] == a);
                        } else {
                            assert(self.key_seq()[before.entries@.len() as int] == k);
                        }
                    }
                    assert forall|a: AccountAddress| #[trigger]
                        self@.contains_key(a) implies self@[a] == before@.insert(k, v)[a] by {
                        if a != k {
                            let j = choose|j: int|
                                0 <= j < self.key_seq().len() && self.key_seq()[j] == a;
                            assert(j < before.entries@.len());
                            lemma_index_of_unique(self.key_seq(), j);
                            lemma_index_of_unique(before.key_seq(), j);
                        } else {
                            lemma_index_of_unique(self.key_seq(), before.entries@.len() as int);
                        }
                    }
                    assert forall|a: AccountAddress|
                        self@.contains_key(a) implies before@.insert(k, v).contains_key(a) by {
                        let j = choose|j: int|
                            0 <= j < self.key_seq().len() && self.key_seq()[j] == a;
                        if j < before.entries@.len() {
                            assert(before.key_seq()[j] == a);
                        }
                    }
                    assert(self@ =~= before@.insert(k, v));
                }
            },
        }
    }

    /// Take `k` out of the map, if it is there.
    pub fn remove(&mut self, k: &AccountAddress)
        requires
            old(self).wf(),
        ensures
            final(self).wf(),
            final(self)@ == old(self)@.remove(*k),
    {
        let ghost before = *self;
        match self.find(k) {
            Some(i) => {
                self.entries.remove(i);
                proof {
                    let ks = self.key_seq();
                    let old_ks = before.key_seq();
                    assert(ks =~= old_ks.remove(i as int));
                    assert forall|a: int, b: int|
                        0 <= a < ks.len() && 0 <= b < ks.len() && a != b implies ks[a]
                        != ks[b] by {
                        let oa = if a < i {
                            a
                        } else {
                            a + 1
                        };
                        let ob = if b < i {
                            b
                        } else {
                            b + 1
                        };
                        assert(ks[a] == old_ks[oa]);
                        assert(ks[b] == old_ks[ob]);
                    }
                    assert(self.wf());
                    assert forall|a: AccountAddress|
                        before@.remove(*k).contains_key(a) implies self@.contains_key(a)
                        && self@[a] == before@.remove(*k)[a] by {
                        let p = old_ks.index_of(a);
                        lemma_index_of_unique(old_ks, i as int);
                        assert(p != i);
                        let q = if p < i {
                            p
                        } else {
                            p - 1
                        };
                        assert(ks[q] == a);
                        lemma_index_of_unique(ks, q);
                    }
                    assert forall|a: AccountAddress|
                        self@.contains_key(a) implies before@.remove(*k).contains_key(a) by {
                        let q = choose|q: int| 0 <= q < ks.len() && ks[q] == a;
                        let p = if q < i {
                            q
                        } else {
                            q + 1
                        };
                        assert(old_ks[p] == a);
                        assert(old_ks[i as int] == *k);
                        assert(p != i);
                        assert(a != *k);
                        assert(old_ks.contains(a));
                        assert(before@.contains_key(a));
                    }
                    assert forall|a: AccountAddress|
                        #[trigger] self@.dom().contains(a) <==> before@.remove(*k).dom().contains(
                            a,
                        ) by {
                        if self@.contains_key(a) {
                            assert(before@.remove(*k).contains_key(a));
                        }
                        if before@.remove(*k).contains_key(a) {
                            let p = old_ks.index_of(a);
                            lemma_index_of_unique(old_ks, i as int);
                            let q = if p < i {
                                p
                            } else {
                                p - 1
                            };
                            assert(ks[q] == a);
                        }
                    }
                    assert(self@.dom() =~= before@.remove(*k).dom());
                    assert(self@ =~= before@.remove(*k));
                }
            },
            None => {
                assert(before@.remove(*k) =~= before@);
            },
        }
    }
}

impl<V: Copy> AddressMap<V> {
    /// The value of `k`, if the map holds it.
    pub fn get(&self, k: &AccountAddress) -> (r: Option<V>)
        requires
            self.wf(),
        ensures
            r == if self@.contains_key(*k) {
                Some(self@[*k])
            } else {
                None
            },
    {
        match self.find(k) {
            Some(i) => {
                proof {
                    self.lemma_entry(i as int);
                }
                Some(self.entries[i].1)
            },
            None => None,
        }
    }

    /// The map of a list of pairs; where an address repeats, its last value wins.
    pub fn from_pairs(pairs: &[(AccountAddress, V)]) -> (r: AddressMap<V>)
        ensures
            r.wf(),
            r@ == pairs_to_map(pairs@),
    {
        let mut r = AddressMap::new();
        let mut i: usize = 0;
        while i < pairs.len()
            invariant
                i <= pairs@.len(),
                r.wf(),
                r@ == pairs_to_map(pairs@.subrange(0, i as int)),
            decreases pairs@.len() - i,
        {
            let p = pairs[i];
            r.insert(p.0, p.1);
            proof {
                let s = pairs@.subrange(0, i as int + 1);
                assert(s.drop_last() =~= pairs@.subrange(0, i as int));
            }
            i = i + 1;
        }
        assert(pairs@.subrange(0, pairs@.len() as int) =~= pairs@);
        r
    }
}

} // verus!
