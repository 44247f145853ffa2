//! A small association table from identifiers to values, backed by a vector
//! of key-value pairs with pairwise-distinct keys, and viewed as a
//! `Map<u64, V>`.

use vstd::prelude::*;

verus! {

/// The keys of a pair sequence, in storage order.
pub open spec fn keys_of<V>(pairs: Seq<(u64, V)>) -> Seq<u64> {
    pairs.map_values(|p: (u64, V)| p.0)
}

/// Does some pair carry the key `k`?
pub open spec fn has_key<V>(pairs: Seq<(u64, V)>, k: u64) -> bool {
    exists|j: int| 0 <= j < pairs.len() && pairs[j].0 == k
}

/// An index of a pair carrying the key `k`; with distinct keys it is the
/// only one.
pub open spec fn key_idx<V>(pairs: Seq<(u64, V)>, k: u64) -> int {
    choose|j: int| 0 <= j < pairs.len() && pairs[j].0 == k
}

/// The map described by a sequence of key-value pairs.
pub open spec fn map_of<V>(pairs: Seq<(u64, V)>) -> Map<u64, V> {
    Map::new(|k: u64| has_key(pairs, k), |k: u64| pairs[key_idx(pairs, k)].1)
}

/// With distinct keys, the pair at index `j` decides the map at its key.
pub proof fn lemma_map_of_index<V>(pairs: Seq<(u64, V)>, j: int)
    requires
        keys_of(pairs).no_duplicates(),
        0 <= j < pairs.len(),
    ensures
        map_of(pairs).contains_key(pairs[j].0),
        map_of(pairs)[pairs[j].0] == pairs[j].1,
{
    let k = pairs[j].0;
    assert(has_key(pairs, k));
    let j2 = key_idx(pairs, k);
    assert(0 <= j2 < pairs.len() && pairs[j2].0 == k);
    assert(keys_of(pairs)[j] == k && keys_of(pairs)[j2] == k);
    assert(j == j2);
}

/// With distinct keys, the map's domain is as large as the pair sequence.
pub proof fn lemma_map_of_dom_len<V>(pairs: Seq<(u64, V)>)
    requires
        keys_of(pairs).no_duplicates(),
    ensures
        map_of(pairs).dom().finite(),
        map_of(pairs).dom().len() == pairs.len(),
{
    broadcast use vstd::seq_lib::seq_to_set_is_finite;

    let ks = keys_of(pairs);
    assert forall|k: u64| map_of(pairs).dom().contains(k) implies ks.to_set().contains(k) by {
        let j = choose|j: int| 0 <= j < pairs.len() && pairs[j].0 == k;
        assert(ks[j] == k);
    };
    assert forall|k: u64| ks.to_set().contains(k) implies map_of(pairs).dom().contains(k) by {
        let j = choose|j: int| 0 <= j < ks.len() && ks[j] == k;
        assert(pairs[j].0 == k);
    };
    assert(map_of(pairs).dom() =~= ks.to_set());
    ks.unique_seq_to_set();
}

/// An association table from `u64` identifiers to values.
pub struct Table<V> {
    pairs: Vec<(u64, V)>,
}

impl<V> View for Table<V> {
    type V = Map<u64, V>;

    closed spec fn view(&self) -> Map<u64, V> {
        map_of(self.pairs@)
    }
}

impl<V> Table<V> {
    /// The pairs as stored, for iteration; the map view is `map_of` this.
    pub closed spec fn pair_seq(self) -> Seq<(u64, V)> {
        self.pairs@
    }

    /// Keys are pairwise distinct.
    pub closed spec fn wf(self) -> bool {
        keys_of(self.pairs@).no_duplicates()
    }

    /// What well-formedness means: the stored keys are pairwise distinct.
    pub proof fn lemma_wf(self)
        ensures
            self.wf() <==> keys_of(self.pair_seq()).no_duplicates(),
    {
    }

    /// The view is exactly `map_of` of the stored pairs.
    pub proof fn lemma_view(self)
        ensures
            self@ == map_of(self.pair_seq()),
    {
    }

    /// A key is in the view exactly when some stored pair carries it.
    pub proof fn lemma_key(self, k: u64)
        ensures
            self@.contains_key(k) <==> has_key(self.pair_seq(), k),
    {
    }

    /// Each stored pair decides the view at its key.
    pub proof fn lemma_pair(self, j: int)
        requires
            self.wf(),
            0 <= j < self.pair_seq().len(),
        ensures
            self@.contains_key(self.pair_seq()[j].0),
            self@[self.pair_seq()[j].0] == self.pair_seq()[j].1,
    {
        lemma_map_of_index(self.pairs@, j);
    }

    /// The view's domain is as large as the pair sequence.
    pub proof fn lemma_len(self)
        requires
            self.wf(),
        ensures
            self@.dom().finite(),
            self@.dom().len() == self.pair_seq().len(),
    {
        lemma_map_of_dom_len(self.pairs@);
    }

    pub fn new() -> (r: Table<V>)
        ensures
            r.wf(),
            r@ == Map::<u64, V>::empty(),
            r.pair_seq() == Seq::<(u64, V)>::empty(),
    {
        let r = Table { pairs: Vec::new() };
        proof {
            assert(r@ =~= Map::<u64, V>::empty());
        }
        r
    }

    pub fn len(&self) -> (n: usize)
        ensures
            n == self.pair_seq().len(),
    {
        self.pairs.len()
    }

    /// Borrow the pair at a storage index.
    pub fn borrow_at(&self, j: usize) -> (r: &(u64, V))
        requires
            j < self.pair_seq().len(),
        ensures
            *r == self.pair_seq()[j as int],
    {
        &self.pairs[j]
    }

    /// The storage index of the first pair carrying `k`, if any.
    fn position_of(&self, k: u64) -> (r: Option<usize>)
        ensures
            (match r {
                Some(j) => j < self.pairs@.len() && self.pairs@[j as int].0 == k && (forall|l: int|
                    0 <= l < j ==> self.pairs@[l].0 != k),
                None => forall|l: int| 0 <= l < self.pairs@.len() ==> self.pairs@[l].0 != k,
            }),
    {
        let mut j: usize = 0;
        while j < self.pairs.len()
            invariant
                j <= self.pairs@.len(),
                forall|l: int| 0 <= l < j ==> self.pairs@[l].0 != k,
            decreases self.pairs@.len() - j,
        {
            let p = &self.pairs[j];
            if p.0 == k {
                return Some(j);
            }
            j = j + 1;
        }
        None
    }

    pub fn contains_key(&self, k: u64) -> (r: bool)
        ensures
            r == self@.contains_key(k),
    {
        proof {
            self.lemma_key(k);
        }
        match self.position_of(k) {
            Some(_) => true,
            None => {
                proof {
                    assert(!has_key(self.pairs@, k));
                }
                false
            },
        }
    }

    /// Borrow the value stored under `k`, if any.
    pub fn get_ref(&self, k: u64) -> (r: Option<&V>)
        requires
            self.wf(),
        ensures
            (match r {
                Some(v) => self@.contains_key(k) && *v == self@[k],
                None => !self@.contains_key(k),
            }),
    {
        match self.position_of(k) {
            Some(j) => {
                proof {
                    lemma_map_of_index(self.pairs@, j as int);
                }
                let p = &self.pairs[j];
                Some(&p.1)
            },
            None => {
                proof {
                    assert(!has_key(self.pairs@, k));
                    self.lemma_key(k);
                }
                None
            },
        }
    }

    /// Append a pair whose key is not yet present.
    pub fn push_pair(&mut self, k: u64, v: V)
        requires
            old(self).wf(),
            !old(self)@.contains_key(k),
        ensures
            final(self).wf(),
            final(self)@ == old(self)@.insert(k, v),
            final(self).pair_seq() == old(self).pair_seq().push((k, v)),
    {
        proof {
            self.lemma_key(k);
        }
        let ghost s0 = self.pairs@;
        self.pairs.push((k, v));
        proof {
            let s2 = self.pairs@;
            let n = s0.len() as int;
            assert(!has_key(s0, k));
            assert forall|l: int| 0 <= l < n implies s0[l].0 != k by {
                assert(!(0 <= l < s0.len() && s0[l].0 == k));
            };
            // keys stay pairwise distinct
            assert forall|a: int, b: int|
                0 <= a < b < keys_of(s2).len() implies keys_of(s2)[a] != keys_of(s2)[b] by {
                assert(keys_of(s2)[a] == s2[a].0 && keys_of(s2)[b] == s2[b].0);
                if b == n {
                    assert(s2[a] == s0[a] && s2[b] == (k, v));
                } else {
                    assert(s2[a] == s0[a] && s2[b] == s0[b]);
                    assert(keys_of(s0)[a] != keys_of(s0)[b]);
                }
            };
            // the new map is the old one plus (k, v)
            assert forall|k2: u64| has_key(s2, k2) implies (k2 == k || has_key(s0, k2)) by {
                let w = choose|j: int| 0 <= j < s2.len() && s2[j].0 == k2;
                if w < n {
                    assert(s0[w].0 == k2);
                }
            };
            assert forall|k2: u64| has_key(s0, k2) implies has_key(s2, k2) by {
                let w = choose|j: int| 0 <= j < s0.len() && s0[j].0 == k2;
                assert(s2[w].0 == k2);
            };
            assert(s2[n].0 == k);
            assert forall|k2: u64| has_key(s2, k2) implies map_of(s2)[k2] == (if k2 == k {
                v
            } else {
                map_of(s0)[k2]
            }) by {
                let w = key_idx(s2, k2);
                assert(0 <= w < s2.len() && s2[w].0 == k2);
                if k2 == k {
                    if w < n {
                        assert(s0[w].0 == k);
                        assert(false);
                    }
                    assert(map_of(s2)[k2] == s2[n].1);
                } else {
                    assert(w < n);
                    assert(s2[w] == s0[w]);
                    lemma_map_of_index(s0, w);
                    lemma_map_of_index(s2, w);
                }
            };
            assert(map_of(s2) =~= map_of(s0).insert(k, v));
        }
    }

    /// Remove the pair stored under `k`, if any.
    pub fn remove(&mut self, k: u64)
        requires
            old(self).wf(),
        ensures
            final(self).wf(),
            final(self)@ == old(self)@.remove(k),
    {
        let pos = self.position_of(k);
        match pos {
            Some(j) => {
                let ghost s0 = self.pairs@;
                let ghost n = s0.len() as int;
                proof {
                    // j is the only index carrying k
                    assert forall|l: int| 0 <= l < n && l != j implies s0[l].0 != k by {
                        if s0[l].0 == k {
                            assert(keys_of(s0)[l] == k && keys_of(s0)[j as int] == k);
                        }
                    };
                }
                let _ = self.pairs.swap_remove(j);
                proof {
                    let s1 = self.pairs@;
                    assert(s1.len() == n - 1);
                    assert forall|l: int| 0 <= l < n - 1 implies s1[l] == (if l == j {
                        s0[n - 1]
                    } else {
                        s0[l]
                    }) by {
                        assert(s1[l] == s0.update(j as int, s0.last())[l]);
                    };
                    assert forall|a: int, b: int|
                        0 <= a < b < keys_of(s1).len() implies keys_of(s1)[a] != keys_of(s1)[b] by {
                        assert(keys_of(s1)[a] == s1[a].0 && keys_of(s1)[b] == s1[b].0);
                        let a0: int = if a == j { n - 1 } else { a };
                        let b0: int = if b == j { n - 1 } else { b };
                        assert(s1[a] == s0[a0] && s1[b] == s0[b0]);
                        assert(a0 != b0);
                        assert(keys_of(s0)[a0] != keys_of(s0)[b0]);
                    };
                    assert forall|k2: u64| has_key(s1, k2) implies (has_key(s0, k2) && k2 != k) by {
                        let w = choose|l: int| 0 <= l < s1.len() && s1[l].0 == k2;
                        let w0: int = if w == j { n - 1 } else { w };
                        assert(s0[w0].0 == k2);
                        assert(w0 != j);
                    };
                    assert forall|k2: u64| has_key(s0, k2) && k2 != k implies has_key(s1, k2) by {
                        let w = choose|l: int| 0 <= l < s0.len() && s0[l].0 == k2;
                        assert(w != j);
                        if w == n - 1 {
                            assert(j < n - 1);
                            assert(s1[j as int].0 == k2);
                        } else {
                            assert(s1[w].0 == k2);
                        }
                    };
                    assert forall|k2: u64| has_key(s1, k2) implies map_of(s1)[k2] == map_of(s0)[k2]
                        by {
                        let w = key_idx(s1, k2);
                        assert(0 <= w < s1.len() && s1[w].0 == k2);
                        let w0: int = if w == j { n - 1 } else { w };
                        assert(s1[w] == s0[w0]);
                        lemma_map_of_index(s0, w0);
                        lemma_map_of_index(s1, w);
                    };
                    assert(map_of(s1) =~= map_of(s0).remove(k));
                }
            },
            None => {
                proof {
                    assert(!has_key(self.pairs@, k));
                    self.lemma_key(k);
                    assert(self@ =~= self@.remove(k));
                }
            },
        }
    }

    /// Insert `v` under `k`, replacing any value already stored there.
    pub fn insert(&mut self, k: u64, v: V)
        requires
            old(self).wf(),
        ensures
            final(self).wf(),
            final(self)@ == old(self)@.insert(k, v),
    {
        self.remove(k);
        self.push_pair(k, v);
        proof {
            assert(old(self)@.remove(k).insert(k, v) =~= old(self)@.insert(k, v));
        }
    }
}

impl<V: Copy> Table<V> {
    /// The value stored under `k`, if any.
    pub fn get_copy(&self, k: u64) -> (r: Option<V>)
        requires
            self.wf(),
        ensures
            r == (if self@.contains_key(k) {
                Some(self@[k])
            } else {
                None::<V>
            }),
    {
        match self.get_ref(k) {
            Some(v) => Some(*v),
            None => None,
        }
    }

    /// A fresh table with the same pairs.
    pub fn duplicate(&self) -> (r: Table<V>)
        requires
            self.wf(),
        ensures
            r.wf(),
            r@ == self@,
            r.pair_seq() == self.pair_seq(),
    {
        let mut pairs: Vec<(u64, V)> = Vec::new();
        let mut j: usize = 0;
        while j < self.pairs.len()
            invariant
                j <= self.pairs@.len(),
                pairs@ == self.pairs@.subrange(0, j as int),
            decreases self.pairs@.len() - j,
        {
            let p = &self.pairs[j];
            pairs.push(*p);
            proof {
                assert(pairs@ =~= self.pairs@.subrange(0, j + 1 as int));
            }
            j = j + 1;
        }
        proof {
            assert(pairs@ =~= self.pairs@);
        }
        Table { pairs }
    }
}

} // verus!
