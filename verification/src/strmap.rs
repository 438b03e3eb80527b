use vstd::prelude::*;

verus! {

/// A map from strings to strings, kept as a list of pairs with distinct
/// keys.
pub struct StrMap {
    entries: Vec<(String, String)>,
}

/// The pairs as a map, a later pair for a key winning.
pub open spec fn entries_map(e: Seq<(String, String)>) -> Map<Seq<char>, Seq<char>>
    decreases e.len(),
{
    if e.len() == 0 {
        Map::empty()
    } else {
        entries_map(e.drop_last()).insert(e.last().0@, e.last().1@)
    }
}

/// No key occurs twice.
pub open spec fn keys_distinct(e: Seq<(String, String)>) -> bool {
    forall|i: int, j: int| 0 <= i < j < e.len() ==> e[i].0@ != e[j].0@
}

/// What the pairs say of their map, keys distinct: each pair's key maps to
/// its value, every key comes from a pair, and there are as many keys as
/// pairs.
pub proof fn lemma_entries_map(e: Seq<(String, String)>)
    requires
        keys_distinct(e),
    ensures
        forall|i: int| 0 <= i < e.len() ==> #[trigger] entries_map(e).contains_key(e[i].0@)
            && entries_map(e)[e[i].0@] == e[i].1@,
        forall|k: Seq<char>| #[trigger] entries_map(e).contains_key(k) ==> exists|i: int| 0 <= i < e.len() && e[i].0@ == k,
        entries_map(e).dom().len() == e.len(),
        entries_map(e).dom().finite(),
    decreases e.len(),
{
    if e.len() > 0 {
        let w = e.drop_last();
        assert(keys_distinct(w));
        lemma_entries_map(w);
        assert forall|i: int| 0 <= i < e.len() implies #[trigger] entries_map(e).contains_key(e[i].0@)
            && entries_map(e)[e[i].0@] == e[i].1@ by {
            if i < e.len() - 1 {
                assert(w[i] == e[i]);
                assert(entries_map(w).contains_key(w[i].0@));
            }
        }
        assert forall|k: Seq<char>| #[trigger] entries_map(e).contains_key(k) implies exists|i: int| 0 <= i < e.len() && e[i].0@ == k by {
            if k != e.last().0@ {
                let i = choose|i: int| 0 <= i < w.len() && w[i].0@ == k;
                assert(e[i] == w[i]);
            } else {
                assert(e[e.len() - 1].0@ == k);
            }
        }
        if entries_map(w).contains_key(e.last().0@) {
            let i = choose|i: int| 0 <= i < w.len() && w[i].0@ == e.last().0@;
            assert(e[i].0@ != e[e.len() - 1].0@);
        }
    }
}

impl StrMap {
    pub closed spec fn view(&self) -> Map<Seq<char>, Seq<char>> {
        entries_map(self.entries@)
    }

    /// The pairs, in the order their keys were first set.
    pub closed spec fn pair_seq(&self) -> Seq<(String, String)> {
        self.entries@
    }

    pub closed spec fn wf(&self) -> bool {
        keys_distinct(self.entries@)
    }

    /// An empty map.
    pub fn new() -> (t: Self)
        ensures
            t.wf(),
            t.view() == Map::<Seq<char>, Seq<char>>::empty(),
    {
        StrMap { entries: Vec::new() }
    }

    /// The value of `key`, if any.
    pub fn get(&self, key: &str) -> (r: Option<String>)
        requires
            self.wf(),
        ensures
            match r {
                Some(t) => self.view().contains_key(key@) && self.view()[key@] == t@,
                None => !self.view().contains_key(key@),
            },
    {
        proof {
            lemma_entries_map(self.entries@);
        }
        let k = key.to_owned();
        let mut i: usize = 0;
        while i < self.entries.len()
            invariant
                i <= self.entries@.len(),
                self.wf(),
                k@ == key@,
                forall|j: int| 0 <= j < i ==> self.entries@[j].0@ != key@,
            decreases self.entries@.len() - i,
        {
            if self.entries[i].0 == k {
                proof {
                    lemma_entries_map(self.entries@);
                    assert(entries_map(self.entries@).contains_key(self.entries@[i as int].0@));
                }
                return Some(self.entries[i].1.clone());
            }
            i += 1;
        }
        None
    }

    /// Sets `key` to `target`, replacing an earlier value.
    pub fn insert(&mut self, key: String, target: String)
        requires
            old(self).wf(),
        ensures
            final(self).wf(),
            final(self).view() == old(self).view().insert(key@, target@),
    {
        proof {
            lemma_entries_map(self.entries@);
        }
        let mut i: usize = 0;
        while i < self.entries.len()
            invariant
                i <= self.entries@.len(),
                self.entries@ == old(self).entries@,
                keys_distinct(self.entries@),
                forall|j: int| 0 <= j < i ==> self.entries@[j].0@ != key@,
            decreases self.entries@.len() - i,
        {
            if self.entries[i].0 == key {
                let ghost before = self.entries@;
                self.entries.set(i, (key, target));
                proof {
                    let e = self.entries@;
                    assert(keys_distinct(e)) by {
                        assert forall|a: int, b: int| 0 <= a < b < e.len() implies e[a].0@ != e[b].0@ by {
                            assert(before[a].0@ != before[b].0@);
                        }
                    }
                    lemma_entries_map(e);
                    lemma_entries_map(before);
                    assert(entries_map(e) =~= entries_map(before).insert(key@, target@)) by {
                        assert forall|k: Seq<char>| #[trigger] entries_map(e).contains_key(k) <==> entries_map(before).insert(key@, target@).contains_key(k) by {
                            if entries_map(e).contains_key(k) {
                                let m = choose|m: int| 0 <= m < e.len() && e[m].0@ == k;
                                if m != i {
                                    assert(before[m] == e[m]);
                                }
                            }
                            if entries_map(before).contains_key(k) {
                                let m = choose|m: int| 0 <= m < before.len() && before[m].0@ == k;
                                if m != i {
                                    assert(before[m] == e[m]);
                                }
                                assert(entries_map(e).contains_key(e[m].0@));
                            }
                        }
                        assert forall|k: Seq<char>| #[trigger] entries_map(e).contains_key(k) implies entries_map(e)[k] == entries_map(before).insert(key@, target@)[k] by {
                            let m = choose|m: int| 0 <= m < e.len() && e[m].0@ == k;
                            if m != i {
                                assert(before[m] == e[m]);
                            }
                        }
                    }
                }
                return;
            }
            i += 1;
        }
        let ghost before = self.entries@;
        self.entries.push((key, target));
        proof {
            assert(self.entries@.drop_last() =~= before);
            assert forall|a: int, b: int| 0 <= a < b < self.entries@.len() implies self.entries@[a].0@ != self.entries@[b].0@ by {
                if b < before.len() {
                    assert(before[a].0@ != before[b].0@);
                }
            }
        }
    }

    /// The map is that of the pairs, whose keys are distinct.
    pub proof fn lemma_pairs(&self)
        requires
            self.wf(),
        ensures
            self.view() == entries_map(self.pair_seq()),
            keys_distinct(self.pair_seq()),
    {
    }

    /// The pairs, keys distinct, in the order they were first set.
    pub fn pairs(&self) -> (r: &Vec<(String, String)>)
        requires
            self.wf(),
        ensures
            r@ == self.pair_seq(),
            entries_map(r@) == self.view(),
            keys_distinct(r@),
    {
        &self.entries
    }

    /// The number of keys.
    pub fn len(&self) -> (n: usize)
        requires
            self.wf(),
        ensures
            n == self.view().dom().len(),
    {
        proof {
            lemma_entries_map(self.entries@);
        }
        self.entries.len()
    }
}

} // verus!
