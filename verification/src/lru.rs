use vstd::prelude::*;

verus! {

/// One cached value with the time (in milliseconds of a monotonic clock)
/// from which on it counts as expired.
pub struct CacheEntry<V> {
    pub key: String,
    pub value: V,
    pub expires_at: u64,
}

/// The abstract content of one entry: its key, value and expiry time.
pub struct Slot<V> {
    pub key: Seq<char>,
    pub value: V,
    pub expires_at: u64,
}

impl<V> CacheEntry<V> {
    pub open spec fn slot(&self) -> Slot<V> {
        Slot { key: self.key@, value: self.value, expires_at: self.expires_at }
    }

    /// An entry for `value` that expires `ttl` milliseconds after `now`.
    pub fn new(key: String, value: V, ttl: u64, now: u64) -> (e: Self)
        requires
            now + ttl <= u64::MAX,
        ensures
            e.key == key,
            e.value == value,
            e.expires_at == now + ttl,
    {
        CacheEntry { key, value, expires_at: now + ttl }
    }

    /// Whether the entry has expired at time `now`.
    pub fn is_expired(&self, now: u64) -> (b: bool)
        ensures
            b == (now >= self.expires_at),
    {
        now >= self.expires_at
    }
}

/// Entries ordered from most to least recently used.
pub open spec fn slots_of<V>(entries: Seq<CacheEntry<V>>) -> Seq<Slot<V>> {
    entries.map_values(|e: CacheEntry<V>| e.slot())
}

/// The position of `key` among the slots, if present.
pub open spec fn slot_index<V>(s: Seq<Slot<V>>, key: Seq<char>) -> Option<int>
    decreases s.len(),
{
    if s.len() == 0 {
        None
    } else if s.last().key == key {
        Some(s.len() - 1)
    } else {
        slot_index(s.drop_last(), key)
    }
}

/// No key occurs twice.
pub open spec fn keys_unique<V>(s: Seq<Slot<V>>) -> bool {
    forall|i: int, j: int| 0 <= i < j < s.len() ==> s[i].key != s[j].key
}

/// The slots without the one for `key` (if any).
pub open spec fn without_key<V>(s: Seq<Slot<V>>, key: Seq<char>) -> Seq<Slot<V>> {
    match slot_index(s, key) {
        Some(i) => s.remove(i),
        None => s,
    }
}

/// The slots after `put`: `key` is removed, the least recently used slots
/// are dropped until there is room, and the new slot goes to the front.
pub open spec fn slots_after_put<V>(s: Seq<Slot<V>>, cap: nat, new_slot: Slot<V>) -> Seq<Slot<V>> {
    let base = without_key(s, new_slot.key);
    let kept = if base.len() >= cap { base.take(cap - 1) } else { base };
    seq![new_slot] + kept
}

/// The value stored for `key`, if any (expired or not).
pub open spec fn lookup<V>(s: Seq<Slot<V>>, key: Seq<char>) -> Option<V> {
    match slot_index(s, key) {
        Some(i) => Some(s[i].value),
        None => None,
    }
}

pub proof fn lemma_slot_index<V>(s: Seq<Slot<V>>, key: Seq<char>)
    ensures
        match slot_index(s, key) {
            Some(i) => 0 <= i < s.len() && s[i].key == key,
            None => forall|j: int| 0 <= j < s.len() ==> s[j].key != key,
        },
    decreases s.len(),
{
    if s.len() > 0 {
        lemma_slot_index(s.drop_last(), key);
        assert(forall|j: int| 0 <= j < s.len() - 1 ==> s.drop_last()[j] == s[j]);
    }
}

pub proof fn lemma_slot_index_unique<V>(s: Seq<Slot<V>>, key: Seq<char>, i: int)
    requires
        keys_unique(s),
        0 <= i < s.len(),
        s[i].key == key,
    ensures
        slot_index(s, key) == Some(i),
{
    lemma_slot_index(s, key);
    if let Some(j) = slot_index(s, key) {
        if j != i {
            if i < j {
                assert(s[i].key != s[j].key);
            } else {
                assert(s[j].key != s[i].key);
            }
        }
    }
}

proof fn lemma_without_key<V>(s: Seq<Slot<V>>, key: Seq<char>)
    requires
        keys_unique(s),
    ensures
        keys_unique(without_key(s, key)),
        forall|j: int| 0 <= j < without_key(s, key).len() ==> #[trigger] without_key(s, key)[j].key != key,
{
    lemma_slot_index(s, key);
    let w = without_key(s, key);
    match slot_index(s, key) {
        Some(i) => {
            assert forall|j: int| 0 <= j < w.len() implies #[trigger] w[j].key != key by {
                if j < i {
                    assert(w[j] == s[j]);
                } else {
                    assert(w[j] == s[j + 1]);
                }
            }
            assert forall|a: int, b: int| 0 <= a < b < w.len() implies w[a].key != w[b].key by {
                let a2 = if a < i { a } else { a + 1 };
                let b2 = if b < i { b } else { b + 1 };
                assert(w[a] == s[a2]);
                assert(w[b] == s[b2]);
            }
        },
        None => {},
    }
}

/// Every slot after a `put` is the new one (in front) or one of the
/// slots before it.
pub proof fn lemma_put_keeps<V>(s: Seq<Slot<V>>, cap: nat, new_slot: Slot<V>)
    requires
        cap > 0,
    ensures
        slots_after_put(s, cap, new_slot)[0] == new_slot,
        forall|i: int| 0 < i < slots_after_put(s, cap, new_slot).len() ==> exists|j: int|
            0 <= j < s.len() && s[j] == #[trigger] slots_after_put(s, cap, new_slot)[i],
{
    let r = slots_after_put(s, cap, new_slot);
    let base = without_key(s, new_slot.key);
    lemma_slot_index(s, new_slot.key);
    assert forall|i: int| 0 < i < r.len() implies exists|j: int| 0 <= j < s.len() && s[j] == #[trigger] r[i] by {
        assert(r[i] == base[i - 1]);
        match slot_index(s, new_slot.key) {
            Some(k) => {
                if i - 1 < k {
                    assert(s[i - 1] == r[i]);
                } else {
                    assert(s[i] == r[i]);
                }
            },
            None => {
                assert(s[i - 1] == r[i]);
            },
        }
    }
}

/// Right after a value is put, the cache holds it for its key, as its most
/// recently used entry; no key occurs twice.
pub proof fn lemma_put_then_lookup<V>(s: Seq<Slot<V>>, cap: nat, new_slot: Slot<V>)
    requires
        keys_unique(s),
        cap > 0,
    ensures
        keys_unique(slots_after_put(s, cap, new_slot)),
        slot_index(slots_after_put(s, cap, new_slot), new_slot.key) == Some(0int),
        lookup(slots_after_put(s, cap, new_slot), new_slot.key) == Some(new_slot.value),
        slots_after_put(s, cap, new_slot).len() <= cap,
{
    let r = slots_after_put(s, cap, new_slot);
    let base = without_key(s, new_slot.key);
    lemma_without_key(s, new_slot.key);
    assert forall|i: int, j: int| 0 <= i < j < r.len() implies r[i].key != r[j].key by {
        if i == 0 {
            assert(r[j] == base[j - 1]);
        } else {
            assert(r[i] == base[i - 1]);
            assert(r[j] == base[j - 1]);
        }
    }
    lemma_slot_index_unique(r, new_slot.key, 0);
}

/// A value put with a time to live is found by a `get` before it runs out:
/// its key is the most recently used entry, not expired at `now`, holding
/// the value put, and taking it to the front leaves the order as it is.
pub proof fn lemma_put_then_get<V>(s: Seq<Slot<V>>, cap: nat, new_slot: Slot<V>, now: u64)
    requires
        keys_unique(s),
        cap > 0,
        now < new_slot.expires_at,
    ensures
        slot_index(slots_after_put(s, cap, new_slot), new_slot.key) == Some(0int),
        now < slots_after_put(s, cap, new_slot)[0].expires_at,
        slots_after_put(s, cap, new_slot)[0].value == new_slot.value,
        seq![slots_after_put(s, cap, new_slot)[0]] + slots_after_put(s, cap, new_slot).remove(0)
            == slots_after_put(s, cap, new_slot),
{
    lemma_put_then_lookup(s, cap, new_slot);
    let r = slots_after_put(s, cap, new_slot);
    assert(seq![r[0]] + r.remove(0) =~= r);
}

/// After a key is removed, the cache holds nothing for it.
pub proof fn lemma_remove_then_lookup<V>(s: Seq<Slot<V>>, key: Seq<char>)
    requires
        keys_unique(s),
    ensures
        lookup(without_key(s, key), key).is_none(),
{
    lemma_without_key(s, key);
    lemma_slot_index(without_key(s, key), key);
    if let Some(i) = slot_index(without_key(s, key), key) {
        assert(without_key(s, key)[i].key == key);
    }
}

/// The slots after a `get` of `key` at time `now`: an expired slot for it
/// is dropped, a live one moves to the front.
pub open spec fn slots_after_get<V>(s: Seq<Slot<V>>, key: Seq<char>, now: u64) -> Seq<Slot<V>> {
    match slot_index(s, key) {
        None => s,
        Some(i) => if now >= s[i].expires_at {
            s.remove(i)
        } else {
            seq![s[i]] + s.remove(i)
        },
    }
}

/// The slot for `key`, if any.
pub open spec fn entry_of<V>(s: Seq<Slot<V>>, key: Seq<char>) -> Option<Slot<V>> {
    match slot_index(s, key) {
        Some(i) => Some(s[i]),
        None => None,
    }
}

proof fn lemma_get_other_keeps<V>(s: Seq<Slot<V>>, other: Seq<char>, now: u64, key: Seq<char>)
    requires
        keys_unique(s),
        other != key,
    ensures
        keys_unique(slots_after_get(s, other, now)),
        entry_of(slots_after_get(s, other, now), key) == entry_of(s, key),
{
    let a = slots_after_get(s, other, now);
    lemma_slot_index(s, other);
    lemma_slot_index(s, key);
    match slot_index(s, other) {
        None => {},
        Some(i) => {
            let r = s.remove(i);
            assert forall|x: int, y: int| 0 <= x < y < r.len() implies r[x].key != r[y].key by {
                let x2 = if x < i { x } else { x + 1 };
                let y2 = if y < i { y } else { y + 1 };
                assert(r[x] == s[x2] && r[y] == s[y2]);
            }
            if now < s[i].expires_at {
                assert forall|x: int, y: int| 0 <= x < y < a.len() implies a[x].key != a[y].key by {
                    if x == 0 {
                        assert(a[y] == r[y - 1]);
                        let y2 = if y - 1 < i { y - 1 } else { y };
                        assert(r[y - 1] == s[y2]);
                    } else {
                        assert(a[x] == r[x - 1] && a[y] == r[y - 1]);
                    }
                }
            }
            lemma_slot_index(a, key);
            match slot_index(s, key) {
                None => {
                    if let Some(k) = slot_index(a, key) {
                        if now < s[i].expires_at {
                            if k == 0 {
                                assert(a[0] == s[i]);
                            } else {
                                let k2 = if k - 1 < i { k - 1 } else { k };
                                assert(a[k] == s[k2]);
                            }
                        } else {
                            let k2 = if k < i { k } else { k + 1 };
                            assert(a[k] == s[k2]);
                        }
                    }
                },
                Some(j) => {
                    assert(j != i);
                    let jr = if j < i { j } else { j - 1 };
                    assert(r[jr] == s[j]);
                    if now < s[i].expires_at {
                        assert(a[jr + 1] == s[j]);
                        lemma_slot_index_unique(a, key, jr + 1);
                    } else {
                        lemma_slot_index_unique(a, key, jr);
                    }
                },
            }
        },
    }
}

/// A slot stays as it is, value and expiry, through any run of `get`s of
/// other keys: with a slot put for `key` before, a later `get` of `key`
/// before its expiry finds the value put.
pub proof fn lemma_gets_of_others_keep<V>(ss: Seq<Seq<Slot<V>>>, others: Seq<Seq<char>>, nows: Seq<u64>, key: Seq<char>)
    requires
        ss.len() == others.len() + 1,
        nows.len() == others.len(),
        keys_unique(ss[0]),
        forall|i: int| 0 <= i < others.len() ==> #[trigger] others[i] != key
            && ss[i + 1] == slots_after_get(ss[i], others[i], nows[i]),
    ensures
        keys_unique(ss.last()),
        entry_of(ss.last(), key) == entry_of(ss[0], key),
    decreases others.len(),
{
    if others.len() > 0 {
        let n = others.len() as int;
        let d = ss.drop_last();
        assert forall|i: int| 0 <= i < others.drop_last().len() implies #[trigger] others.drop_last()[i] != key
            && d[i + 1] == slots_after_get(d[i], others.drop_last()[i], nows.drop_last()[i]) by {
            assert(others.drop_last()[i] == others[i]);
            assert(d[i] == ss[i] && d[i + 1] == ss[i + 1]);
        }
        assert(d[0] == ss[0]);
        lemma_gets_of_others_keep(d, others.drop_last(), nows.drop_last(), key);
        assert(d.last() == ss[n - 1]);
        assert(others[n - 1] != key);
        lemma_get_other_keeps(ss[n - 1], others[n - 1], nows[n - 1], key);
        assert(ss.last() == ss[n]);
    }
}

/// A least-recently-used cache with per-entry expiry, keyed by strings.
/// Time is given by the caller as milliseconds of a monotonic clock.
pub struct LRUCache<V> {
    entries: Vec<CacheEntry<V>>,
    capacity: usize,
    default_ttl: u64,
}

impl<V: Clone> LRUCache<V> {
    /// The entries, most recently used first.
    pub closed spec fn slots(&self) -> Seq<Slot<V>> {
        slots_of(self.entries@)
    }

    pub closed spec fn capacity(&self) -> nat {
        self.capacity as nat
    }

    pub closed spec fn default_ttl(&self) -> u64 {
        self.default_ttl
    }

    /// Keys are unique and, when the capacity is positive, there are at most
    /// that many entries.
    pub open spec fn wf(&self) -> bool {
        &&& keys_unique(self.slots())
        &&& (self.capacity() > 0 ==> self.slots().len() <= self.capacity())
    }

    /// An empty cache.
    pub fn new(capacity: usize, default_ttl: u64) -> (c: Self)
        ensures
            c.wf(),
            c.slots() == Seq::<Slot<V>>::empty(),
            c.capacity() == capacity,
            c.default_ttl() == default_ttl,
    {
        let c = LRUCache { entries: Vec::new(), capacity, default_ttl };
        assert(c.slots() =~= Seq::<Slot<V>>::empty());
        c
    }

    fn position(&self, key: &String) -> (r: Option<usize>)
        requires
            self.wf(),
        ensures
            match r {
                Some(i) => slot_index(self.slots(), key@) == Some(i as int) && i < self.entries@.len()
                    && self.slots()[i as int].key == key@,
                None => slot_index(self.slots(), key@).is_none(),
            },
            self.slots().len() == self.entries@.len(),
    {
        let mut i: usize = 0;
        while i < self.entries.len()
            invariant
                self.wf(),
                i <= self.entries@.len(),
                forall|j: int| 0 <= j < i ==> self.slots()[j].key != key@,
            decreases self.entries@.len() - i,
        {
            if self.entries[i].key == *key {
                proof {
                    lemma_slot_index_unique(self.slots(), key@, i as int);
                }
                return Some(i);
            }
            i += 1;
        }
        proof {
            lemma_slot_index(self.slots(), key@);
            if let Some(j) = slot_index(self.slots(), key@) {
                assert(self.slots()[j].key == key@);
            }
        }
        None
    }

    /// Removes the entry for `key`, if there is one.
    pub fn remove(&mut self, key: &String)
        requires
            old(self).wf(),
        ensures
            final(self).wf(),
            final(self).capacity() == old(self).capacity(),
            final(self).default_ttl() == old(self).default_ttl(),
            final(self).slots() == without_key(old(self).slots(), key@),
    {
        match self.position(key) {
            Some(i) => {
                let ghost before = self.entries@;
                self.entries.remove(i);
                assert(slots_of(self.entries@) =~= slots_of(before).remove(i as int));
            },
            None => {},
        }
    }

    /// The value for `key` at time `now`. An expired entry is removed and
    /// reported missing; a live one becomes the most recently used.
    pub fn get(&mut self, key: &String, now: u64) -> (r: Option<V>)
        requires
            old(self).wf(),
        ensures
            final(self).wf(),
            final(self).capacity() == old(self).capacity(),
            final(self).default_ttl() == old(self).default_ttl(),
            final(self).slots() == slots_after_get(old(self).slots(), key@, now),
            match slot_index(old(self).slots(), key@) {
                None => r.is_none() && final(self).slots() == old(self).slots(),
                Some(i) => if now >= old(self).slots()[i].expires_at {
                    r.is_none() && final(self).slots() == old(self).slots().remove(i)
                } else {
                    &&& r matches Some(v) && cloned(old(self).slots()[i].value, v)
                    &&& final(self).slots() == seq![old(self).slots()[i]] + old(self).slots().remove(i)
                },
            },
    {
        match self.position(key) {
            None => None,
            Some(i) => {
                let ghost before = self.entries@;
                if self.entries[i].is_expired(now) {
                    self.entries.remove(i);
                    assert(slots_of(self.entries@) =~= slots_of(before).remove(i as int));
                    None
                } else {
                    let entry = self.entries.remove(i);
                    let v = entry.value.clone();
                    self.entries.insert(0, entry);
                    assert(slots_of(self.entries@) =~= seq![slots_of(before)[i as int]] + slots_of(before).remove(i as int));
                    Some(v)
                }
            },
        }
    }

    /// Stores `value` for `key` at time `now`, expiring after `ttl` (or the
    /// default time to live). An entry for the same key is replaced, and the
    /// least recently used entries are evicted to make room.
    pub fn put(&mut self, key: String, value: V, ttl: Option<u64>, now: u64)
        requires
            old(self).wf(),
            old(self).capacity() > 0,
            now + match ttl {
                Some(t) => t,
                None => old(self).default_ttl(),
            } <= u64::MAX,
        ensures
            final(self).wf(),
            final(self).capacity() == old(self).capacity(),
            final(self).default_ttl() == old(self).default_ttl(),
            final(self).slots() == slots_after_put(
                old(self).slots(),
                old(self).capacity(),
                Slot {
                    key: key@,
                    value,
                    expires_at: (now + match ttl {
                        Some(t) => t,
                        None => old(self).default_ttl(),
                    }) as u64,
                },
            ),
    {
        let ttl = match ttl {
            Some(t) => t,
            None => self.default_ttl,
        };
        self.remove(&key);
        let ghost base = self.slots();
        proof {
            lemma_without_key(old(self).slots(), key@);
        }
        while self.entries.len() >= self.capacity
            invariant
                self.capacity > 0,
                self.capacity == old(self).capacity,
                self.default_ttl == old(self).default_ttl,
                forall|j: int| 0 <= j < base.len() ==> #[trigger] base[j].key != key@,
                keys_unique(self.slots()),
                base.len() >= self.capacity ==> self.slots() == base.take(self.entries@.len() as int),
                base.len() < self.capacity ==> self.slots() == base,
                self.entries@.len() <= base.len(),
                self.entries@.len() + 1 >= self.capacity || self.entries@.len() == base.len(),
            decreases self.entries@.len(),
        {
            let ghost before = self.entries@;
            self.entries.pop();
            assert(slots_of(self.entries@) =~= slots_of(before).drop_last());
            proof {
                if base.len() >= self.capacity {
                    assert(base.take(self.entries@.len() as int) =~= base.take(before.len() as int).drop_last());
                }
            }
        }
        proof {
            if base.len() >= self.capacity {
                assert(self.entries@.len() == self.capacity - 1);
            }
        }
        let ghost kept = self.entries@;
        let entry = CacheEntry::new(key, value, ttl, now);
        self.entries.insert(0, entry);
        assert(slots_of(self.entries@) =~= seq![entry.slot()] + slots_of(kept));
        proof {
            let s = self.slots();
            lemma_slot_index(slots_of(kept), entry.key@);
            assert forall|i: int, j: int| 0 <= i < j < s.len() implies s[i].key != s[j].key by {
                if i == 0 {
                    assert(s[j] == slots_of(kept)[j - 1]);
                    assert(slots_of(kept)[j - 1] == base[j - 1]);
                } else {
                    assert(s[i] == slots_of(kept)[i - 1]);
                    assert(s[j] == slots_of(kept)[j - 1]);
                }
            }
        }
    }

    /// Drops every entry.
    pub fn clear(&mut self)
        ensures
            final(self).wf(),
            final(self).capacity() == old(self).capacity(),
            final(self).default_ttl() == old(self).default_ttl(),
            final(self).slots() == Seq::<Slot<V>>::empty(),
    {
        self.entries.clear();
        assert(self.slots() =~= Seq::<Slot<V>>::empty());
    }

    /// The number of entries, expired ones included.
    pub fn len(&self) -> (n: usize)
        ensures
            n == self.slots().len(),
    {
        self.entries.len()
    }
}

} // verus!
