use vstd::prelude::*;

use std::hash::{Hash, Hasher};

use crate::text::{nat_decimal, push_str, push_u64_decimal};

verus! {

/// The value that `std::collections::hash_map::DefaultHasher::new()` gives
/// for a string slice with these characters after `hash` and `finish`.
pub uninterp spec fn default_str_hash(s: Seq<char>) -> u64;

/// Hashes a key with a freshly made `DefaultHasher` (`Hash::hash` on the
/// `&str`, then `Hasher::finish`).
///
/// The contract names the result: `DefaultHasher::new()` uses fixed keys,
/// so the result depends on the characters of the key alone.
#[verifier::external_body]
pub(crate) fn hash_key(key: &str) -> (h: u64)
    ensures
        h == default_str_hash(key@),
{
    let mut hasher = std::collections::hash_map::DefaultHasher::new();
    key.hash(&mut hasher);
    hasher.finish()
}

/// The characters of each string.
pub open spec fn string_views(v: Seq<String>) -> Seq<Seq<char>> {
    v.map_values(|s: String| s@)
}

/// The key of one virtual node of a shard on the hash ring:
/// `<shard name>:vnode<number>`.
pub open spec fn vnode_key(name: Seq<char>, vnode: nat) -> Seq<char> {
    name + ":vnode"@ + nat_decimal(vnode)
}

/// Builds the virtual node key `<name>:vnode<vnode>`.
pub fn make_vnode_key(name: &str, vnode: u64) -> (s: String)
    ensures
        s@ == vnode_key(name@, vnode as nat),
{
    let mut s = String::new();
    push_str(&mut s, name);
    push_str(&mut s, ":vnode");
    push_u64_decimal(&mut s, vnode);
    assert(Seq::<char>::empty() + name@ + ":vnode"@ + nat_decimal(vnode as nat) =~= vnode_key(name@, vnode as nat));
    s
}

/// The ring after inserting the first `v` virtual nodes of shard `idx`
/// named `name` into `m`; a later insertion with the same hash replaces an
/// earlier one.
pub open spec fn insert_vnodes(m: Map<u64, usize>, name: Seq<char>, idx: usize, v: nat) -> Map<u64, usize>
    decreases v,
{
    if v == 0 {
        m
    } else {
        insert_vnodes(m, name, idx, (v - 1) as nat).insert(
            default_str_hash(vnode_key(name, (v - 1) as nat)),
            idx,
        )
    }
}

/// The hash ring of the first `n` shards, each with `vnodes` virtual nodes:
/// hash of each virtual node key to the shard's position.
pub open spec fn ring_of(names: Seq<Seq<char>>, vnodes: nat, n: nat) -> Map<u64, usize>
    decreases n,
{
    if n == 0 {
        Map::empty()
    } else {
        insert_vnodes(ring_of(names, vnodes, (n - 1) as nat), names[n - 1], (n - 1) as usize, vnodes)
    }
}

/// The map that a list of (hash, shard) pairs describes; later pairs win.
pub open spec fn pairs_map(v: Seq<(u64, usize)>) -> Map<u64, usize>
    decreases v.len(),
{
    if v.len() == 0 {
        Map::empty()
    } else {
        pairs_map(v.drop_last()).insert(v.last().0, v.last().1)
    }
}

/// No hash occurs twice.
pub open spec fn hashes_unique(v: Seq<(u64, usize)>) -> bool {
    forall|i: int, j: int| 0 <= i < j < v.len() ==> v[i].0 != v[j].0
}

proof fn lemma_pairs_map_dom(v: Seq<(u64, usize)>)
    requires
        hashes_unique(v),
    ensures
        forall|i: int| 0 <= i < v.len() ==> #[trigger] pairs_map(v).contains_key(v[i].0)
            && pairs_map(v)[v[i].0] == v[i].1,
        forall|h: u64| #[trigger] pairs_map(v).contains_key(h) ==> exists|i: int| 0 <= i < v.len() && v[i].0 == h,
    decreases v.len(),
{
    if v.len() > 0 {
        let w = v.drop_last();
        assert(hashes_unique(w));
        lemma_pairs_map_dom(w);
        assert forall|i: int| 0 <= i < v.len() implies #[trigger] pairs_map(v).contains_key(v[i].0)
            && pairs_map(v)[v[i].0] == v[i].1 by {
            if i < v.len() - 1 {
                assert(w[i] == v[i]);
                assert(v[i].0 != v.last().0);
                assert(pairs_map(w).contains_key(w[i].0));
            }
        }
        assert forall|h: u64| #[trigger] pairs_map(v).contains_key(h) implies exists|i: int| 0 <= i < v.len() && v[i].0 == h by {
            if h != v.last().0 {
                assert(pairs_map(w).contains_key(h));
                let i = choose|i: int| 0 <= i < w.len() && w[i].0 == h;
                assert(v[i].0 == h);
            } else {
                assert(v[v.len() - 1].0 == h);
            }
        }
    }
}

proof fn lemma_pairs_map_update(v: Seq<(u64, usize)>, i: int, idx: usize)
    requires
        hashes_unique(v),
        0 <= i < v.len(),
    ensures
        hashes_unique(v.update(i, (v[i].0, idx))),
        pairs_map(v.update(i, (v[i].0, idx))) == pairs_map(v).insert(v[i].0, idx),
    decreases v.len(),
{
    let u = v.update(i, (v[i].0, idx));
    assert(hashes_unique(u));
    if i == v.len() - 1 {
        assert(u.drop_last() =~= v.drop_last());
        assert(pairs_map(u) =~= pairs_map(v).insert(v[i].0, idx));
    } else {
        let w = v.drop_last();
        assert(u.drop_last() =~= w.update(i, (w[i].0, idx)));
        lemma_pairs_map_update(w, i, idx);
        assert(v.last().0 != v[i].0);
        assert(pairs_map(u) =~= pairs_map(v).insert(v[i].0, idx));
    }
}

/// Inserts `(h, idx)` into the ring, replacing the shard of an existing `h`.
fn ring_insert(ring: &mut Vec<(u64, usize)>, h: u64, idx: usize)
    requires
        hashes_unique(old(ring)@),
    ensures
        hashes_unique(final(ring)@),
        pairs_map(final(ring)@) == pairs_map(old(ring)@).insert(h, idx),
{
    let mut i: usize = 0;
    while i < ring.len()
        invariant
            i <= ring@.len(),
            ring@ == old(ring)@,
            hashes_unique(ring@),
            forall|j: int| 0 <= j < i ==> ring@[j].0 != h,
        decreases ring@.len() - i,
    {
        if ring[i].0 == h {
            proof {
                lemma_pairs_map_update(ring@, i as int, idx);
            }
            ring.set(i, (h, idx));
            return;
        }
        i += 1;
    }
    let ghost before = ring@;
    ring.push((h, idx));
    assert(ring@.drop_last() =~= before);
}

/// Builds the hash ring of the given shards with `vnodes` virtual nodes each.
pub fn build_ring(names: &Vec<String>, vnodes: u64) -> (ring: Vec<(u64, usize)>)
    ensures
        hashes_unique(ring@),
        pairs_map(ring@) == ring_of(string_views(names@), vnodes as nat, names@.len() as nat),
{
    let ghost ns = string_views(names@);
    let mut ring: Vec<(u64, usize)> = Vec::new();
    assert(pairs_map(ring@) =~= Map::<u64, usize>::empty());
    let mut n: usize = 0;
    while n < names.len()
        invariant
            n <= names@.len(),
            ns == string_views(names@),
            hashes_unique(ring@),
            pairs_map(ring@) == ring_of(ns, vnodes as nat, n as nat),
        decreases names@.len() - n,
    {
        let ghost start = pairs_map(ring@);
        let mut v: u64 = 0;
        while v < vnodes
            invariant
                n < names@.len(),
                v <= vnodes,
                ns == string_views(names@),
                hashes_unique(ring@),
                pairs_map(ring@) == insert_vnodes(start, ns[n as int], n, v as nat),
            decreases vnodes - v,
        {
            let key = make_vnode_key(names[n].as_str(), v);
            let h = hash_key(key.as_str());
            ring_insert(&mut ring, h, n);
            v += 1;
        }
        n += 1;
    }
    ring
}

/// `h` is on the ring at or after `hash`, and below the largest hash value.
pub open spec fn ring_candidate(m: Map<u64, usize>, hash: u64, h: u64) -> bool {
    m.contains_key(h) && h >= hash && h < u64::MAX
}

/// The shard that the ring `m` gives a key with hash `hash`: the shard of
/// the smallest ring hash at or after `hash` (the largest hash value itself
/// is never chosen this way); if there is none, the shard of the smallest
/// ring hash; on an empty ring, the first shard.
pub open spec fn ring_choice(m: Map<u64, usize>, hash: u64, r: usize) -> bool {
    if exists|h: u64| ring_candidate(m, hash, h) {
        exists|h: u64|
            ring_candidate(m, hash, h) && (forall|h2: u64| ring_candidate(m, hash, h2) ==> h <= h2)
                && r == m[h]
    } else if exists|h: u64| m.contains_key(h) {
        exists|h: u64| m.contains_key(h) && (forall|h2: u64| m.contains_key(h2) ==> h <= h2) && r == m[h]
    } else {
        r == 0
    }
}

/// The shard for a key hash on the ring.
pub fn find_ring_node(ring: &Vec<(u64, usize)>, hash: u64) -> (r: usize)
    requires
        hashes_unique(ring@),
    ensures
        ring_choice(pairs_map(ring@), hash, r),
{
    proof {
        lemma_pairs_map_dom(ring@);
    }
    let ghost m = pairs_map(ring@);
    let mut min_hash: u64 = u64::MAX;
    let mut selected: usize = 0;
    let mut i: usize = 0;
    while i < ring.len()
        invariant
            i <= ring@.len(),
            m == pairs_map(ring@),
            hashes_unique(ring@),
            forall|j: int| 0 <= j < ring@.len() ==> #[trigger] m.contains_key(ring@[j].0) && m[ring@[j].0] == ring@[j].1,
            forall|j: int| 0 <= j < i && ring@[j].0 >= hash && ring@[j].0 < u64::MAX ==> min_hash <= #[trigger] ring@[j].0,
            min_hash < u64::MAX ==> ring_candidate(m, hash, min_hash) && m[min_hash] == selected,
        decreases ring@.len() - i,
    {
        let (h, node) = ring[i];
        assert(m.contains_key(ring@[i as int].0));
        if h >= hash && h < min_hash {
            min_hash = h;
            selected = node;
        }
        i += 1;
    }
    if min_hash == u64::MAX {
        proof {
            assert forall|h: u64| !ring_candidate(m, hash, h) by {
                if ring_candidate(m, hash, h) {
                    let j = choose|j: int| 0 <= j < ring@.len() && ring@[j].0 == h;
                    assert(m.contains_key(ring@[j].0));
                }
            }
        }
        if ring.len() == 0 {
            proof {
                assert forall|h: u64| !m.contains_key(h) by {
                    if m.contains_key(h) {
                        let j = choose|j: int| 0 <= j < ring@.len() && ring@[j].0 == h;
                    }
                }
            }
            return 0;
        }
        let mut best = ring[0].0;
        let mut node = ring[0].1;
        let mut k: usize = 1;
        while k < ring.len()
            invariant
                1 <= k <= ring@.len(),
                m == pairs_map(ring@),
                forall|j: int| 0 <= j < ring@.len() ==> #[trigger] m.contains_key(ring@[j].0) && m[ring@[j].0] == ring@[j].1,
                forall|j: int| 0 <= j < k ==> best <= #[trigger] ring@[j].0,
                m.contains_key(best) && m[best] == node,
            decreases ring@.len() - k,
        {
            assert(m.contains_key(ring@[k as int].0));
            if ring[k].0 < best {
                best = ring[k].0;
                node = ring[k].1;
            }
            k += 1;
        }
        proof {
            assert forall|h2: u64| m.contains_key(h2) implies best <= h2 by {
                let j = choose|j: int| 0 <= j < ring@.len() && ring@[j].0 == h2;
                assert(best <= ring@[j].0);
            }
            assert(m.contains_key(best));
        }
        return node;
    }
    proof {
        assert forall|h2: u64| ring_candidate(m, hash, h2) implies min_hash <= h2 by {
            let j = choose|j: int| 0 <= j < ring@.len() && ring@[j].0 == h2;
            assert(min_hash <= ring@[j].0);
        }
    }
    selected
}

} // verus!
