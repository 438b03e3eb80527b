use vstd::prelude::*;

use crate::lru::{LRUCache, Slot, lookup, slot_index};
use crate::ring::{build_ring, default_str_hash, find_ring_node, hashes_unique, pairs_map, ring_choice, ring_of, hash_key};
use crate::text::{chars_of, int_decimal, push_char, push_i64_decimal};

verus! {

/// How keys and time intervals are mapped to shards.
#[derive(Clone, Copy, PartialEq, Eq, Structural, Debug)]
pub enum ShardingStrategy {
    KeyHash,
    TimeRange,
    KeyPrefix,
    ConsistentHash,
}

/// Settings of the routing caches; durations are in milliseconds.
pub struct CacheConfig {
    pub enabled: bool,
    pub max_size: usize,
    pub default_ttl: u64,
    pub key_cache_ttl: u64,
    pub time_cache_ttl: u64,
}

/// Caching on, 10000 entries, five minutes by default and for time
/// intervals, ten minutes for keys.
pub open spec fn default_cache_config() -> CacheConfig {
    CacheConfig {
        enabled: true,
        max_size: 10000,
        default_ttl: 300_000,
        key_cache_ttl: 600_000,
        time_cache_ttl: 300_000,
    }
}

impl CacheConfig {
    /// Caching on, 10000 entries, five minutes by default and for time
    /// intervals, ten minutes for keys.
    pub fn default() -> (c: Self)
        ensures
            c.enabled,
            c.max_size == 10000,
            c.default_ttl == 300_000,
            c.key_cache_ttl == 600_000,
            c.time_cache_ttl == 300_000,
            c == default_cache_config(),
    {
        CacheConfig {
            enabled: true,
            max_size: 10000,
            default_ttl: 300_000,
            key_cache_ttl: 600_000,
            time_cache_ttl: 300_000,
        }
    }

    pub fn duplicate(&self) -> (c: Self)
        ensures
            c == *self,
    {
        CacheConfig {
            enabled: self.enabled,
            max_size: self.max_size,
            default_ttl: self.default_ttl,
            key_cache_ttl: self.key_cache_ttl,
            time_cache_ttl: self.time_cache_ttl,
        }
    }
}

/// One shard: its name, where its database lives, the strategy it was
/// declared for, and the key range or time range (nanoseconds since the
/// Unix epoch, both ends included) it serves.
pub struct ShardConfig {
    pub name: String,
    pub db_path: String,
    pub strategy: ShardingStrategy,
    pub key_range: Option<(String, String)>,
    pub time_range: Option<(i64, i64)>,
}

/// `a` comes no later than `b` in the order of strings: character by
/// character by code point, a proper prefix first. (For UTF-8 text this is
/// the byte order in which Rust compares `str` values.)
pub open spec fn lex_le(a: Seq<char>, b: Seq<char>) -> bool
    decreases a.len(),
{
    if a.len() == 0 {
        true
    } else if b.len() == 0 {
        false
    } else if (a[0] as u32) < (b[0] as u32) {
        true
    } else if (a[0] as u32) > (b[0] as u32) {
        false
    } else {
        lex_le(a.drop_first(), b.drop_first())
    }
}

/// Whether `a <= b` in the order of strings.
pub fn str_le(a: &str, b: &str) -> (r: bool)
    ensures
        r == lex_le(a@, b@),
{
    let ac = chars_of(a);
    let bc = chars_of(b);
    let mut i: usize = 0;
    assert(a@.skip(0) =~= a@);
    assert(b@.skip(0) =~= b@);
    while i < ac.len()
        invariant
            i <= ac@.len(),
            ac@ == a@,
            bc@ == b@,
            i <= bc@.len(),
            lex_le(a@, b@) == lex_le(a@.skip(i as int), b@.skip(i as int)),
        decreases ac@.len() - i,
    {
        let ghost x = a@.skip(i as int);
        let ghost y = b@.skip(i as int);
        if i >= bc.len() {
            return false;
        }
        assert(x[0] == ac@[i as int]);
        assert(y[0] == bc@[i as int]);
        assert(x.drop_first() =~= a@.skip(i + 1));
        assert(y.drop_first() =~= b@.skip(i + 1));
        if (ac[i] as u32) < (bc[i] as u32) {
            return true;
        }
        if (ac[i] as u32) > (bc[i] as u32) {
            return false;
        }
        i += 1;
    }
    true
}

/// The key lies in the declared key range of `c`, both ends included.
pub open spec fn key_in_range(c: ShardConfig, key: Seq<char>) -> bool {
    match c.key_range {
        Some((s, e)) => lex_le(s@, key) && lex_le(key, e@),
        None => false,
    }
}

/// The first shard whose key range holds `key`.
pub open spec fn find_range(configs: Seq<ShardConfig>, key: Seq<char>) -> Option<int>
    decreases configs.len(),
{
    if configs.len() == 0 {
        None
    } else if key_in_range(configs[0], key) {
        Some(0)
    } else {
        match find_range(configs.drop_first(), key) {
            Some(i) => Some(i + 1),
            None => None,
        }
    }
}

/// The names of the shards, in order.
pub open spec fn config_names(configs: Seq<ShardConfig>) -> Seq<Seq<char>> {
    configs.map_values(|c: ShardConfig| c.name@)
}

/// The shard `r` serves `key` under `strategy`: by hash modulo the number
/// of shards, by the first key range that holds the key (the first shard if
/// none does), by the consistent-hash ring, or the first shard for the time
/// range strategy.
pub open spec fn routes_to(
    strategy: ShardingStrategy,
    configs: Seq<ShardConfig>,
    ring: Map<u64, usize>,
    key: Seq<char>,
    r: usize,
) -> bool {
    match strategy {
        ShardingStrategy::KeyHash => r == default_str_hash(key) % (configs.len() as u64),
        ShardingStrategy::KeyPrefix => r == match find_range(configs, key) {
            Some(i) => i,
            None => 0,
        },
        ShardingStrategy::ConsistentHash => ring_choice(ring, default_str_hash(key), r),
        ShardingStrategy::TimeRange => r == 0,
    }
}

/// The shard's time range overlaps `[start, end]`.
pub open spec fn overlaps(c: ShardConfig, start: i64, end: i64) -> bool {
    match c.time_range {
        Some((s, e)) => start <= e && end >= s,
        None => false,
    }
}

/// Positions of the shards whose time range overlaps `[start, end]`.
pub open spec fn overlapping(configs: Seq<ShardConfig>, start: i64, end: i64) -> Seq<usize>
    decreases configs.len(),
{
    if configs.len() == 0 {
        Seq::empty()
    } else {
        let r = overlapping(configs.drop_last(), start, end);
        if overlaps(configs.last(), start, end) {
            r.push((configs.len() - 1) as usize)
        } else {
            r
        }
    }
}

/// The shards that may hold data of the interval `[start, end]`: those
/// whose time range overlaps it under the time range strategy, all of them
/// otherwise.
pub open spec fn interval_shards(strategy: ShardingStrategy, configs: Seq<ShardConfig>, start: i64, end: i64) -> Seq<usize> {
    match strategy {
        ShardingStrategy::TimeRange => overlapping(configs, start, end),
        _ => Seq::new(configs.len(), |i: int| i as usize),
    }
}

/// Whole seconds of an instant given in nanoseconds (rounded down).
pub open spec fn secs_of(nanos: i64) -> int {
    (nanos as int) / 1_000_000_000
}

/// The cache key of an interval: `<start secs>:<end secs>`.
pub open spec fn interval_key(start: i64, end: i64) -> Seq<char> {
    int_decimal(secs_of(start)) + seq![':'] + int_decimal(secs_of(end))
}

fn floor_secs(nanos: i64) -> (s: i64)
    ensures
        s == secs_of(nanos),
{
    let q = nanos / 1_000_000_000;
    let r = nanos % 1_000_000_000;
    if r < 0 {
        assert(q * 1_000_000_000 + r == nanos);
        q - 1
    } else {
        q
    }
}

/// Builds the cache key `<start secs>:<end secs>` of an interval.
pub fn make_interval_key(start: i64, end: i64) -> (s: String)
    ensures
        s@ == interval_key(start, end),
{
    let mut s = String::new();
    push_i64_decimal(&mut s, floor_secs(start));
    push_char(&mut s, ':');
    push_i64_decimal(&mut s, floor_secs(end));
    assert(s@ =~= interval_key(start, end));
    s
}

/// A window `[start, end)` of a list of `len` results: `start` is the
/// offset (at most `len`), `end` adds the limit (at most `len`).
pub fn page_window(len: usize, offset: usize, limit: usize) -> (w: (usize, usize))
    requires
        (if offset <= len { offset } else { len }) + limit <= usize::MAX,
    ensures
        w.0 == if offset <= len { offset } else { len },
        w.1 == if w.0 + limit <= len { w.0 + limit } else { len as int },
{
    let start = if offset <= len { offset } else { len };
    let end = if start + limit <= len { start + limit } else { len };
    (start, end)
}

proof fn lemma_insert_vnodes_values(m: Map<u64, usize>, name: Seq<char>, idx: usize, v: nat, n: nat)
    requires
        idx < n,
        forall|h: u64| #[trigger] m.contains_key(h) ==> m[h] < n,
    ensures
        forall|h: u64| #[trigger] crate::ring::insert_vnodes(m, name, idx, v).contains_key(h)
            ==> crate::ring::insert_vnodes(m, name, idx, v)[h] < n,
    decreases v,
{
    if v > 0 {
        lemma_insert_vnodes_values(m, name, idx, (v - 1) as nat, n);
        let prev = crate::ring::insert_vnodes(m, name, idx, (v - 1) as nat);
        let key = crate::ring::default_str_hash(crate::ring::vnode_key(name, (v - 1) as nat));
        assert(crate::ring::insert_vnodes(m, name, idx, v) == prev.insert(key, idx));
        assert forall|h: u64| #[trigger] prev.insert(key, idx).contains_key(h) implies prev.insert(key, idx)[h] < n by {
            if h != key {
                assert(prev.contains_key(h));
            }
        }
    }
}

proof fn lemma_ring_values(names: Seq<Seq<char>>, vnodes: nat, k: nat, n: nat)
    requires
        k <= n,
    ensures
        forall|h: u64| #[trigger] ring_of(names, vnodes, k).contains_key(h) ==> ring_of(names, vnodes, k)[h] < n,
    decreases k,
{
    if k > 0 {
        lemma_ring_values(names, vnodes, (k - 1) as nat, n);
        lemma_insert_vnodes_values(ring_of(names, vnodes, (k - 1) as nat), names[k - 1], (k - 1) as usize, vnodes, n);
    }
}

proof fn lemma_find_range_bound(configs: Seq<ShardConfig>, key: Seq<char>)
    ensures
        find_range(configs, key) matches Some(i) ==> 0 <= i < configs.len() && key_in_range(configs[i], key),
    decreases configs.len(),
{
    if configs.len() > 0 && !key_in_range(configs[0], key) {
        lemma_find_range_bound(configs.drop_first(), key);
    }
}

/// Whatever the strategy, a key is routed to one of the shards (when there
/// is at least one), given the ring of the current shards.
pub proof fn lemma_route_in_range(strategy: ShardingStrategy, configs: Seq<ShardConfig>, key: Seq<char>, r: usize)
    requires
        configs.len() > 0,
        routes_to(
            strategy,
            configs,
            ring_of(config_names(configs), VIRTUAL_NODES as nat, configs.len() as nat),
            key,
            r,
        ),
    ensures
        r < configs.len(),
{
    let m = ring_of(config_names(configs), VIRTUAL_NODES as nat, configs.len() as nat);
    lemma_ring_values(config_names(configs), VIRTUAL_NODES as nat, configs.len() as nat, configs.len() as nat);
    lemma_find_range_bound(configs, key);
    match strategy {
        ShardingStrategy::ConsistentHash => {
            let hk = default_str_hash(key);
            if exists|h: u64| crate::ring::ring_candidate(m, hk, h) {
                let h = choose|h: u64|
                    crate::ring::ring_candidate(m, hk, h) && (forall|h2: u64| crate::ring::ring_candidate(m, hk, h2) ==> h <= h2)
                        && r == m[h];
                assert(m.contains_key(h));
            } else if exists|h: u64| m.contains_key(h) {
                let h = choose|h: u64| m.contains_key(h) && (forall|h2: u64| m.contains_key(h2) ==> h <= h2) && r == m[h];
                assert(m.contains_key(h));
            }
        },
        _ => {},
    }
}

/// Every shard chosen for a time interval is one of the shards.
pub proof fn lemma_interval_shards_in_range(strategy: ShardingStrategy, configs: Seq<ShardConfig>, start: i64, end: i64)
    ensures
        forall|i: int| 0 <= i < interval_shards(strategy, configs, start, end).len()
            ==> #[trigger] interval_shards(strategy, configs, start, end)[i] < configs.len(),
    decreases configs.len(),
{
    if strategy == ShardingStrategy::TimeRange {
        if configs.len() > 0 {
            lemma_interval_shards_in_range(strategy, configs.drop_last(), start, end);
            let prev = overlapping(configs.drop_last(), start, end);
            assert forall|i: int| 0 <= i < overlapping(configs, start, end).len()
                implies #[trigger] overlapping(configs, start, end)[i] < configs.len() by {
                if i < prev.len() {
                    assert(overlapping(configs, start, end)[i] == prev[i]);
                    assert(prev[i] == interval_shards(strategy, configs.drop_last(), start, end)[i]);
                }
            }
        }
    }
}

/// Per-shard figures reported by `shard_statistics`.
pub struct ShardDetail {
    pub name: String,
    pub index: usize,
    pub key_count: usize,
    pub strategy: ShardingStrategy,
}

/// Summary of the shards.
pub struct ShardStatistics {
    pub total_shards: usize,
    pub shard_details: Vec<ShardDetail>,
    pub key_distribution: Vec<(String, usize)>,
}

/// Outcome of a write applied to one shard.
pub enum ShardResult {
    Success,
    Failure(String),
}

/// How a key was placed on a shard.
pub enum AllocationType {
    KeyHash { hash: u64, total_shards: usize },
    KeyPrefix { prefix: String },
    TimeRange { bucket: String },
    ConsistentHash { node: String, vnode: u64 },
}

/// The placement of a key on a shard.
pub struct ShardAllocation {
    pub shard_name: String,
    pub shard_index: usize,
    pub allocation_type: AllocationType,
}

/// Cache figures; the hit rate is `hits / (hits + misses)`.
pub struct RouterCacheStats {
    pub hits: u64,
    pub misses: u64,
    pub size: usize,
    pub capacity: usize,
}

/// Number of virtual nodes per shard on the consistent-hash ring.
pub const VIRTUAL_NODES: u64 = 150;

/// Routing state of a sharded store: the shards, the strategy, the
/// consistent-hash ring and the caches of earlier decisions.
pub struct ShardRouter {
    shard_configs: Vec<ShardConfig>,
    strategy: ShardingStrategy,
    key_cache: LRUCache<usize>,
    time_cache: LRUCache<Vec<usize>>,
    ring: Vec<(u64, usize)>,
    cache_config: CacheConfig,
    cache_hits: u64,
    cache_misses: u64,
}

impl ShardRouter {
    pub closed spec fn configs(&self) -> Seq<ShardConfig> {
        self.shard_configs@
    }

    pub closed spec fn strategy(&self) -> ShardingStrategy {
        self.strategy
    }

    pub closed spec fn ring_map(&self) -> Map<u64, usize> {
        pairs_map(self.ring@)
    }

    pub closed spec fn cache_config(&self) -> CacheConfig {
        self.cache_config
    }

    pub closed spec fn hits(&self) -> u64 {
        self.cache_hits
    }

    pub closed spec fn misses(&self) -> u64 {
        self.cache_misses
    }

    pub closed spec fn key_slots(&self) -> Seq<Slot<usize>> {
        self.key_cache.slots()
    }

    pub closed spec fn time_slots(&self) -> Seq<Slot<Vec<usize>>> {
        self.time_cache.slots()
    }

    /// Room in each of the two caches.
    pub closed spec fn cache_capacity(&self) -> nat {
        self.key_cache.capacity()
    }

    /// The ring is the one of the current shards (for the consistent-hash
    /// strategy), the caches are well formed, and every cached key decision
    /// is the one the strategy gives now.
    pub closed spec fn wf(&self) -> bool {
        &&& hashes_unique(self.ring@)
        &&& (self.strategy == ShardingStrategy::ConsistentHash ==> pairs_map(self.ring@) == ring_of(
            config_names(self.shard_configs@),
            VIRTUAL_NODES as nat,
            self.shard_configs@.len() as nat,
        ))
        &&& self.key_cache.wf()
        &&& self.time_cache.wf()
        &&& self.key_cache.capacity() == self.time_cache.capacity()
        &&& forall|i: int| 0 <= i < self.key_cache.slots().len() ==> routes_to(
            self.strategy,
            self.shard_configs@,
            pairs_map(self.ring@),
            #[trigger] self.key_cache.slots()[i].key,
            self.key_cache.slots()[i].value,
        )
    }

    fn names(&self) -> (names: Vec<String>)
        ensures
            crate::ring::string_views(names@) == config_names(self.shard_configs@),
            names@.len() == self.shard_configs@.len(),
    {
        let mut names: Vec<String> = Vec::new();
        let mut i: usize = 0;
        while i < self.shard_configs.len()
            invariant
                i <= self.shard_configs@.len(),
                names@.len() == i,
                forall|k: int| 0 <= k < i ==> #[trigger] names@[k]@ == self.shard_configs@[k].name@,
            decreases self.shard_configs@.len() - i,
        {
            names.push(self.shard_configs[i].name.clone());
            i += 1;
        }
        assert(crate::ring::string_views(names@) =~= config_names(self.shard_configs@));
        names
    }

    /// A router over `shard_configs` with the given strategy and caches.
    pub fn new_with_cache_config(
        shard_configs: Vec<ShardConfig>,
        strategy: ShardingStrategy,
        cache_config: CacheConfig,
    ) -> (r: Self)
        ensures
            r.wf(),
            r.configs() == shard_configs@,
            r.strategy() == strategy,
            r.cache_config() == cache_config,
            r.cache_capacity() == cache_config.max_size,
            r.hits() == 0,
            r.misses() == 0,
            r.key_slots().len() == 0,
            r.time_slots().len() == 0,
    {
        let key_cache = LRUCache::new(cache_config.max_size, cache_config.key_cache_ttl);
        let time_cache = LRUCache::new(cache_config.max_size, cache_config.time_cache_ttl);
        let mut r = ShardRouter {
            shard_configs,
            strategy,
            key_cache,
            time_cache,
            ring: Vec::new(),
            cache_config,
            cache_hits: 0,
            cache_misses: 0,
        };
        assert(hashes_unique(r.ring@));
        if strategy == ShardingStrategy::ConsistentHash {
            let names = r.names();
            r.ring = build_ring(&names, VIRTUAL_NODES);
        }
        r
    }

    /// A router with the default cache settings.
    pub fn new(shard_configs: Vec<ShardConfig>, strategy: ShardingStrategy) -> (r: Self)
        ensures
            r.wf(),
            r.configs() == shard_configs@,
            r.strategy() == strategy,
            r.cache_config() == default_cache_config(),
            r.hits() == 0,
            r.misses() == 0,
    {
        Self::new_with_cache_config(shard_configs, strategy, CacheConfig::default())
    }

    /// The number of shards.
    pub fn shard_count(&self) -> (n: usize)
        ensures
            n == self.configs().len(),
    {
        self.shard_configs.len()
    }

    fn first_in_range(&self, key: &str) -> (r: usize)
        ensures
            r == match find_range(self.shard_configs@, key@) {
                Some(i) => i,
                None => 0,
            },
    {
        let mut i: usize = 0;
        assert(self.shard_configs@.skip(0) =~= self.shard_configs@);
        while i < self.shard_configs.len()
            invariant
                i <= self.shard_configs@.len(),
                find_range(self.shard_configs@, key@) == match find_range(self.shard_configs@.skip(i as int), key@) {
                    Some(j) => Some(j + i),
                    None => None,
                },
            decreases self.shard_configs@.len() - i,
        {
            let ghost rest = self.shard_configs@.skip(i as int);
            assert(rest[0] == self.shard_configs@[i as int]);
            assert(rest.drop_first() =~= self.shard_configs@.skip(i + 1));
            let hit = match &self.shard_configs[i].key_range {
                Some((start, end)) => str_le(start.as_str(), key) && str_le(key, end.as_str()),
                None => false,
            };
            if hit {
                return i;
            }
            i += 1;
        }
        0
    }

    /// The shard that the strategy gives `key`, without the cache.
    pub fn compute_shard_for_key(&self, key: &str) -> (r: usize)
        requires
            self.wf(),
            self.strategy() == ShardingStrategy::KeyHash ==> self.configs().len() > 0,
        ensures
            routes_to(self.strategy(), self.configs(), self.ring_map(), key@, r),
    {
        match self.strategy {
            ShardingStrategy::KeyHash => {
                let h = hash_key(key);
                (h % (self.shard_configs.len() as u64)) as usize
            },
            ShardingStrategy::KeyPrefix => self.first_in_range(key),
            ShardingStrategy::ConsistentHash => {
                let h = hash_key(key);
                find_ring_node(&self.ring, h)
            },
            ShardingStrategy::TimeRange => 0,
        }
    }

    /// The shard for `key` at time `now` (milliseconds of a monotonic
    /// clock). With caching on, a live cached decision is used (a hit);
    /// otherwise the decision is computed (a miss) and cached. Either way the
    /// answer is the one the strategy gives.
    pub fn get_shard_for_key(&mut self, key: &str, now: u64) -> (r: usize)
        requires
            old(self).wf(),
            old(self).strategy() == ShardingStrategy::KeyHash ==> old(self).configs().len() > 0,
            old(self).cache_config().enabled ==> old(self).cache_capacity() > 0,
            old(self).cache_config().enabled ==> now + old(self).cache_config().key_cache_ttl <= u64::MAX,
            old(self).hits() < u64::MAX,
            old(self).misses() < u64::MAX,
        ensures
            final(self).wf(),
            routes_to(old(self).strategy(), old(self).configs(), old(self).ring_map(), key@, r),
            final(self).configs() == old(self).configs(),
            final(self).strategy() == old(self).strategy(),
            final(self).ring_map() == old(self).ring_map(),
            final(self).cache_config() == old(self).cache_config(),
            final(self).cache_capacity() == old(self).cache_capacity(),
            final(self).time_slots() == old(self).time_slots(),
            !old(self).cache_config().enabled ==> final(self).hits() == old(self).hits()
                && final(self).misses() == old(self).misses()
                && final(self).key_slots() == old(self).key_slots(),
            old(self).cache_config().enabled ==> final(self).hits() + final(self).misses()
                == old(self).hits() + old(self).misses() + 1,
            old(self).cache_config().enabled ==> (final(self).hits() == old(self).hits() + 1 <==> match slot_index(old(self).key_slots(), key@) {
                Some(i) => now < old(self).key_slots()[i].expires_at,
                None => false,
            }),
    {
        let key_s = key.to_owned();
        if self.cache_config.enabled {
            let ghost before = self.key_cache.slots();
            let cached = self.key_cache.get(&key_s, now);
            proof {
                let after = self.key_cache.slots();
                assert forall|i: int| 0 <= i < after.len() implies exists|j: int| 0 <= j < before.len() && before[j] == #[trigger] after[i] by {
                    match slot_index(before, key@) {
                        None => {
                            assert(before[i] == after[i]);
                        },
                        Some(k) => {
                            crate::lru::lemma_slot_index(before, key@);
                            if now >= before[k].expires_at {
                                if i < k {
                                    assert(before[i] == after[i]);
                                } else {
                                    assert(before[i + 1] == after[i]);
                                }
                            } else {
                                if i == 0 {
                                    assert(before[k] == after[i]);
                                } else if i - 1 < k {
                                    assert(before[i - 1] == after[i]);
                                } else {
                                    assert(before[i] == after[i]);
                                }
                            }
                        },
                    }
                }
                assert forall|i: int| 0 <= i < after.len() implies routes_to(
                    self.strategy,
                    self.shard_configs@,
                    pairs_map(self.ring@),
                    #[trigger] after[i].key,
                    after[i].value,
                ) by {
                    let j = choose|j: int| 0 <= j < before.len() && before[j] == after[i];
                    assert(routes_to(self.strategy, self.shard_configs@, pairs_map(self.ring@), before[j].key, before[j].value));
                }
                if let Some(k) = slot_index(before, key@) {
                    crate::lru::lemma_slot_index(before, key@);
                    assert(routes_to(self.strategy, self.shard_configs@, pairs_map(self.ring@), before[k].key, before[k].value));
                }
            }
            match cached {
                Some(idx) => {
                    self.cache_hits = self.cache_hits + 1;
                    return idx;
                },
                None => {
                    self.cache_misses = self.cache_misses + 1;
                },
            }
        }
        let idx = self.compute_shard_for_key(key);
        if self.cache_config.enabled {
            let ghost before = self.key_cache.slots();
            let ttl = self.cache_config.key_cache_ttl;
            self.key_cache.put(key_s, idx, Some(ttl), now);
            proof {
                let after = self.key_cache.slots();
                crate::lru::lemma_put_keeps(before, self.key_cache.capacity(), Slot { key: key@, value: idx, expires_at: (now + ttl) as u64 });
                assert forall|i: int| 0 <= i < after.len() implies routes_to(
                    self.strategy,
                    self.shard_configs@,
                    pairs_map(self.ring@),
                    #[trigger] after[i].key,
                    after[i].value,
                ) by {
                    if i > 0 {
                        let j = choose|j: int| 0 <= j < before.len() && before[j] == after[i];
                        assert(routes_to(self.strategy, self.shard_configs@, pairs_map(self.ring@), before[j].key, before[j].value));
                    }
                }
            }
        }
        idx
    }

    fn compute_interval_shards(&self, start: i64, end: i64) -> (r: Vec<usize>)
        ensures
            r@ == interval_shards(self.strategy, self.shard_configs@, start, end),
    {
        let mut out: Vec<usize> = Vec::new();
        let mut i: usize = 0;
        if self.strategy == ShardingStrategy::TimeRange {
            while i < self.shard_configs.len()
                invariant
                    i <= self.shard_configs@.len(),
                    out@ == overlapping(self.shard_configs@.take(i as int), start, end),
                decreases self.shard_configs@.len() - i,
            {
                assert(self.shard_configs@.take(i + 1).drop_last() =~= self.shard_configs@.take(i as int));
                let hit = match self.shard_configs[i].time_range {
                    Some((s, e)) => start <= e && end >= s,
                    None => false,
                };
                if hit {
                    out.push(i);
                }
                i += 1;
            }
            assert(self.shard_configs@.take(self.shard_configs@.len() as int) =~= self.shard_configs@);
        } else {
            while i < self.shard_configs.len()
                invariant
                    i <= self.shard_configs@.len(),
                    out@ == Seq::new(i as nat, |k: int| k as usize),
                decreases self.shard_configs@.len() - i,
            {
                out.push(i);
                i += 1;
                assert(out@ =~= Seq::new(i as nat, |k: int| k as usize));
            }
        }
        out
    }

    /// The shards that may hold data between `start` and `end`
    /// (nanoseconds since the Unix epoch) at time `now` (milliseconds of a
    /// monotonic clock). With caching on, a live cached answer for the same
    /// whole seconds is returned (a hit); otherwise the answer is computed
    /// (a miss) and cached.
    pub fn get_shards_for_time_interval(&mut self, start: i64, end: i64, now: u64) -> (r: Vec<usize>)
        requires
            old(self).wf(),
            old(self).cache_config().enabled ==> old(self).cache_capacity() > 0,
            old(self).cache_config().enabled ==> now + old(self).cache_config().time_cache_ttl <= u64::MAX,
            old(self).hits() < u64::MAX,
            old(self).misses() < u64::MAX,
        ensures
            final(self).wf(),
            final(self).configs() == old(self).configs(),
            final(self).strategy() == old(self).strategy(),
            final(self).ring_map() == old(self).ring_map(),
            final(self).cache_config() == old(self).cache_config(),
            final(self).cache_capacity() == old(self).cache_capacity(),
            final(self).key_slots() == old(self).key_slots(),
            match (old(self).cache_config().enabled, slot_index(old(self).time_slots(), interval_key(start, end))) {
                (true, Some(i)) => if now < old(self).time_slots()[i].expires_at {
                    r@ == old(self).time_slots()[i].value@ && final(self).hits() == old(self).hits() + 1
                        && final(self).misses() == old(self).misses()
                } else {
                    r@ == interval_shards(old(self).strategy(), old(self).configs(), start, end)
                        && final(self).misses() == old(self).misses() + 1
                        && final(self).hits() == old(self).hits()
                },
                (true, None) => r@ == interval_shards(old(self).strategy(), old(self).configs(), start, end)
                    && final(self).misses() == old(self).misses() + 1
                    && final(self).hits() == old(self).hits(),
                (false, _) => r@ == interval_shards(old(self).strategy(), old(self).configs(), start, end)
                    && final(self).misses() == old(self).misses()
                    && final(self).hits() == old(self).hits(),
            },
    {
        let bucket_key = make_interval_key(start, end);
        if self.cache_config.enabled {
            let cached = self.time_cache.get(&bucket_key, now);
            match cached {
                Some(v) => {
                    self.cache_hits = self.cache_hits + 1;
                    proof {
                        crate::lru::lemma_slot_index(old(self).time_cache.slots(), bucket_key@);
                        let k = slot_index(old(self).time_cache.slots(), bucket_key@).unwrap();
                        let orig = old(self).time_cache.slots()[k].value;
                        if v != orig {
                            assert(v@ =~= orig@);
                        }
                    }
                    return v;
                },
                None => {
                    self.cache_misses = self.cache_misses + 1;
                },
            }
        }
        let indices = self.compute_interval_shards(start, end);
        if self.cache_config.enabled {
            let ttl = self.cache_config.time_cache_ttl;
            let copy = indices.clone();
            self.time_cache.put(bucket_key, copy, Some(ttl), now);
        }
        indices
    }

    /// Drops every cached decision and resets the hit and miss counts.
    pub fn clear_caches(&mut self)
        requires
            old(self).wf(),
        ensures
            final(self).wf(),
            final(self).configs() == old(self).configs(),
            final(self).strategy() == old(self).strategy(),
            final(self).ring_map() == old(self).ring_map(),
            final(self).cache_config() == old(self).cache_config(),
            final(self).cache_capacity() == old(self).cache_capacity(),
            final(self).key_slots().len() == 0,
            final(self).time_slots().len() == 0,
            final(self).hits() == 0,
            final(self).misses() == 0,
    {
        self.key_cache.clear();
        self.time_cache.clear();
        self.cache_hits = 0;
        self.cache_misses = 0;
    }

    /// Replaces the cache settings; turning caching off clears the caches.
    /// The room in the caches stays what it was when they were made.
    pub fn update_cache_config(&mut self, config: CacheConfig)
        requires
            old(self).wf(),
        ensures
            final(self).wf(),
            final(self).configs() == old(self).configs(),
            final(self).strategy() == old(self).strategy(),
            final(self).ring_map() == old(self).ring_map(),
            final(self).cache_config() == config,
            final(self).cache_capacity() == old(self).cache_capacity(),
            config.enabled ==> final(self).key_slots() == old(self).key_slots()
                && final(self).time_slots() == old(self).time_slots()
                && final(self).hits() == old(self).hits()
                && final(self).misses() == old(self).misses(),
            !config.enabled ==> final(self).key_slots().len() == 0 && final(self).time_slots().len() == 0
                && final(self).hits() == 0 && final(self).misses() == 0,
    {
        self.cache_config = config;
        if !self.cache_config.enabled {
            self.clear_caches();
        }
    }

    /// Computes and caches the shard of each key, when caching is on.
    pub fn preload_cache(&mut self, keys: &Vec<String>, now: u64)
        requires
            old(self).wf(),
            old(self).strategy() == ShardingStrategy::KeyHash ==> old(self).configs().len() > 0,
            old(self).cache_config().enabled ==> old(self).cache_capacity() > 0,
            old(self).cache_config().enabled ==> now + old(self).cache_config().key_cache_ttl <= u64::MAX,
        ensures
            final(self).wf(),
            final(self).configs() == old(self).configs(),
            final(self).strategy() == old(self).strategy(),
            final(self).ring_map() == old(self).ring_map(),
            final(self).cache_config() == old(self).cache_config(),
            final(self).cache_capacity() == old(self).cache_capacity(),
            final(self).hits() == old(self).hits(),
            final(self).misses() == old(self).misses(),
            final(self).time_slots() == old(self).time_slots(),
            !old(self).cache_config().enabled ==> final(self).key_slots() == old(self).key_slots(),
            old(self).cache_config().enabled && keys@.len() > 0 ==> lookup(final(self).key_slots(), keys@.last()@) is Some,
    {
        if !self.cache_config.enabled {
            return;
        }
        let mut i: usize = 0;
        while i < keys.len()
            invariant
                self.wf(),
                i <= keys@.len(),
                self.shard_configs@ == old(self).shard_configs@,
                self.strategy == old(self).strategy,
                self.ring@ == old(self).ring@,
                self.cache_config == old(self).cache_config,
                self.cache_config.enabled,
                self.key_cache.capacity() == old(self).key_cache.capacity(),
                self.key_cache.capacity() > 0,
                self.strategy == ShardingStrategy::KeyHash ==> self.shard_configs@.len() > 0,
                now + self.cache_config.key_cache_ttl <= u64::MAX,
                self.cache_hits == old(self).cache_hits,
                self.cache_misses == old(self).cache_misses,
                self.time_cache.slots() == old(self).time_cache.slots(),
                i > 0 ==> lookup(self.key_cache.slots(), keys@[i - 1]@) is Some,
            decreases keys@.len() - i,
        {
            let idx = self.compute_shard_for_key(keys[i].as_str());
            let ghost before = self.key_cache.slots();
            let ttl = self.cache_config.key_cache_ttl;
            let k = keys[i].clone();
            self.key_cache.put(k, idx, Some(ttl), now);
            proof {
                let after = self.key_cache.slots();
                let new_slot = Slot { key: keys@[i as int]@, value: idx, expires_at: (now + ttl) as u64 };
                crate::lru::lemma_put_keeps(before, self.key_cache.capacity(), new_slot);
                assert forall|j: int| 0 <= j < after.len() implies routes_to(
                    self.strategy,
                    self.shard_configs@,
                    pairs_map(self.ring@),
                    #[trigger] after[j].key,
                    after[j].value,
                ) by {
                    if j > 0 {
                        let m = choose|m: int| 0 <= m < before.len() && before[m] == after[j];
                        assert(routes_to(self.strategy, self.shard_configs@, pairs_map(self.ring@), before[m].key, before[m].value));
                    }
                }
                crate::lru::lemma_slot_index_unique(after, new_slot.key, 0);
            }
            i += 1;
        }
    }

    fn rebuild_ring(&mut self)
        requires
            hashes_unique(old(self).ring@),
        ensures
            hashes_unique(final(self).ring@),
            final(self).shard_configs == old(self).shard_configs,
            final(self).strategy == old(self).strategy,
            final(self).key_cache == old(self).key_cache,
            final(self).time_cache == old(self).time_cache,
            final(self).cache_config == old(self).cache_config,
            final(self).cache_hits == old(self).cache_hits,
            final(self).cache_misses == old(self).cache_misses,
            final(self).strategy == ShardingStrategy::ConsistentHash ==> pairs_map(final(self).ring@) == ring_of(
                config_names(final(self).shard_configs@),
                VIRTUAL_NODES as nat,
                final(self).shard_configs@.len() as nat,
            ),
    {
        if self.strategy == ShardingStrategy::ConsistentHash {
            let names = self.names();
            self.ring = build_ring(&names, VIRTUAL_NODES);
        }
    }

    /// Adds a shard at the end; the caches are cleared and the ring rebuilt.
    pub fn add_shard(&mut self, config: ShardConfig)
        requires
            old(self).wf(),
        ensures
            final(self).wf(),
            final(self).configs() == old(self).configs().push(config),
            final(self).strategy() == old(self).strategy(),
            final(self).cache_config() == old(self).cache_config(),
            final(self).cache_capacity() == old(self).cache_capacity(),
            final(self).key_slots().len() == 0,
            final(self).time_slots().len() == 0,
            final(self).hits() == 0,
            final(self).misses() == 0,
    {
        self.shard_configs.push(config);
        self.key_cache.clear();
        self.time_cache.clear();
        self.cache_hits = 0;
        self.cache_misses = 0;
        self.rebuild_ring();
    }

    /// Removes the first shard named `shard_name`, if any; when one is
    /// removed the caches are cleared and the ring rebuilt.
    pub fn remove_shard(&mut self, shard_name: &str)
        requires
            old(self).wf(),
        ensures
            final(self).wf(),
            final(self).strategy() == old(self).strategy(),
            final(self).cache_config() == old(self).cache_config(),
            final(self).cache_capacity() == old(self).cache_capacity(),
            (forall|i: int| 0 <= i < old(self).configs().len() ==> #[trigger] old(self).configs()[i].name@ != shard_name@)
                ==> final(self).configs() == old(self).configs(),
            forall|i: int| 0 <= i < old(self).configs().len() && old(self).configs()[i].name@ == shard_name@
                && (forall|j: int| 0 <= j < i ==> #[trigger] old(self).configs()[j].name@ != shard_name@)
                ==> final(self).configs() == old(self).configs().remove(i) && final(self).key_slots().len() == 0
                && final(self).time_slots().len() == 0 && final(self).hits() == 0 && final(self).misses() == 0,
    {
        match self.position_of(shard_name) {
            Some(i) => {
                self.shard_configs.remove(i);
                self.key_cache.clear();
                self.time_cache.clear();
                self.cache_hits = 0;
                self.cache_misses = 0;
                self.rebuild_ring();
                proof {
                    assert forall|k: int| 0 <= k < old(self).configs().len() && old(self).configs()[k].name@ == shard_name@
                        && (forall|j: int| 0 <= j < k ==> #[trigger] old(self).configs()[j].name@ != shard_name@)
                        implies k == i by {
                        if k < i {
                        } else if k > i {
                            assert(old(self).configs()[i as int].name@ != shard_name@);
                        }
                    }
                }
            },
            None => {},
        }
    }

    fn position_of(&self, shard_name: &str) -> (r: Option<usize>)
        ensures
            match r {
                Some(i) => i < self.shard_configs@.len() && self.shard_configs@[i as int].name@ == shard_name@
                    && forall|j: int| 0 <= j < i ==> #[trigger] self.shard_configs@[j].name@ != shard_name@,
                None => forall|j: int| 0 <= j < self.shard_configs@.len() ==> #[trigger] self.shard_configs@[j].name@ != shard_name@,
            },
    {
        let target = shard_name.to_owned();
        let mut i: usize = 0;
        while i < self.shard_configs.len()
            invariant
                i <= self.shard_configs@.len(),
                target@ == shard_name@,
                forall|j: int| 0 <= j < i ==> #[trigger] self.shard_configs@[j].name@ != shard_name@,
            decreases self.shard_configs@.len() - i,
        {
            if self.shard_configs[i].name == target {
                return Some(i);
            }
            i += 1;
        }
        None
    }

    /// Per-shard figures, given the number of keys each shard holds.
    pub fn shard_statistics(&self, key_counts: &Vec<usize>) -> (s: ShardStatistics)
        requires
            key_counts@.len() == self.configs().len(),
        ensures
            s.total_shards == self.configs().len(),
            s.shard_details@.len() == self.configs().len(),
            forall|i: int| 0 <= i < s.shard_details@.len() ==> {
                &&& (#[trigger] s.shard_details@[i]).name@ == self.configs()[i].name@
                &&& s.shard_details@[i].index == i
                &&& s.shard_details@[i].key_count == key_counts@[i]
                &&& s.shard_details@[i].strategy == self.strategy()
            },
            s.key_distribution@.len() == 0,
    {
        let mut details: Vec<ShardDetail> = Vec::new();
        let mut i: usize = 0;
        while i < self.shard_configs.len()
            invariant
                i <= self.shard_configs@.len(),
                key_counts@.len() == self.shard_configs@.len(),
                details@.len() == i,
                forall|k: int| 0 <= k < i ==> {
                    &&& (#[trigger] details@[k]).name@ == self.shard_configs@[k].name@
                    &&& details@[k].index == k
                    &&& details@[k].key_count == key_counts@[k]
                    &&& details@[k].strategy == self.strategy
                },
            decreases self.shard_configs@.len() - i,
        {
            details.push(ShardDetail {
                name: self.shard_configs[i].name.clone(),
                index: i,
                key_count: key_counts[i],
                strategy: self.strategy,
            });
            i += 1;
        }
        ShardStatistics { total_shards: self.shard_configs.len(), shard_details: details, key_distribution: Vec::new() }
    }

    /// The hit and miss counts, the number of cached decisions and the
    /// configured cache size.
    pub fn cache_statistics(&self) -> (s: RouterCacheStats)
        requires
            self.wf(),
        ensures
            s.hits == self.hits(),
            s.misses == self.misses(),
            s.size == if self.key_slots().len() + self.time_slots().len() <= usize::MAX {
                self.key_slots().len() + self.time_slots().len()
            } else {
                usize::MAX as nat
            },
            s.capacity == self.cache_config().max_size,
    {
        let a = self.key_cache.len();
        let b = self.time_cache.len();
        let size = if a <= usize::MAX - b { a + b } else { usize::MAX };
        RouterCacheStats { hits: self.cache_hits, misses: self.cache_misses, size, capacity: self.cache_config.max_size }
    }
}

/// Collects shard configurations and settings, then builds a router.
pub struct ShardManagerBuilder {
    pub configs: Vec<ShardConfig>,
    pub strategy: ShardingStrategy,
    pub cache_config: CacheConfig,
}

/// `ttl_seconds` in milliseconds, held at the largest value when it does
/// not fit.
pub open spec fn secs_to_millis(ttl_seconds: u64) -> u64 {
    if ttl_seconds <= u64::MAX / 1000 { (ttl_seconds * 1000) as u64 } else { u64::MAX }
}

impl ShardManagerBuilder {
    /// No shards, key hashing, default caching.
    pub fn new() -> (b: Self)
        ensures
            b.configs@.len() == 0,
            b.strategy == ShardingStrategy::KeyHash,
            b.cache_config == default_cache_config(),
    {
        ShardManagerBuilder { configs: Vec::new(), strategy: ShardingStrategy::KeyHash, cache_config: CacheConfig::default() }
    }

    pub fn with_strategy(self, strategy: ShardingStrategy) -> (b: Self)
        ensures
            b.configs == self.configs,
            b.strategy == strategy,
            b.cache_config == self.cache_config,
    {
        ShardManagerBuilder { strategy, ..self }
    }

    pub fn with_cache_config(self, cache_config: CacheConfig) -> (b: Self)
        ensures
            b.configs == self.configs,
            b.strategy == self.strategy,
            b.cache_config == cache_config,
    {
        ShardManagerBuilder { cache_config, ..self }
    }

    pub fn disable_cache(self) -> (b: Self)
        ensures
            b.configs == self.configs,
            b.strategy == self.strategy,
            b.cache_config == (CacheConfig { enabled: false, ..self.cache_config }),
    {
        let mut b = self;
        b.cache_config.enabled = false;
        b
    }

    /// Sets all three times to live to `ttl_seconds`.
    pub fn set_cache_ttl(self, ttl_seconds: u64) -> (b: Self)
        ensures
            b.configs == self.configs,
            b.strategy == self.strategy,
            b.cache_config == (CacheConfig {
                default_ttl: secs_to_millis(ttl_seconds),
                key_cache_ttl: secs_to_millis(ttl_seconds),
                time_cache_ttl: secs_to_millis(ttl_seconds),
                ..self.cache_config
            }),
    {
        let ms = if ttl_seconds <= u64::MAX / 1000 { ttl_seconds * 1000 } else { u64::MAX };
        let mut b = self;
        b.cache_config.default_ttl = ms;
        b.cache_config.key_cache_ttl = ms;
        b.cache_config.time_cache_ttl = ms;
        b
    }

    /// Adds a shard that uses the builder's current strategy.
    pub fn add_shard(self, name: &str, db_path: &str) -> (b: Self)
        ensures
            b.strategy == self.strategy,
            b.cache_config == self.cache_config,
            b.configs@.len() == self.configs@.len() + 1,
            b.configs@.drop_last() == self.configs@,
            b.configs@.last().name@ == name@,
            b.configs@.last().db_path@ == db_path@,
            b.configs@.last().strategy == self.strategy,
            b.configs@.last().key_range.is_none(),
            b.configs@.last().time_range.is_none(),
    {
        let mut b = self;
        let strategy = b.strategy;
        b.configs.push(ShardConfig {
            name: name.to_owned(),
            db_path: db_path.to_owned(),
            strategy,
            key_range: None,
            time_range: None,
        });
        assert(b.configs@.drop_last() =~= self.configs@);
        b
    }

    /// Adds a shard serving the keys from `start` to `end` (both included).
    pub fn add_key_range_shard(self, name: &str, db_path: &str, start: &str, end: &str) -> (b: Self)
        ensures
            b.strategy == self.strategy,
            b.cache_config == self.cache_config,
            b.configs@.len() == self.configs@.len() + 1,
            b.configs@.drop_last() == self.configs@,
            b.configs@.last().name@ == name@,
            b.configs@.last().db_path@ == db_path@,
            b.configs@.last().strategy == ShardingStrategy::KeyPrefix,
            b.configs@.last().key_range matches Some((s, e)) && s@ == start@ && e@ == end@,
            b.configs@.last().time_range.is_none(),
    {
        let mut b = self;
        b.configs.push(ShardConfig {
            name: name.to_owned(),
            db_path: db_path.to_owned(),
            strategy: ShardingStrategy::KeyPrefix,
            key_range: Some((start.to_owned(), end.to_owned())),
            time_range: None,
        });
        assert(b.configs@.drop_last() =~= self.configs@);
        b
    }

    /// Adds a shard serving the times from `start` to `end` (nanoseconds
    /// since the Unix epoch, both included).
    pub fn add_time_range_shard(self, name: &str, db_path: &str, start: i64, end: i64) -> (b: Self)
        ensures
            b.strategy == self.strategy,
            b.cache_config == self.cache_config,
            b.configs@.len() == self.configs@.len() + 1,
            b.configs@.drop_last() == self.configs@,
            b.configs@.last().name@ == name@,
            b.configs@.last().db_path@ == db_path@,
            b.configs@.last().strategy == ShardingStrategy::TimeRange,
            b.configs@.last().key_range.is_none(),
            b.configs@.last().time_range == Some((start, end)),
    {
        let mut b = self;
        b.configs.push(ShardConfig {
            name: name.to_owned(),
            db_path: db_path.to_owned(),
            strategy: ShardingStrategy::TimeRange,
            key_range: None,
            time_range: Some((start, end)),
        });
        assert(b.configs@.drop_last() =~= self.configs@);
        b
    }

    /// The router over the collected shards.
    pub fn build(self) -> (r: ShardRouter)
        ensures
            r.wf(),
            r.configs() == self.configs@,
            r.strategy() == self.strategy,
            r.cache_config() == self.cache_config,
            r.cache_capacity() == self.cache_config.max_size,
            r.hits() == 0,
            r.misses() == 0,
    {
        ShardRouter::new_with_cache_config(self.configs, self.strategy, self.cache_config)
    }
}

} // verus!
