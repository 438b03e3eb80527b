use vstd::prelude::*;

use crate::ring::{default_str_hash, hash_key};
use crate::telemetry::{contains_seq, str_contains};
use crate::text::{push_char, push_str};
use crate::glob::has_prefix;
use crate::strmap::StrMap;

verus! {

/// A shard known to the distribution manager.
pub struct ShardInfo {
    pub name: String,
    pub path: String,
    pub key_count: usize,
}

/// Why no target shard could be chosen.
#[derive(Clone, Copy, PartialEq, Eq, Structural, Debug)]
pub enum RoutingError {
    NoShards,
}

/// Why a shard could not be added.
#[derive(Clone, Copy, PartialEq, Eq, Structural, Debug)]
pub enum AddShardError {
    AlreadyExists,
}

/// The key to shard assignments made by writes; a key maps to one shard name.
pub type RoutingTable = StrMap;

/// Keys kept on the first shard: the routing index itself, the root path,
/// anything about metadata, and internal keys.
pub open spec fn is_reserved_key(key: Seq<char>) -> bool {
    key == "system.index"@ || key == "/"@ || contains_seq(key, "metadata"@) || has_prefix(key, ".system"@)
}

/// Whether `key` is kept on the first shard.
pub fn reserved_key(key: &str) -> (b: bool)
    ensures
        b == is_reserved_key(key@),
{
    let k = key.to_owned();
    k == "system.index".to_owned() || k == "/".to_owned() || str_contains(key, "metadata")
        || crate::text::str_starts_with(key, ".system")
}

/// The line that records an assignment in the routing index:
/// `<key>:<shard>` and a newline.
pub open spec fn index_entry_of(key: Seq<char>, target: Seq<char>) -> Seq<char> {
    key + seq![':'] + target + seq!['\n']
}

/// Builds the routing index line for an assignment.
pub fn index_entry(key: &str, target: &str) -> (s: String)
    ensures
        s@ == index_entry_of(key@, target@),
{
    let mut s = String::new();
    push_str(&mut s, key);
    push_char(&mut s, ':');
    push_str(&mut s, target);
    push_char(&mut s, '\n');
    assert(s@ =~= index_entry_of(key@, target@));
    s
}

/// Chooses shards for keys: reserved keys go to the first shard, keys
/// already assigned keep their shard, reads of other keys go by hash, and
/// writes of new keys are assigned round robin and remembered.
pub struct DistributionRouter {
    shards: Vec<ShardInfo>,
    routing_table: RoutingTable,
    round_robin_counter: usize,
}

/// The names of the shards, in order.
pub open spec fn shard_names(s: Seq<ShardInfo>) -> Seq<Seq<char>> {
    s.map_values(|i: ShardInfo| i.name@)
}

/// The shards as plain data: name, path and key count.
pub open spec fn shard_infos(s: Seq<ShardInfo>) -> Seq<(Seq<char>, Seq<char>, nat)> {
    s.map_values(|i: ShardInfo| (i.name@, i.path@, i.key_count as nat))
}

/// The sum of the key counts of the shards.
pub open spec fn total_keys(s: Seq<(Seq<char>, Seq<char>, nat)>) -> nat
    decreases s.len(),
{
    if s.len() == 0 {
        0
    } else {
        total_keys(s.drop_last()) + s.last().2
    }
}

/// Every key assigned a shard in `before` has the same shard in `after`.
pub open spec fn keeps_assignments(before: DistributionRouter, after: DistributionRouter) -> bool {
    forall|k: Seq<char>| #[trigger] before.table().contains_key(k)
        ==> after.table().contains_key(k) && after.table()[k] == before.table()[k]
}

/// A key once assigned a shard keeps it through any run of routings (each
/// of which keeps the assignments, as `get_target_shard` does): reads and
/// rewrites of the key are then sent to that shard.
pub proof fn lemma_assignment_sticks(rs: Seq<DistributionRouter>, key: Seq<char>)
    requires
        rs.len() > 0,
        forall|i: int| 0 <= i < rs.len() - 1 ==> keeps_assignments(rs[i], #[trigger] rs[i + 1]),
        rs[0].table().contains_key(key),
    ensures
        rs.last().table().contains_key(key),
        rs.last().table()[key] == rs[0].table()[key],
    decreases rs.len(),
{
    if rs.len() > 1 {
        let d = rs.drop_last();
        assert forall|i: int| 0 <= i < d.len() - 1 implies keeps_assignments(d[i], #[trigger] d[i + 1]) by {
            assert(d[i] == rs[i] && d[i + 1] == rs[i + 1]);
        }
        assert(d[0] == rs[0]);
        lemma_assignment_sticks(d, key);
        let n = rs.len() - 1;
        assert(d.last() == rs[n - 1]);
        assert(keeps_assignments(rs[n - 1], rs[n - 1 + 1]));
        assert(rs.last() == rs[n]);
    }
}

impl DistributionRouter {
    pub closed spec fn names(&self) -> Seq<Seq<char>> {
        shard_names(self.shards@)
    }

    /// Each shard's name, path and key count, in order.
    pub closed spec fn infos(&self) -> Seq<(Seq<char>, Seq<char>, nat)> {
        shard_infos(self.shards@)
    }

    pub closed spec fn table(&self) -> Map<Seq<char>, Seq<char>> {
        self.routing_table.view()
    }

    pub closed spec fn counter(&self) -> usize {
        self.round_robin_counter
    }

    pub closed spec fn wf(&self) -> bool {
        self.routing_table.wf()
    }

    /// A router over the given shards, with the assignments of `table` and
    /// the round robin counter at `counter`.
    pub fn new(shards: Vec<ShardInfo>, table: RoutingTable, counter: usize) -> (r: Self)
        requires
            table.wf(),
        ensures
            r.wf(),
            r.names() == shard_names(shards@),
            r.infos() == shard_infos(shards@),
            r.table() == table.view(),
            r.counter() == counter,
    {
        DistributionRouter { shards, routing_table: table, round_robin_counter: counter }
    }

    /// The shard for `key`. Fails when there are no shards. Reserved keys go
    /// to the first shard; an assigned key to its shard; a read of any other
    /// key to the shard at its hash modulo the number of shards; a write of
    /// any other key to the shard at the round robin counter modulo the
    /// number of shards, which is then assigned to the key, and the counter
    /// moves on by one (wrapping).
    pub fn get_target_shard(&mut self, key: &str, is_write: bool) -> (r: Result<String, RoutingError>)
        requires
            old(self).wf(),
        ensures
            final(self).wf(),
            final(self).names() == old(self).names(),
            final(self).infos() == old(self).infos(),
            keeps_assignments(*old(self), *final(self)),
            !is_reserved_key(key@) && (is_write || old(self).table().contains_key(key@)) ==> (r matches Ok(t)
                ==> final(self).table().contains_key(key@) && final(self).table()[key@] == t@),
            ({
                let names = old(self).names();
                let n = names.len();
                if n == 0 {
                    r == Err::<String, RoutingError>(RoutingError::NoShards) && final(self).table() == old(self).table()
                        && final(self).counter() == old(self).counter()
                } else if is_reserved_key(key@) {
                    r matches Ok(t) && t@ == names[0] && final(self).table() == old(self).table()
                        && final(self).counter() == old(self).counter()
                } else if old(self).table().contains_key(key@) {
                    r matches Ok(t) && t@ == old(self).table()[key@] && final(self).table() == old(self).table()
                        && final(self).counter() == old(self).counter()
                } else if !is_write {
                    r matches Ok(t) && t@ == names[((default_str_hash(key@) as usize) % (n as usize)) as int]
                        && final(self).table() == old(self).table() && final(self).counter() == old(self).counter()
                } else {
                    let idx = (old(self).counter() % (n as usize)) as int;
                    &&& r matches Ok(t) && t@ == names[idx]
                    &&& final(self).table() == old(self).table().insert(key@, names[idx])
                    &&& final(self).counter() == old(self).counter().wrapping_add(1)
                }
            }),
    {
        let n = self.shards.len();
        if n == 0 {
            return Err(RoutingError::NoShards);
        }
        if reserved_key(key) {
            return Ok(self.shards[0].name.clone());
        }
        match self.routing_table.get(key) {
            Some(t) => {
                return Ok(t);
            },
            None => {},
        }
        if !is_write {
            let h = hash_key(key);
            let idx = (h as usize) % n;
            return Ok(self.shards[idx].name.clone());
        }
        let idx = self.round_robin_counter % n;
        self.round_robin_counter = self.round_robin_counter.wrapping_add(1);
        let target = self.shards[idx].name.clone();
        self.routing_table.insert(key.to_owned(), target.clone());
        Ok(target)
    }

    /// Where the round robin stands.
    pub fn round_robin_position(&self) -> (c: usize)
        ensures
            c == self.counter(),
    {
        self.round_robin_counter
    }

    /// Takes `n` consecutive turns of the round robin: returns where they
    /// start and moves the counter on by `n` (wrapping).
    pub fn take_turns(&mut self, n: usize) -> (start: usize)
        requires
            old(self).wf(),
        ensures
            final(self).wf(),
            start == old(self).counter(),
            final(self).counter() == old(self).counter().wrapping_add(n),
            final(self).names() == old(self).names(),
            final(self).infos() == old(self).infos(),
            final(self).table() == old(self).table(),
    {
        let start = self.round_robin_counter;
        self.round_robin_counter = self.round_robin_counter.wrapping_add(n);
        start
    }

    /// The number of shards.
    pub fn shard_count(&self) -> (n: usize)
        ensures
            n == self.names().len(),
    {
        self.shards.len()
    }

    /// Whether a shard has this name.
    pub fn shard_exists(&self, shard_name: &str) -> (b: bool)
        ensures
            b == self.names().contains(shard_name@),
    {
        let target = shard_name.to_owned();
        let mut i: usize = 0;
        while i < self.shards.len()
            invariant
                i <= self.shards@.len(),
                target@ == shard_name@,
                forall|j: int| 0 <= j < i ==> self.shards@[j].name@ != shard_name@,
            decreases self.shards@.len() - i,
        {
            if self.shards[i].name == target {
                assert(self.names()[i as int] == shard_name@);
                return true;
            }
            i += 1;
        }
        proof {
            if self.names().contains(shard_name@) {
                let j = choose|j: int| 0 <= j < self.names().len() && self.names()[j] == shard_name@;
                assert(self.shards@[j].name@ == shard_name@);
            }
        }
        false
    }

    /// The names of all shards, in order.
    pub fn get_all_shard_names(&self) -> (r: Vec<String>)
        ensures
            r@.map_values(|s: String| s@) == self.names(),
    {
        let mut out: Vec<String> = Vec::new();
        let mut i: usize = 0;
        while i < self.shards.len()
            invariant
                i <= self.shards@.len(),
                out@.len() == i,
                forall|k: int| 0 <= k < i ==> #[trigger] out@[k]@ == self.shards@[k].name@,
            decreases self.shards@.len() - i,
        {
            out.push(self.shards[i].name.clone());
            i += 1;
        }
        assert(out@.map_values(|s: String| s@) =~= self.names());
        out
    }

    /// The number of records over all shards, the sum of their key counts,
    /// and each shard's name with its key count, in order.
    pub fn distribution_counts(&self) -> (r: (usize, Vec<(String, usize)>))
        requires
            total_keys(self.infos()) <= usize::MAX,
        ensures
            r.0 == total_keys(self.infos()),
            r.1@.len() == self.infos().len(),
            forall|k: int| #![trigger r.1@[k]] 0 <= k < r.1@.len()
                ==> r.1@[k].0@ == self.infos()[k].0 && r.1@[k].1 == self.infos()[k].2,
    {
        let ghost infos = self.infos();
        let mut total: usize = 0;
        let mut out: Vec<(String, usize)> = Vec::new();
        let mut i: usize = 0;
        while i < self.shards.len()
            invariant
                infos == shard_infos(self.shards@),
                total_keys(infos) <= usize::MAX,
                i <= self.shards@.len(),
                total == total_keys(infos.take(i as int)),
                out@.len() == i,
                forall|k: int| #![trigger out@[k]] 0 <= k < i
                    ==> out@[k].0@ == infos[k].0 && out@[k].1 == infos[k].2,
            decreases self.shards@.len() - i,
        {
            proof {
                assert(infos.take(i + 1).drop_last() =~= infos.take(i as int));
                lemma_total_keys_prefix(infos, i + 1);
            }
            total = total + self.shards[i].key_count;
            out.push((self.shards[i].name.clone(), self.shards[i].key_count));
            i += 1;
        }
        assert(infos.take(i as int) =~= infos);
        (total, out)
    }

    /// Adds a shard with no keys; fails if the name is taken.
    pub fn add_shard(&mut self, name: &str, path: &str) -> (r: Result<(), AddShardError>)
        requires
            old(self).wf(),
        ensures
            final(self).wf(),
            final(self).table() == old(self).table(),
            final(self).counter() == old(self).counter(),
            old(self).names().contains(name@) ==> r == Err::<(), AddShardError>(AddShardError::AlreadyExists)
                && final(self).names() == old(self).names() && final(self).infos() == old(self).infos(),
            !old(self).names().contains(name@) ==> r is Ok && final(self).names() == old(self).names().push(name@)
                && final(self).infos() == old(self).infos().push((name@, path@, 0nat)),
    {
        if self.shard_exists(name) {
            return Err(AddShardError::AlreadyExists);
        }
        let ghost before = self.shards@;
        self.shards.push(ShardInfo { name: name.to_owned(), path: path.to_owned(), key_count: 0 });
        assert(shard_names(self.shards@) =~= shard_names(before).push(name@));
        assert(shard_infos(self.shards@) =~= shard_infos(before).push((name@, path@, 0nat)));
        Ok(())
    }

    /// Removes the first shard with this name; tells whether one was removed.
    pub fn remove_shard(&mut self, name: &str) -> (removed: bool)
        requires
            old(self).wf(),
        ensures
            final(self).wf(),
            final(self).table() == old(self).table(),
            final(self).counter() == old(self).counter(),
            removed == old(self).names().contains(name@),
            !removed ==> final(self).names() == old(self).names() && final(self).infos() == old(self).infos(),
            removed ==> exists|i: int| 0 <= i < old(self).names().len() && old(self).names()[i] == name@
                && (forall|j: int| 0 <= j < i ==> old(self).names()[j] != name@)
                && final(self).names() == old(self).names().remove(i)
                && final(self).infos() == old(self).infos().remove(i),
    {
        let target = name.to_owned();
        let mut i: usize = 0;
        while i < self.shards.len()
            invariant
                i <= self.shards@.len(),
                self.shards@ == old(self).shards@,
                self.routing_table == old(self).routing_table,
                self.routing_table.wf(),
                self.round_robin_counter == old(self).round_robin_counter,
                target@ == name@,
                forall|j: int| 0 <= j < i ==> self.shards@[j].name@ != name@,
            decreases self.shards@.len() - i,
        {
            if self.shards[i].name == target {
                let ghost before = self.shards@;
                self.shards.remove(i);
                assert(shard_names(self.shards@) =~= shard_names(before).remove(i as int));
                assert(shard_infos(self.shards@) =~= shard_infos(before).remove(i as int));
                assert(shard_names(before)[i as int] == name@);
                assert(forall|j: int| 0 <= j < i ==> shard_names(before)[j] != name@);
                assert(0 <= i < old(self).names().len() && old(self).names()[i as int] == name@
                    && (forall|j: int| 0 <= j < i ==> old(self).names()[j] != name@)
                    && self.names() == old(self).names().remove(i as int)
                    && self.infos() == old(self).infos().remove(i as int));
                return true;
            }
            i += 1;
        }
        proof {
            if old(self).names().contains(name@) {
                let j = choose|j: int| 0 <= j < old(self).names().len() && old(self).names()[j] == name@;
                assert(self.shards@[j].name@ == name@);
            }
        }
        false
    }
}

proof fn lemma_total_keys_prefix(s: Seq<(Seq<char>, Seq<char>, nat)>, n: int)
    requires
        0 <= n <= s.len(),
    ensures
        total_keys(s.take(n)) <= total_keys(s),
    decreases s.len() - n,
{
    if n < s.len() {
        lemma_total_keys_prefix(s, n + 1);
        assert(s.take(n + 1).drop_last() =~= s.take(n));
    } else {
        assert(s.take(n) =~= s);
    }
}

/// Which routing cache to clear: the time-bucket cache, the key-cluster
/// cache, or both.
pub enum CacheType {
    TimeBucket,
    KeyCluster,
    All,
}

} // verus!
