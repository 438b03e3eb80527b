use vstd::prelude::*;

use vstd::string::StringSliceAdditionalSpecFns;

use crate::bloom::{lemma_insert_then_contains, marks, BloomFilter};
use crate::rca::{lemma_trunc_div_range, trunc_div};
use crate::blob::opt_view;
use crate::text::{int_decimal, push_char, push_i64_decimal, push_str};

verus! {

/// Counters of one ingestion run.
#[derive(Clone, Debug)]
pub struct IngestionStats {
    pub total_lines_read: usize,
    pub total_records_parsed: usize,
    pub total_records_stored: usize,
    pub failed_parses: usize,
    pub batches_processed: usize,
    pub shards_created: usize,
    pub download_size_bytes: u64,
    pub ingestion_duration_ms: u64,
    pub duplicates_filtered: usize,
    pub primary_records: usize,
    pub secondary_records: usize,
    pub embeddings_computed: usize,
    pub similarity_matches: usize,
}

/// All counters are zero.
pub open spec fn stats_zero(s: IngestionStats) -> bool {
    &&& s.total_lines_read == 0
    &&& s.total_records_parsed == 0
    &&& s.total_records_stored == 0
    &&& s.failed_parses == 0
    &&& s.batches_processed == 0
    &&& s.shards_created == 0
    &&& s.download_size_bytes == 0
    &&& s.ingestion_duration_ms == 0
    &&& s.duplicates_filtered == 0
    &&& s.primary_records == 0
    &&& s.secondary_records == 0
    &&& s.embeddings_computed == 0
    &&& s.similarity_matches == 0
}

impl IngestionStats {
    /// All counters at zero.
    pub fn default() -> (s: Self)
        ensures
            stats_zero(s),
    {
        IngestionStats {
            total_lines_read: 0,
            total_records_parsed: 0,
            total_records_stored: 0,
            failed_parses: 0,
            batches_processed: 0,
            shards_created: 0,
            download_size_bytes: 0,
            ingestion_duration_ms: 0,
            duplicates_filtered: 0,
            primary_records: 0,
            secondary_records: 0,
            embeddings_computed: 0,
            similarity_matches: 0,
        }
    }

    /// Adds the counters of one processed batch: batches, stored records,
    /// shards, duplicates, primary and secondary records, embeddings and
    /// similarity matches. Lines read, records parsed, failed parses, the
    /// download size and the duration are the run's own and stay.
    pub fn add_batch(&mut self, b: &IngestionStats)
        requires
            old(self).batches_processed + b.batches_processed <= usize::MAX,
            old(self).total_records_stored + b.total_records_stored <= usize::MAX,
            old(self).shards_created + b.shards_created <= usize::MAX,
            old(self).duplicates_filtered + b.duplicates_filtered <= usize::MAX,
            old(self).primary_records + b.primary_records <= usize::MAX,
            old(self).secondary_records + b.secondary_records <= usize::MAX,
            old(self).embeddings_computed + b.embeddings_computed <= usize::MAX,
            old(self).similarity_matches + b.similarity_matches <= usize::MAX,
        ensures
            final(self).batches_processed == old(self).batches_processed + b.batches_processed,
            final(self).total_records_stored == old(self).total_records_stored + b.total_records_stored,
            final(self).shards_created == old(self).shards_created + b.shards_created,
            final(self).duplicates_filtered == old(self).duplicates_filtered + b.duplicates_filtered,
            final(self).primary_records == old(self).primary_records + b.primary_records,
            final(self).secondary_records == old(self).secondary_records + b.secondary_records,
            final(self).embeddings_computed == old(self).embeddings_computed + b.embeddings_computed,
            final(self).similarity_matches == old(self).similarity_matches + b.similarity_matches,
            final(self).total_lines_read == old(self).total_lines_read,
            final(self).total_records_parsed == old(self).total_records_parsed,
            final(self).failed_parses == old(self).failed_parses,
            final(self).download_size_bytes == old(self).download_size_bytes,
            final(self).ingestion_duration_ms == old(self).ingestion_duration_ms,
    {
        self.batches_processed = self.batches_processed + b.batches_processed;
        self.total_records_stored = self.total_records_stored + b.total_records_stored;
        self.shards_created = self.shards_created + b.shards_created;
        self.duplicates_filtered = self.duplicates_filtered + b.duplicates_filtered;
        self.primary_records = self.primary_records + b.primary_records;
        self.secondary_records = self.secondary_records + b.secondary_records;
        self.embeddings_computed = self.embeddings_computed + b.embeddings_computed;
        self.similarity_matches = self.similarity_matches + b.similarity_matches;
    }
}

/// Every set of positions that was all set in `before` (fingerprints seen)
/// is all set in `after`.
pub open spec fn keeps_seen(before: BloomFilter, after: BloomFilter) -> bool {
    forall|qs: Seq<usize>| before.in_range(qs) && #[trigger] before.all_set_at(qs) ==> after.all_set_at(qs)
}

/// A fingerprint once seen stays seen through any run of classifications
/// (each of which keeps what was seen and the filter's size, as
/// `classify_record` does), so that with deduplication on a later record
/// with the same positions is a duplicate, whatever came in between.
pub proof fn lemma_seen_stays_seen(filters: Seq<BloomFilter>, ps: Seq<usize>)
    requires
        filters.len() > 0,
        forall|i: int| 0 <= i < filters.len() - 1 ==> keeps_seen(filters[i], #[trigger] filters[i + 1])
            && filters[i + 1].spec_size() == filters[i].spec_size(),
        filters[0].in_range(ps),
        filters[0].all_set_at(ps),
    ensures
        filters.last().in_range(ps),
        filters.last().all_set_at(ps),
    decreases filters.len(),
{
    if filters.len() > 1 {
        let f = filters.drop_last();
        assert forall|i: int| 0 <= i < f.len() - 1 implies keeps_seen(f[i], #[trigger] f[i + 1])
            && f[i + 1].spec_size() == f[i].spec_size() by {
            assert(f[i] == filters[i]);
            assert(f[i + 1] == filters[i + 1]);
        }
        assert(f[0] == filters[0]);
        lemma_seen_stays_seen(f, ps);
        let n = filters.len() - 1;
        assert(f.last() == filters[n - 1]);
        assert(keeps_seen(filters[n - 1], filters[n - 1 + 1]));
        assert(filters.last() == filters[n]);
    }
}

/// Counts one log line read, parsed into a record or not, and tells
/// whether the batch, now `batch_len` records long, is to be processed:
/// when it holds `batch_size` records or more. Every line is counted as
/// read and as either parsed or failed, so the lines read stay the sum of
/// the two.
pub fn note_line(stats: &mut IngestionStats, parsed: bool, batch_len: usize, batch_size: usize) -> (flush: bool)
    requires
        old(stats).total_lines_read < usize::MAX,
        parsed ==> old(stats).total_records_parsed < usize::MAX,
        !parsed ==> old(stats).failed_parses < usize::MAX,
    ensures
        flush == (batch_len >= batch_size),
        final(stats).total_lines_read == old(stats).total_lines_read + 1,
        final(stats).total_records_parsed == old(stats).total_records_parsed + if parsed { 1int } else { 0int },
        final(stats).failed_parses == old(stats).failed_parses + if parsed { 0int } else { 1int },
        old(stats).total_lines_read == old(stats).total_records_parsed + old(stats).failed_parses
            ==> final(stats).total_lines_read == final(stats).total_records_parsed + final(stats).failed_parses,
        final(stats).total_records_stored == old(stats).total_records_stored,
        final(stats).batches_processed == old(stats).batches_processed,
        final(stats).shards_created == old(stats).shards_created,
        final(stats).download_size_bytes == old(stats).download_size_bytes,
        final(stats).ingestion_duration_ms == old(stats).ingestion_duration_ms,
        final(stats).duplicates_filtered == old(stats).duplicates_filtered,
        final(stats).primary_records == old(stats).primary_records,
        final(stats).secondary_records == old(stats).secondary_records,
        final(stats).embeddings_computed == old(stats).embeddings_computed,
        final(stats).similarity_matches == old(stats).similarity_matches,
{
    stats.total_lines_read = stats.total_lines_read + 1;
    if parsed {
        stats.total_records_parsed = stats.total_records_parsed + 1;
    } else {
        stats.failed_parses = stats.failed_parses + 1;
    }
    batch_len >= batch_size
}

/// The fingerprint of a log record: `<key>:<source>:<value>`, the value in
/// its text form.
pub fn record_fingerprint(key: &str, source: &str, value_text: &str) -> (r: String)
    ensures
        r@ == key@ + seq![':'] + source@ + seq![':'] + value_text@,
{
    let mut r = String::new();
    push_str(&mut r, key);
    push_char(&mut r, ':');
    push_str(&mut r, source);
    push_char(&mut r, ':');
    push_str(&mut r, value_text);
    assert(r@ =~= key@ + seq![':'] + source@ + seq![':'] + value_text@);
    r
}

/// The key under which an ingested record is stored:
/// `<log type>:<record key>:<timestamp in seconds>`.
pub fn record_storage_key(log_type: &str, key: &str, timestamp_seconds: i64) -> (r: String)
    ensures
        r@ == log_type@ + seq![':'] + key@ + seq![':'] + int_decimal(timestamp_seconds as int),
{
    let mut r = String::new();
    push_str(&mut r, log_type);
    push_char(&mut r, ':');
    push_str(&mut r, key);
    push_char(&mut r, ':');
    push_i64_decimal(&mut r, timestamp_seconds);
    assert(r@ =~= log_type@ + seq![':'] + key@ + seq![':'] + int_decimal(timestamp_seconds as int));
    r
}

/// Whether a record whose fingerprint has these filter positions (see
/// `BloomFilter::positions`) counts as already seen: only when
/// deduplication is on and every position is set.
pub fn is_duplicate(filter: &BloomFilter, enabled: bool, positions: &Vec<usize>) -> (b: bool)
    requires
        filter.wf(),
        filter.in_range(positions@),
    ensures
        b == (enabled && filter.all_set_at(positions@)),
{
    if !enabled {
        return false;
    }
    filter.contains_positions(positions)
}

/// Records a fingerprint, by its filter positions, as seen, when
/// deduplication is on.
pub fn mark_as_seen(filter: &mut BloomFilter, enabled: bool, positions: &Vec<usize>)
    requires
        old(filter).wf(),
        old(filter).in_range(positions@),
    ensures
        final(filter).wf(),
        final(filter).spec_size() == old(filter).spec_size(),
        final(filter).hash_count() == old(filter).hash_count(),
        enabled ==> marks(*old(filter), *final(filter), positions@),
        !enabled ==> *final(filter) == *old(filter),
{
    if enabled {
        filter.insert_positions(positions);
    }
}

/// The part one record plays in a processed batch.
#[derive(Clone, Debug)]
pub enum RecordRole {
    /// Seen before: not stored.
    Duplicate,
    /// Stored as a primary record.
    Primary,
    /// Stored as a secondary of the primary record with this id.
    Secondary(String),
}

/// Decides the part one record plays in a batch and counts it. A record
/// whose fingerprint the filter reports (with deduplication on) is a
/// duplicate, counted and nothing more. Otherwise, with similarity matching
/// on and an embedding at hand, a similar primary record (looked up by the
/// caller among the primaries so far) makes it a secondary of that record,
/// counted as a similarity match; in every other case it is a primary.
/// Primary and secondary records and embeddings are counted, and the
/// fingerprint is marked as seen. The fingerprint is given by its filter
/// positions (see `BloomFilter::positions`). With deduplication on, a
/// fingerprint once classified stays seen: every later record with its
/// positions is a duplicate, whatever was classified in between.
pub fn classify_record(
    stats: &mut IngestionStats,
    filter: &mut BloomFilter,
    dedup: bool,
    positions: &Vec<usize>,
    similarity_enabled: bool,
    has_embedding: bool,
    similar_primary: Option<String>,
) -> (role: RecordRole)
    requires
        old(filter).wf(),
        old(filter).in_range(positions@),
        old(stats).duplicates_filtered < usize::MAX,
        old(stats).primary_records < usize::MAX,
        old(stats).secondary_records < usize::MAX,
        old(stats).embeddings_computed < usize::MAX,
        old(stats).similarity_matches < usize::MAX,
    ensures
        final(filter).wf(),
        final(filter).spec_size() == old(filter).spec_size(),
        final(filter).hash_count() == old(filter).hash_count(),
        dedup ==> final(filter).all_set_at(positions@),
        final(stats).duplicates_filtered + final(stats).primary_records + final(stats).secondary_records
            == old(stats).duplicates_filtered + old(stats).primary_records + old(stats).secondary_records + 1,
        keeps_seen(*old(filter), *final(filter)),
        (dedup && old(filter).all_set_at(positions@)) ==> {
            &&& role is Duplicate
            &&& final(stats).duplicates_filtered == old(stats).duplicates_filtered + 1
            &&& final(stats).primary_records == old(stats).primary_records
            &&& final(stats).secondary_records == old(stats).secondary_records
            &&& final(stats).embeddings_computed == old(stats).embeddings_computed
            &&& final(stats).similarity_matches == old(stats).similarity_matches
            &&& forall|p: nat| p < old(filter).spec_size() ==> #[trigger] final(filter).bit(p) == old(filter).bit(p)
        },
        !(dedup && old(filter).all_set_at(positions@)) ==> {
            let secondary = similarity_enabled && has_embedding && similar_primary is Some;
            &&& (secondary ==> role == RecordRole::Secondary(similar_primary->0))
            &&& (!secondary ==> role is Primary)
            &&& final(stats).duplicates_filtered == old(stats).duplicates_filtered
            &&& final(stats).primary_records == old(stats).primary_records + if secondary { 0int } else { 1int }
            &&& final(stats).secondary_records == old(stats).secondary_records + if secondary { 1int } else { 0int }
            &&& final(stats).similarity_matches == old(stats).similarity_matches + if secondary { 1int } else { 0int }
            &&& final(stats).embeddings_computed == old(stats).embeddings_computed + if has_embedding { 1int } else { 0int }
            &&& dedup ==> marks(*old(filter), *final(filter), positions@)
            &&& !dedup ==> *final(filter) == *old(filter)
        },
        final(stats).total_lines_read == old(stats).total_lines_read,
        final(stats).total_records_parsed == old(stats).total_records_parsed,
        final(stats).total_records_stored == old(stats).total_records_stored,
        final(stats).failed_parses == old(stats).failed_parses,
        final(stats).batches_processed == old(stats).batches_processed,
        final(stats).shards_created == old(stats).shards_created,
        final(stats).download_size_bytes == old(stats).download_size_bytes,
        final(stats).ingestion_duration_ms == old(stats).ingestion_duration_ms,
{
    let ghost f0 = *filter;
    if is_duplicate(filter, dedup, positions) {
        stats.duplicates_filtered = stats.duplicates_filtered + 1;
        return RecordRole::Duplicate;
    }
    let role = match similar_primary {
        Some(id) => {
            if similarity_enabled && has_embedding {
                stats.similarity_matches = stats.similarity_matches + 1;
                RecordRole::Secondary(id)
            } else {
                RecordRole::Primary
            }
        },
        None => RecordRole::Primary,
    };
    match role {
        RecordRole::Secondary(_) => {
            stats.secondary_records = stats.secondary_records + 1;
        },
        _ => {
            stats.primary_records = stats.primary_records + 1;
        },
    }
    if has_embedding {
        stats.embeddings_computed = stats.embeddings_computed + 1;
    }
    mark_as_seen(filter, dedup, positions);
    proof {
        if dedup {
            lemma_insert_then_contains(f0, *filter, positions@, positions@);
            assert forall|qs: Seq<usize>| f0.in_range(qs) && #[trigger] f0.all_set_at(qs) implies filter.all_set_at(qs) by {
                lemma_insert_then_contains(f0, *filter, positions@, qs);
            }
        }
    }
    role
}

/// The shard that a record's timestamp falls in: the timestamp divided by
/// the shard interval, rounded toward zero.
pub open spec fn shard_of(ts: i64, interval: i64) -> int {
    trunc_div(ts as int, interval as int)
}

/// The indices of the records whose shard is `key`, in increasing order.
pub open spec fn indices_in_shard(ts: Seq<i64>, interval: i64, key: int) -> Seq<usize>
    decreases ts.len(),
{
    if ts.len() == 0 {
        Seq::empty()
    } else if shard_of(ts.last(), interval) == key {
        indices_in_shard(ts.drop_last(), interval, key).push((ts.len() - 1) as usize)
    } else {
        indices_in_shard(ts.drop_last(), interval, key)
    }
}

proof fn lemma_shard_absent(ts: Seq<i64>, interval: i64, key: int)
    requires
        forall|j: int| 0 <= j < ts.len() ==> shard_of(#[trigger] ts[j], interval) != key,
    ensures
        indices_in_shard(ts, interval, key) == Seq::<usize>::empty(),
    decreases ts.len(),
{
    if ts.len() > 0 {
        assert forall|j: int| 0 <= j < ts.drop_last().len() implies shard_of(#[trigger] ts.drop_last()[j], interval) != key by {
            assert(ts.drop_last()[j] == ts[j]);
        }
        lemma_shard_absent(ts.drop_last(), interval, key);
    }
}

/// Some group has the shard key `key`.
pub open spec fn has_group(groups: Seq<(i64, Vec<usize>)>, key: int) -> bool {
    exists|i: int| 0 <= i < groups.len() && groups[i].0 == key
}

/// Groups a batch's records for storage by the timestamps given in order.
/// With automatic sharding, each group is a shard key (see `shard_of`)
/// with the indices of all the records in that shard, in order; no two
/// groups share a key, and every record's shard has its group. Without,
/// there is one group, keyed 0, with every record, even when there is
/// none. The number of groups is the number of shards created.
pub fn shard_groups(timestamps: &Vec<i64>, interval: i64, auto_sharding: bool) -> (r: Vec<(i64, Vec<usize>)>)
    requires
        auto_sharding && timestamps@.len() > 0 ==> interval != 0,
        auto_sharding && interval == -1 ==> forall|j: int| 0 <= j < timestamps@.len() ==> timestamps@[j] != i64::MIN,
    ensures
        !auto_sharding ==> {
            &&& r@.len() == 1
            &&& r@[0].0 == 0
            &&& r@[0].1@ == Seq::new(timestamps@.len(), |j: int| j as usize)
        },
        auto_sharding ==> {
            &&& forall|i: int| #![trigger r@[i]] 0 <= i < r@.len()
                ==> r@[i].1@ == indices_in_shard(timestamps@, interval, r@[i].0 as int) && r@[i].1@.len() > 0
            &&& forall|i: int, k: int| 0 <= i < k < r@.len() ==> #[trigger] r@[i].0 != #[trigger] r@[k].0
            &&& forall|j: int| 0 <= j < timestamps@.len() ==> has_group(r@, shard_of(#[trigger] timestamps@[j], interval))
        },
{
    let n = timestamps.len();
    if !auto_sharding {
        let mut all: Vec<usize> = Vec::new();
        let mut j: usize = 0;
        while j < n
            invariant
                j <= n,
                n == timestamps@.len(),
                all@ == Seq::new(j as nat, |k: int| k as usize),
            decreases n - j,
        {
            all.push(j);
            j += 1;
            assert(all@ =~= Seq::new(j as nat, |k: int| k as usize));
        }
        let mut out: Vec<(i64, Vec<usize>)> = Vec::new();
        out.push((0, all));
        return out;
    }
    let mut out: Vec<(i64, Vec<usize>)> = Vec::new();
    let mut j: usize = 0;
    while j < n
        invariant
            j <= n,
            n == timestamps@.len(),
            n > 0 ==> interval != 0,
            interval == -1 ==> forall|k: int| 0 <= k < timestamps@.len() ==> timestamps@[k] != i64::MIN,
            forall|i: int| #![trigger out@[i]] 0 <= i < out@.len()
                ==> out@[i].1@ == indices_in_shard(timestamps@.take(j as int), interval, out@[i].0 as int)
                && out@[i].1@.len() > 0,
            forall|i: int, k: int| 0 <= i < k < out@.len() ==> #[trigger] out@[i].0 != #[trigger] out@[k].0,
            forall|k: int| 0 <= k < j ==> has_group(out@, shard_of(#[trigger] timestamps@[k], interval)),
        decreases n - j,
    {
        let t = timestamps[j];
        proof {
            lemma_trunc_div_range(t as int, interval as int);
        }
        let key = t / interval;
        assert(key == shard_of(t, interval));
        let ghost prev = timestamps@.take(j as int);
        let ghost next = timestamps@.take(j + 1int);
        assert(next.drop_last() =~= prev);
        assert(next.last() == t);
        let mut a: usize = 0;
        while a < out.len() && out[a].0 != key
            invariant
                a <= out@.len(),
                forall|i: int| 0 <= i < a ==> out@[i].0 != key,
            decreases out@.len() - a,
        {
            a += 1;
        }
        let ghost before = out@;
        if a < out.len() {
            out[a].1.push(j);
            proof {
                assert forall|i: int| #![trigger out@[i]] 0 <= i < out@.len() implies out@[i].1@ == indices_in_shard(
                    next,
                    interval,
                    out@[i].0 as int,
                ) && out@[i].1@.len() > 0 by {
                    if i != a {
                        assert(out@[i] == before[i]);
                        assert(before[i].0 != key);
                    }
                }
                assert forall|i: int, k: int| 0 <= i < k < out@.len() implies #[trigger] out@[i].0 != #[trigger] out@[k].0 by {
                    assert(out@[i].0 == before[i].0);
                    assert(out@[k].0 == before[k].0);
                }
            }
        } else {
            proof {
                assert forall|k: int| 0 <= k < prev.len() implies shard_of(#[trigger] prev[k], interval) != key by {
                    let i = choose|i: int| 0 <= i < before.len() && #[trigger] before[i].0 == shard_of(timestamps@[k], interval);
                    assert(prev[k] == timestamps@[k]);
                }
                lemma_shard_absent(prev, interval, key as int);
            }
            let mut g: Vec<usize> = Vec::new();
            g.push(j);
            out.push((key, g));
            proof {
                assert forall|i: int| #![trigger out@[i]] 0 <= i < out@.len() implies out@[i].1@ == indices_in_shard(
                    next,
                    interval,
                    out@[i].0 as int,
                ) && out@[i].1@.len() > 0 by {
                    if i < before.len() {
                        assert(out@[i] == before[i]);
                        assert(before[i].0 != key);
                    } else {
                        assert(indices_in_shard(next, interval, key as int) =~= seq![j]);
                    }
                }
            }
        }
        proof {
            assert forall|k: int| 0 <= k < j + 1 implies has_group(out@, shard_of(#[trigger] timestamps@[k], interval)) by {
                if k < j {
                    let i = choose|i: int| 0 <= i < before.len() && #[trigger] before[i].0 == shard_of(timestamps@[k], interval);
                    assert(out@[i].0 == before[i].0);
                } else {
                    assert(out@[a as int].0 == key);
                }
            }
        }
        j += 1;
    }
    assert(j == n);
    assert(timestamps@.take(j as int) =~= timestamps@);
    out
}

/// How a record is marked before it is stored, by the part it plays.
pub struct RecordMarks {
    pub is_primary: bool,
    pub primary_id: Option<String>,
    /// A primary id to add to the record's list of links, if any.
    pub linked_primary: Option<String>,
    /// Whether the record joins the cache of primaries that later records
    /// are compared with.
    pub cache_as_primary: bool,
}

/// The marks of a classified record: a duplicate is not stored (`None`); a
/// secondary is not primary, and points at its primary, which it also
/// lists among its links; a primary is primary and its own primary id,
/// and joins the cache of primaries when similarity matching is on, no
/// similar primary was found and it has an embedding.
pub fn record_marks(
    role: &RecordRole,
    record_id: &String,
    similarity_enabled: bool,
    found_similar: bool,
    has_embedding: bool,
) -> (r: Option<RecordMarks>)
    ensures
        match role {
            RecordRole::Duplicate => r is None,
            RecordRole::Secondary(p) => r matches Some(m) && !m.is_primary && opt_view(m.primary_id) == Some(p@)
                && opt_view(m.linked_primary) == Some(p@) && !m.cache_as_primary,
            RecordRole::Primary => r matches Some(m) && m.is_primary && opt_view(m.primary_id) == Some(record_id@)
                && m.linked_primary is None && m.cache_as_primary == (similarity_enabled && !found_similar && has_embedding),
        },
{
    match role {
        RecordRole::Duplicate => None,
        RecordRole::Secondary(p) => Some(RecordMarks {
            is_primary: false,
            primary_id: Some(p.clone()),
            linked_primary: Some(p.clone()),
            cache_as_primary: false,
        }),
        RecordRole::Primary => Some(RecordMarks {
            is_primary: true,
            primary_id: Some(record_id.clone()),
            linked_primary: None,
            cache_as_primary: similarity_enabled && !found_similar && has_embedding,
        }),
    }
}

/// Counts what a batch stored: the records stored, one shard for each
/// group written, and the batch itself (a batch's counts hold one batch).
pub fn finish_batch(stats: &mut IngestionStats, stored: usize, groups: usize)
    requires
        old(stats).total_records_stored + stored <= usize::MAX,
        old(stats).shards_created + groups <= usize::MAX,
    ensures
        final(stats).total_records_stored == old(stats).total_records_stored + stored,
        final(stats).shards_created == old(stats).shards_created + groups,
        final(stats).batches_processed == 1,
        final(stats).total_lines_read == old(stats).total_lines_read,
        final(stats).total_records_parsed == old(stats).total_records_parsed,
        final(stats).failed_parses == old(stats).failed_parses,
        final(stats).download_size_bytes == old(stats).download_size_bytes,
        final(stats).ingestion_duration_ms == old(stats).ingestion_duration_ms,
        final(stats).duplicates_filtered == old(stats).duplicates_filtered,
        final(stats).primary_records == old(stats).primary_records,
        final(stats).secondary_records == old(stats).secondary_records,
        final(stats).embeddings_computed == old(stats).embeddings_computed,
        final(stats).similarity_matches == old(stats).similarity_matches,
{
    stats.total_records_stored = stats.total_records_stored + stored;
    stats.shards_created = stats.shards_created + groups;
    stats.batches_processed = 1;
}

} // verus!
