use vstd::prelude::*;

use crate::glob::{glob_matches, has_prefix, matches_pattern};
use crate::text::{chars_of, str_starts_with};

verus! {

/// Metadata kept beside each stored blob.
#[derive(Clone, Debug)]
pub struct BlobMetadata {
    pub key: String,
    pub size: usize,
    /// Creation time, in milliseconds since the Unix epoch.
    pub created_at: u64,
    /// Time of the last write, in milliseconds since the Unix epoch.
    pub modified_at: u64,
    /// XOR of all bytes of the blob.
    pub checksum: u64,
    pub prefix: Option<String>,
}

/// The XOR of all bytes of `data`, each widened to 64 bits.
pub open spec fn xor_checksum(data: Seq<u8>) -> u64
    decreases data.len(),
{
    if data.len() == 0 {
        0
    } else {
        xor_checksum(data.drop_last()) ^ (data.last() as u64)
    }
}

/// The XOR of the bytes of a single-byte or empty blob is that byte (or 0);
/// the checksum never exceeds 255.
pub proof fn lemma_xor_checksum_small(data: Seq<u8>)
    ensures
        xor_checksum(data) < 256,
    decreases data.len(),
{
    if data.len() > 0 {
        lemma_xor_checksum_small(data.drop_last());
        let a = xor_checksum(data.drop_last());
        let b = data.last() as u64;
        assert(a < 256 && b < 256 ==> a ^ b < 256) by (bit_vector);
    }
}

/// Simple XOR checksum used for integrity checks.
pub fn calculate_checksum(data: &[u8]) -> (c: u64)
    ensures
        c == xor_checksum(data@),
{
    let mut acc: u64 = 0;
    let mut i: usize = 0;
    while i < data.len()
        invariant
            i <= data@.len(),
            acc == xor_checksum(data@.take(i as int)),
        decreases data@.len() - i,
    {
        assert(data@.take(i + 1).drop_last() =~= data@.take(i as int));
        acc = acc ^ (data[i] as u64);
        i += 1;
    }
    assert(data@.take(data@.len() as int) =~= data@);
    acc
}

/// Milliseconds since the Unix epoch, read from the system clock.
///
/// Calls `std::time::SystemTime::now` and measures it from `UNIX_EPOCH`
/// (`duration_since`); `None` when the clock reads before the epoch.
/// Nothing is stated of the value: it depends on the machine's clock.
#[verifier::external_body]
pub(crate) fn now_millis() -> Option<u64> {
    match std::time::SystemTime::now().duration_since(std::time::UNIX_EPOCH) {
        Ok(d) => Some(d.as_millis() as u64),
        Err(_) => None,
    }
}

/// The time to record now: the clock's milliseconds since the epoch, or 0
/// when the clock reads before the epoch.
fn clock_or_epoch() -> u64 {
    match now_millis() {
        Some(t) => t,
        None => 0,
    }
}

/// Copies a string.
pub fn copy_string(s: &String) -> (r: String)
    ensures
        r@ == s@,
{
    s.clone()
}

/// Copies an optional string.
pub fn copy_opt_string(s: &Option<String>) -> (r: Option<String>)
    ensures
        opt_view(r) == opt_view(*s),
{
    match s {
        Some(v) => Some(v.clone()),
        None => None,
    }
}

/// The characters of an optional string.
pub open spec fn opt_view(s: Option<String>) -> Option<Seq<char>> {
    match s {
        Some(v) => Some(v@),
        None => None,
    }
}

impl BlobMetadata {
    /// Metadata for a blob freshly written at time `now`.
    pub fn new_at(key: String, data: &[u8], prefix: Option<String>, now: u64) -> (m: Self)
        ensures
            m.key == key,
            m.size == data@.len(),
            m.created_at == now,
            m.modified_at == now,
            m.checksum == xor_checksum(data@),
            m.prefix == prefix,
    {
        BlobMetadata {
            key,
            size: data.len(),
            created_at: now,
            modified_at: now,
            checksum: calculate_checksum(data),
            prefix,
        }
    }

    /// Metadata for a blob freshly written now, by the system clock (time 0
    /// when the clock reads before the Unix epoch).
    pub fn new(key: String, data: &[u8], prefix: Option<String>) -> (m: Self)
        ensures
            m.key == key,
            m.size == data@.len(),
            m.created_at == m.modified_at,
            m.checksum == xor_checksum(data@),
            m.prefix == prefix,
    {
        let now = clock_or_epoch();
        Self::new_at(key, data, prefix, now)
    }

    /// Records a rewrite of the blob with `data` at time `now`.
    pub fn update_modified_at(&mut self, data: &[u8], now: u64)
        ensures
            final(self).key == old(self).key,
            final(self).created_at == old(self).created_at,
            final(self).prefix == old(self).prefix,
            final(self).modified_at == now,
            final(self).size == data@.len(),
            final(self).checksum == xor_checksum(data@),
    {
        self.modified_at = now;
        self.size = data.len();
        self.checksum = calculate_checksum(data);
    }

    /// Records a rewrite of the blob with `data` now, by the system clock
    /// (time 0 when the clock reads before the Unix epoch).
    pub fn update_modified(&mut self, data: &[u8])
        ensures
            final(self).key == old(self).key,
            final(self).created_at == old(self).created_at,
            final(self).prefix == old(self).prefix,
            final(self).size == data@.len(),
            final(self).checksum == xor_checksum(data@),
    {
        let now = clock_or_epoch();
        self.update_modified_at(data, now);
    }

    /// A field-by-field copy.
    pub fn duplicate(&self) -> (r: Self)
        ensures
            r.key@ == self.key@,
            r.size == self.size,
            r.created_at == self.created_at,
            r.modified_at == self.modified_at,
            r.checksum == self.checksum,
            opt_view(r.prefix) == opt_view(self.prefix),
    {
        BlobMetadata {
            key: copy_string(&self.key),
            size: self.size,
            created_at: self.created_at,
            modified_at: self.modified_at,
            checksum: self.checksum,
            prefix: copy_opt_string(&self.prefix),
        }
    }

    /// Whether `data` still has the checksum recorded in this metadata.
    pub fn verify_integrity(&self, data: &[u8]) -> (ok: bool)
        ensures
            ok == (xor_checksum(data@) == self.checksum),
    {
        calculate_checksum(data) == self.checksum
    }
}

/// Metadata made for a blob, or updated for new contents, passes the
/// integrity check against those contents and fails it against contents
/// with another checksum.
pub proof fn lemma_fresh_metadata_passes_integrity(m: BlobMetadata, data: Seq<u8>, other: Seq<u8>)
    requires
        m.checksum == xor_checksum(data),
    ensures
        xor_checksum(data) == m.checksum,
        xor_checksum(other) != xor_checksum(data) ==> xor_checksum(other) != m.checksum,
{
}

/// The checksum of two blobs one after the other is the XOR of their
/// checksums.
pub proof fn lemma_checksum_concat(a: Seq<u8>, b: Seq<u8>)
    ensures
        xor_checksum(a + b) == xor_checksum(a) ^ xor_checksum(b),
    decreases b.len(),
{
    if b.len() == 0 {
        assert(a + b =~= a);
        let x = xor_checksum(a);
        assert(x ^ 0u64 == x) by (bit_vector);
    } else {
        lemma_checksum_concat(a, b.drop_last());
        assert((a + b).drop_last() =~= a + b.drop_last());
        let x = xor_checksum(a);
        let y = xor_checksum(b.drop_last());
        let z = b.last() as u64;
        assert((x ^ y) ^ z == x ^ (y ^ z)) by (bit_vector);
    }
}

/// Metadata after an update of `key` with `data` at time `now`: the
/// previous metadata, if any, keeps its creation time and takes the new size,
/// checksum and time; otherwise fresh metadata is made. A given prefix
/// replaces the stored one.
pub fn metadata_for_update(
    existing: Option<BlobMetadata>,
    key: &str,
    data: &[u8],
    prefix: Option<&str>,
    now: u64,
) -> (m: BlobMetadata)
    ensures
        m.size == data@.len(),
        m.modified_at == now,
        m.checksum == xor_checksum(data@),
        match existing {
            Some(e) => m.created_at == e.created_at && m.key == e.key,
            None => m.created_at == now && m.key@ == key@,
        },
        match prefix {
            Some(p) => opt_view(m.prefix) == Some(p@),
            None => match existing {
                Some(e) => m.prefix == e.prefix,
                None => m.prefix.is_none(),
            },
        },
{
    let mut metadata = match existing {
        Some(mut e) => {
            e.update_modified_at(data, now);
            e
        },
        None => BlobMetadata::new_at(key.to_owned(), data, None, now),
    };
    match prefix {
        Some(p) => {
            metadata.prefix = Some(p.to_owned());
        },
        None => {},
    }
    metadata
}

/// Options of a blob listing: a key prefix, a wildcard pattern, and a
/// window given by offset and limit.
pub struct QueryOptions {
    pub prefix: Option<String>,
    pub pattern: Option<String>,
    pub limit: Option<usize>,
    pub offset: Option<usize>,
}

impl QueryOptions {
    /// No filter and no window.
    pub fn default() -> (o: Self)
        ensures
            o.prefix.is_none(),
            o.pattern.is_none(),
            o.limit.is_none(),
            o.offset.is_none(),
    {
        QueryOptions { prefix: None, pattern: None, limit: None, offset: None }
    }
}

/// A key passes the filters of `o`: it starts with the prefix, if one is
/// given, and matches the pattern, if one is given.
pub open spec fn key_passes(key: Seq<char>, o: QueryOptions) -> bool {
    &&& (match o.prefix {
        Some(p) => has_prefix(key, p@),
        None => true,
    })
    &&& (match o.pattern {
        Some(p) => glob_matches(key, p@),
        None => true,
    })
}

/// Whether `key` passes the filters of `options`.
pub fn key_passes_options(key: &str, options: &QueryOptions) -> (b: bool)
    ensures
        b == key_passes(key@, *options),
{
    let by_prefix = match &options.prefix {
        Some(p) => str_starts_with(key, p.as_str()),
        None => true,
    };
    if !by_prefix {
        return false;
    }
    match &options.pattern {
        Some(p) => matches_pattern(key, p.as_str()),
        None => true,
    }
}

/// Positions, in order, of the keys that pass the filters of `o`.
pub open spec fn passing_positions(keys: Seq<String>, o: QueryOptions) -> Seq<usize>
    decreases keys.len(),
{
    if keys.len() == 0 {
        Seq::empty()
    } else {
        let r = passing_positions(keys.drop_last(), o);
        if key_passes(keys.last()@, o) {
            r.push((keys.len() - 1) as usize)
        } else {
            r
        }
    }
}

proof fn lemma_passing_positions_bound(keys: Seq<String>, o: QueryOptions)
    ensures
        passing_positions(keys, o).len() <= keys.len(),
        forall|i: int| 0 <= i < passing_positions(keys, o).len() ==> #[trigger] passing_positions(keys, o)[i] < keys.len(),
    decreases keys.len(),
{
    if keys.len() > 0 {
        lemma_passing_positions_bound(keys.drop_last(), o);
    }
}

/// The start of the query window.
pub open spec fn window_start(o: QueryOptions) -> int {
    match o.offset {
        Some(off) => off as int,
        None => 0,
    }
}

/// The end of the query window over `n` passing keys.
pub open spec fn window_end(o: QueryOptions, n: int) -> int {
    match o.limit {
        Some(l) => if window_start(o) + l <= n { window_start(o) + l } else { n },
        None => n,
    }
}

/// A query can be answered: the window starts within the passing keys and
/// its end does not overflow.
pub open spec fn query_window_valid(keys: Seq<String>, o: QueryOptions) -> bool {
    &&& window_start(o) <= passing_positions(keys, o).len()
    &&& (match o.limit {
        Some(l) => window_start(o) + l <= usize::MAX,
        None => true,
    })
}

/// The positions of the keys that a listing with options `o` returns, given
/// the keys in table order: those that pass the filters, cut to the window.
pub fn select_query(keys: &Vec<String>, options: &QueryOptions) -> (r: Vec<usize>)
    requires
        query_window_valid(keys@, *options),
    ensures
        r@ == passing_positions(keys@, *options).subrange(
            window_start(*options),
            window_end(*options, passing_positions(keys@, *options).len() as int),
        ),
{
    let mut passing: Vec<usize> = Vec::new();
    let mut i: usize = 0;
    while i < keys.len()
        invariant
            i <= keys@.len(),
            passing@ == passing_positions(keys@.take(i as int), *options),
        decreases keys@.len() - i,
    {
        assert(keys@.take(i + 1).drop_last() =~= keys@.take(i as int));
        if key_passes_options(keys[i].as_str(), options) {
            passing.push(i);
        }
        i += 1;
    }
    assert(keys@.take(keys@.len() as int) =~= keys@);
    let start: usize = match options.offset {
        Some(off) => off,
        None => 0,
    };
    let end: usize = match options.limit {
        Some(limit) => if start + limit <= passing.len() { start + limit } else { passing.len() },
        None => passing.len(),
    };
    let mut out: Vec<usize> = Vec::new();
    let mut j = start;
    while j < end
        invariant
            start <= j <= end,
            end <= passing@.len(),
            out@ == passing@.subrange(start as int, j as int),
        decreases end - j,
    {
        out.push(passing[j]);
        j += 1;
    }
    out
}

/// Positions, in order, of the keys that start with `prefix`.
pub open spec fn prefix_positions(keys: Seq<String>, prefix: Seq<char>) -> Seq<usize>
    decreases keys.len(),
{
    if keys.len() == 0 {
        Seq::empty()
    } else {
        let r = prefix_positions(keys.drop_last(), prefix);
        if has_prefix(keys.last()@, prefix) {
            r.push((keys.len() - 1) as usize)
        } else {
            r
        }
    }
}

/// The positions of the keys that start with `prefix`, in table order.
pub fn select_by_prefix(keys: &Vec<String>, prefix: &str) -> (r: Vec<usize>)
    ensures
        r@ == prefix_positions(keys@, prefix@),
{
    let mut out: Vec<usize> = Vec::new();
    let mut i: usize = 0;
    while i < keys.len()
        invariant
            i <= keys@.len(),
            out@ == prefix_positions(keys@.take(i as int), prefix@),
        decreases keys@.len() - i,
    {
        assert(keys@.take(i + 1).drop_last() =~= keys@.take(i as int));
        if str_starts_with(keys[i].as_str(), prefix) {
            out.push(i);
        }
        i += 1;
    }
    assert(keys@.take(keys@.len() as int) =~= keys@);
    out
}

/// Positions, in order, of the metadata records whose stored prefix is
/// exactly `prefix`.
pub open spec fn group_positions(metas: Seq<BlobMetadata>, prefix: Seq<char>) -> Seq<usize>
    decreases metas.len(),
{
    if metas.len() == 0 {
        Seq::empty()
    } else {
        let r = group_positions(metas.drop_last(), prefix);
        if opt_view(metas.last().prefix) == Some(prefix) {
            r.push((metas.len() - 1) as usize)
        } else {
            r
        }
    }
}

/// The positions of the metadata records stored under the prefix `prefix`.
pub fn select_by_metadata_prefix(metas: &Vec<BlobMetadata>, prefix: &str) -> (r: Vec<usize>)
    ensures
        r@ == group_positions(metas@, prefix@),
{
    let mut out: Vec<usize> = Vec::new();
    let mut i: usize = 0;
    let target = prefix.to_owned();
    while i < metas.len()
        invariant
            i <= metas@.len(),
            target@ == prefix@,
            out@ == group_positions(metas@.take(i as int), prefix@),
        decreases metas@.len() - i,
    {
        assert(metas@.take(i + 1).drop_last() =~= metas@.take(i as int));
        let hit = match &metas[i].prefix {
            Some(p) => *p == target,
            None => false,
        };
        if hit {
            out.push(i);
        }
        i += 1;
    }
    assert(metas@.take(metas@.len() as int) =~= metas@);
    out
}

/// The encodings a stored value may be written in.
#[derive(Clone, Copy, Debug, PartialEq, Eq, Structural)]
pub enum SerializationFormat {
    Bincode,
    Json,
    MessagePack,
    Cbor,
}

/// The kinds of content an embedding may stand for.
#[derive(Clone, Copy, Debug, PartialEq, Eq, Structural)]
pub enum Modality {
    Text,
    Image,
    Audio,
}

} // verus!
