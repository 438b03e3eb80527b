use vstd::prelude::*;

use crate::glob::occurs_at;
use crate::text::{chars_of, digit_char, int_decimal, nat_decimal, push_char, push_u64_decimal};

verus! {

/// The kind of a telemetry value.
#[derive(Clone, Copy, PartialEq, Eq, Structural, Debug)]
pub enum ValueKind {
    Float,
    Int,
    String,
    Bool,
    Blob,
    Json,
    Dynamic,
    Null,
}

/// What a query reads of a telemetry record.
pub struct RecordFacts {
    pub id: String,
    /// Whole seconds since the Unix epoch.
    pub timestamp_seconds: i64,
    pub key: String,
    pub source: String,
    pub kind: ValueKind,
    pub is_primary: bool,
    pub primary_id: Option<String>,
}

/// A closed interval of time, in nanoseconds since the Unix epoch (wide
/// enough for any instant of the calendar).
pub struct TimeInterval {
    pub start: i128,
    pub end: i128,
}

/// Filters and window of a telemetry query.
pub struct TelemetryQuery {
    pub time_interval: Option<TimeInterval>,
    pub keys: Option<Vec<String>>,
    pub sources: Option<Vec<String>>,
    pub primary_only: bool,
    pub secondary_only: bool,
    pub primary_id: Option<String>,
    pub value_type: Option<String>,
    pub limit: usize,
    pub offset: usize,
    pub bucket_by_minute: bool,
}

impl TelemetryQuery {
    /// No filters, the first 100 records.
    pub fn default() -> (q: Self)
        ensures
            q.time_interval.is_none(),
            q.keys.is_none(),
            q.sources.is_none(),
            !q.primary_only,
            !q.secondary_only,
            q.primary_id.is_none(),
            q.value_type.is_none(),
            q.limit == 100,
            q.offset == 0,
            !q.bucket_by_minute,
    {
        TelemetryQuery {
            time_interval: None,
            keys: None,
            sources: None,
            primary_only: false,
            secondary_only: false,
            primary_id: None,
            value_type: None,
            limit: 100,
            offset: 0,
            bucket_by_minute: false,
        }
    }
}

/// `needle` occurs somewhere in `hay`.
pub open spec fn contains_seq(hay: Seq<char>, needle: Seq<char>) -> bool {
    exists|i: int| occurs_at(hay, needle, i)
}

/// Whether `needle` occurs in `hay`.
pub fn str_contains(hay: &str, needle: &str) -> (b: bool)
    ensures
        b == contains_seq(hay@, needle@),
{
    let h = chars_of(hay);
    let n = chars_of(needle);
    let r = crate::glob::find_in(&h, &n);
    proof {
        if r.is_none() && contains_seq(hay@, needle@) {
            let i = choose|i: int| occurs_at(hay@, needle@, i);
        }
    }
    r.is_some()
}

/// Some string of `pats` occurs in `s`.
pub open spec fn any_contained(s: Seq<char>, pats: Seq<String>) -> bool {
    exists|i: int| 0 <= i < pats.len() && contains_seq(s, #[trigger] pats[i]@)
}

fn contains_any(s: &str, pats: &Vec<String>) -> (b: bool)
    ensures
        b == any_contained(s@, pats@),
{
    let mut i: usize = 0;
    while i < pats.len()
        invariant
            i <= pats@.len(),
            forall|k: int| 0 <= k < i ==> !contains_seq(s@, #[trigger] pats@[k]@),
        decreases pats@.len() - i,
    {
        if str_contains(s, pats[i].as_str()) {
            return true;
        }
        i += 1;
    }
    false
}

/// The record's time (whole seconds) lies in the interval.
pub open spec fn in_interval(ts_seconds: i64, iv: TimeInterval) -> bool {
    iv.start <= ts_seconds * 1_000_000_000 && ts_seconds * 1_000_000_000 <= iv.end
}

/// The value kind that a `value_type` filter asks for; `None` lets every
/// kind through.
pub open spec fn wanted_kind(t: Seq<char>) -> Option<ValueKind> {
    if t == "float"@ {
        Some(ValueKind::Float)
    } else if t == "int"@ {
        Some(ValueKind::Int)
    } else if t == "string"@ {
        Some(ValueKind::String)
    } else if t == "bool"@ {
        Some(ValueKind::Bool)
    } else if t == "json"@ {
        Some(ValueKind::Json)
    } else {
        None
    }
}

/// A record passes every filter of the query.
pub open spec fn record_passes(r: RecordFacts, q: TelemetryQuery) -> bool {
    &&& (match q.time_interval {
        Some(iv) => in_interval(r.timestamp_seconds, iv),
        None => true,
    })
    &&& (match q.keys {
        Some(ks) => any_contained(r.key@, ks@),
        None => true,
    })
    &&& (match q.sources {
        Some(ss) => any_contained(r.source@, ss@),
        None => true,
    })
    &&& (if q.primary_only { r.is_primary } else if q.secondary_only { !r.is_primary } else { true })
    &&& (match q.primary_id {
        Some(p) => match r.primary_id {
            Some(rp) => rp@ == p@,
            None => false,
        },
        None => true,
    })
    &&& (match q.value_type {
        Some(t) => match wanted_kind(t@) {
            Some(k) => r.kind == k,
            None => true,
        },
        None => true,
    })
}

/// A record passes the filters of the distributed store's query: its time,
/// key and source filters (the others are for the timeline store).
pub open spec fn store_record_passes(r: RecordFacts, q: TelemetryQuery) -> bool {
    &&& (match q.time_interval {
        Some(iv) => in_interval(r.timestamp_seconds, iv),
        None => true,
    })
    &&& (match q.keys {
        Some(ks) => any_contained(r.key@, ks@),
        None => true,
    })
    &&& (match q.sources {
        Some(ss) => any_contained(r.source@, ss@),
        None => true,
    })
}

/// Positions of the records that pass the distributed store's filters, in
/// order.
pub open spec fn store_passing_records(rs: Seq<RecordFacts>, q: TelemetryQuery) -> Seq<usize>
    decreases rs.len(),
{
    if rs.len() == 0 {
        Seq::empty()
    } else {
        let p = store_passing_records(rs.drop_last(), q);
        if store_record_passes(rs.last(), q) {
            p.push((rs.len() - 1) as usize)
        } else {
            p
        }
    }
}

/// Whether a record passes the distributed store's filters: time, keys
/// and sources.
pub fn store_record_matches(r: &RecordFacts, q: &TelemetryQuery) -> (b: bool)
    ensures
        b == store_record_passes(*r, *q),
{
    match &q.time_interval {
        Some(iv) => {
            let ts = r.timestamp_seconds as i128 * 1_000_000_000;
            if !(iv.start <= ts && ts <= iv.end) {
                return false;
            }
        },
        None => {},
    }
    match &q.keys {
        Some(ks) => {
            if !contains_any(r.key.as_str(), ks) {
                return false;
            }
        },
        None => {},
    }
    match &q.sources {
        Some(ss) => {
            if !contains_any(r.source.as_str(), ss) {
                return false;
            }
        },
        None => {},
    }
    true
}

/// Positions of the records that pass the query's filters, in order.
pub open spec fn passing_records(rs: Seq<RecordFacts>, q: TelemetryQuery) -> Seq<usize>
    decreases rs.len(),
{
    if rs.len() == 0 {
        Seq::empty()
    } else {
        let p = passing_records(rs.drop_last(), q);
        if record_passes(rs.last(), q) {
            p.push((rs.len() - 1) as usize)
        } else {
            p
        }
    }
}

fn kind_wanted(t: &str) -> (k: Option<ValueKind>)
    ensures
        k == wanted_kind(t@),
{
    let s = t.to_owned();
    if s == "float".to_owned() {
        Some(ValueKind::Float)
    } else if s == "int".to_owned() {
        Some(ValueKind::Int)
    } else if s == "string".to_owned() {
        Some(ValueKind::String)
    } else if s == "bool".to_owned() {
        Some(ValueKind::Bool)
    } else if s == "json".to_owned() {
        Some(ValueKind::Json)
    } else {
        None
    }
}

/// Whether a record passes every filter of the query.
pub fn record_matches(r: &RecordFacts, q: &TelemetryQuery) -> (b: bool)
    ensures
        b == record_passes(*r, *q),
{
    match &q.time_interval {
        Some(iv) => {
            let ts = r.timestamp_seconds as i128 * 1_000_000_000;
            if !(iv.start <= ts && ts <= iv.end) {
                return false;
            }
        },
        None => {},
    }
    match &q.keys {
        Some(ks) => {
            if !contains_any(r.key.as_str(), ks) {
                return false;
            }
        },
        None => {},
    }
    match &q.sources {
        Some(ss) => {
            if !contains_any(r.source.as_str(), ss) {
                return false;
            }
        },
        None => {},
    }
    if q.primary_only {
        if !r.is_primary {
            return false;
        }
    } else if q.secondary_only {
        if r.is_primary {
            return false;
        }
    }
    match &q.primary_id {
        Some(p) => {
            let same = match &r.primary_id {
                Some(rp) => *rp == *p,
                None => false,
            };
            if !same {
                return false;
            }
        },
        None => {},
    }
    match &q.value_type {
        Some(t) => match kind_wanted(t.as_str()) {
            Some(k) => r.kind == k,
            None => true,
        },
        None => true,
    }
}

/// The positions of the records a query returns: those that pass its
/// filters, from `offset` (at most their number) for up to `limit`.
pub fn select_records(records: &Vec<RecordFacts>, query: &TelemetryQuery) -> (r: Vec<usize>)
    requires
        (if query.offset <= passing_records(records@, *query).len() {
            query.offset as int
        } else {
            passing_records(records@, *query).len() as int
        }) + query.limit <= usize::MAX,
    ensures
        ({
            let p = passing_records(records@, *query);
            let start = if query.offset <= p.len() { query.offset as int } else { p.len() as int };
            let end = if start + query.limit <= p.len() { start + query.limit } else { p.len() as int };
            r@ == p.subrange(start, end)
        }),
{
    let mut passing: Vec<usize> = Vec::new();
    let mut i: usize = 0;
    while i < records.len()
        invariant
            i <= records@.len(),
            passing@ == passing_records(records@.take(i as int), *query),
        decreases records@.len() - i,
    {
        assert(records@.take(i + 1).drop_last() =~= records@.take(i as int));
        if record_matches(&records[i], query) {
            passing.push(i);
        }
        i += 1;
    }
    assert(records@.take(records@.len() as int) =~= records@);
    let (start, end) = crate::routing::page_window(passing.len(), query.offset, query.limit);
    let mut out: Vec<usize> = Vec::new();
    let mut j = start;
    while j < end
        invariant
            start <= j <= end,
            end <= passing@.len(),
            out@ == passing@.subrange(start as int, j as int),
        decreases end - j,
    {
        out.push(passing[j]);
        j += 1;
    }
    out
}

/// Record `a` comes before record `b` newest first: it is later, or as
/// late and earlier among the records.
pub open spec fn newer(rs: Seq<RecordFacts>, a: usize, b: usize) -> bool {
    ||| rs[a as int].timestamp_seconds > rs[b as int].timestamp_seconds
    ||| (rs[a as int].timestamp_seconds == rs[b as int].timestamp_seconds && a < b)
}

/// `s` holds the positions of the records that pass the distributed
/// store's filters (`store_record_passes`), newest
/// first, records of the same time in their order among the records.
pub open spec fn newest_first_order(s: Seq<usize>, rs: Seq<RecordFacts>, q: TelemetryQuery) -> bool {
    &&& s.to_set() == store_passing_records(rs, q).to_set()
    &&& forall|i: int, j: int| 0 <= i < j < s.len() ==> newer(rs, #[trigger] s[i], #[trigger] s[j])
}

/// The positions of the passing records, newest first (the one order
/// `newest_first_order` allows, see `lemma_newest_first_unique`).
pub open spec fn newest_first(rs: Seq<RecordFacts>, q: TelemetryQuery) -> Seq<usize> {
    choose|s: Seq<usize>| newest_first_order(s, rs, q)
}

proof fn lemma_ordered_unique(s1: Seq<usize>, s2: Seq<usize>, rs: Seq<RecordFacts>)
    requires
        s1.to_set() == s2.to_set(),
        forall|i: int, j: int| 0 <= i < j < s1.len() ==> newer(rs, #[trigger] s1[i], #[trigger] s1[j]),
        forall|i: int, j: int| 0 <= i < j < s2.len() ==> newer(rs, #[trigger] s2[i], #[trigger] s2[j]),
    ensures
        s1 == s2,
    decreases s1.len(),
{
    if s1.len() == 0 {
        if s2.len() > 0 {
            assert(s2.to_set().contains(s2[0]));
        }
        assert(s1 =~= s2);
    } else {
        assert(s1.to_set().contains(s1[0]));
        assert(s2.len() > 0);
        let a = s1[0];
        let b = s2[0];
        assert(s2.to_set().contains(a));
        assert(s1.to_set().contains(b));
        let j = choose|j: int| 0 <= j < s2.len() && s2[j] == a;
        let k = choose|k: int| 0 <= k < s1.len() && s1[k] == b;
        if a != b {
            assert(j > 0);
            assert(k > 0);
            assert(newer(rs, s2[0], s2[j]));
            assert(newer(rs, s1[0], s1[k]));
            assert(false);
        }
        let t1 = s1.drop_first();
        let t2 = s2.drop_first();
        assert forall|x: usize| t1.to_set().contains(x) <==> t2.to_set().contains(x) by {
            if t1.to_set().contains(x) {
                let i = choose|i: int| 0 <= i < t1.len() && t1[i] == x;
                assert(s1[i + 1] == x);
                assert(newer(rs, s1[0], s1[i + 1]));
                assert(s2.to_set().contains(x));
                let m = choose|m: int| 0 <= m < s2.len() && s2[m] == x;
                assert(m != 0);
                assert(t2[m - 1] == x);
            }
            if t2.to_set().contains(x) {
                let i = choose|i: int| 0 <= i < t2.len() && t2[i] == x;
                assert(s2[i + 1] == x);
                assert(newer(rs, s2[0], s2[i + 1]));
                assert(s1.to_set().contains(x));
                let m = choose|m: int| 0 <= m < s1.len() && s1[m] == x;
                assert(m != 0);
                assert(t1[m - 1] == x);
            }
        }
        assert(t1.to_set() =~= t2.to_set());
        assert forall|i: int, j: int| 0 <= i < j < t1.len() implies newer(rs, #[trigger] t1[i], #[trigger] t1[j]) by {
            assert(t1[i] == s1[i + 1]);
            assert(t1[j] == s1[j + 1]);
        }
        assert forall|i: int, j: int| 0 <= i < j < t2.len() implies newer(rs, #[trigger] t2[i], #[trigger] t2[j]) by {
            assert(t2[i] == s2[i + 1]);
            assert(t2[j] == s2[j + 1]);
        }
        lemma_ordered_unique(t1, t2, rs);
        assert(s1 =~= s2) by {
            assert forall|i: int| 0 <= i < s1.len() implies s1[i] == s2[i] by {
                if i > 0 {
                    assert(s1[i] == t1[i - 1]);
                    assert(s2[i] == t2[i - 1]);
                }
            }
        }
    }
}

/// The passing records have only one order newest first.
pub proof fn lemma_newest_first_unique(s1: Seq<usize>, s2: Seq<usize>, rs: Seq<RecordFacts>, q: TelemetryQuery)
    requires
        newest_first_order(s1, rs, q),
        newest_first_order(s2, rs, q),
    ensures
        s1 == s2,
{
    lemma_ordered_unique(s1, s2, rs);
}

/// The positions of the records a query returns from the distributed
/// store: those that pass its time, key and source filters (see
/// `store_record_passes`), newest first (see `newest_first`),
/// from `offset` (at most their number) for up to `limit`.
pub fn select_newest(records: &Vec<RecordFacts>, query: &TelemetryQuery) -> (r: Vec<usize>)
    requires
        (if query.offset <= store_passing_records(records@, *query).len() {
            query.offset as int
        } else {
            store_passing_records(records@, *query).len() as int
        }) + query.limit <= usize::MAX,
    ensures
        ({
            let n = store_passing_records(records@, *query).len();
            let start = if query.offset <= n { query.offset as int } else { n as int };
            let end = if start + query.limit <= n { start + query.limit } else { n as int };
            r@ == newest_first(records@, *query).subrange(start, end)
        }),
{
    let ghost rs = records@;
    let mut passing: Vec<usize> = Vec::new();
    let mut sorted: Vec<usize> = Vec::new();
    let mut i: usize = 0;
    while i < records.len()
        invariant
            rs == records@,
            i <= records@.len(),
            passing@ == store_passing_records(records@.take(i as int), *query),
            sorted@.len() == passing@.len(),
            sorted@.to_set() == passing@.to_set(),
            forall|k: int| 0 <= k < sorted@.len() ==> #[trigger] sorted@[k] < i,
            forall|a: int, b: int| 0 <= a < b < sorted@.len() ==> newer(rs, #[trigger] sorted@[a], #[trigger] sorted@[b]),
        decreases records@.len() - i,
    {
        assert(records@.take(i + 1).drop_last() =~= records@.take(i as int));
        if store_record_matches(&records[i], query) {
            let t = records[i].timestamp_seconds;
            let mut pos: usize = 0;
            while pos < sorted.len() && records[sorted[pos]].timestamp_seconds >= t
                invariant
                    rs == records@,
                    i < records@.len(),
                    t == rs[i as int].timestamp_seconds,
                    pos <= sorted@.len(),
                    forall|k: int| 0 <= k < sorted@.len() ==> #[trigger] sorted@[k] < i,
                    forall|k: int| 0 <= k < pos ==> rs[#[trigger] sorted@[k] as int].timestamp_seconds >= t,
                decreases sorted@.len() - pos,
            {
                pos += 1;
            }
            let ghost old_s = sorted@;
            let ghost old_p = passing@;
            sorted.insert(pos, i);
            passing.push(i);
            proof {
                let ns = sorted@;
                assert(ns =~= old_s.insert(pos as int, i));
                assert forall|k: int| 0 <= k < ns.len() implies #[trigger] ns[k] < i + 1 by {
                    if k < pos {
                        assert(ns[k] == old_s[k]);
                    } else if k > pos {
                        assert(ns[k] == old_s[k - 1]);
                    }
                }
                assert forall|a: int, b: int| 0 <= a < b < ns.len() implies newer(rs, #[trigger] ns[a], #[trigger] ns[b]) by {
                    if b < pos {
                        assert(ns[a] == old_s[a] && ns[b] == old_s[b]);
                    } else if b == pos {
                        assert(ns[a] == old_s[a]);
                        assert(rs[old_s[a] as int].timestamp_seconds >= t);
                    } else if a < pos {
                        assert(ns[a] == old_s[a] && ns[b] == old_s[b - 1]);
                    } else if a == pos {
                        assert(ns[b] == old_s[b - 1]);
                        assert(pos < old_s.len());
                        assert(rs[old_s[pos as int] as int].timestamp_seconds < t);
                        if b - 1 > pos {
                            assert(newer(rs, old_s[pos as int], old_s[b - 1]));
                        }
                    } else {
                        assert(ns[a] == old_s[a - 1] && ns[b] == old_s[b - 1]);
                    }
                }
                assert forall|x: usize| #[trigger] ns.to_set().contains(x) <==> passing@.to_set().contains(x) by {
                    if ns.to_set().contains(x) {
                        let k = choose|k: int| 0 <= k < ns.len() && ns[k] == x;
                        if k < pos {
                            assert(ns[k] == old_s[k]);
                            assert(old_s.to_set().contains(x));
                            let m = choose|m: int| 0 <= m < old_p.len() && old_p[m] == x;
                            assert(passing@[m] == x);
                        } else if k > pos {
                            assert(ns[k] == old_s[k - 1]);
                            assert(old_s.to_set().contains(x));
                            let m = choose|m: int| 0 <= m < old_p.len() && old_p[m] == x;
                            assert(passing@[m] == x);
                        } else {
                            assert(passing@[old_p.len() as int] == x);
                        }
                    }
                    if passing@.to_set().contains(x) {
                        let m = choose|m: int| 0 <= m < passing@.len() && passing@[m] == x;
                        if m < old_p.len() {
                            assert(old_p[m] == x);
                            assert(old_p.to_set().contains(x));
                            let k = choose|k: int| 0 <= k < old_s.len() && old_s[k] == x;
                            if k < pos {
                                assert(ns[k] == x);
                            } else {
                                assert(ns[k + 1] == x);
                            }
                        } else {
                            assert(ns[pos as int] == x);
                        }
                    }
                }
                assert(ns.to_set() =~= passing@.to_set());
            }
        }
        i += 1;
    }
    assert(records@.take(records@.len() as int) =~= records@);
    proof {
        assert(newest_first_order(sorted@, records@, *query));
        let c = newest_first(records@, *query);
        assert(newest_first_order(c, records@, *query));
        lemma_newest_first_unique(sorted@, c, records@, *query);
    }
    let (start, end) = crate::routing::page_window(passing.len(), query.offset, query.limit);
    let mut out: Vec<usize> = Vec::new();
    let mut j = start;
    while j < end
        invariant
            start <= j <= end,
            end <= sorted@.len(),
            out@ == sorted@.subrange(start as int, j as int),
        decreases end - j,
    {
        out.push(sorted[j]);
        j += 1;
    }
    out
}

/// The earliest and latest timestamps (seconds) of the records, if any.
pub fn time_range_of(records: &Vec<RecordFacts>) -> (r: Option<(i64, i64)>)
    ensures
        records@.len() == 0 <==> r.is_none(),
        r matches Some((lo, hi)) ==> {
            &&& (exists|i: int| 0 <= i < records@.len() && records@[i].timestamp_seconds == lo)
            &&& (exists|i: int| 0 <= i < records@.len() && records@[i].timestamp_seconds == hi)
            &&& forall|i: int| 0 <= i < records@.len() ==> lo <= #[trigger] records@[i].timestamp_seconds <= hi
        },
{
    if records.len() == 0 {
        return None;
    }
    let mut lo = records[0].timestamp_seconds;
    let mut hi = records[0].timestamp_seconds;
    let mut i: usize = 1;
    while i < records.len()
        invariant
            1 <= i <= records@.len(),
            exists|k: int| 0 <= k < i && records@[k].timestamp_seconds == lo,
            exists|k: int| 0 <= k < i && records@[k].timestamp_seconds == hi,
            forall|k: int| 0 <= k < i ==> lo <= #[trigger] records@[k].timestamp_seconds <= hi,
        decreases records@.len() - i,
    {
        let t = records[i].timestamp_seconds;
        if t < lo {
            lo = t;
        }
        if t > hi {
            hi = t;
        }
        i += 1;
    }
    Some((lo, hi))
}

/// A minute of the calendar (UTC).
pub struct MinuteBucket {
    pub year: i32,
    pub month: u32,
    pub day: u32,
    pub hour: u32,
    pub minute: u32,
}

/// `n` zero characters.
pub open spec fn zeros(n: nat) -> Seq<char>
    decreases n,
{
    if n == 0 { Seq::empty() } else { zeros((n - 1) as nat).push('0') }
}

/// `n` in decimal, padded on the left with zeros to `width` characters
/// (as `format!("{:0w$}", n)` writes it).
pub open spec fn padded_nat(n: nat, width: nat) -> Seq<char> {
    let d = nat_decimal(n);
    if d.len() < width { zeros((width - d.len()) as nat) + d } else { d }
}

/// `i` in decimal, zero-padded to `width` characters, the sign first and
/// counted in the width (as `format!("{:0w$}", i)` writes it).
pub open spec fn padded_int(i: int, width: nat) -> Seq<char> {
    if i < 0 {
        let d = nat_decimal((-i) as nat);
        if d.len() + 1 < width { seq!['-'] + zeros((width - d.len() - 1) as nat) + d } else { seq!['-'] + d }
    } else {
        padded_nat(i as nat, width)
    }
}

proof fn lemma_decimal_nonempty(n: nat)
    ensures
        nat_decimal(n).len() >= 1,
    decreases n,
{
    if n >= 10 {
        lemma_decimal_nonempty(n / 10);
    }
}

fn push_zeros(out: &mut String, n: usize)
    ensures
        final(out)@ == old(out)@ + zeros(n as nat),
{
    let mut k: usize = 0;
    while k < n
        invariant
            k <= n,
            out@ == old(out)@ + zeros(k as nat),
        decreases n - k,
    {
        push_char(out, '0');
        k += 1;
        assert(out@ =~= old(out)@ + zeros(k as nat));
    }
}

fn decimal_len(n: u64) -> (l: usize)
    ensures
        l == nat_decimal(n as nat).len(),
        l <= 20,
    decreases n,
{
    proof {
        lemma_decimal_nonempty(n as nat);
        reveal_with_fuel(pow10, 21);
        assert(pow10(20) == 100000000000000000000nat);
        lemma_decimal_len_bound(n as nat, 20);
    }
    if n < 10 {
        1
    } else {
        let l = decimal_len(n / 10);
        proof {
            lemma_decimal_nonempty((n / 10) as nat);
        }
        l + 1
    }
}

pub open spec fn pow10(k: nat) -> nat
    decreases k,
{
    if k == 0 { 1 } else { 10 * pow10((k - 1) as nat) }
}

proof fn lemma_decimal_len_bound(n: nat, k: nat)
    requires
        n < pow10(k),
        k >= 1,
    ensures
        nat_decimal(n).len() <= k,
    decreases k,
{
    lemma_decimal_nonempty(n);
    if n >= 10 {
        assert(k > 1) by {
            if k <= 1 {
                assert(pow10(0) == 1);
                assert(pow10(1) == 10);
            }
        }
        let p = pow10((k - 1) as nat);
        assert(n / 10 < p) by (nonlinear_arith)
            requires
                n < 10 * p,
        ;
        lemma_decimal_len_bound(n / 10, (k - 1) as nat);
    }
}

fn push_padded_u64(out: &mut String, n: u64, width: usize)
    ensures
        final(out)@ == old(out)@ + padded_nat(n as nat, width as nat),
{
    let l = decimal_len(n);
    if l < width {
        push_zeros(out, width - l);
    }
    push_u64_decimal(out, n);
    assert(final(out)@ =~= old(out)@ + padded_nat(n as nat, width as nat));
}

fn push_padded_i32(out: &mut String, i: i32, width: usize)
    ensures
        final(out)@ == old(out)@ + padded_int(i as int, width as nat),
{
    if i < 0 {
        let m: u64 = (-(i as i64)) as u64;
        let l = decimal_len(m);
        push_char(out, '-');
        if l + 1 < width {
            push_zeros(out, width - l - 1);
        }
        push_u64_decimal(out, m);
        assert(final(out)@ =~= old(out)@ + padded_int(i as int, width as nat));
    } else {
        push_padded_u64(out, i as u64, width);
    }
}

/// The text key of a minute bucket: `YYYY-MM-DD_HH:MM`.
pub open spec fn bucket_key_of(b: MinuteBucket) -> Seq<char> {
    padded_int(b.year as int, 4) + seq!['-'] + padded_nat(b.month as nat, 2) + seq!['-']
        + padded_nat(b.day as nat, 2) + seq!['_'] + padded_nat(b.hour as nat, 2) + seq![':']
        + padded_nat(b.minute as nat, 2)
}

impl MinuteBucket {
    /// The key `YYYY-MM-DD_HH:MM` under which records of this minute are
    /// indexed.
    pub fn bucket_key(&self) -> (s: String)
        ensures
            s@ == bucket_key_of(*self),
    {
        let mut s = String::new();
        push_padded_i32(&mut s, self.year, 4);
        push_char(&mut s, '-');
        push_padded_u64(&mut s, self.month as u64, 2);
        push_char(&mut s, '-');
        push_padded_u64(&mut s, self.day as u64, 2);
        push_char(&mut s, '_');
        push_padded_u64(&mut s, self.hour as u64, 2);
        push_char(&mut s, ':');
        push_padded_u64(&mut s, self.minute as u64, 2);
        assert(s@ =~= bucket_key_of(*self));
        s
    }
}

} // verus!
