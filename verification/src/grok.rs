use vstd::prelude::*;

use vstd::string::StringSliceAdditionalSpecFns;

use crate::advanced_chunking::{first_from, lemma_first_from};
use crate::docinfo::{trim_chars, trim_ws};
use crate::docsearch::string_of_chars;
use crate::fulltext::{lowercase, to_lower};
use crate::glob::{find_from, occurs_at};
use crate::json::{split_on, split_on_char};
use crate::ring::string_views;
use crate::strmap::{entries_map, keys_distinct, StrMap};
use crate::text::{chars_of, nat_decimal, push_str, push_u64_decimal};

verus! {

/// The key of a parsed log line: its `key`, `operation` or `index` field,
/// else `log.` and its `level` in lower case, else `log_` and the length of
/// the raw line in bytes.
pub open spec fn key_of(p: Map<Seq<char>, Seq<char>>, raw_len: nat) -> Seq<char> {
    if p.contains_key("key"@) {
        p["key"@]
    } else if p.contains_key("operation"@) {
        p["operation"@]
    } else if p.contains_key("index"@) {
        p["index"@]
    } else if p.contains_key("level"@) {
        "log."@ + lowercase(p["level"@])
    } else {
        "log_"@ + nat_decimal(raw_len)
    }
}

/// The source of a parsed log line: its `source` field, else its `host`
/// field, else the default source.
pub open spec fn source_of(p: Map<Seq<char>, Seq<char>>, default_source: Seq<char>) -> Seq<char> {
    if p.contains_key("source"@) {
        p["source"@]
    } else if p.contains_key("host"@) {
        p["host"@]
    } else {
        default_source
    }
}

/// One piece of a metadata string, `key=value`: both sides trimmed, split
/// at the first `=`; nothing for a piece without `=`.
pub open spec fn md_pair(piece: Seq<char>) -> Option<(Seq<char>, Seq<char>)> {
    match first_from(piece, "="@, 0) {
        Some(e) => Some((trim_ws(piece.subrange(0, e)), trim_ws(piece.subrange(e + 1, piece.len() as int)))),
        None => None,
    }
}

/// The map of the pieces, a later piece for a key winning.
pub open spec fn md_fold(pieces: Seq<Seq<char>>) -> Map<Seq<char>, Seq<char>>
    decreases pieces.len(),
{
    if pieces.len() == 0 {
        Map::empty()
    } else {
        match md_pair(pieces.last()) {
            Some(kv) => md_fold(pieces.drop_last()).insert(kv.0, kv.1),
            None => md_fold(pieces.drop_last()),
        }
    }
}

/// The map of a metadata string: `key=value` pieces separated by commas.
pub open spec fn metadata_map(s: Seq<char>) -> Map<Seq<char>, Seq<char>> {
    md_fold(split_on(s, ','))
}

/// Fields that a telemetry record holds in its own right, not as metadata.
pub open spec fn reserved_field(k: Seq<char>) -> bool {
    k == "timestamp"@ || k == "key"@ || k == "source"@ || k == "value"@ || k == "message"@ || k == "metadata"@
}

/// The fields that a record does not hold in its own right.
pub open spec fn plain_fields(p: Map<Seq<char>, Seq<char>>) -> Map<Seq<char>, Seq<char>> {
    p.restrict(p.dom().filter(|k: Seq<char>| !reserved_field(k)))
}

/// The pairs of the `metadata` field, if there is one.
pub open spec fn base_metadata(p: Map<Seq<char>, Seq<char>>) -> Map<Seq<char>, Seq<char>> {
    if p.contains_key("metadata"@) { metadata_map(p["metadata"@]) } else { Map::empty() }
}

/// The metadata of a parsed log line: the pairs of its `metadata` field,
/// overridden by every field that a record does not hold in its own right.
pub open spec fn metadata_of(p: Map<Seq<char>, Seq<char>>) -> Map<Seq<char>, Seq<char>> {
    base_metadata(p).union_prefer_right(plain_fields(p))
}

/// The key of a parsed log line (see `key_of`).
pub fn extract_key(parsed: &StrMap, raw_log: &str) -> (r: String)
    requires
        parsed.wf(),
    ensures
        r@ == key_of(parsed.view(), raw_log.spec_bytes().len()),
{
    if let Some(k) = parsed.get("key") {
        return k;
    }
    if let Some(op) = parsed.get("operation") {
        return op;
    }
    if let Some(ix) = parsed.get("index") {
        return ix;
    }
    if let Some(level) = parsed.get("level") {
        let mut r = String::new();
        push_str(&mut r, "log.");
        let low = to_lower(level.as_str());
        push_str(&mut r, low.as_str());
        assert(r@ =~= "log."@ + lowercase(level@));
        return r;
    }
    let n = raw_log.as_bytes().len();
    let mut r = String::new();
    push_str(&mut r, "log_");
    push_u64_decimal(&mut r, n as u64);
    assert(r@ =~= "log_"@ + nat_decimal(n as nat));
    r
}

/// The source of a parsed log line (see `source_of`).
pub fn extract_source(parsed: &StrMap, default_source: &str) -> (r: String)
    requires
        parsed.wf(),
    ensures
        r@ == source_of(parsed.view(), default_source@),
{
    if let Some(s) = parsed.get("source") {
        return s;
    }
    if let Some(h) = parsed.get("host") {
        return h;
    }
    default_source.to_owned()
}

/// The characters `cs[a..b]`.
fn sub_chars(cs: &Vec<char>, a: usize, b: usize) -> (r: Vec<char>)
    requires
        a <= b <= cs@.len(),
    ensures
        r@ == cs@.subrange(a as int, b as int),
{
    let mut v: Vec<char> = Vec::new();
    let mut i = a;
    while i < b
        invariant
            a <= i <= b,
            b <= cs@.len(),
            v@ == cs@.subrange(a as int, i as int),
        decreases b - i,
    {
        v.push(cs[i]);
        i += 1;
        assert(v@ =~= cs@.subrange(a as int, i as int));
    }
    v
}

/// The first place at or after `from` where `needle` occurs in `hay`.
pub(crate) fn find_first(hay: &Vec<char>, needle: &Vec<char>, from: usize) -> (r: Option<usize>)
    requires
        from <= hay@.len(),
    ensures
        match r {
            Some(i) => first_from(hay@, needle@, from as int) == Some(i as int),
            None => first_from(hay@, needle@, from as int) is None,
        },
{
    let f = find_from(hay, needle, from);
    proof {
        lemma_first_from(hay@, needle@, from as int);
        match f {
            Some(i) => {
                match first_from(hay@, needle@, from as int) {
                    Some(j) => {
                        if j < i {
                            assert(occurs_at(hay@, needle@, j));
                        } else if i < j {
                            assert(!occurs_at(hay@, needle@, i as int));
                        }
                    },
                    None => {
                        assert(!occurs_at(hay@, needle@, i as int));
                    },
                }
            },
            None => {
                if first_from(hay@, needle@, from as int) is Some {
                    assert(occurs_at(hay@, needle@, first_from(hay@, needle@, from as int)->0));
                }
            },
        }
    }
    f
}

/// One `key=value` piece, both sides trimmed (see `md_pair`).
fn metadata_pair(piece: &String) -> (r: Option<(String, String)>)
    ensures
        match r {
            Some(kv) => md_pair(piece@) == Some((kv.0@, kv.1@)),
            None => md_pair(piece@) is None,
        },
{
    let cs = chars_of(piece.as_str());
    let eq = chars_of("=");
    match find_first(&cs, &eq, 0) {
        Some(e) => {
            proof {
                reveal_strlit("=");
                lemma_first_from(cs@, eq@, 0);
                assert(occurs_at(cs@, eq@, e as int));
            }
            let k = trim_chars(&sub_chars(&cs, 0, e));
            let v = trim_chars(&sub_chars(&cs, e + 1, cs.len()));
            Some((string_of_chars(&k), string_of_chars(&v)))
        },
        None => None,
    }
}

/// The map of a metadata string (see `metadata_map`).
pub fn parse_metadata_string(s: &str) -> (r: StrMap)
    ensures
        r.wf(),
        r.view() == metadata_map(s@),
{
    let pieces = split_on_char(s, ',');
    let ghost ps = split_on(s@, ',');
    let mut m = StrMap::new();
    let mut i: usize = 0;
    assert(ps.take(0) =~= Seq::<Seq<char>>::empty());
    while i < pieces.len()
        invariant
            string_views(pieces@) == ps,
            ps == split_on(s@, ','),
            i <= pieces@.len(),
            m.wf(),
            m.view() == md_fold(ps.take(i as int)),
        decreases pieces.len() - i,
    {
        let kv = metadata_pair(&pieces[i]);
        proof {
            assert(ps.take(i + 1).drop_last() =~= ps.take(i as int));
            assert(ps[i as int] == pieces@[i as int]@);
        }
        match kv {
            Some((k, v)) => {
                m.insert(k, v);
            },
            None => {},
        }
        i += 1;
    }
    assert(ps.take(i as int) =~= ps);
    m
}

/// Whether a field is one that a record holds in its own right.
fn is_reserved_field(k: &String) -> (b: bool)
    ensures
        b == reserved_field(k@),
{
    let names = [
        "timestamp".to_owned(),
        "key".to_owned(),
        "source".to_owned(),
        "value".to_owned(),
        "message".to_owned(),
        "metadata".to_owned(),
    ];
    *k == names[0] || *k == names[1] || *k == names[2] || *k == names[3] || *k == names[4] || *k == names[5]
}

/// The metadata of a parsed log line (see `metadata_of`).
pub fn extract_metadata(parsed: &StrMap) -> (r: StrMap)
    requires
        parsed.wf(),
    ensures
        r.wf(),
        r.view() == metadata_of(parsed.view()),
{
    let ghost p = parsed.view();
    let ghost base = base_metadata(p);
    let mut m = match parsed.get("metadata") {
        Some(md) => parse_metadata_string(md.as_str()),
        None => StrMap::new(),
    };
    let ps = parsed.pairs();
    let mut i: usize = 0;
    assert(ps@.take(0) =~= Seq::<(String, String)>::empty());
    assert(base.union_prefer_right(plain_fields(entries_map(ps@.take(0)))) =~= base);
    while i < ps.len()
        invariant
            entries_map(ps@) == p,
            base == base_metadata(p),
            i <= ps@.len(),
            m.wf(),
            m.view() == base.union_prefer_right(plain_fields(entries_map(ps@.take(i as int)))),
        decreases ps.len() - i,
    {
        let ghost q = entries_map(ps@.take(i as int));
        let ghost k = ps@[i as int].0@;
        let ghost v = ps@[i as int].1@;
        proof {
            assert(ps@.take(i + 1).drop_last() =~= ps@.take(i as int));
            assert(entries_map(ps@.take(i + 1)) == q.insert(k, v));
        }
        if !is_reserved_field(&ps[i].0) {
            m.insert(ps[i].0.clone(), ps[i].1.clone());
            proof {
                assert(plain_fields(q.insert(k, v)) =~= plain_fields(q).insert(k, v));
                assert(base.union_prefer_right(plain_fields(q)).insert(k, v)
                    =~= base.union_prefer_right(plain_fields(q).insert(k, v)));
            }
        } else {
            proof {
                assert(plain_fields(q.insert(k, v)) =~= plain_fields(q));
            }
        }
        i += 1;
    }
    assert(ps@.take(i as int) =~= ps@);
    m
}

/// Whether `regex::Regex::new` accepts a pattern.
pub uninterp spec fn regex_valid(pattern: Seq<char>) -> bool;

/// The groups of the leftmost match of a pattern in a line, in the order of
/// the groups (the whole match first): each with its name, if it has one,
/// and the text it matched, if it took part; none when the pattern is
/// refused or does not match.
pub uninterp spec fn regex_captures(pattern: Seq<char>, line: Seq<char>) -> Option<Seq<(Option<Seq<char>>, Option<Seq<char>>)>>;

/// The named groups that took part in a match, as (name, text), in order.
pub open spec fn named_matches(g: Seq<(Option<Seq<char>>, Option<Seq<char>>)>) -> Seq<(Seq<char>, Seq<char>)>
    decreases g.len(),
{
    if g.len() == 0 {
        Seq::empty()
    } else {
        let rest = named_matches(g.drop_last());
        match g.last() {
            (Some(n), Some(t)) => rest.push((n, t)),
            _ => rest,
        }
    }
}

/// The fields a pattern gives a line: its named groups that took part in
/// the leftmost match; none when the pattern is refused or does not match.
pub open spec fn group_matches(pattern: Seq<char>, line: Seq<char>) -> Option<Seq<(Seq<char>, Seq<char>)>> {
    match regex_captures(pattern, line) {
        Some(g) => Some(named_matches(g)),
        None => None,
    }
}

/// Optional strings as plain values.
pub open spec fn opt_str(o: Option<String>) -> Option<Seq<char>> {
    match o {
        Some(s) => Some(s@),
        None => None,
    }
}

/// The groups as plain values.
pub open spec fn group_views(v: Seq<(Option<String>, Option<String>)>) -> Seq<(Option<Seq<char>>, Option<Seq<char>>)> {
    v.map_values(|p: (Option<String>, Option<String>)| (opt_str(p.0), opt_str(p.1)))
}

/// What `chrono::DateTime::parse_from_rfc3339` gives for a string, in Unix
/// seconds.
pub uninterp spec fn rfc3339_seconds(s: Seq<char>) -> Option<i64>;

/// What `chrono::NaiveDateTime::parse_from_str` gives for a string in the
/// format `%Y-%m-%d %H:%M:%S`, taken as UTC, in Unix seconds.
pub uninterp spec fn naive_seconds(s: Seq<char>) -> Option<i64>;

/// The pairs as plain values.
pub open spec fn pair_views(v: Seq<(String, String)>) -> Seq<(Seq<char>, Seq<char>)> {
    v.map_values(|p: (String, String)| (p.0@, p.1@))
}

/// The pairs as a map, a later pair for a key winning.
pub open spec fn views_map(s: Seq<(Seq<char>, Seq<char>)>) -> Map<Seq<char>, Seq<char>>
    decreases s.len(),
{
    if s.len() == 0 {
        Map::empty()
    } else {
        views_map(s.drop_last()).insert(s.last().0, s.last().1)
    }
}

/// Whether `regex::Regex::new` accepts `pattern`. The answer is named, not
/// stated: it follows the regex crate's syntax and size limits.
#[verifier::external_body]
fn regex_accepts(pattern: &str) -> (b: bool)
    ensures
        b == regex_valid(pattern@),
{
    regex::Regex::new(pattern).is_ok()
}

/// Compiles `pattern` with the regex crate (`Regex::new`) and takes every
/// group of its leftmost match in `line` (`captures`), with the group's
/// name from `capture_names`, in group order. The groups are named, not
/// stated; a pattern that does not compile, or does not match, gives
/// `None`.
#[verifier::external_body]
fn regex_groups(pattern: &str, line: &str) -> (r: Option<Vec<(Option<String>, Option<String>)>>)
    ensures
        match r {
            Some(v) => regex_captures(pattern@, line@) == Some(group_views(v@)),
            None => regex_captures(pattern@, line@) is None,
        },
        r is Some ==> regex_valid(pattern@),
{
    let re = regex::Regex::new(pattern).ok()?;
    let caps = re.captures(line)?;
    let mut groups = Vec::new();
    for (i, name) in re.capture_names().enumerate() {
        groups.push((name.map(|n| n.to_owned()), caps.get(i).map(|m| m.as_str().to_owned())));
    }
    Some(groups)
}

/// The named groups that took part in a match, as (name, text), in order.
fn named_pairs(g: &Vec<(Option<String>, Option<String>)>) -> (r: Vec<(String, String)>)
    ensures
        pair_views(r@) == named_matches(group_views(g@)),
{
    let mut out: Vec<(String, String)> = Vec::new();
    let mut i: usize = 0;
    while i < g.len()
        invariant
            i <= g@.len(),
            pair_views(out@) == named_matches(group_views(g@.take(i as int))),
        decreases g@.len() - i,
    {
        let ghost before = out@;
        proof {
            assert(group_views(g@.take(i + 1)).drop_last() =~= group_views(g@.take(i as int)));
            assert(group_views(g@.take(i + 1)).last() == (opt_str(g@[i as int].0), opt_str(g@[i as int].1)));
        }
        match (&g[i].0, &g[i].1) {
            (Some(n), Some(t)) => {
                out.push((n.clone(), t.clone()));
                assert(pair_views(out@) =~= pair_views(before).push((n@, t@)));
            },
            _ => {},
        }
        i += 1;
    }
    assert(g@.take(i as int) =~= g@);
    out
}

/// The fields of a line by a pattern: its named groups that took part in
/// the leftmost match.
fn regex_named_captures(pattern: &str, line: &str) -> (r: Option<Vec<(String, String)>>)
    ensures
        match r {
            Some(v) => group_matches(pattern@, line@) == Some(pair_views(v@)),
            None => group_matches(pattern@, line@) is None,
        },
{
    match regex_groups(pattern, line) {
        Some(g) => Some(named_pairs(&g)),
        None => None,
    }
}

/// `chrono::DateTime::parse_from_rfc3339(s)`, then `timestamp()`. The
/// result is named, not stated.
#[verifier::external_body]
fn rfc3339_timestamp(s: &str) -> (r: Option<i64>)
    ensures
        r == rfc3339_seconds(s@),
{
    chrono::DateTime::parse_from_rfc3339(s).ok().map(|d| d.timestamp())
}

/// `chrono::NaiveDateTime::parse_from_str(s, "%Y-%m-%d %H:%M:%S")`, taken
/// as UTC, then `timestamp()`. The result is named, not stated.
#[verifier::external_body]
fn naive_timestamp(s: &str) -> (r: Option<i64>)
    ensures
        r == naive_seconds(s@),
{
    chrono::NaiveDateTime::parse_from_str(s, "%Y-%m-%d %H:%M:%S").ok().map(|d| d.and_utc().timestamp())
}

/// Whether a character is an ASCII digit.
pub open spec fn is_digit(c: char) -> bool {
    '0' <= c <= '9'
}

/// The value of a string of ASCII digits.
pub open spec fn digits_value(d: Seq<char>) -> int
    decreases d.len(),
{
    if d.len() == 0 {
        0
    } else {
        digits_value(d.drop_last()) * 10 + (d.last() as int - '0' as int)
    }
}

/// The text after a leading sign, if any.
pub open spec fn unsigned_part(s: Seq<char>) -> Seq<char> {
    if s.len() > 0 && (s[0] == '-' || s[0] == '+') {
        s.drop_first()
    } else {
        s
    }
}

/// What `str::parse::<i64>` accepts: an optional `+` or `-`, then one or
/// more ASCII digits, nothing else, the value within `i64`.
pub open spec fn i64_literal(s: Seq<char>) -> Option<int> {
    let d = unsigned_part(s);
    let v = if s.len() > 0 && s[0] == '-' { -digits_value(d) } else { digits_value(d) };
    if d.len() > 0 && (forall|i: int| 0 <= i < d.len() ==> is_digit(#[trigger] d[i])) && i64::MIN <= v <= i64::MAX {
        Some(v)
    } else {
        None
    }
}

proof fn lemma_digits_nonneg(d: Seq<char>)
    requires
        forall|i: int| 0 <= i < d.len() ==> is_digit(#[trigger] d[i]),
    ensures
        digits_value(d) >= 0,
    decreases d.len(),
{
    if d.len() > 0 {
        assert forall|i: int| 0 <= i < d.drop_last().len() implies is_digit(#[trigger] d.drop_last()[i]) by {
            assert(d.drop_last()[i] == d[i]);
        }
        lemma_digits_nonneg(d.drop_last());
        assert(is_digit(d[d.len() - 1]));
    }
}

/// Appending digits never lowers the value.
proof fn lemma_digits_prefix_le(d: Seq<char>, a: int)
    requires
        0 <= a <= d.len(),
        forall|i: int| 0 <= i < d.len() ==> is_digit(#[trigger] d[i]),
    ensures
        digits_value(d.take(a)) <= digits_value(d),
    decreases d.len() - a,
{
    if a < d.len() {
        lemma_digits_prefix_le(d, a + 1);
        let t = d.take(a + 1);
        assert(t.drop_last() =~= d.take(a));
        assert(t.last() == d[a]);
        assert forall|i: int| 0 <= i < d.take(a).len() implies is_digit(#[trigger] d.take(a)[i]) by {
            assert(d.take(a)[i] == d[i]);
        }
        lemma_digits_nonneg(d.take(a));
        assert(is_digit(d[a]));
    } else {
        assert(d.take(a) =~= d);
    }
}

/// `str::parse::<i64>`: an optional sign, then one or more ASCII digits
/// and nothing else, the value within `i64` (see `i64_literal`).
fn parse_i64(s: &str) -> (r: Option<i64>)
    ensures
        match r {
            Some(v) => i64_literal(s@) == Some(v as int),
            None => i64_literal(s@) is None,
        },
{
    let cs = chars_of(s);
    let n = cs.len();
    let signed = n > 0 && (cs[0] == '-' || cs[0] == '+');
    let neg = signed && cs[0] == '-';
    let start: usize = if signed { 1 } else { 0 };
    let ghost d: Seq<char> = unsigned_part(s@);
    assert(d =~= cs@.skip(start as int));
    if start == n {
        return None;
    }
    let limit: u64 = 9223372036854775808;
    let mut acc: u64 = 0;
    let mut k: usize = start;
    assert(d.take(0) =~= Seq::<char>::empty());
    while k < n
        invariant
            start <= k <= n,
            n == cs@.len(),
            cs@ == s@,
            d =~= cs@.skip(start as int),
            acc <= limit,
            limit == 9223372036854775808u64,
            acc == digits_value(d.take(k - start)),
            forall|i: int| 0 <= i < k - start ==> is_digit(#[trigger] d[i]),
            d == unsigned_part(s@),
            d.len() > 0,
        decreases n - k,
    {
        let c = cs[k];
        assert(c == d[k - start]);
        if !('0' <= c && c <= '9') {
            assert(!is_digit(d[k - start]));
            return None;
        }
        let digit = (c as u64) - ('0' as u64);
        assert(d.take(k - start + 1).drop_last() =~= d.take(k - start));
        assert(d.take(k - start + 1).last() == c);
        if acc > (limit - digit) / 10 {
            proof {
                assert(acc * 10 + digit > limit) by (nonlinear_arith)
                    requires
                        acc > (limit - digit) / 10,
                        digit <= 9,
                        limit == 9223372036854775808u64,
                ;
                if forall|i: int| 0 <= i < d.len() ==> is_digit(#[trigger] d[i]) {
                    lemma_digits_prefix_le(d, k - start + 1);
                    assert(digits_value(d) > 9223372036854775808);
                }
            }
            return None;
        }
        acc = acc * 10 + digit;
        k += 1;
    }
    assert(d.take(n - start) =~= d);
    if neg {
        if acc == limit {
            Some(i64::MIN)
        } else {
            Some(-(acc as i64))
        }
    } else if acc > 9223372036854775807 {
        None
    } else {
        Some(acc as i64)
    }
}

/// The time of a parsed log line, in Unix seconds: its `timestamp` field
/// read as RFC 3339, else as a plain integer, else as
/// `%Y-%m-%d %H:%M:%S` in UTC; `now` when none of these applies.
pub open spec fn timestamp_of(p: Map<Seq<char>, Seq<char>>, now: i64) -> i64 {
    if p.contains_key("timestamp"@) {
        let t = p["timestamp"@];
        match rfc3339_seconds(t) {
            Some(x) => x,
            None => match i64_literal(t) {
                Some(x) => x as i64,
                None => match naive_seconds(t) {
                    Some(x) => x,
                    None => now,
                },
            },
        }
    } else {
        now
    }
}

/// The time of a parsed log line (see `timestamp_of`); `now` is the time
/// to use when the line carries none.
pub fn extract_timestamp(parsed: &StrMap, now: i64) -> (r: i64)
    requires
        parsed.wf(),
    ensures
        r == timestamp_of(parsed.view(), now),
{
    match parsed.get("timestamp") {
        Some(t) => {
            if let Some(x) = rfc3339_timestamp(t.as_str()) {
                return x;
            }
            if let Some(x) = parse_i64(t.as_str()) {
                return x;
            }
            if let Some(x) = naive_timestamp(t.as_str()) {
                return x;
            }
            now
        },
        None => now,
    }
}

/// Why a log line could not be parsed.
#[derive(Clone, Copy, PartialEq, Eq, Structural, Debug)]
pub enum GrokError {
    /// No pattern of that name is registered.
    PatternNotFound,
    /// The pattern does not match the line.
    NoMatch,
    /// A pattern that the regex crate refuses.
    InvalidPattern,
}

/// The pattern names and sources registered when a parser is made.
pub open spec fn default_patterns() -> Seq<(Seq<char>, Seq<char>)> {
    seq![
        ("common_log"@, default_common_log()),
        ("bund_telemetry"@, default_bund_telemetry()),
        ("vector_operation"@, default_vector_operation()),
        ("search_query"@, default_search_query()),
        ("graph_operation"@, default_graph_operation()),
        ("json_log"@, default_json_log()),
    ]
}

pub open spec fn default_common_log() -> Seq<char> {
    r"(?P<timestamp>\d{4}-\d{2}-\d{2}T\d{2}:\d{2}:\d{2}Z) (?P<level>\w+) \[(?P<thread>\w+)\] (?P<key>\w+): (?P<message>.*)"@
}

pub open spec fn default_bund_telemetry() -> Seq<char> {
    r"(?P<timestamp>\d{4}-\d{2}-\d{2}T\d{2}:\d{2}:\d{2}Z)\|(?P<source>\w+)\|(?P<key>\w+)\|(?P<value>[^|]+)\|(?P<metadata>.*)"@
}

pub open spec fn default_vector_operation() -> Seq<char> {
    r"VECTOR\|(?P<operation>\w+)\|dim=(?P<dimension>\d+)\|time=(?P<time_ms>\d+)ms\|(?P<metadata>.*)"@
}

pub open spec fn default_search_query() -> Seq<char> {
    r"SEARCH\|(?P<index>\w+)\|query=(?P<query>.*)\|results=(?P<results>\d+)\|time=(?P<time_ms>\d+)ms"@
}

pub open spec fn default_graph_operation() -> Seq<char> {
    r"GRAPH\|(?P<operation>\w+)\|nodes=(?P<nodes>\d+)\|edges=(?P<edges>\d+)\|time=(?P<time_ms>\d+)ms"@
}

pub open spec fn default_json_log() -> Seq<char> {
    r"{(?P<json>.*)}"@
}

/// The registry after adding each pattern in turn, those that the regex
/// crate refuses left out.
pub open spec fn add_valid(m: Map<Seq<char>, Seq<char>>, ps: Seq<(Seq<char>, Seq<char>)>) -> Map<Seq<char>, Seq<char>>
    decreases ps.len(),
{
    if ps.len() == 0 {
        m
    } else {
        let m1 = add_valid(m, ps.drop_last());
        if regex_valid(ps.last().1) { m1.insert(ps.last().0, ps.last().1) } else { m1 }
    }
}

proof fn lemma_add_valid_step(m: Map<Seq<char>, Seq<char>>, ps: Seq<(Seq<char>, Seq<char>)>, k: int)
    requires
        0 <= k < ps.len(),
    ensures
        add_valid(m, ps.take(k + 1)) == if regex_valid(ps[k].1) {
            add_valid(m, ps.take(k)).insert(ps[k].0, ps[k].1)
        } else {
            add_valid(m, ps.take(k))
        },
{
    assert(ps.take(k + 1).drop_last() =~= ps.take(k));
}

/// The captures of the first pattern, in order, that matches the line.
pub open spec fn first_capture(ps: Seq<(Seq<char>, Seq<char>)>, line: Seq<char>) -> Option<Seq<(Seq<char>, Seq<char>)>>
    decreases ps.len(),
{
    if ps.len() == 0 {
        None
    } else {
        match group_matches(ps[0].1, line) {
            Some(c) => Some(c),
            None => first_capture(ps.drop_first(), line),
        }
    }
}

/// A map of the pairs, a later pair for a key winning.
fn map_of_pairs(v: &Vec<(String, String)>) -> (m: StrMap)
    ensures
        m.wf(),
        m.view() == views_map(pair_views(v@)),
{
    let mut m = StrMap::new();
    let mut i: usize = 0;
    assert(pair_views(v@.take(0)) =~= Seq::<(Seq<char>, Seq<char>)>::empty());
    while i < v.len()
        invariant
            i <= v@.len(),
            m.wf(),
            m.view() == views_map(pair_views(v@.take(i as int))),
        decreases v.len() - i,
    {
        proof {
            assert(pair_views(v@.take(i + 1)).drop_last() =~= pair_views(v@.take(i as int)));
            assert(pair_views(v@.take(i + 1)).last() == (v@[i as int].0@, v@[i as int].1@));
        }
        m.insert(v[i].0.clone(), v[i].1.clone());
        i += 1;
    }
    assert(v@.take(i as int) =~= v@);
    m
}

/// A log parser: named regular expressions whose named groups become the
/// fields of a line, and the source given to lines that name none.
pub struct GrokLogParser {
    patterns: StrMap,
    default_source: String,
}

impl GrokLogParser {
    /// The registered patterns, name to source.
    pub closed spec fn pattern_map(&self) -> Map<Seq<char>, Seq<char>> {
        self.patterns.view()
    }

    /// The registered patterns in the order they were first registered.
    pub closed spec fn pattern_list(&self) -> Seq<(Seq<char>, Seq<char>)> {
        pair_views(self.patterns.pair_seq())
    }

    pub closed spec fn source(&self) -> Seq<char> {
        self.default_source@
    }

    pub closed spec fn wf(&self) -> bool {
        self.patterns.wf()
    }

    /// Registers a pattern under a name, replacing one of the same name;
    /// refused, and nothing changed, when the regex crate refuses it.
    pub fn add_pattern(&mut self, name: &str, pattern: &str) -> (r: Result<(), GrokError>)
        requires
            old(self).wf(),
        ensures
            final(self).wf(),
            final(self).source() == old(self).source(),
            r is Ok <==> regex_valid(pattern@),
            r is Err ==> r == Err::<(), GrokError>(GrokError::InvalidPattern),
            final(self).pattern_map() == if regex_valid(pattern@) {
                old(self).pattern_map().insert(name@, pattern@)
            } else {
                old(self).pattern_map()
            },
    {
        if !regex_accepts(pattern) {
            return Err(GrokError::InvalidPattern);
        }
        self.patterns.insert(name.to_owned(), pattern.to_owned());
        Ok(())
    }

    /// The fields of a line by the pattern of the given name: the named
    /// groups of its match.
    pub fn parse_with_pattern(&self, pattern_name: &str, log_line: &str) -> (r: Result<StrMap, GrokError>)
        requires
            self.wf(),
        ensures
            !self.pattern_map().contains_key(pattern_name@) ==> (r matches Err(e) && e == GrokError::PatternNotFound),
            self.pattern_map().contains_key(pattern_name@) ==> match group_matches(self.pattern_map()[pattern_name@], log_line@) {
                Some(c) => r matches Ok(m) && m.wf() && m.view() == views_map(c),
                None => r matches Err(e) && e == GrokError::NoMatch,
            },
    {
        match self.patterns.get(pattern_name) {
            None => Err(GrokError::PatternNotFound),
            Some(src) => match regex_named_captures(src.as_str(), log_line) {
                None => Err(GrokError::NoMatch),
                Some(v) => Ok(map_of_pairs(&v)),
            },
        }
    }

    /// The fields of a line by the first registered pattern that matches
    /// it.
    pub fn parse_auto(&self, log_line: &str) -> (r: Result<StrMap, GrokError>)
        requires
            self.wf(),
        ensures
            match first_capture(self.pattern_list(), log_line@) {
                Some(c) => r matches Ok(m) && m.wf() && m.view() == views_map(c),
                None => r matches Err(e) && e == GrokError::NoMatch,
            },
    {
        let ps = self.patterns.pairs();
        let ghost l = pair_views(ps@);
        let mut i: usize = 0;
        assert(l.skip(0) =~= l);
        while i < ps.len()
            invariant
                l == pair_views(ps@),
                l == self.pattern_list(),
                i <= ps@.len(),
                first_capture(l, log_line@) == first_capture(l.skip(i as int), log_line@),
            decreases ps.len() - i,
        {
            proof {
                assert(l.skip(i as int)[0] == (ps@[i as int].0@, ps@[i as int].1@));
                assert(l.skip(i as int).drop_first() =~= l.skip(i + 1));
            }
            match regex_named_captures(ps[i].1.as_str(), log_line) {
                Some(v) => {
                    return Ok(map_of_pairs(&v));
                },
                None => {},
            }
            i += 1;
        }
        assert(l.skip(i as int) =~= Seq::<(Seq<char>, Seq<char>)>::empty());
        Err(GrokError::NoMatch)
    }

    /// The source given to lines that name none.
    pub fn default_source(&self) -> (r: &String)
        ensures
            r@ == self.source(),
    {
        &self.default_source
    }

    /// A parser with the default patterns (those the regex crate accepts)
    /// and the given default source.
    pub fn new(default_source: String) -> (p: Self)
        ensures
            p.wf(),
            p.source() == default_source@,
            p.pattern_map() == add_valid(Map::empty(), default_patterns()),
    {
        let mut p = GrokLogParser { patterns: StrMap::new(), default_source };
        let ghost d = default_patterns();
        let ghost e = Map::<Seq<char>, Seq<char>>::empty();
        assert(d.take(0) =~= Seq::<(Seq<char>, Seq<char>)>::empty());
        let _ = p.add_pattern("common_log", r"(?P<timestamp>\d{4}-\d{2}-\d{2}T\d{2}:\d{2}:\d{2}Z) (?P<level>\w+) \[(?P<thread>\w+)\] (?P<key>\w+): (?P<message>.*)");
        proof {
            lemma_add_valid_step(e, d, 0);
        }
        let _ = p.add_pattern("bund_telemetry", r"(?P<timestamp>\d{4}-\d{2}-\d{2}T\d{2}:\d{2}:\d{2}Z)\|(?P<source>\w+)\|(?P<key>\w+)\|(?P<value>[^|]+)\|(?P<metadata>.*)");
        proof {
            lemma_add_valid_step(e, d, 1);
        }
        let _ = p.add_pattern("vector_operation", r"VECTOR\|(?P<operation>\w+)\|dim=(?P<dimension>\d+)\|time=(?P<time_ms>\d+)ms\|(?P<metadata>.*)");
        proof {
            lemma_add_valid_step(e, d, 2);
        }
        let _ = p.add_pattern("search_query", r"SEARCH\|(?P<index>\w+)\|query=(?P<query>.*)\|results=(?P<results>\d+)\|time=(?P<time_ms>\d+)ms");
        proof {
            lemma_add_valid_step(e, d, 3);
        }
        let _ = p.add_pattern("graph_operation", r"GRAPH\|(?P<operation>\w+)\|nodes=(?P<nodes>\d+)\|edges=(?P<edges>\d+)\|time=(?P<time_ms>\d+)ms");
        proof {
            lemma_add_valid_step(e, d, 4);
        }
        let _ = p.add_pattern("json_log", r"{(?P<json>.*)}");
        proof {
            lemma_add_valid_step(e, d, 5);
        }
        assert(d.take(6) =~= d);
        p
    }
}

} // verus!
