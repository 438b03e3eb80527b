use vstd::prelude::*;

use crate::ring::string_views;
use crate::text::{chars_of, push_char, push_str};

verus! {

/// An event as root cause analysis reads it: when it happened and its key.
pub struct EventStamp {
    pub timestamp: i64,
    pub key: String,
}

/// Rust's `/` on signed integers: the quotient rounded toward zero.
pub open spec fn trunc_div(a: int, b: int) -> int {
    if a >= 0 { a / b } else { -((-a) / b) }
}

/// The keys of the events, in order.
pub open spec fn event_keys(ev: Seq<EventStamp>) -> Seq<Seq<char>> {
    ev.map_values(|e: EventStamp| e.key@)
}

/// How many times `k` occurs in `keys`.
pub open spec fn occurrences(keys: Seq<Seq<char>>, k: Seq<char>) -> nat
    decreases keys.len(),
{
    if keys.len() == 0 {
        0
    } else {
        occurrences(keys.drop_last(), k) + if keys.last() == k { 1nat } else { 0nat }
    }
}

/// The number of correlation windows that a timeline spans: the time from
/// its first to its last event divided by the window, at least one; none
/// for no events.
pub open spec fn time_windows(ev: Seq<EventStamp>, w: int) -> int {
    if ev.len() == 0 {
        0
    } else {
        let q = trunc_div(ev.last().timestamp - ev[0].timestamp, w);
        if q > 1 { q } else { 1 }
    }
}

/// The number of correlation windows that a timeline spans (see
/// `time_windows`).
pub fn count_time_windows(events: &Vec<EventStamp>, window: i64) -> (r: usize)
    requires
        events@.len() > 0 ==> window != 0,
        events@.len() > 0 ==> i64::MIN <= events@.last().timestamp - events@[0].timestamp <= i64::MAX,
        events@.len() > 0 ==> !(events@.last().timestamp - events@[0].timestamp == i64::MIN && window == -1),
        time_windows(events@, window as int) <= usize::MAX,
    ensures
        r == time_windows(events@, window as int),
{
    if events.len() == 0 {
        return 0;
    }
    assert(events@.last() == events@[events@.len() - 1]);
    let d = events[events.len() - 1].timestamp - events[0].timestamp;
    proof {
        lemma_trunc_div_range(d as int, window as int);
    }
    let q = d / window;
    let m = if q > 1 { q } else { 1 };
    m as usize
}

pub(crate) proof fn lemma_trunc_div_range(a: int, b: int)
    requires
        b != 0,
        i64::MIN <= a <= i64::MAX,
        !(a == i64::MIN && b == -1),
    ensures
        i64::MIN <= trunc_div(a, b) <= i64::MAX,
{
    if a >= 0 {
        if b > 0 {
            assert(0 <= a / b <= a) by (nonlinear_arith)
                requires
                    a >= 0,
                    b > 0,
            ;
        } else {
            assert(-a <= a / b <= 0) by (nonlinear_arith)
                requires
                    a >= 0,
                    b < 0,
            ;
        }
    } else {
        let na = -a;
        if b > 0 {
            assert(0 <= na / b <= na) by (nonlinear_arith)
                requires
                    na > 0,
                    b > 0,
            ;
        } else if b == -1 {
            assert(na / b == -na) by (nonlinear_arith)
                requires
                    b == -1,
            ;
        } else {
            assert(-na <= na / b <= 0) by (nonlinear_arith)
                requires
                    na > 0,
                    b < -1,
            ;
            assert(na / b >= -(na / 2)) by (nonlinear_arith)
                requires
                    na > 0,
                    b <= -2,
            ;
        }
    }
}

proof fn lemma_occurrences_step(keys: Seq<Seq<char>>, i: int, k: Seq<char>)
    requires
        0 <= i < keys.len(),
    ensures
        occurrences(keys.take(i + 1), k) == occurrences(keys.take(i), k) + if keys[i] == k { 1nat } else { 0nat },
{
    assert(keys.take(i + 1).drop_last() =~= keys.take(i));
}

proof fn lemma_occurrences_bound(keys: Seq<Seq<char>>, k: Seq<char>)
    ensures
        occurrences(keys, k) <= keys.len(),
    decreases keys.len(),
{
    if keys.len() > 0 {
        lemma_occurrences_bound(keys.drop_last(), k);
    }
}

/// How many events carry the key.
pub fn count_key(events: &Vec<EventStamp>, key: &String) -> (n: usize)
    ensures
        n == occurrences(event_keys(events@), key@),
{
    let ghost keys = event_keys(events@);
    let mut n: usize = 0;
    let mut i: usize = 0;
    assert(keys.take(0) =~= Seq::<Seq<char>>::empty());
    while i < events.len()
        invariant
            keys == event_keys(events@),
            i <= events@.len(),
            n == occurrences(keys.take(i as int), key@),
        decreases events.len() - i,
    {
        proof {
            lemma_occurrences_step(keys, i as int, key@);
            lemma_occurrences_bound(keys.take(i as int), key@);
        }
        if events[i].key == *key {
            n = n + 1;
        }
        i += 1;
    }
    assert(keys.take(i as int) =~= keys);
    n
}

/// The keys that occur at least `min_occurrences` times among the events,
/// each once, in the order they first occur.
pub fn find_frequent_singles(events: &Vec<EventStamp>, min_occurrences: usize) -> (r: Vec<String>)
    ensures
        string_views(r@).no_duplicates(),
        forall|k: Seq<char>| #[trigger] string_views(r@).contains(k) <==> (occurrences(event_keys(events@), k) > 0
            && occurrences(event_keys(events@), k) >= min_occurrences),
{
    let ghost keys = event_keys(events@);
    let mut counts: Vec<(String, usize)> = Vec::new();
    let mut i: usize = 0;
    assert(keys.take(0) =~= Seq::<Seq<char>>::empty());
    while i < events.len()
        invariant
            keys == event_keys(events@),
            i <= events@.len(),
            forall|a: int, b: int| 0 <= a < b < counts@.len() ==> counts@[a].0@ != counts@[b].0@,
            forall|a: int| 0 <= a < counts@.len() ==> #[trigger] counts@[a].1 == occurrences(keys.take(i as int), counts@[a].0@),
            forall|k: Seq<char>| #[trigger] occurrences(keys.take(i as int), k) > 0 ==> exists|a: int| 0 <= a < counts@.len() && counts@[a].0@ == k,
        decreases events.len() - i,
    {
        let ghost ki = keys[i as int];
        assert(ki == events@[i as int].key@);
        proof {
            assert forall|k: Seq<char>| true implies #[trigger] occurrences(keys.take(i + 1), k) == occurrences(keys.take(i as int), k) + if keys[i as int] == k { 1nat } else { 0nat } by {
                lemma_occurrences_step(keys, i as int, k);
            }
        }
        let mut a: usize = 0;
        let mut found = false;
        while a < counts.len() && !found
            invariant
                a <= counts@.len(),
                i < events@.len(),
                ki == events@[i as int].key@,
                found ==> a < counts@.len() && counts@[a as int].0@ == ki,
                !found ==> forall|b: int| 0 <= b < a ==> counts@[b].0@ != ki,
            decreases counts.len() - a, (if found { 0int } else { 1int }),
        {
            if counts[a].0 == events[i].key {
                found = true;
            } else {
                a += 1;
            }
        }
        let ghost before = counts@;
        if found {
            proof {
                lemma_occurrences_bound(keys.take(i as int), ki);
            }
            let c = counts[a].1;
            let k = counts[a].0.clone();
            counts.set(a, (k, c + 1));
            proof {
                assert forall|b: int| 0 <= b < counts@.len() implies #[trigger] counts@[b].1 == occurrences(keys.take(i + 1), counts@[b].0@) by {
                    if b != a {
                        assert(counts@[b] == before[b]);
                    }
                }
                assert forall|k: Seq<char>| #[trigger] occurrences(keys.take(i + 1), k) > 0 implies exists|b: int| 0 <= b < counts@.len() && counts@[b].0@ == k by {
                    if k == ki {
                        assert(counts@[a as int].0@ == k);
                    } else {
                        let b = choose|b: int| 0 <= b < before.len() && before[b].0@ == k;
                        if b == a {
                            assert(false);
                        }
                        assert(counts@[b] == before[b]);
                    }
                }
                assert forall|x: int, y: int| 0 <= x < y < counts@.len() implies counts@[x].0@ != counts@[y].0@ by {
                    assert(before[x].0@ != before[y].0@);
                }
            }
        } else {
            proof {
                if occurrences(keys.take(i as int), ki) > 0 {
                    let b = choose|b: int| 0 <= b < before.len() && before[b].0@ == ki;
                    assert(false);
                }
            }
            counts.push((events[i].key.clone(), 1));
            proof {
                assert forall|b: int| 0 <= b < counts@.len() implies #[trigger] counts@[b].1 == occurrences(keys.take(i + 1), counts@[b].0@) by {
                    if b < before.len() {
                        assert(counts@[b] == before[b]);
                    }
                }
                assert forall|k: Seq<char>| #[trigger] occurrences(keys.take(i + 1), k) > 0 implies exists|b: int| 0 <= b < counts@.len() && counts@[b].0@ == k by {
                    if k == ki {
                        assert(counts@[before.len() as int].0@ == k);
                    } else {
                        let b = choose|b: int| 0 <= b < before.len() && before[b].0@ == k;
                        assert(counts@[b] == before[b]);
                    }
                }
                assert forall|x: int, y: int| 0 <= x < y < counts@.len() implies counts@[x].0@ != counts@[y].0@ by {
                    if y < before.len() {
                        assert(before[x].0@ != before[y].0@);
                    } else {
                        assert(counts@[x] == before[x]);
                    }
                }
            }
        }
        i += 1;
    }
    assert(keys.take(i as int) =~= keys);
    let mut r: Vec<String> = Vec::new();
    let mut a: usize = 0;
    while a < counts.len()
        invariant
            a <= counts@.len(),
            forall|x: int, y: int| 0 <= x < y < counts@.len() ==> counts@[x].0@ != counts@[y].0@,
            forall|b: int| 0 <= b < counts@.len() ==> #[trigger] counts@[b].1 == occurrences(keys, counts@[b].0@),
            forall|k: Seq<char>| #[trigger] occurrences(keys, k) > 0 ==> exists|b: int| 0 <= b < counts@.len() && counts@[b].0@ == k,
            keys == event_keys(events@),
            string_views(r@).no_duplicates(),
            forall|k: Seq<char>| #[trigger] string_views(r@).contains(k) <==> exists|b: int| 0 <= b < a
                && counts@[b].0@ == k && counts@[b].1 >= min_occurrences && counts@[b].1 > 0,
        decreases counts.len() - a,
    {
        let ghost before = string_views(r@);
        if counts[a].1 >= min_occurrences && counts[a].1 > 0 {
            r.push(counts[a].0.clone());
            proof {
                assert(string_views(r@) =~= before.push(counts@[a as int].0@));
                assert forall|k: Seq<char>| #[trigger] string_views(r@).contains(k) <==> exists|b: int| 0 <= b < a + 1
                    && counts@[b].0@ == k && counts@[b].1 >= min_occurrences && counts@[b].1 > 0 by {
                    if string_views(r@).contains(k) {
                        let p = choose|p: int| 0 <= p < string_views(r@).len() && string_views(r@)[p] == k;
                        if p < before.len() {
                            assert(before.contains(k));
                        } else {
                            assert(counts@[a as int].0@ == k);
                        }
                    }
                    if exists|b: int| 0 <= b < a + 1 && counts@[b].0@ == k && counts@[b].1 >= min_occurrences && counts@[b].1 > 0 {
                        let b = choose|b: int| 0 <= b < a + 1 && counts@[b].0@ == k && counts@[b].1 >= min_occurrences && counts@[b].1 > 0;
                        if b < a {
                            assert(before.contains(k));
                            let p = choose|p: int| 0 <= p < before.len() && before[p] == k;
                            assert(string_views(r@)[p] == k);
                        } else {
                            assert(string_views(r@)[before.len() as int] == k);
                        }
                    }
                }
                assert forall|x: int, y: int| 0 <= x < y < string_views(r@).len() implies string_views(r@)[x] != string_views(r@)[y] by {
                    if y == before.len() {
                        assert(before.contains(before[x]));
                        let b = choose|b: int| 0 <= b < a && counts@[b].0@ == before[x] && counts@[b].1 >= min_occurrences && counts@[b].1 > 0;
                        assert(counts@[b].0@ != counts@[a as int].0@);
                    }
                }
            }
        } else {
            proof {
                assert forall|k: Seq<char>| #[trigger] string_views(r@).contains(k) <==> exists|b: int| 0 <= b < a + 1
                    && counts@[b].0@ == k && counts@[b].1 >= min_occurrences && counts@[b].1 > 0 by {
                    if exists|b: int| 0 <= b < a + 1 && counts@[b].0@ == k && counts@[b].1 >= min_occurrences && counts@[b].1 > 0 {
                        let b = choose|b: int| 0 <= b < a + 1 && counts@[b].0@ == k && counts@[b].1 >= min_occurrences && counts@[b].1 > 0;
                        assert(b < a);
                    }
                }
            }
        }
        a += 1;
    }
    proof {
        assert forall|k: Seq<char>| #[trigger] string_views(r@).contains(k) <==> (occurrences(keys, k) > 0
            && occurrences(keys, k) >= min_occurrences) by {
            if occurrences(keys, k) > 0 && occurrences(keys, k) >= min_occurrences {
                let b = choose|b: int| 0 <= b < counts@.len() && counts@[b].0@ == k;
                assert(counts@[b].1 == occurrences(keys, k));
            }
        }
    }
    r
}

/// The pairs `[f[i], f[j]]` with `j` after `i`, for `i` in row `i` only.
pub open spec fn pair_row(f: Seq<Seq<char>>, i: int) -> Seq<Seq<Seq<char>>> {
    Seq::new((f.len() - i - 1) as nat, |k: int| seq![f[i], f[i + 1 + k]])
}

/// The pairs `[f[i], f[j]]`, `i < j`, for the first `n` values of `i`, by
/// `i` then `j`.
pub open spec fn pairs_upto(f: Seq<Seq<char>>, n: int) -> Seq<Seq<Seq<char>>>
    decreases n,
{
    if n <= 0 {
        seq![]
    } else {
        pairs_upto(f, n - 1) + pair_row(f, n - 1)
    }
}

/// The candidate patterns of a size made of frequent keys: for size two,
/// every pair of them in order; no others are made.
pub open spec fn candidates(f: Seq<Seq<char>>, size: int) -> Seq<Seq<Seq<char>>> {
    if size == 2 { pairs_upto(f, f.len() as int) } else { seq![] }
}

/// The views of a list of patterns.
pub open spec fn pattern_views(v: Seq<Vec<String>>) -> Seq<Seq<Seq<char>>> {
    v.map_values(|c: Vec<String>| string_views(c@))
}

/// The candidate patterns of a size (see `candidates`).
pub fn generate_candidates(frequent: &Vec<String>, size: usize) -> (r: Vec<Vec<String>>)
    ensures
        pattern_views(r@) == candidates(string_views(frequent@), size as int),
{
    let ghost f = string_views(frequent@);
    let mut out: Vec<Vec<String>> = Vec::new();
    if size != 2 {
        assert(pattern_views(out@) =~= Seq::<Seq<Seq<char>>>::empty());
        return out;
    }
    let n = frequent.len();
    let mut i: usize = 0;
    assert(pattern_views(out@) =~= pairs_upto(f, 0));
    while i < n
        invariant
            f == string_views(frequent@),
            n == frequent@.len(),
            i <= n,
            pattern_views(out@) == pairs_upto(f, i as int),
        decreases n - i,
    {
        let mut j: usize = i + 1;
        assert(pattern_views(out@) =~= pairs_upto(f, i as int) + pair_row(f, i as int).take(0));
        while j < n
            invariant
                f == string_views(frequent@),
                n == frequent@.len(),
                i < n,
                i + 1 <= j <= n,
                pattern_views(out@) == pairs_upto(f, i as int) + pair_row(f, i as int).take(j - i - 1),
            decreases n - j,
        {
            let mut c: Vec<String> = Vec::new();
            c.push(frequent[i].clone());
            c.push(frequent[j].clone());
            let ghost before = out@;
            out.push(c);
            proof {
                assert(string_views(c@) =~= seq![f[i as int], f[j as int]]);
                assert(pair_row(f, i as int).take(j - i) =~= pair_row(f, i as int).take(j - i - 1).push(seq![f[i as int], f[j as int]]));
                assert(pattern_views(out@) =~= pattern_views(before).push(string_views(c@)));
            }
            j += 1;
        }
        assert(pair_row(f, i as int).take(j - i - 1) =~= pair_row(f, i as int));
        i += 1;
    }
    out
}

/// From event `j` on, the first event later than `limit`, or the end.
pub open spec fn first_after(ev: Seq<EventStamp>, j: int, limit: int) -> int
    decreases ev.len() - j,
{
    if j >= ev.len() || j < 0 {
        ev.len() as int
    } else if ev[j].timestamp > limit {
        j
    } else {
        first_after(ev, j + 1, limit)
    }
}

/// The end of the correlation window that starts at event `i`: the first
/// event from `i` on that comes more than `w` seconds after it.
pub open spec fn window_end(ev: Seq<EventStamp>, i: int, w: int) -> int {
    first_after(ev, i, ev[i].timestamp + w)
}

/// Whether the window starting at event `i` holds every key of the
/// pattern, the pattern's keys all different (one whose keys repeat is
/// never found whole).
pub open spec fn window_holds(ev: Seq<EventStamp>, pattern: Seq<Seq<char>>, i: int, w: int) -> bool {
    &&& pattern.no_duplicates()
    &&& forall|p: int| 0 <= p < pattern.len() ==> #[trigger] key_between(ev, pattern[p], i, window_end(ev, i, w))
}

/// Whether one of the events `i..end` has the key.
pub open spec fn key_between(ev: Seq<EventStamp>, k: Seq<char>, i: int, end: int) -> bool {
    exists|x: int| i <= x < end && #[trigger] ev[x].key@ == k
}

/// How many of the first `n` events start a window that holds the pattern.
pub open spec fn pattern_count(ev: Seq<EventStamp>, pattern: Seq<Seq<char>>, w: int, n: int) -> nat
    decreases n,
{
    if n <= 0 {
        0
    } else {
        pattern_count(ev, pattern, w, n - 1) + if window_holds(ev, pattern, n - 1, w) { 1nat } else { 0nat }
    }
}

/// Whether no string occurs twice.
fn all_distinct(v: &Vec<String>) -> (b: bool)
    ensures
        b == string_views(v@).no_duplicates(),
{
    let ghost s = string_views(v@);
    let mut a: usize = 0;
    while a < v.len()
        invariant
            s == string_views(v@),
            a <= v@.len(),
            forall|x: int, y: int| 0 <= x < y < v@.len() && x < a ==> s[x] != s[y],
        decreases v.len() - a,
    {
        let mut b: usize = a + 1;
        while b < v.len()
            invariant
                s == string_views(v@),
                a < v@.len(),
                a + 1 <= b <= v@.len(),
                forall|x: int, y: int| 0 <= x < y < v@.len() && x < a ==> s[x] != s[y],
                forall|y: int| a < y < b ==> s[a as int] != s[y],
            decreases v.len() - b,
        {
            if v[a] == v[b] {
                assert(s[a as int] == s[b as int]);
                return false;
            }
            b += 1;
        }
        a += 1;
    }
    true
}

/// How many events start a correlation window that holds every key of the
/// pattern (see `window_holds`).
pub fn count_pattern_occurrences(events: &Vec<EventStamp>, pattern: &Vec<String>, window: i64) -> (r: usize)
    requires
        forall|i: int| 0 <= i < events@.len() ==> i64::MIN <= #[trigger] events@[i].timestamp + window <= i64::MAX,
    ensures
        r == pattern_count(events@, string_views(pattern@), window as int, events@.len() as int),
{
    let ghost ev = events@;
    let ghost pv = string_views(pattern@);
    let distinct = all_distinct(pattern);
    let mut count: usize = 0;
    let mut i: usize = 0;
    while i < events.len()
        invariant
            ev == events@,
            pv == string_views(pattern@),
            distinct == pv.no_duplicates(),
            forall|k: int| 0 <= k < events@.len() ==> i64::MIN <= #[trigger] events@[k].timestamp + window <= i64::MAX,
            i <= ev.len(),
            count == pattern_count(ev, pv, window as int, i as int),
            count <= i,
        decreases events.len() - i,
    {
        let limit = events[i].timestamp + window;
        let mut end: usize = i;
        while end < events.len() && events[end].timestamp <= limit
            invariant
                ev == events@,
                i < ev.len(),
                i <= end <= ev.len(),
                limit == ev[i as int].timestamp + window,
                first_after(ev, i as int, limit as int) == first_after(ev, end as int, limit as int),
            decreases events.len() - end,
        {
            end += 1;
        }
        assert(end == window_end(ev, i as int, window as int));
        let mut all = true;
        let mut p: usize = 0;
        while p < pattern.len() && all
            invariant
                ev == events@,
                pv == string_views(pattern@),
                i <= end <= ev.len(),
                p <= pv.len(),
                all == forall|q: int| 0 <= q < p ==> #[trigger] key_between(ev, pv[q], i as int, end as int),
            decreases pattern.len() - p,
        {
            let mut j: usize = i;
            let mut hit = false;
            while j < end && !hit
                invariant
                    ev == events@,
                    pv == string_views(pattern@),
                    i <= j <= end <= ev.len(),
                    p < pv.len(),
                    hit ==> key_between(ev, pv[p as int], i as int, end as int),
                    !hit ==> forall|x: int| i <= x < j ==> #[trigger] ev[x].key@ != pv[p as int],
                decreases end - j, (if hit { 0int } else { 1int }),
            {
                if events[j].key == pattern[p] {
                    hit = true;
                    assert(ev[j as int].key@ == pv[p as int]);
                } else {
                    j += 1;
                }
            }
            proof {
                assert(hit == key_between(ev, pv[p as int], i as int, end as int));
            }
            all = hit;
            p += 1;
        }
        proof {
            if all {
                assert(p == pv.len());
            } else {
                let q = choose|q: int| 0 <= q < p && !#[trigger] key_between(ev, pv[q], i as int, end as int);
                assert(!key_between(ev, pv[q], i as int, end as int));
            }
            assert(window_holds(ev, pv, i as int, window as int) == (distinct && all));
        }
        if distinct && all {
            count += 1;
        }
        i += 1;
    }
    count
}

proof fn lemma_first_after_bounds(ev: Seq<EventStamp>, j: int, limit: int)
    requires
        0 <= j <= ev.len(),
    ensures
        j <= first_after(ev, j, limit) <= ev.len(),
    decreases ev.len() - j,
{
    if j < ev.len() && ev[j].timestamp <= limit {
        lemma_first_after_bounds(ev, j + 1, limit);
    }
}

/// The key under which two events are recorded as occurring together:
/// `<first key>:<second key>`.
pub open spec fn co_key(a: Seq<char>, b: Seq<char>) -> Seq<char> {
    a + seq![':'] + b
}

/// For event `i`, each later event in its correlation window (until the
/// first that comes more than `w` seconds after it), as the pair of their
/// co-occurrence key and the later event's key.
pub open spec fn co_row(ev: Seq<EventStamp>, w: int, i: int) -> Seq<(Seq<char>, Seq<char>)> {
    let end = first_after(ev, i + 1, ev[i].timestamp + w);
    Seq::new((end - i - 1) as nat, |k: int| (co_key(ev[i].key@, ev[i + 1 + k].key@), ev[i + 1 + k].key@))
}

/// The rows of the first `n` events, in order.
pub open spec fn co_steps(ev: Seq<EventStamp>, w: int, n: int) -> Seq<(Seq<char>, Seq<char>)>
    decreases n,
{
    if n <= 0 {
        seq![]
    } else {
        co_steps(ev, w, n - 1) + co_row(ev, w, n - 1)
    }
}

/// The lists made by appending each value to the list of its key, in order.
pub open spec fn append_map(steps: Seq<(Seq<char>, Seq<char>)>) -> Map<Seq<char>, Seq<Seq<char>>>
    decreases steps.len(),
{
    if steps.len() == 0 {
        Map::empty()
    } else {
        let m = append_map(steps.drop_last());
        let k = steps.last().0;
        let v = steps.last().1;
        m.insert(k, if m.contains_key(k) { m[k].push(v) } else { seq![v] })
    }
}

/// For each pair of events within a correlation window of the first, the
/// later event's key listed under `<first key>:<second key>`.
pub open spec fn co_occurrences(ev: Seq<EventStamp>, w: int) -> Map<Seq<char>, Seq<Seq<char>>> {
    append_map(co_steps(ev, w, ev.len() as int))
}

/// The co-occurrence key `<a>:<b>`.
fn make_co_key(a: &String, b: &String) -> (r: String)
    ensures
        r@ == co_key(a@, b@),
{
    let mut r = String::new();
    push_str(&mut r, a.as_str());
    push_char(&mut r, ':');
    push_str(&mut r, b.as_str());
    assert(r@ =~= co_key(a@, b@));
    r
}

/// The events that occur together within a correlation window (see
/// `co_occurrences`): each key once, with its list.
pub fn find_co_occurrences(events: &Vec<EventStamp>, window: i64) -> (r: Vec<(String, Vec<String>)>)
    requires
        forall|i: int| 0 <= i < events@.len() ==> i64::MIN <= #[trigger] events@[i].timestamp + window <= i64::MAX,
    ensures
        forall|a: int, b: int| 0 <= a < b < r@.len() ==> r@[a].0@ != r@[b].0@,
        forall|a: int| 0 <= a < r@.len() ==> co_occurrences(events@, window as int).contains_key(#[trigger] r@[a].0@)
            && co_occurrences(events@, window as int)[r@[a].0@] == string_views(r@[a].1@),
        forall|k: Seq<char>| #[trigger] co_occurrences(events@, window as int).contains_key(k) ==> exists|a: int| 0 <= a < r@.len() && r@[a].0@ == k,
{
    let ghost ev = events@;
    let ghost w = window as int;
    let mut out: Vec<(String, Vec<String>)> = Vec::new();
    let n = events.len();
    let mut i: usize = 0;
    while i < n
        invariant
            ev == events@,
            w == window as int,
            n == ev.len(),
            i <= n,
            forall|x: int| 0 <= x < ev.len() ==> i64::MIN <= #[trigger] ev[x].timestamp + window <= i64::MAX,
            forall|a: int, b: int| 0 <= a < b < out@.len() ==> out@[a].0@ != out@[b].0@,
            forall|a: int| 0 <= a < out@.len() ==> append_map(co_steps(ev, w, i as int)).contains_key(#[trigger] out@[a].0@)
                && append_map(co_steps(ev, w, i as int))[out@[a].0@] == string_views(out@[a].1@),
            forall|k: Seq<char>| #[trigger] append_map(co_steps(ev, w, i as int)).contains_key(k) ==> exists|a: int| 0 <= a < out@.len() && out@[a].0@ == k,
        decreases n - i,
    {
        let limit = events[i].timestamp + window;
        let ghost base = co_steps(ev, w, i as int);
        let ghost row = co_row(ev, w, i as int);
        proof {
            lemma_first_after_bounds(ev, i + 1, limit as int);
            assert(row.take(0) =~= Seq::<(Seq<char>, Seq<char>)>::empty());
            assert(base + row.take(0) =~= base);
        }
        let mut j: usize = i + 1;
        while j < n && events[j].timestamp <= limit
            invariant
                ev == events@,
                w == window as int,
                n == ev.len(),
                i < n,
                i + 1 <= j <= n,
                limit == ev[i as int].timestamp + window,
                base == co_steps(ev, w, i as int),
                row == co_row(ev, w, i as int),
                first_after(ev, i + 1, limit as int) == first_after(ev, j as int, limit as int),
                j <= first_after(ev, i + 1, limit as int) <= n,
                forall|a: int, b: int| 0 <= a < b < out@.len() ==> out@[a].0@ != out@[b].0@,
                forall|a: int| 0 <= a < out@.len() ==> append_map(base + row.take(j - i - 1)).contains_key(#[trigger] out@[a].0@)
                    && append_map(base + row.take(j - i - 1))[out@[a].0@] == string_views(out@[a].1@),
                forall|k: Seq<char>| #[trigger] append_map(base + row.take(j - i - 1)).contains_key(k) ==> exists|a: int| 0 <= a < out@.len() && out@[a].0@ == k,
            decreases n - j,
        {
            proof {
                lemma_first_after_bounds(ev, j + 1, limit as int);
            }
            let key = make_co_key(&events[i].key, &events[j].key);
            let ghost m = append_map(base + row.take(j - i - 1));
            let ghost kv = ev[j as int].key@;
            proof {
                assert(row[j - i - 1] == (key@, kv));
                assert((base + row.take(j - i)).drop_last() =~= base + row.take(j - i - 1));
                assert((base + row.take(j - i)).last() == (key@, kv));
            }
            let mut a: usize = 0;
            let mut found = false;
            while a < out.len() && !found
                invariant
                    a <= out@.len(),
                    found ==> a < out@.len() && out@[a as int].0@ == key@,
                    !found ==> forall|b: int| 0 <= b < a ==> out@[b].0@ != key@,
                decreases out.len() - a, (if found { 0int } else { 1int }),
            {
                if out[a].0 == key {
                    found = true;
                } else {
                    a += 1;
                }
            }
            let ghost before = out@;
            if found {
                out[a].1.push(events[j].key.clone());
                proof {
                    assert(string_views(out@[a as int].1@) =~= string_views(before[a as int].1@).push(kv));
                    assert forall|b: int| 0 <= b < out@.len() implies append_map(base + row.take(j + 1 - i - 1)).contains_key(#[trigger] out@[b].0@)
                        && append_map(base + row.take(j + 1 - i - 1))[out@[b].0@] == string_views(out@[b].1@) by {
                        if b != a {
                            assert(out@[b] == before[b]);
                            assert(before[b].0@ != before[a as int].0@);
                        }
                    }
                    assert forall|k: Seq<char>| #[trigger] append_map(base + row.take(j + 1 - i - 1)).contains_key(k) implies exists|b: int| 0 <= b < out@.len() && out@[b].0@ == k by {
                        if k != key@ {
                            assert(m.contains_key(k));
                            let b = choose|b: int| 0 <= b < before.len() && before[b].0@ == k;
                            assert(out@[b].0@ == k);
                        } else {
                            assert(out@[a as int].0@ == k);
                        }
                    }
                    assert forall|x: int, y: int| 0 <= x < y < out@.len() implies out@[x].0@ != out@[y].0@ by {
                        assert(before[x].0@ != before[y].0@);
                    }
                }
            } else {
                proof {
                    if m.contains_key(key@) {
                        let b = choose|b: int| 0 <= b < before.len() && before[b].0@ == key@;
                        assert(false);
                    }
                }
                let mut v: Vec<String> = Vec::new();
                v.push(events[j].key.clone());
                out.push((key, v));
                proof {
                    assert(string_views(out@[before.len() as int].1@) =~= seq![kv]);
                    assert forall|b: int| 0 <= b < out@.len() implies append_map(base + row.take(j + 1 - i - 1)).contains_key(#[trigger] out@[b].0@)
                        && append_map(base + row.take(j + 1 - i - 1))[out@[b].0@] == string_views(out@[b].1@) by {
                        if b < before.len() {
                            assert(out@[b] == before[b]);
                        }
                    }
                    assert forall|k: Seq<char>| #[trigger] append_map(base + row.take(j + 1 - i - 1)).contains_key(k) implies exists|b: int| 0 <= b < out@.len() && out@[b].0@ == k by {
                        if k != key@ {
                            assert(m.contains_key(k));
                            let b = choose|b: int| 0 <= b < before.len() && before[b].0@ == k;
                            assert(out@[b].0@ == k);
                        } else {
                            assert(out@[before.len() as int].0@ == k);
                        }
                    }
                    assert forall|x: int, y: int| 0 <= x < y < out@.len() implies out@[x].0@ != out@[y].0@ by {
                        if y < before.len() {
                            assert(before[x].0@ != before[y].0@);
                        } else {
                            assert(out@[x] == before[x]);
                        }
                    }
                }
            }
            j += 1;
        }
        proof {
            assert(first_after(ev, j as int, limit as int) == j);
            assert(row.take(j - i - 1) =~= row);
            assert(co_steps(ev, w, i + 1) == base + row);
        }
        i += 1;
    }
    out
}

/// `x` put into `s` after every element, from the end, that occurs in
/// `keys` no more often than it: the step of a stable sort by that count.
pub open spec fn insert_by_count(s: Seq<Seq<char>>, x: Seq<char>, keys: Seq<Seq<char>>) -> Seq<Seq<char>>
    decreases s.len(),
{
    if s.len() == 0 {
        seq![x]
    } else if occurrences(keys, s.last()) <= occurrences(keys, x) {
        s.push(x)
    } else {
        insert_by_count(s.drop_last(), x, keys).push(s.last())
    }
}

/// The pattern stably sorted by how often each of its keys occurs among
/// the events (`sort_by_key`): the typical order in which they happen.
pub open spec fn sorted_by_count(p: Seq<Seq<char>>, keys: Seq<Seq<char>>) -> Seq<Seq<char>>
    decreases p.len(),
{
    if p.len() == 0 {
        seq![]
    } else {
        insert_by_count(sorted_by_count(p.drop_last(), keys), p.last(), keys)
    }
}

proof fn lemma_insert_at(s: Seq<Seq<char>>, x: Seq<char>, keys: Seq<Seq<char>>, pos: int)
    requires
        0 <= pos <= s.len(),
        forall|k: int| pos <= k < s.len() ==> occurrences(keys, #[trigger] s[k]) > occurrences(keys, x),
        pos > 0 ==> occurrences(keys, s[pos - 1]) <= occurrences(keys, x),
    ensures
        insert_by_count(s, x, keys) == s.insert(pos, x),
    decreases s.len(),
{
    if s.len() == 0 {
        assert(s.insert(pos, x) =~= seq![x]);
    } else if pos == s.len() {
        assert(s.insert(pos, x) =~= s.push(x));
    } else {
        assert(occurrences(keys, s.last()) > occurrences(keys, x));
        let t = s.drop_last();
        assert forall|k: int| pos <= k < t.len() implies occurrences(keys, #[trigger] t[k]) > occurrences(keys, x) by {
            assert(t[k] == s[k]);
        }
        if pos > 0 {
            assert(t[pos - 1] == s[pos - 1]);
        }
        lemma_insert_at(t, x, keys, pos);
        assert(t.insert(pos, x).push(s.last()) =~= s.insert(pos, x));
    }
}

/// The pattern's keys in their typical order (see `sorted_by_count`).
pub fn determine_typical_sequence(events: &Vec<EventStamp>, pattern: &Vec<String>) -> (r: Vec<String>)
    ensures
        string_views(r@) == sorted_by_count(string_views(pattern@), event_keys(events@)),
{
    let ghost keys = event_keys(events@);
    let ghost pv = string_views(pattern@);
    let mut out: Vec<String> = Vec::new();
    let mut counts: Vec<usize> = Vec::new();
    let mut i: usize = 0;
    assert(pv.take(0) =~= Seq::<Seq<char>>::empty());
    assert(string_views(out@) =~= Seq::<Seq<char>>::empty());
    while i < pattern.len()
        invariant
            keys == event_keys(events@),
            pv == string_views(pattern@),
            i <= pv.len(),
            counts@.len() == out@.len(),
            forall|k: int| 0 <= k < out@.len() ==> #[trigger] counts@[k] == occurrences(keys, out@[k]@),
            string_views(out@) == sorted_by_count(pv.take(i as int), keys),
        decreases pattern.len() - i,
    {
        let c = count_key(events, &pattern[i]);
        let ghost x = pv[i as int];
        let ghost s = string_views(out@);
        let mut pos = out.len();
        while pos > 0 && counts[pos - 1] > c
            invariant
                pos <= out@.len(),
                counts@.len() == out@.len(),
                forall|k: int| pos <= k < out@.len() ==> #[trigger] counts@[k] > c,
            decreases pos,
        {
            pos -= 1;
        }
        proof {
            assert forall|k: int| pos <= k < s.len() implies occurrences(keys, #[trigger] s[k]) > occurrences(keys, x) by {
                assert(counts@[k] == occurrences(keys, out@[k]@));
            }
            if pos > 0 {
                assert(counts@[pos - 1] == occurrences(keys, out@[pos - 1]@));
            }
            lemma_insert_at(s, x, keys, pos as int);
            assert(pv.take(i + 1).drop_last() =~= pv.take(i as int));
        }
        let ghost old_out = out@;
        let ghost old_counts = counts@;
        out.insert(pos, pattern[i].clone());
        counts.insert(pos, c);
        proof {
            assert(string_views(out@) =~= s.insert(pos as int, x));
            assert forall|k: int| 0 <= k < out@.len() implies #[trigger] counts@[k] == occurrences(keys, out@[k]@) by {
                if k < pos {
                    assert(out@[k] == old_out[k]);
                    assert(counts@[k] == old_counts[k]);
                } else if k > pos {
                    assert(out@[k] == old_out[k - 1]);
                    assert(counts@[k] == old_counts[k - 1]);
                }
            }
        }
        i += 1;
    }
    assert(pv.take(i as int) =~= pv);
    out
}

/// The keys in order of how often they occur, fewest first.
pub open spec fn count_sorted(s: Seq<Seq<char>>, keys: Seq<Seq<char>>) -> bool {
    forall|a: int, b: int| 0 <= a < b < s.len() ==> occurrences(keys, #[trigger] s[a]) <= occurrences(keys, #[trigger] s[b])
}

proof fn lemma_insert_by_count(s: Seq<Seq<char>>, x: Seq<char>, keys: Seq<Seq<char>>)
    requires
        count_sorted(s, keys),
    ensures
        count_sorted(insert_by_count(s, x, keys), keys),
        insert_by_count(s, x, keys).to_multiset() == s.to_multiset().insert(x),
    decreases s.len(),
{
    broadcast use vstd::seq_lib::group_to_multiset_ensures;

    if s.len() == 0 {
        assert(seq![x] =~= Seq::<Seq<char>>::empty().push(x));
    } else if occurrences(keys, s.last()) <= occurrences(keys, x) {
        let r = s.push(x);
        assert forall|a: int, b: int| 0 <= a < b < r.len() implies occurrences(keys, #[trigger] r[a]) <= occurrences(keys, #[trigger] r[b]) by {
            if b == s.len() {
                if a < s.len() - 1 {
                    assert(occurrences(keys, s[a]) <= occurrences(keys, s[s.len() - 1]));
                }
            }
        }
    } else {
        let t = s.drop_last();
        assert(count_sorted(t, keys)) by {
            assert forall|a: int, b: int| 0 <= a < b < t.len() implies occurrences(keys, #[trigger] t[a]) <= occurrences(keys, #[trigger] t[b]) by {
                assert(t[a] == s[a] && t[b] == s[b]);
            }
        }
        lemma_insert_by_count(t, x, keys);
        let u = insert_by_count(t, x, keys);
        let r = u.push(s.last());
        assert(u.to_multiset() == t.to_multiset().insert(x));
        assert(t.push(s.last()) =~= s);
        assert forall|a: int, b: int| 0 <= a < b < r.len() implies occurrences(keys, #[trigger] r[a]) <= occurrences(keys, #[trigger] r[b]) by {
            if b == u.len() {
                assert(u.to_multiset().count(u[a]) > 0);
                assert(u.to_multiset().contains(u[a]));
                if u[a] != x {
                    assert(t.to_multiset().contains(u[a]));
                    let k = choose|k: int| 0 <= k < t.len() && t[k] == u[a];
                    assert(occurrences(keys, s[k]) <= occurrences(keys, s[s.len() - 1]));
                }
            }
        }
    }
}

/// The typical order of a pattern is an order of its keys, and an order by
/// how often each occurs among the events, fewest first.
pub proof fn lemma_typical_sequence_sorted(p: Seq<Seq<char>>, keys: Seq<Seq<char>>)
    ensures
        count_sorted(sorted_by_count(p, keys), keys),
        sorted_by_count(p, keys).to_multiset() == p.to_multiset(),
    decreases p.len(),
{
    broadcast use vstd::seq_lib::group_to_multiset_ensures;

    if p.len() > 0 {
        lemma_typical_sequence_sorted(p.drop_last(), keys);
        lemma_insert_by_count(sorted_by_count(p.drop_last(), keys), p.last(), keys);
        assert(p.drop_last().push(p.last()) =~= p);
    } else {
        assert(sorted_by_count(p, keys) =~= p);
    }
}

/// How many of the first `i` events carry the key of event `i`: how deep
/// into its repetitions event `i` lies.
pub open spec fn depth_of(ev: Seq<EventStamp>, i: int) -> nat {
    occurrences(event_keys(ev).take(i), ev[i].key@)
}

/// The key of the event before event `i`, when it came at most `w`
/// seconds before it.
pub open spec fn related_of(ev: Seq<EventStamp>, i: int, w: int) -> Option<Seq<char>> {
    if i > 0 && ev[i].timestamp - ev[i - 1].timestamp <= w {
        Some(ev[i - 1].key@)
    } else {
        None
    }
}

/// The view of an optional string.
pub open spec fn opt_view(o: Option<String>) -> Option<Seq<char>> {
    match o {
        Some(s) => Some(s@),
        None => None,
    }
}

/// Where an event stands in the propagation of failures: how many earlier
/// events share its key, and the key of the event just before it when that
/// came within the correlation window.
pub struct PropagationStep {
    pub depth: usize,
    pub related_to: Option<String>,
}

/// The propagation step of each event of a timeline (see `depth_of` and
/// `related_of`).
pub fn propagation_steps(events: &Vec<EventStamp>, window: i64) -> (r: Vec<PropagationStep>)
    requires
        forall|i: int| 0 < i < events@.len() ==> i64::MIN <= #[trigger] events@[i].timestamp - events@[i - 1].timestamp <= i64::MAX,
    ensures
        r@.len() == events@.len(),
        forall|i: int| 0 <= i < r@.len() ==> #[trigger] r@[i].depth == depth_of(events@, i)
            && opt_view(r@[i].related_to) == related_of(events@, i, window as int),
{
    let ghost ev = events@;
    let ghost keys = event_keys(ev);
    let mut out: Vec<PropagationStep> = Vec::new();
    let mut i: usize = 0;
    while i < events.len()
        invariant
            ev == events@,
            keys == event_keys(ev),
            i <= ev.len(),
            out@.len() == i,
            forall|x: int| 0 < x < ev.len() ==> i64::MIN <= #[trigger] ev[x].timestamp - ev[x - 1].timestamp <= i64::MAX,
            forall|x: int| 0 <= x < i ==> #[trigger] out@[x].depth == depth_of(ev, x)
                && opt_view(out@[x].related_to) == related_of(ev, x, window as int),
        decreases events.len() - i,
    {
        let mut depth: usize = 0;
        let mut j: usize = 0;
        assert(keys.take(0) =~= Seq::<Seq<char>>::empty());
        while j < i
            invariant
                ev == events@,
                keys == event_keys(ev),
                j <= i < ev.len(),
                depth == occurrences(keys.take(j as int), ev[i as int].key@),
            decreases i - j,
        {
            proof {
                lemma_occurrences_step(keys, j as int, ev[i as int].key@);
                lemma_occurrences_bound(keys.take(j as int), ev[i as int].key@);
            }
            if events[j].key == events[i].key {
                depth = depth + 1;
            }
            j += 1;
        }
        let related_to = if i > 0 && events[i].timestamp - events[i - 1].timestamp <= window {
            Some(events[i - 1].key.clone())
        } else {
            None
        };
        out.push(PropagationStep { depth, related_to });
        i += 1;
    }
    assert(forall|x: int| 0 <= x < out@.len() ==> #[trigger] out@[x].depth == depth_of(events@, x)
        && opt_view(out@[x].related_to) == related_of(events@, x, window as int));
    out
}

/// A causal link as chains read it: cause, effect, and whether its
/// confidence passes the threshold.
pub struct LinkFacts {
    pub cause: String,
    pub effect: String,
    pub strong: bool,
}

/// A chain grown from `chain` by the first `k` links in turn: each strong
/// link from the chain's last event adds its effect.
pub open spec fn chain_extend(links: Seq<LinkFacts>, chain: Seq<Seq<char>>, k: int) -> Seq<Seq<char>>
    decreases k,
{
    if k <= 0 {
        chain
    } else {
        let c = chain_extend(links, chain, k - 1);
        let l = links[k - 1];
        if l.strong && c.len() > 0 && l.cause@ == c.last() { c.push(l.effect@) } else { c }
    }
}

/// The events already in a chain, and the chains (each with the index of
/// the link it starts from), after the first `k` links: a strong link whose
/// cause is in no chain yet starts one, grown through all the links.
pub open spec fn chains_fold(links: Seq<LinkFacts>, k: int) -> (Set<Seq<char>>, Seq<(int, Seq<Seq<char>>)>)
    decreases k,
{
    if k <= 0 {
        (Set::empty(), seq![])
    } else {
        let (used, cs) = chains_fold(links, k - 1);
        let l = links[k - 1];
        if l.strong && !used.contains(l.cause@) {
            let ch = chain_extend(links, seq![l.cause@, l.effect@], links.len() as int);
            (used + ch.to_set(), cs.push((k - 1, ch)))
        } else {
            (used, cs)
        }
    }
}

/// Whether `v` holds `s`.
fn holds(v: &Vec<String>, s: &String) -> (b: bool)
    ensures
        b == string_views(v@).contains(s@),
{
    let mut i: usize = 0;
    while i < v.len()
        invariant
            i <= v@.len(),
            forall|k: int| 0 <= k < i ==> v@[k]@ != s@,
        decreases v.len() - i,
    {
        if v[i] == *s {
            assert(string_views(v@)[i as int] == s@);
            return true;
        }
        i += 1;
    }
    proof {
        if string_views(v@).contains(s@) {
            let k = choose|k: int| 0 <= k < string_views(v@).len() && string_views(v@)[k] == s@;
            assert(v@[k]@ == s@);
        }
    }
    false
}

/// The causal chains of a list of links (see `chains_fold`): for each, the
/// index of the link it starts from and its events.
pub fn causal_chains(links: &Vec<LinkFacts>) -> (r: Vec<(usize, Vec<String>)>)
    ensures
        r@.len() == chains_fold(links@, links@.len() as int).1.len(),
        forall|c: int| 0 <= c < r@.len() ==> (#[trigger] r@[c]).0 as int == chains_fold(links@, links@.len() as int).1[c].0
            && string_views(r@[c].1@) == chains_fold(links@, links@.len() as int).1[c].1,
{
    let ghost ls = links@;
    let mut used: Vec<String> = Vec::new();
    let mut out: Vec<(usize, Vec<String>)> = Vec::new();
    let mut t: usize = 0;
    while t < links.len()
        invariant
            ls == links@,
            t <= ls.len(),
            forall|x: Seq<char>| #[trigger] string_views(used@).contains(x) <==> chains_fold(ls, t as int).0.contains(x),
            out@.len() == chains_fold(ls, t as int).1.len(),
            forall|c: int| 0 <= c < out@.len() ==> (#[trigger] out@[c]).0 as int == chains_fold(ls, t as int).1[c].0
                && string_views(out@[c].1@) == chains_fold(ls, t as int).1[c].1,
        decreases links.len() - t,
    {
        let ghost prev = chains_fold(ls, t as int);
        let l = &links[t];
        let seen = holds(&used, &l.cause);
        if l.strong && !seen {
            let mut chain: Vec<String> = Vec::new();
            chain.push(l.cause.clone());
            chain.push(l.effect.clone());
            let ghost start = seq![l.cause@, l.effect@];
            assert(string_views(chain@) =~= start);
            let mut k: usize = 0;
            while k < links.len()
                invariant
                    ls == links@,
                    t < ls.len(),
                    k <= ls.len(),
                    start == seq![ls[t as int].cause@, ls[t as int].effect@],
                    string_views(chain@) == chain_extend(ls, start, k as int),
                    chain@.len() >= 2,
                decreases links.len() - k,
            {
                let n = chain.len();
                let ghost before = chain@;
                if links[k].strong && links[k].cause == chain[n - 1] {
                    chain.push(links[k].effect.clone());
                    proof {
                        assert(string_views(chain@) =~= string_views(before).push(ls[k as int].effect@));
                    }
                }
                proof {
                    assert(string_views(before).last() == before[n - 1]@);
                }
                k += 1;
            }
            let ghost ch = string_views(chain@);
            let mut e: usize = 0;
            let ghost used0 = string_views(used@);
            while e < chain.len()
                invariant
                    e <= chain@.len(),
                    ch == string_views(chain@),
                    forall|x: Seq<char>| #[trigger] string_views(used@).contains(x) <==> (used0.contains(x) || ch.take(e as int).contains(x)),
                decreases chain.len() - e,
            {
                let ghost ub = string_views(used@);
                used.push(chain[e].clone());
                proof {
                    assert(string_views(used@) =~= ub.push(ch[e as int]));
                    assert(ch.take(e + 1) =~= ch.take(e as int).push(ch[e as int]));
                    assert forall|x: Seq<char>| #[trigger] string_views(used@).contains(x) <==> (used0.contains(x) || ch.take(e + 1).contains(x)) by {
                        if string_views(used@).contains(x) {
                            let p = choose|p: int| 0 <= p < string_views(used@).len() && string_views(used@)[p] == x;
                            if p < ub.len() {
                                assert(ub[p] == x);
                                assert(ub.contains(x));
                            } else {
                                assert(ch.take(e + 1)[e as int] == x);
                            }
                        }
                        if used0.contains(x) {
                            assert(ub.contains(x));
                            let p = choose|p: int| 0 <= p < ub.len() && ub[p] == x;
                            assert(string_views(used@)[p] == x);
                        }
                        if ch.take(e + 1).contains(x) {
                            let p = choose|p: int| 0 <= p < ch.take(e + 1).len() && #[trigger] ch.take(e + 1)[p] == x;
                            if p < e {
                                assert(ch.take(e as int)[p] == x);
                                assert(ub.contains(x));
                                let q = choose|q: int| 0 <= q < ub.len() && ub[q] == x;
                                assert(string_views(used@)[q] == x);
                            } else {
                                assert(string_views(used@)[ub.len() as int] == x);
                            }
                        }
                    }
                }
                e += 1;
            }
            assert(ch.take(e as int) =~= ch);
            let ghost ob = out@;
            out.push((t, chain));
            proof {
                assert forall|c: int| 0 <= c < out@.len() implies (#[trigger] out@[c]).0 as int == chains_fold(ls, t + 1).1[c].0
                    && string_views(out@[c].1@) == chains_fold(ls, t + 1).1[c].1 by {
                    if c < ob.len() {
                        assert(out@[c] == ob[c]);
                    }
                }
            }
        }
        t += 1;
    }
    out
}

/// A pattern as correlation reads it: its events, and whether its
/// confidence passes the threshold.
pub struct PatternFacts {
    pub events: Vec<String>,
    pub strong: bool,
}

/// `acc` with each of `es` that is not `root` and not yet there appended,
/// in order.
pub open spec fn add_new(acc: Seq<Seq<char>>, es: Seq<Seq<char>>, root: Seq<char>) -> Seq<Seq<char>>
    decreases es.len(),
{
    if es.len() == 0 {
        acc
    } else {
        let a = add_new(acc, es.drop_last(), root);
        let e = es.last();
        if e != root && !a.contains(e) { a.push(e) } else { a }
    }
}

/// The events correlated with a root by the first `k` patterns: from each
/// strong pattern that holds the root, its other events, each once, in
/// order.
pub open spec fn correlated_for(pats: Seq<PatternFacts>, root: Seq<char>, k: int) -> Seq<Seq<char>>
    decreases k,
{
    if k <= 0 {
        seq![]
    } else {
        let a = correlated_for(pats, root, k - 1);
        let p = pats[k - 1];
        if p.strong && string_views(p.events@).contains(root) {
            add_new(a, string_views(p.events@), root)
        } else {
            a
        }
    }
}

/// For each root event, the events correlated with it (see
/// `correlated_for`), roots in order.
pub fn find_correlated_events(patterns: &Vec<PatternFacts>, roots: &Vec<String>) -> (r: Vec<(String, Vec<String>)>)
    ensures
        r@.len() == roots@.len(),
        forall|i: int| 0 <= i < r@.len() ==> (#[trigger] r@[i]).0@ == roots@[i]@
            && string_views(r@[i].1@) == correlated_for(patterns@, roots@[i]@, patterns@.len() as int),
{
    let mut out: Vec<(String, Vec<String>)> = Vec::new();
    let mut i: usize = 0;
    while i < roots.len()
        invariant
            i <= roots@.len(),
            out@.len() == i,
            forall|x: int| 0 <= x < i ==> (#[trigger] out@[x]).0@ == roots@[x]@
                && string_views(out@[x].1@) == correlated_for(patterns@, roots@[x]@, patterns@.len() as int),
        decreases roots.len() - i,
    {
        let root = &roots[i];
        let mut events: Vec<String> = Vec::new();
        let mut k: usize = 0;
        assert(string_views(events@) =~= Seq::<Seq<char>>::empty());
        while k < patterns.len()
            invariant
                i < roots@.len(),
                root == roots@[i as int],
                k <= patterns@.len(),
                string_views(events@) == correlated_for(patterns@, root@, k as int),
            decreases patterns.len() - k,
        {
            let p = &patterns[k];
            if p.strong && holds(&p.events, root) {
                let ghost es = string_views(p.events@);
                let ghost acc0 = string_views(events@);
                let mut e: usize = 0;
                assert(es.take(0) =~= Seq::<Seq<char>>::empty());
                while e < p.events.len()
                    invariant
                        es == string_views(p.events@),
                        e <= es.len(),
                        string_views(events@) == add_new(acc0, es.take(e as int), root@),
                    decreases p.events.len() - e,
                {
                    proof {
                        assert(es.take(e + 1).drop_last() =~= es.take(e as int));
                        assert(es.take(e + 1).last() == p.events@[e as int]@);
                    }
                    if !(p.events[e] == *root) && !holds(&events, &p.events[e]) {
                        let ghost before = string_views(events@);
                        events.push(p.events[e].clone());
                        assert(string_views(events@) =~= before.push(p.events@[e as int]@));
                    }
                    e += 1;
                }
                assert(es.take(e as int) =~= es);
            }
            k += 1;
        }
        let ghost ob = out@;
        out.push((root.clone(), events));
        proof {
            assert forall|x: int| 0 <= x < out@.len() implies (#[trigger] out@[x]).0@ == roots@[x]@
                && string_views(out@[x].1@) == correlated_for(patterns@, roots@[x]@, patterns@.len() as int) by {
                if x < ob.len() {
                    assert(out@[x] == ob[x]);
                }
            }
        }
        i += 1;
    }
    out
}

/// A remedy suggested for a root cause.
pub struct Recommendation {
    pub priority: String,
    pub root_cause: String,
    pub suggestion: String,
    pub expected_impact: String,
    pub related_patterns: Vec<String>,
}

/// What to do about a root cause: advice for known failure kinds, else to
/// look into its events.
pub open spec fn suggestion_for(root: Seq<char>) -> Seq<char> {
    if root == "database_connection_error"@ {
        "Check database connectivity, network policies, and connection pool settings"@
    } else if root == "memory_spike"@ {
        "Review memory allocation patterns, consider increasing heap size or optimizing garbage collection"@
    } else if root == "api_timeout"@ {
        "Increase timeout values, optimize API response times, or implement circuit breakers"@
    } else if root == "cache_miss"@ {
        "Review cache configuration, increase cache size, or implement pre-warming strategies"@
    } else if root == "disk_full"@ {
        "Implement log rotation, clean up old files, or increase disk capacity"@
    } else {
        "Investigate "@ + root + " events and their correlation patterns"@
    }
}

/// The events listed for the first entry of `root`, none when it has no
/// entry.
pub open spec fn related_for(corr: Seq<(String, Vec<String>)>, root: Seq<char>) -> Seq<Seq<char>>
    decreases corr.len(),
{
    if corr.len() == 0 {
        seq![]
    } else if corr[0].0@ == root {
        string_views(corr[0].1@)
    } else {
        related_for(corr.drop_first(), root)
    }
}

/// A copy of the strings.
fn copy_strings(v: &Vec<String>) -> (r: Vec<String>)
    ensures
        string_views(r@) == string_views(v@),
{
    let mut r: Vec<String> = Vec::new();
    let mut i: usize = 0;
    while i < v.len()
        invariant
            i <= v@.len(),
            string_views(r@) == string_views(v@).take(i as int),
        decreases v.len() - i,
    {
        let ghost before = string_views(r@);
        r.push(v[i].clone());
        assert(string_views(r@) =~= before.push(v@[i as int]@));
        assert(string_views(v@).take(i + 1) =~= string_views(v@).take(i as int).push(v@[i as int]@));
        i += 1;
    }
    assert(string_views(v@).take(i as int) =~= string_views(v@));
    r
}

/// The advice for a root cause (see `suggestion_for`).
fn suggestion(root: &String) -> (r: String)
    ensures
        r@ == suggestion_for(root@),
{
    if *root == "database_connection_error".to_owned() {
        "Check database connectivity, network policies, and connection pool settings".to_owned()
    } else if *root == "memory_spike".to_owned() {
        "Review memory allocation patterns, consider increasing heap size or optimizing garbage collection".to_owned()
    } else if *root == "api_timeout".to_owned() {
        "Increase timeout values, optimize API response times, or implement circuit breakers".to_owned()
    } else if *root == "cache_miss".to_owned() {
        "Review cache configuration, increase cache size, or implement pre-warming strategies".to_owned()
    } else if *root == "disk_full".to_owned() {
        "Implement log rotation, clean up old files, or increase disk capacity".to_owned()
    } else {
        let mut s = "Investigate ".to_owned();
        push_str(&mut s, root.as_str());
        push_str(&mut s, " events and their correlation patterns");
        assert(s@ =~= "Investigate "@ + root@ + " events and their correlation patterns"@);
        s
    }
}

/// The recommendation for each root cause, in order: the first three of
/// high priority and the rest medium, with advice for the kind of failure
/// and the events correlated with it.
pub fn generate_recommendations(roots: &Vec<String>, correlated: &Vec<(String, Vec<String>)>) -> (r: Vec<Recommendation>)
    ensures
        r@.len() == roots@.len(),
        forall|i: int| 0 <= i < r@.len() ==> {
            &&& (#[trigger] r@[i]).priority@ == if i < 3 { "HIGH"@ } else { "MEDIUM"@ }
            &&& r@[i].root_cause@ == roots@[i]@
            &&& r@[i].suggestion@ == suggestion_for(roots@[i]@)
            &&& r@[i].expected_impact@ == "Reduction in cascading failures and improved system stability"@
            &&& string_views(r@[i].related_patterns@) == related_for(correlated@, roots@[i]@)
        },
{
    let mut out: Vec<Recommendation> = Vec::new();
    let mut i: usize = 0;
    while i < roots.len()
        invariant
            i <= roots@.len(),
            out@.len() == i,
            forall|x: int| 0 <= x < i ==> {
                &&& (#[trigger] out@[x]).priority@ == if x < 3 { "HIGH"@ } else { "MEDIUM"@ }
                &&& out@[x].root_cause@ == roots@[x]@
                &&& out@[x].suggestion@ == suggestion_for(roots@[x]@)
                &&& out@[x].expected_impact@ == "Reduction in cascading failures and improved system stability"@
                &&& string_views(out@[x].related_patterns@) == related_for(correlated@, roots@[x]@)
            },
        decreases roots.len() - i,
    {
        let root = &roots[i];
        let mut related: Vec<String> = Vec::new();
        let mut k: usize = 0;
        let mut found = false;
        assert(correlated@.skip(0) =~= correlated@);
        while k < correlated.len() && !found
            invariant
                i < roots@.len(),
                root == roots@[i as int],
                k <= correlated@.len(),
                !found ==> related_for(correlated@, root@) == related_for(correlated@.skip(k as int), root@),
                !found ==> related@.len() == 0,
                found ==> string_views(related@) == related_for(correlated@, root@),
            decreases correlated.len() - k, (if found { 0int } else { 1int }),
        {
            proof {
                assert(correlated@.skip(k as int)[0] == correlated@[k as int]);
                assert(correlated@.skip(k as int).drop_first() =~= correlated@.skip(k + 1));
            }
            if correlated[k].0 == *root {
                related = copy_strings(&correlated[k].1);
                found = true;
            } else {
                k += 1;
            }
        }
        proof {
            if !found {
                assert(correlated@.skip(k as int) =~= Seq::<(String, Vec<String>)>::empty());
                assert(string_views(related@) =~= Seq::<Seq<char>>::empty());
            }
        }
        let priority = if i < 3 { "HIGH".to_owned() } else { "MEDIUM".to_owned() };
        let rec = Recommendation {
            priority,
            root_cause: root.clone(),
            suggestion: suggestion(root),
            expected_impact: "Reduction in cascading failures and improved system stability".to_owned(),
            related_patterns: related,
        };
        let ghost ob = out@;
        out.push(rec);
        proof {
            assert forall|x: int| 0 <= x < out@.len() implies {
                &&& (#[trigger] out@[x]).priority@ == if x < 3 { "HIGH"@ } else { "MEDIUM"@ }
                &&& out@[x].root_cause@ == roots@[x]@
                &&& out@[x].suggestion@ == suggestion_for(roots@[x]@)
                &&& out@[x].expected_impact@ == "Reduction in cascading failures and improved system stability"@
                &&& string_views(out@[x].related_patterns@) == related_for(correlated@, roots@[x]@)
            } by {
                if x < ob.len() {
                    assert(out@[x] == ob[x]);
                }
            }
        }
        i += 1;
    }
    out
}

/// `a` comes before `b` in the order of `str`: by code points, a proper
/// prefix first.
pub open spec fn seq_lt(a: Seq<char>, b: Seq<char>) -> bool
    decreases a.len(),
{
    if a.len() == 0 {
        b.len() > 0
    } else if b.len() == 0 {
        false
    } else if a[0] != b[0] {
        a[0] < b[0]
    } else {
        seq_lt(a.drop_first(), b.drop_first())
    }
}

proof fn lemma_lt_irreflexive(a: Seq<char>)
    ensures
        !seq_lt(a, a),
    decreases a.len(),
{
    if a.len() > 0 {
        lemma_lt_irreflexive(a.drop_first());
    }
}

proof fn lemma_lt_total(a: Seq<char>, b: Seq<char>)
    requires
        a != b,
    ensures
        seq_lt(a, b) || seq_lt(b, a),
    decreases a.len(),
{
    if a.len() == 0 {
        assert(b.len() > 0) by {
            if b.len() == 0 {
                assert(a =~= b);
            }
        }
    } else if b.len() > 0 && a[0] == b[0] {
        if a.drop_first() == b.drop_first() {
            assert(a =~= seq![a[0]] + a.drop_first());
            assert(b =~= seq![b[0]] + b.drop_first());
        }
        lemma_lt_total(a.drop_first(), b.drop_first());
    }
}

proof fn lemma_lt_asymmetric(a: Seq<char>, b: Seq<char>)
    requires
        seq_lt(a, b),
    ensures
        !seq_lt(b, a),
    decreases a.len(),
{
    if a.len() > 0 && b.len() > 0 && a[0] == b[0] {
        lemma_lt_asymmetric(a.drop_first(), b.drop_first());
    }
}

proof fn lemma_lt_transitive(a: Seq<char>, b: Seq<char>, c: Seq<char>)
    requires
        seq_lt(a, b),
        seq_lt(b, c),
    ensures
        seq_lt(a, c),
    decreases a.len(),
{
    if a.len() > 0 && b.len() > 0 && c.len() > 0 && a[0] == b[0] && b[0] == c[0] {
        lemma_lt_transitive(a.drop_first(), b.drop_first(), c.drop_first());
    }
}

/// Whether `a` comes before `b` (see `seq_lt`).
fn str_lt(a: &String, b: &String) -> (r: bool)
    ensures
        r == seq_lt(a@, b@),
{
    let x = chars_of(a.as_str());
    let y = chars_of(b.as_str());
    let mut i: usize = 0;
    assert(x@.skip(0) =~= x@ && y@.skip(0) =~= y@);
    while i < x.len() && i < y.len() && x[i] == y[i]
        invariant
            x@ == a@,
            y@ == b@,
            i <= x@.len(),
            i <= y@.len(),
            seq_lt(a@, b@) == seq_lt(x@.skip(i as int), y@.skip(i as int)),
        decreases x.len() - i,
    {
        proof {
            assert(x@.skip(i as int)[0] == x@[i as int]);
            assert(y@.skip(i as int)[0] == y@[i as int]);
            assert(x@.skip(i as int).drop_first() =~= x@.skip(i + 1));
            assert(y@.skip(i as int).drop_first() =~= y@.skip(i + 1));
        }
        i += 1;
    }
    if i == x.len() {
        assert(x@.skip(i as int).len() == 0);
        i < y.len()
    } else if i == y.len() {
        assert(y@.skip(i as int).len() == 0);
        false
    } else {
        assert(x@.skip(i as int)[0] == x@[i as int]);
        assert(y@.skip(i as int)[0] == y@[i as int]);
        x[i] < y[i]
    }
}

/// A pattern as root cause selection reads it: whether its confidence
/// passes the threshold, how often it occurs, and the first event of its
/// typical order.
pub struct RootFacts {
    pub strong: bool,
    pub occurrences: usize,
    pub first: Option<String>,
}

/// Whether a pattern names a root cause: strong enough, frequent enough,
/// and with a first event.
pub open spec fn names_root(p: RootFacts, min_occurrences: int) -> bool {
    p.strong && p.occurrences >= min_occurrences && p.first is Some
}

/// The root causes of a list of patterns: the first events of those that
/// name one, each once, in the order of `str`.
pub fn identify_root_causes(patterns: &Vec<RootFacts>, min_occurrences: usize) -> (r: Vec<String>)
    ensures
        forall|a: int, b: int| 0 <= a < b < r@.len() ==> seq_lt(#[trigger] r@[a]@, #[trigger] r@[b]@),
        forall|k: Seq<char>| #[trigger] string_views(r@).contains(k) <==> exists|i: int| 0 <= i < patterns@.len()
            && names_root(patterns@[i], min_occurrences as int) && patterns@[i].first->0@ == k,
{
    let mut out: Vec<String> = Vec::new();
    let mut t: usize = 0;
    while t < patterns.len()
        invariant
            t <= patterns@.len(),
            forall|a: int, b: int| 0 <= a < b < out@.len() ==> seq_lt(#[trigger] out@[a]@, #[trigger] out@[b]@),
            forall|k: Seq<char>| #[trigger] string_views(out@).contains(k) <==> exists|i: int| 0 <= i < t
                && names_root(patterns@[i], min_occurrences as int) && patterns@[i].first->0@ == k,
        decreases patterns.len() - t,
    {
        let p = &patterns[t];
        if p.strong && p.occurrences >= min_occurrences {
            match &p.first {
                Some(c) => {
                    if !holds(&out, c) {
                        let mut pos: usize = 0;
                        while pos < out.len() && !str_lt(c, &out[pos])
                            invariant
                                pos <= out@.len(),
                                forall|k: int| 0 <= k < pos ==> !seq_lt(c@, #[trigger] out@[k]@),
                            decreases out.len() - pos,
                        {
                            pos += 1;
                        }
                        let ghost before = out@;
                        proof {
                            assert forall|k: int| 0 <= k < pos implies seq_lt(#[trigger] before[k]@, c@) by {
                                assert(string_views(before)[k] == before[k]@);
                                if before[k]@ == c@ {
                                    assert(string_views(before).contains(c@));
                                }
                                lemma_lt_total(before[k]@, c@);
                            }
                        }
                        out.insert(pos, c.clone());
                        proof {
                            assert forall|a: int, b: int| 0 <= a < b < out@.len() implies seq_lt(#[trigger] out@[a]@, #[trigger] out@[b]@) by {
                                if b < pos {
                                    assert(out@[a] == before[a] && out@[b] == before[b]);
                                } else if b == pos {
                                    assert(out@[a] == before[a]);
                                } else if a < pos {
                                    assert(out@[a] == before[a] && out@[b] == before[b - 1]);
                                    if pos < before.len() {
                                        lemma_lt_transitive(before[a]@, c@, before[pos as int]@);
                                        if b - 1 > pos {
                                            lemma_lt_transitive(before[a]@, before[pos as int]@, before[b - 1]@);
                                        }
                                    }
                                } else if a == pos {
                                    assert(out@[b] == before[b - 1]);
                                    if b - 1 > pos {
                                        lemma_lt_transitive(c@, before[pos as int]@, before[b - 1]@);
                                    }
                                } else {
                                    assert(out@[a] == before[a - 1] && out@[b] == before[b - 1]);
                                }
                            }
                            assert(string_views(out@) =~= string_views(before).insert(pos as int, c@));
                            assert forall|k: Seq<char>| #[trigger] string_views(out@).contains(k) <==> exists|i: int| 0 <= i < t + 1
                                && names_root(patterns@[i], min_occurrences as int) && patterns@[i].first->0@ == k by {
                                if string_views(out@).contains(k) {
                                    let q = choose|q: int| 0 <= q < string_views(out@).len() && string_views(out@)[q] == k;
                                    if q < pos {
                                        assert(string_views(before)[q] == k);
                                        assert(string_views(before).contains(k));
                                    } else if q > pos {
                                        assert(string_views(before)[q - 1] == k);
                                        assert(string_views(before).contains(k));
                                    } else {
                                        assert(patterns@[t as int].first->0@ == k);
                                    }
                                }
                                if exists|i: int| 0 <= i < t + 1 && names_root(patterns@[i], min_occurrences as int) && patterns@[i].first->0@ == k {
                                    let i = choose|i: int| 0 <= i < t + 1 && names_root(patterns@[i], min_occurrences as int) && patterns@[i].first->0@ == k;
                                    if i < t {
                                        assert(string_views(before).contains(k));
                                        let q = choose|q: int| 0 <= q < string_views(before).len() && string_views(before)[q] == k;
                                        if q < pos {
                                            assert(string_views(out@)[q] == k);
                                        } else {
                                            assert(string_views(out@)[q + 1] == k);
                                        }
                                    } else {
                                        assert(string_views(out@)[pos as int] == k);
                                    }
                                }
                            }
                        }
                    } else {
                        proof {
                            assert forall|k: Seq<char>| #[trigger] string_views(out@).contains(k) <==> exists|i: int| 0 <= i < t + 1
                                && names_root(patterns@[i], min_occurrences as int) && patterns@[i].first->0@ == k by {
                                if exists|i: int| 0 <= i < t + 1 && names_root(patterns@[i], min_occurrences as int) && patterns@[i].first->0@ == k {
                                    let i = choose|i: int| 0 <= i < t + 1 && names_root(patterns@[i], min_occurrences as int) && patterns@[i].first->0@ == k;
                                    if i == t {
                                        assert(c@ == k);
                                    }
                                }
                            }
                        }
                    }
                },
                None => {
                    proof {
                        assert forall|k: Seq<char>| #[trigger] string_views(out@).contains(k) <==> exists|i: int| 0 <= i < t + 1
                            && names_root(patterns@[i], min_occurrences as int) && patterns@[i].first->0@ == k by {
                            if exists|i: int| 0 <= i < t + 1 && names_root(patterns@[i], min_occurrences as int) && patterns@[i].first->0@ == k {
                                let i = choose|i: int| 0 <= i < t + 1 && names_root(patterns@[i], min_occurrences as int) && patterns@[i].first->0@ == k;
                                assert(i < t);
                            }
                        }
                    }
                },
            }
        } else {
            proof {
                assert forall|k: Seq<char>| #[trigger] string_views(out@).contains(k) <==> exists|i: int| 0 <= i < t + 1
                    && names_root(patterns@[i], min_occurrences as int) && patterns@[i].first->0@ == k by {
                    if exists|i: int| 0 <= i < t + 1 && names_root(patterns@[i], min_occurrences as int) && patterns@[i].first->0@ == k {
                        let i = choose|i: int| 0 <= i < t + 1 && names_root(patterns@[i], min_occurrences as int) && patterns@[i].first->0@ == k;
                        assert(i < t);
                    }
                }
            }
        }
        t += 1;
    }
    out
}

/// Counts of an analysis.
pub struct AnalysisSummary {
    pub total_events_analyzed: usize,
    pub time_range_start: i64,
    pub time_range_end: i64,
    pub correlation_window_seconds: i64,
    pub unique_event_types: usize,
    pub patterns_found: usize,
    pub causal_links_found: usize,
    pub root_causes_identified: usize,
    pub analysis_duration_ms: u64,
}

/// The time range of a report.
pub struct TimeRange {
    pub start: i64,
    pub end: i64,
    pub duration_seconds: i64,
    pub start_human: String,
    pub end_human: String,
}

/// Where and when a report was made.
pub struct ReportMetadata {
    pub report_id: String,
    pub generated_at: String,
    pub analyzer_version: String,
    pub time_range: TimeRange,
}

/// An event as it propagates.
pub struct PropagationEvent {
    pub timestamp: i64,
    pub event_type: String,
    pub details: String,
    pub propagation_depth: usize,
    pub related_to: Option<String>,
}

/// What `chrono::DateTime::from_timestamp(ts, 0)` formatted as
/// `%Y-%m-%d %H:%M:%S` gives for a Unix timestamp in seconds; none where
/// chrono has no such instant.
pub uninterp spec fn human_time(ts: i64) -> Option<Seq<char>>;

/// A Unix timestamp in seconds in readable form, by chrono:
/// `DateTime::from_timestamp(ts, 0)`, formatted as `%Y-%m-%d %H:%M:%S`
/// (UTC); `None` where chrono has no such instant. The contract names the
/// result; it depends on the timestamp alone.
#[verifier::external_body]
fn chrono_human_time(ts: i64) -> (s: Option<String>)
    ensures
        match s {
            Some(t) => human_time(ts) == Some(t@),
            None => human_time(ts) is None,
        },
{
    match chrono::DateTime::from_timestamp(ts, 0) {
        Some(dt) => Some(dt.format("%Y-%m-%d %H:%M:%S").to_string()),
        None => None,
    }
}

/// A timestamp as a report shows it: in readable form (see `human_time`),
/// or `N/A` where there is no such instant.
pub open spec fn report_time(ts: i64) -> Seq<char> {
    match human_time(ts) {
        Some(t) => t,
        None => "N/A"@,
    }
}

/// A timestamp as a report shows it (see `report_time`).
fn timestamp_to_human(ts: i64) -> (s: String)
    ensures
        s@ == report_time(ts),
{
    match chrono_human_time(ts) {
        Some(t) => t,
        None => "N/A".to_owned(),
    }
}

/// The metadata of a report on an analysis: the given identifier, time of
/// making and analyzer version, and the time range of the analysis, from
/// its first to its last event, the duration their difference, each end
/// also as a report shows it (see `report_time`).
pub fn build_metadata(
    report_id: String,
    generated_at: String,
    analyzer_version: String,
    summary: &AnalysisSummary,
) -> (r: ReportMetadata)
    requires
        i64::MIN <= summary.time_range_end - summary.time_range_start <= i64::MAX,
    ensures
        r.report_id@ == report_id@,
        r.generated_at@ == generated_at@,
        r.analyzer_version@ == analyzer_version@,
        r.time_range.start == summary.time_range_start,
        r.time_range.end == summary.time_range_end,
        r.time_range.duration_seconds == summary.time_range_end - summary.time_range_start,
        r.time_range.start_human@ == report_time(summary.time_range_start),
        r.time_range.end_human@ == report_time(summary.time_range_end),
{
    let time_range = TimeRange {
        start: summary.time_range_start,
        end: summary.time_range_end,
        duration_seconds: summary.time_range_end - summary.time_range_start,
        start_human: timestamp_to_human(summary.time_range_start),
        end_human: timestamp_to_human(summary.time_range_end),
    };
    ReportMetadata { report_id, generated_at, analyzer_version, time_range }
}

/// The propagation timeline of a timeline of events: each event with its
/// details (given, one per event), its propagation depth and the event it
/// follows on from (see `propagation_steps`).
pub fn build_propagation_timeline(events: &Vec<EventStamp>, details: Vec<String>, window: i64) -> (r: Vec<
    PropagationEvent,
>)
    requires
        details@.len() == events@.len(),
        forall|i: int| 0 < i < events@.len() ==> i64::MIN <= #[trigger] events@[i].timestamp - events@[i - 1].timestamp <= i64::MAX,
    ensures
        r@.len() == events@.len(),
        forall|i: int| #![trigger r@[i]] 0 <= i < r@.len() ==> {
            &&& r@[i].timestamp == events@[i].timestamp
            &&& r@[i].event_type@ == events@[i].key@
            &&& r@[i].details@ == details@[i]@
            &&& r@[i].propagation_depth == depth_of(events@, i)
            &&& opt_view(r@[i].related_to) == related_of(events@, i, window as int)
        },
{
    let steps = propagation_steps(events, window);
    let mut out: Vec<PropagationEvent> = Vec::new();
    let mut i: usize = 0;
    while i < events.len()
        invariant
            i <= events@.len(),
            steps@.len() == events@.len(),
            details@.len() == events@.len(),
            out@.len() == i,
            forall|k: int| 0 <= k < steps@.len() ==> #[trigger] steps@[k].depth == depth_of(events@, k)
                && opt_view(steps@[k].related_to) == related_of(events@, k, window as int),
            forall|k: int| #![trigger out@[k]] 0 <= k < i ==> {
                &&& out@[k].timestamp == events@[k].timestamp
                &&& out@[k].event_type@ == events@[k].key@
                &&& out@[k].details@ == details@[k]@
                &&& out@[k].propagation_depth == depth_of(events@, k)
                &&& opt_view(out@[k].related_to) == related_of(events@, k, window as int)
            },
        decreases events@.len() - i,
    {
        let related_to = match &steps[i].related_to {
            Some(r) => Some(r.clone()),
            None => None,
        };
        let e = PropagationEvent {
            timestamp: events[i].timestamp,
            event_type: events[i].key.clone(),
            details: details[i].clone(),
            propagation_depth: steps[i].depth,
            related_to,
        };
        out.push(e);
        i += 1;
    }
    out
}

} // verus!
