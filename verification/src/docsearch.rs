use vstd::prelude::*;

use crate::docinfo::whitespace;
use crate::fulltext::lowercase;
use crate::glob::has_prefix;
use crate::ring::string_views;
use crate::telemetry::{contains_seq, str_contains};
use crate::text::{chars_of, edit_distance, levenshtein_distance, push_char};

verus! {

/// Scanning `s` from the left: the words completed so far and the word in
/// progress, words being the maximal runs of characters that are not
/// whitespace.
pub open spec fn scan_ws(s: Seq<char>) -> (Seq<Seq<char>>, Seq<char>)
    decreases s.len(),
{
    if s.len() == 0 {
        (seq![], seq![])
    } else {
        let prev = scan_ws(s.drop_last());
        let c = s.last();
        if !whitespace(c) {
            (prev.0, prev.1.push(c))
        } else if prev.1.len() > 0 {
            (prev.0.push(prev.1), seq![])
        } else {
            (prev.0, seq![])
        }
    }
}

/// The words of `s` as `split_whitespace` gives them.
pub open spec fn ws_words(s: Seq<char>) -> Seq<Seq<char>> {
    let r = scan_ws(s);
    if r.1.len() > 0 { r.0.push(r.1) } else { r.0 }
}

pub(crate) fn string_of_chars(cs: &Vec<char>) -> (s: String)
    ensures
        s@ == cs@,
{
    let mut s = String::new();
    let mut i: usize = 0;
    while i < cs.len()
        invariant
            i <= cs.len(),
            s@ == cs@.take(i as int),
        decreases cs.len() - i,
    {
        push_char(&mut s, cs[i]);
        assert(cs@.take(i + 1) =~= cs@.take(i as int).push(cs@[i as int]));
        i += 1;
    }
    assert(cs@.take(cs.len() as int) =~= cs@);
    s
}

/// The words of `s` (`split_whitespace`).
pub fn split_whitespace_words(s: &str) -> (r: Vec<String>)
    ensures
        string_views(r@) == ws_words(s@),
{
    let cs = chars_of(s);
    let mut out: Vec<String> = Vec::new();
    let mut cur: Vec<char> = Vec::new();
    let mut i: usize = 0;
    assert(cs@.take(0) =~= Seq::<char>::empty());
    assert(string_views(out@) =~= Seq::<Seq<char>>::empty());
    while i < cs.len()
        invariant
            i <= cs@.len(),
            cur@ == scan_ws(cs@.take(i as int)).1,
            string_views(out@) == scan_ws(cs@.take(i as int)).0,
        decreases cs.len() - i,
    {
        let c = cs[i];
        assert(cs@.take(i + 1).drop_last() =~= cs@.take(i as int));
        assert(cs@.take(i + 1).last() == c);
        if !crate::docinfo::is_ws(c) {
            cur.push(c);
        } else if cur.len() > 0 {
            let w = string_of_chars(&cur);
            let ghost before = out@;
            out.push(w);
            assert(string_views(out@) =~= string_views(before).push(cur@));
            cur = Vec::new();
        } else {
        }
        i += 1;
    }
    assert(cs@.take(cs.len() as int) =~= cs@);
    if cur.len() > 0 {
        let w = string_of_chars(&cur);
        let ghost before = out@;
        out.push(w);
        assert(string_views(out@) =~= string_views(before).push(cur@));
    }
    out
}

/// The first word within edit distance two of `q`, with its distance.
pub open spec fn first_close_word(q: Seq<char>, ws: Seq<Seq<char>>) -> Option<(Seq<char>, nat)>
    decreases ws.len(),
{
    if ws.len() == 0 {
        None
    } else if edit_distance(q, ws[0]) <= 2 {
        Some((ws[0], edit_distance(q, ws[0])))
    } else {
        first_close_word(q, ws.drop_first())
    }
}

/// How a text matches a query, case folded: the query itself at distance
/// zero when the text contains it, else the first word of the text within
/// edit distance two of the query.
pub open spec fn text_match(query: Seq<char>, text: Seq<char>) -> Option<(Seq<char>, nat)> {
    let ql = lowercase(query);
    let tl = lowercase(text);
    if contains_seq(tl, ql) {
        Some((query, 0))
    } else {
        first_close_word(ql, ws_words(tl))
    }
}

/// The first word within edit distance two: a word of `ws` at that
/// distance from `q`, every word before it farther; none when no word is
/// that close.
proof fn lemma_first_close_word(q: Seq<char>, ws: Seq<Seq<char>>)
    ensures
        match first_close_word(q, ws) {
            Some(m) => exists|i: int|
                0 <= i < ws.len() && ws[i] == m.0 && m.1 == edit_distance(q, m.0) && m.1 <= 2
                    && forall|j: int| 0 <= j < i ==> edit_distance(q, #[trigger] ws[j]) > 2,
            None => forall|j: int| 0 <= j < ws.len() ==> edit_distance(q, #[trigger] ws[j]) > 2,
        },
    decreases ws.len(),
{
    if ws.len() > 0 && edit_distance(q, ws[0]) > 2 {
        let rest = ws.drop_first();
        lemma_first_close_word(q, rest);
        match first_close_word(q, rest) {
            Some(m) => {
                let i = choose|i: int|
                    0 <= i < rest.len() && rest[i] == m.0 && m.1 == edit_distance(q, m.0) && m.1 <= 2
                        && forall|j: int| 0 <= j < i ==> edit_distance(q, #[trigger] rest[j]) > 2;
                assert(ws[i + 1] == m.0);
                assert forall|j: int| 0 <= j < i + 1 implies edit_distance(q, #[trigger] ws[j]) > 2 by {
                    if j > 0 {
                        assert(ws[j] == rest[j - 1]);
                    }
                }
            },
            None => {
                assert forall|j: int| 0 <= j < ws.len() implies edit_distance(q, #[trigger] ws[j]) > 2 by {
                    if j > 0 {
                        assert(ws[j] == rest[j - 1]);
                    }
                }
            },
        }
    } else if ws.len() > 0 {
        assert(ws[0] == ws[0]);
    }
}

/// What a text match is, in terms of the query and the text, both case
/// folded (`lowercase`): when the folded text contains the folded query,
/// the query itself at distance zero; otherwise the first word of the
/// folded text within edit distance two of the folded query, at its
/// distance, every earlier word being farther; and none when no word of the
/// folded text is that close.
pub proof fn lemma_text_match_is_case_folded(query: Seq<char>, text: Seq<char>)
    ensures
        ({
            let ql = lowercase(query);
            let ws = ws_words(lowercase(text));
            match text_match(query, text) {
                Some(m) => if contains_seq(lowercase(text), ql) {
                    m.0 == query && m.1 == 0
                } else {
                    exists|i: int|
                        0 <= i < ws.len() && ws[i] == m.0 && m.1 == edit_distance(ql, m.0) && m.1 <= 2
                            && forall|j: int| 0 <= j < i ==> edit_distance(ql, #[trigger] ws[j]) > 2
                },
                None => !contains_seq(lowercase(text), ql) && forall|j: int|
                    0 <= j < ws.len() ==> edit_distance(ql, #[trigger] ws[j]) > 2,
            }
        }),
{
    lemma_first_close_word(lowercase(query), ws_words(lowercase(text)));
}

/// The case of a text does not change how it matches: two texts that fold
/// to the same lower case match a query alike.
pub proof fn lemma_text_match_ignores_case(query: Seq<char>, text1: Seq<char>, text2: Seq<char>)
    requires
        lowercase(text1) == lowercase(text2),
    ensures
        text_match(query, text1) == text_match(query, text2),
{
}

/// A match of a text: the matched term and its edit distance.
#[derive(Clone, Debug)]
pub struct TextMatch {
    pub term: String,
    pub distance: usize,
}

/// Matches `text` against `query` as `text_match` says.
pub fn match_text(query: &str, text: &str) -> (r: Option<TextMatch>)
    ensures
        match text_match(query@, text@) {
            Some(m) => r is Some && r->0.term@ == m.0 && r->0.distance == m.1,
            None => r is None,
        },
{
    let ql = crate::fulltext::to_lower(query);
    let tl = crate::fulltext::to_lower(text);
    if str_contains(tl.as_str(), ql.as_str()) {
        return Some(TextMatch { term: query.to_owned(), distance: 0 });
    }
    let words = split_whitespace_words(tl.as_str());
    let ghost ws = string_views(words@);
    let mut i: usize = 0;
    assert(ws.skip(0) =~= ws);
    while i < words.len()
        invariant
            i <= words@.len(),
            ws == string_views(words@),
            text_match(query@, text@) == first_close_word(ql@, ws.skip(i as int)),
        decreases words.len() - i,
    {
        let ghost rest = ws.skip(i as int);
        assert(rest[0] == words@[i as int]@);
        assert(rest.drop_first() =~= ws.skip(i + 1));
        let d = levenshtein_distance(ql.as_str(), words[i].as_str());
        if d <= 2 {
            return Some(TextMatch { term: words[i].clone(), distance: d });
        }
        i += 1;
    }
    None
}

/// Keys that a document search passes over: internal keys (starting with
/// `__`) and telemetry records (starting with `telemetry:`).
pub open spec fn skipped_key(k: Seq<char>) -> bool {
    has_prefix(k, seq!['_', '_']) || has_prefix(k, "telemetry:"@)
}

/// The documents as (key, text) pairs of characters.
pub open spec fn doc_views(docs: Seq<(String, String)>) -> Seq<(Seq<char>, Seq<char>)> {
    docs.map_values(|d: (String, String)| (d.0@, d.1@))
}

/// How document `i` matches the query, if its key is searched at all.
pub open spec fn doc_match(docs: Seq<(Seq<char>, Seq<char>)>, query: Seq<char>, i: int) -> Option<(Seq<char>, nat)> {
    if skipped_key(docs[i].0) {
        None
    } else {
        text_match(query, docs[i].1)
    }
}

/// Some document with key `k` matches.
pub open spec fn key_matches(docs: Seq<(Seq<char>, Seq<char>)>, query: Seq<char>, k: Seq<char>) -> bool {
    exists|i: int| 0 <= i < docs.len() && docs[i].0 == k && #[trigger] doc_match(docs, query, i) is Some
}

/// The distance of a match (zero for none).
pub open spec fn match_dist(o: Option<(Seq<char>, nat)>) -> nat {
    match o {
        Some(p) => p.1,
        None => 0,
    }
}

/// No document with key `k` matches closer than `d`.
pub open spec fn no_closer(docs: Seq<(Seq<char>, Seq<char>)>, query: Seq<char>, k: Seq<char>, d: nat) -> bool {
    forall|i: int| 0 <= i < docs.len() && docs[i].0 == k && #[trigger] doc_match(docs, query, i) is Some
        ==> match_dist(doc_match(docs, query, i)) >= d
}

/// A hit of a document search: a key, the term that matched and its edit
/// distance (zero when the text contains the query).
#[derive(Clone, Debug)]
pub struct FuzzyHit {
    pub key: String,
    pub term: String,
    pub distance: usize,
}

/// `h` is the best match of its key: some document with that key matches
/// with this term and distance, and none matches closer.
pub open spec fn best_hit(docs: Seq<(Seq<char>, Seq<char>)>, query: Seq<char>, h: FuzzyHit) -> bool {
    &&& exists|i: int| 0 <= i < docs.len() && docs[i].0 == h.key@
        && #[trigger] doc_match(docs, query, i) == Some((h.term@, h.distance as nat))
    &&& no_closer(docs, query, h.key@, h.distance as nat)
}

/// No two hits have the same key.
pub open spec fn distinct_hits(hs: Seq<FuzzyHit>) -> bool {
    forall|a: int, b: int| 0 <= a < b < hs.len() ==> hs[a].key@ != hs[b].key@
}

fn find_hit(hs: &Vec<FuzzyHit>, k: &String) -> (r: Option<usize>)
    ensures
        match r {
            Some(j) => j < hs@.len() && hs@[j as int].key@ == k@,
            None => forall|j: int| 0 <= j < hs@.len() ==> hs@[j].key@ != k@,
        },
{
    let mut j: usize = 0;
    while j < hs.len()
        invariant
            j <= hs@.len(),
            forall|a: int| 0 <= a < j ==> hs@[a].key@ != k@,
        decreases hs.len() - j,
    {
        if hs[j].key == *k {
            return Some(j);
        }
        j += 1;
    }
    None
}

/// The best match of every key, in no particular order.
fn best_matches(docs: &Vec<(String, String)>, query: &str) -> (acc: Vec<FuzzyHit>)
    ensures
        forall|j: int| 0 <= j < acc@.len() ==> #[trigger] best_hit(doc_views(docs@), query@, acc@[j]),
        distinct_hits(acc@),
        forall|k: Seq<char>| #[trigger] key_matches(doc_views(docs@), query@, k) ==> exists|j: int| 0 <= j < acc@.len() && acc@[j].key@ == k,
{
    let ghost dv = doc_views(docs@);
    let mut acc: Vec<FuzzyHit> = Vec::new();
    let mut i: usize = 0;
    while i < docs.len()
        invariant
            i <= docs@.len(),
            dv == doc_views(docs@),
            forall|j: int| 0 <= j < acc@.len() ==> #[trigger] best_hit(dv.take(i as int), query@, acc@[j]),
            distinct_hits(acc@),
            forall|k: Seq<char>| #[trigger] key_matches(dv.take(i as int), query@, k) ==> exists|j: int| 0 <= j < acc@.len() && acc@[j].key@ == k,
        decreases docs.len() - i,
    {
        let ghost pre = dv.take(i as int);
        let ghost nxt = dv.take(i + 1);
        assert(nxt.len() == i + 1);
        assert forall|a: int| 0 <= a < i implies #[trigger] nxt[a] == pre[a] && doc_match(nxt, query@, a) == doc_match(pre, query@, a) by {}
        assert(nxt[i as int] == dv[i as int]);
        let key = &docs[i].0;
        let text = &docs[i].1;
        assert(dv[i as int] == (key@, text@));
        let sk = crate::text::str_starts_with(key.as_str(), "__") || crate::text::str_starts_with(key.as_str(), "telemetry:");
        proof {
            reveal_strlit("__");
            assert("__"@ =~= seq!['_', '_']);
        }
        let m = if sk { None } else { match_text(query, text.as_str()) };
        assert(doc_match(nxt, query@, i as int) == (match m { Some(t) => Some((t.term@, t.distance as nat)), None => None }));
        let ghost before = acc@;
        match m {
            None => {
                proof {
                    assert forall|j: int| 0 <= j < acc@.len() implies #[trigger] best_hit(nxt, query@, acc@[j]) by {
                        assert(best_hit(pre, query@, acc@[j]));
                        let w = choose|w: int| 0 <= w < pre.len() && pre[w].0 == acc@[j].key@
                            && #[trigger] doc_match(pre, query@, w) == Some((acc@[j].term@, acc@[j].distance as nat));
                        assert(doc_match(nxt, query@, w) == doc_match(pre, query@, w));
                    }
                    assert forall|k: Seq<char>| #[trigger] key_matches(nxt, query@, k) implies exists|j: int| 0 <= j < acc@.len() && acc@[j].key@ == k by {
                        let w = choose|w: int| 0 <= w < nxt.len() && nxt[w].0 == k && #[trigger] doc_match(nxt, query@, w) is Some;
                        assert(w < i);
                        assert(doc_match(pre, query@, w) is Some);
                        assert(key_matches(pre, query@, k));
                    }
                }
            },
            Some(t) => {
                match find_hit(&acc, key) {
                    Some(j) => {
                        if t.distance < acc[j].distance {
                            acc.set(j, FuzzyHit { key: key.clone(), term: t.term, distance: t.distance });
                        }
                        assert(acc@[j as int].key@ == key@);
                    },
                    None => {
                        acc.push(FuzzyHit { key: key.clone(), term: t.term, distance: t.distance });
                        assert(acc@[before.len() as int].key@ == key@);
                    },
                }
                assert(exists|j0: int| 0 <= j0 < acc@.len() && acc@[j0].key@ == key@);
                proof {
                    assert forall|j: int| 0 <= j < acc@.len() implies #[trigger] best_hit(nxt, query@, acc@[j]) by {
                        let h = acc@[j];
                        if h.key@ == key@ {
                            if j < before.len() && before[j] == h {
                                assert(best_hit(pre, query@, before[j]));
                                let w = choose|w: int| 0 <= w < pre.len() && pre[w].0 == h.key@
                                    && #[trigger] doc_match(pre, query@, w) == Some((h.term@, h.distance as nat));
                                assert(doc_match(nxt, query@, w) == doc_match(pre, query@, w));
                            } else {
                                assert(doc_match(nxt, query@, i as int) == Some((h.term@, h.distance as nat)));
                            }
                            assert forall|w: int| 0 <= w < nxt.len() && nxt[w].0 == h.key@ && #[trigger] doc_match(nxt, query@, w) is Some
                                implies match_dist(doc_match(nxt, query@, w)) >= h.distance as nat by {
                                if w < i {
                                    assert(doc_match(pre, query@, w) is Some);
                                    assert(key_matches(pre, query@, h.key@));
                                    let j2 = choose|j2: int| 0 <= j2 < before.len() && before[j2].key@ == h.key@;
                                    assert(best_hit(pre, query@, before[j2]));
                                    assert(no_closer(pre, query@, h.key@, before[j2].distance as nat));
                                }
                            }
                        } else {
                            assert(h == before[j]);
                            assert(best_hit(pre, query@, before[j]));
                            let w = choose|w: int| 0 <= w < pre.len() && pre[w].0 == h.key@
                                && #[trigger] doc_match(pre, query@, w) == Some((h.term@, h.distance as nat));
                            assert(doc_match(nxt, query@, w) == doc_match(pre, query@, w));
                            assert forall|w2: int| 0 <= w2 < nxt.len() && nxt[w2].0 == h.key@ && #[trigger] doc_match(nxt, query@, w2) is Some
                                implies match_dist(doc_match(nxt, query@, w2)) >= h.distance as nat by {
                                assert(w2 < i);
                                assert(doc_match(pre, query@, w2) is Some);
                            }
                        }
                    }
                    assert forall|a: int, b: int| 0 <= a < b < acc@.len() implies acc@[a].key@ != acc@[b].key@ by {
                        if b < before.len() {
                            assert(before[a].key@ != before[b].key@);
                        }
                    }
                    assert forall|k: Seq<char>| #[trigger] key_matches(nxt, query@, k) implies exists|j: int| 0 <= j < acc@.len() && acc@[j].key@ == k by {
                        let w = choose|w: int| 0 <= w < nxt.len() && nxt[w].0 == k && #[trigger] doc_match(nxt, query@, w) is Some;
                        if w < i {
                            assert(doc_match(pre, query@, w) is Some);
                            assert(key_matches(pre, query@, k));
                            let j0 = choose|j0: int| 0 <= j0 < before.len() && before[j0].key@ == k;
                            assert(acc@[j0].key@ == k);
                        } else {
                            assert(k == key@);
                        }
                    }
                }
            },
        }
        i += 1;
    }
    assert(dv.take(docs@.len() as int) =~= dv);
    acc
}

/// The position of the first hit with the smallest distance.
fn closest_index(hs: &Vec<FuzzyHit>) -> (b: usize)
    requires
        hs@.len() > 0,
    ensures
        b < hs@.len(),
        forall|k: int| 0 <= k < hs@.len() ==> hs@[b as int].distance <= hs@[k].distance,
{
    let mut b: usize = 0;
    let mut k: usize = 1;
    while k < hs.len()
        invariant
            0 < k <= hs@.len(),
            b < k,
            forall|a: int| 0 <= a < k ==> hs@[b as int].distance <= hs@[a].distance,
        decreases hs.len() - k,
    {
        if hs[k].distance < hs[b].distance {
            b = k;
        }
        k += 1;
    }
    b
}

/// Searches the documents (key, text) for `query`: documents whose key
/// starts with `__` or `telemetry:` are passed over; a text matches with
/// distance zero when, case folded, it contains the case-folded query,
/// else with its first word within edit distance two of the query. Each
/// key comes back once, with its closest match; closest first; at most
/// `limit` keys, and a matching key is left out only when `limit` others
/// came back and none of them is farther. (Among equal distances the
/// order, and the term of a key that matches equally well twice, are not
/// stated.)
pub fn fuzzy_search_documents(docs: &Vec<(String, String)>, query: &str, limit: usize) -> (r: Vec<FuzzyHit>)
    ensures
        forall|j: int| 0 <= j < r@.len() ==> #[trigger] best_hit(doc_views(docs@), query@, r@[j]),
        distinct_hits(r@),
        forall|a: int, b: int| 0 <= a < b < r@.len() ==> r@[a].distance <= r@[b].distance,
        r@.len() <= limit,
        forall|k: Seq<char>| #[trigger] key_matches(doc_views(docs@), query@, k)
            && (forall|j: int| 0 <= j < r@.len() ==> r@[j].key@ != k) ==> {
            &&& r@.len() == limit
            &&& limit > 0 ==> no_closer(doc_views(docs@), query@, k, r@[limit - 1].distance as nat)
        },
{
    let ghost dv = doc_views(docs@);
    let mut rest = best_matches(docs, query);
    let mut out: Vec<FuzzyHit> = Vec::new();
    while out.len() < limit && rest.len() > 0
        invariant
            dv == doc_views(docs@),
            out@.len() <= limit,
            forall|j: int| 0 <= j < out@.len() ==> #[trigger] best_hit(dv, query@, out@[j]),
            forall|j: int| 0 <= j < rest@.len() ==> #[trigger] best_hit(dv, query@, rest@[j]),
            distinct_hits(out@),
            distinct_hits(rest@),
            forall|a: int, b: int| 0 <= a < out@.len() && 0 <= b < rest@.len() ==> out@[a].key@ != rest@[b].key@,
            forall|a: int, b: int| 0 <= a < b < out@.len() ==> out@[a].distance <= out@[b].distance,
            forall|a: int, b: int| 0 <= a < out@.len() && 0 <= b < rest@.len() ==> out@[a].distance <= rest@[b].distance,
            forall|k: Seq<char>| #[trigger] key_matches(dv, query@, k) ==>
                (exists|j: int| 0 <= j < out@.len() && out@[j].key@ == k)
                || (exists|j: int| 0 <= j < rest@.len() && rest@[j].key@ == k),
        decreases rest.len(),
    {
        let b = closest_index(&rest);
        let ghost ro = rest@;
        let ghost oo = out@;
        let x = rest.remove(b);
        out.push(x);
        proof {
            assert forall|k: int| 0 <= k < rest@.len() implies #[trigger] best_hit(dv, query@, rest@[k]) by {
                if k < b {
                    assert(rest@[k] == ro[k]);
                } else {
                    assert(rest@[k] == ro[k + 1]);
                }
            }
            assert forall|k: int| 0 <= k < out@.len() implies #[trigger] best_hit(dv, query@, out@[k]) by {
                if k < oo.len() {
                    assert(out@[k] == oo[k]);
                }
            }
            assert forall|a: int, c: int| 0 <= a < c < rest@.len() implies rest@[a].key@ != rest@[c].key@ by {
                let a0 = if a < b { a } else { a + 1 };
                let c0 = if c < b { c } else { c + 1 };
                assert(rest@[a] == ro[a0] && rest@[c] == ro[c0]);
                assert(ro[a0].key@ != ro[c0].key@);
            }
            assert forall|a: int, c: int| 0 <= a < c < out@.len() implies out@[a].key@ != out@[c].key@ by {
                if c < oo.len() {
                    assert(oo[a].key@ != oo[c].key@);
                } else {
                    assert(oo[a].key@ != ro[b as int].key@);
                }
            }
            assert forall|a: int, c: int| 0 <= a < out@.len() && 0 <= c < rest@.len() implies out@[a].key@ != rest@[c].key@ by {
                let c0 = if c < b { c } else { c + 1 };
                assert(rest@[c] == ro[c0]);
                if a < oo.len() {
                    assert(oo[a].key@ != ro[c0].key@);
                } else {
                    assert(ro[b as int].key@ != ro[c0].key@);
                }
            }
            assert forall|a: int, c: int| 0 <= a < c < out@.len() implies out@[a].distance <= out@[c].distance by {
                if c < oo.len() {
                    assert(oo[a].distance <= oo[c].distance);
                } else {
                    assert(oo[a].distance <= ro[b as int].distance);
                }
            }
            assert forall|a: int, c: int| 0 <= a < out@.len() && 0 <= c < rest@.len() implies out@[a].distance <= rest@[c].distance by {
                let c0 = if c < b { c } else { c + 1 };
                assert(rest@[c] == ro[c0]);
                if a < oo.len() {
                    assert(oo[a].distance <= ro[c0].distance);
                } else {
                    assert(ro[b as int].distance <= ro[c0].distance);
                }
            }
            assert forall|k: Seq<char>| #[trigger] key_matches(dv, query@, k) implies
                (exists|j: int| 0 <= j < out@.len() && out@[j].key@ == k)
                || (exists|j: int| 0 <= j < rest@.len() && rest@[j].key@ == k) by {
                if exists|j: int| 0 <= j < oo.len() && oo[j].key@ == k {
                    let j = choose|j: int| 0 <= j < oo.len() && oo[j].key@ == k;
                    assert(out@[j] == oo[j]);
                } else {
                    let j = choose|j: int| 0 <= j < ro.len() && ro[j].key@ == k;
                    if j < b {
                        assert(rest@[j] == ro[j]);
                    } else if j == b {
                        assert(out@[oo.len() as int] == ro[j]);
                    } else {
                        assert(rest@[j - 1] == ro[j]);
                    }
                }
            }
        }
    }
    proof {
        assert forall|k: Seq<char>| #[trigger] key_matches(dv, query@, k)
            && (forall|j: int| 0 <= j < out@.len() ==> out@[j].key@ != k) implies {
            &&& out@.len() == limit
            &&& limit > 0 ==> no_closer(dv, query@, k, out@[limit - 1].distance as nat)
        } by {
            let j = choose|j: int| 0 <= j < rest@.len() && rest@[j].key@ == k;
            assert(best_hit(dv, query@, rest@[j]));
            if limit > 0 {
                assert(out@[limit - 1].distance <= rest@[j].distance);
            }
        }
    }
    out
}

} // verus!
