use vstd::prelude::*;

use crate::docsearch::{split_whitespace_words, ws_words};
use crate::fulltext::{lowercase, to_lower};
use crate::glob::{occurs_at, occurs_at_exec};
use crate::ring::string_views;
use crate::telemetry::contains_seq;
use crate::text::chars_of;

verus! {

/// The number of occurrences of `n` in `h` that `str::matches` finds: the
/// leftmost, then the leftmost after it, and so on, none overlapping. An
/// empty `n` occurs before every character and at the end.
pub open spec fn match_count(h: Seq<char>, n: Seq<char>) -> nat
    decreases h.len(),
{
    if n.len() == 0 {
        h.len() + 1
    } else if h.len() < n.len() {
        0
    } else if h.take(n.len() as int) == n {
        1 + match_count(h.skip(n.len() as int), n)
    } else {
        match_count(h.skip(1), n)
    }
}

/// The text as a search compares it: itself when case counts, else
/// lower-cased.
pub open spec fn folded(s: Seq<char>, case_sensitive: bool) -> Seq<char> {
    if case_sensitive { s } else { lowercase(s) }
}

proof fn lemma_match_count_contains(h: Seq<char>, n: Seq<char>)
    ensures
        (match_count(h, n) > 0) == contains_seq(h, n),
    decreases h.len(),
{
    if n.len() == 0 {
        assert(occurs_at(h, n, 0)) by {
            assert(h.subrange(0, 0) =~= n);
        }
    } else if h.len() < n.len() {
        if contains_seq(h, n) {
            let i = choose|i: int| occurs_at(h, n, i);
        }
    } else if h.take(n.len() as int) == n {
        assert(occurs_at(h, n, 0)) by {
            assert(h.subrange(0, n.len() as int) =~= h.take(n.len() as int));
        }
    } else {
        let t = h.skip(1);
        lemma_match_count_contains(t, n);
        if contains_seq(h, n) {
            let i = choose|i: int| occurs_at(h, n, i);
            if i == 0 {
                assert(h.subrange(0, n.len() as int) =~= h.take(n.len() as int));
            } else {
                assert(t.subrange(i - 1, i - 1 + n.len()) =~= h.subrange(i, i + n.len()));
                assert(occurs_at(t, n, i - 1));
            }
        }
        if contains_seq(t, n) {
            let i = choose|i: int| occurs_at(t, n, i);
            assert(t.subrange(i, i + n.len()) =~= h.subrange(i + 1, i + 1 + n.len()));
            assert(occurs_at(h, n, i + 1));
        }
    }
}

/// How often `needle` occurs in `hay`, counted as `str::matches` counts.
pub fn count_matches(hay: &Vec<char>, needle: &Vec<char>) -> (c: usize)
    requires
        hay@.len() < usize::MAX,
    ensures
        c == match_count(hay@, needle@),
{
    let hl = hay.len();
    let nl = needle.len();
    if nl == 0 {
        proof {
            assert(match_count(hay@, needle@) == hl + 1);
        }
        return hl + 1;
    }
    let mut count: usize = 0;
    let mut i: usize = 0;
    assert(hay@.skip(0) =~= hay@);
    while i < hl
        invariant
            hl == hay@.len(),
            nl == needle@.len(),
            nl > 0,
            i <= hl,
            count <= i,
            match_count(hay@, needle@) == count + match_count(hay@.skip(i as int), needle@),
        decreases hl - i,
    {
        let ghost t = hay@.skip(i as int);
        if nl > hl - i {
            proof {
                assert(match_count(t, needle@) == 0);
            }
            return count;
        }
        if occurs_at_exec(hay, needle, i) {
            proof {
                assert(t.take(nl as int) =~= hay@.subrange(i as int, i + nl));
                assert(t.skip(nl as int) =~= hay@.skip(i + nl));
            }
            count += 1;
            i += nl;
        } else {
            proof {
                assert(t.take(nl as int) =~= hay@.subrange(i as int, i + nl));
                assert(t.skip(1) =~= hay@.skip(i + 1));
            }
            i += 1;
        }
    }
    proof {
        assert(hay@.skip(i as int).len() == 0);
    }
    count
}


/// How often `phrase` occurs in `text` as a phrase search counts it: both
/// compared as they are when case counts, else both lower-cased. The count
/// is positive exactly when the text contains the phrase.
pub fn phrase_occurrences(text: &str, phrase: &str, case_sensitive: bool) -> (c: usize)
    requires
        folded(text@, case_sensitive).len() < usize::MAX,
    ensures
        c == match_count(folded(text@, case_sensitive), folded(phrase@, case_sensitive)),
        (c > 0) == contains_seq(folded(text@, case_sensitive), folded(phrase@, case_sensitive)),
{
    let (t, p) = if case_sensitive {
        (chars_of(text), chars_of(phrase))
    } else {
        let lt = to_lower(text);
        let lp = to_lower(phrase);
        (chars_of(lt.as_str()), chars_of(lp.as_str()))
    };
    proof {
        lemma_match_count_contains(t@, p@);
    }
    count_matches(&t, &p)
}

/// Some word of `words` equals `w1` and some word equals `w2`, at most
/// `distance` words apart, all compared lower-cased.
pub open spec fn near_pair(words: Seq<Seq<char>>, w1: Seq<char>, w2: Seq<char>, distance: nat) -> bool {
    exists|i: int, j: int|
        0 <= i < words.len() && 0 <= j < words.len()
            && lowercase(#[trigger] words[i]) == lowercase(w1)
            && lowercase(#[trigger] words[j]) == lowercase(w2)
            && (if i <= j { j - i } else { i - j }) <= distance
}

/// Whether `text` has `word1` and `word2` within `distance` words of each
/// other, words being split at whitespace and compared lower-cased.
pub fn words_near(text: &str, word1: &str, word2: &str, distance: usize) -> (b: bool)
    ensures
        b == near_pair(ws_words(text@), word1@, word2@, distance as nat),
{
    let words = split_whitespace_words(text);
    let ghost ws = ws_words(text@);
    let l1 = to_lower(word1);
    let l2 = to_lower(word2);
    let mut i: usize = 0;
    while i < words.len()
        invariant
            string_views(words@) == ws,
            ws == ws_words(text@),
            l1@ == lowercase(word1@),
            l2@ == lowercase(word2@),
            i <= words@.len(),
            forall|a: int, c: int| 0 <= a < i && 0 <= c < ws.len()
                && lowercase(#[trigger] ws[a]) == lowercase(word1@)
                && lowercase(#[trigger] ws[c]) == lowercase(word2@)
                ==> (if a <= c { c - a } else { a - c }) > distance,
        decreases words.len() - i,
    {
        let wi = to_lower(words[i].as_str());
        assert(ws[i as int] == words@[i as int]@);
        if wi == l1 {
            let mut j: usize = 0;
            while j < words.len()
                invariant
                    string_views(words@) == ws,
                    i < words@.len(),
                    wi@ == lowercase(ws[i as int]),
                    wi@ == l1@,
                    l1@ == lowercase(word1@),
                    l2@ == lowercase(word2@),
                    ws == ws_words(text@),
                    j <= words@.len(),
                    forall|c: int| 0 <= c < j && lowercase(#[trigger] ws[c]) == lowercase(word2@)
                        ==> (if i <= c { c - i } else { i - c }) > distance,
                decreases words.len() - j,
            {
                let wj = to_lower(words[j].as_str());
                assert(ws[j as int] == words@[j as int]@);
                let gap = if i <= j { j - i } else { i - j };
                if wj == l2 && gap <= distance {
                    assert(lowercase(ws[i as int]) == lowercase(word1@));
                    assert(lowercase(ws[j as int]) == lowercase(word2@));
                    return true;
                }
                j += 1;
            }
            assert forall|a: int, c: int| 0 <= a < i + 1 && 0 <= c < ws.len()
                && lowercase(#[trigger] ws[a]) == lowercase(word1@)
                && lowercase(#[trigger] ws[c]) == lowercase(word2@)
                implies (if a <= c { c - a } else { a - c }) > distance by {
            }
        } else {
            assert forall|a: int, c: int| 0 <= a < i + 1 && 0 <= c < ws.len()
                && lowercase(#[trigger] ws[a]) == lowercase(word1@)
                && lowercase(#[trigger] ws[c]) == lowercase(word2@)
                implies (if a <= c { c - a } else { a - c }) > distance by {
                if a == i {
                    assert(wi@ != l1@);
                }
            }
        }
        i += 1;
    }
    false
}

} // verus!
