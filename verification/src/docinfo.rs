use vstd::prelude::*;

use crate::glob::has_prefix;
use crate::ring::string_views;
use crate::routing_index::{lines_of, split_char, strip_all, strip_cr};
use crate::telemetry::contains_seq;
use crate::text::{chars_of, push_char};

verus! {

/// Whether `char::is_whitespace` holds of a character.
pub uninterp spec fn whitespace(c: char) -> bool;

/// `char::is_whitespace`: the Unicode `White_Space` property, by the tables
/// of the standard library, which this contract does not restate.
#[verifier::external_body]
pub(crate) fn is_ws(c: char) -> (b: bool)
    ensures
        b == whitespace(c),
{
    c.is_whitespace()
}

/// The number of words of `s` as `split_whitespace` finds them: a word
/// starts at every character that is not whitespace and comes first or
/// after whitespace.
pub open spec fn word_count(s: Seq<char>) -> nat
    decreases s.len(),
{
    if s.len() == 0 {
        0
    } else {
        word_count(s.drop_last()) + if !whitespace(s.last()) && (s.len() == 1 || whitespace(s[s.len() - 2])) {
            1nat
        } else {
            0nat
        }
    }
}

/// Counts the words of `s` (`split_whitespace().count()`).
pub fn count_words(s: &str) -> (n: usize)
    ensures
        n == word_count(s@),
{
    let cs = chars_of(s);
    let mut n: usize = 0;
    let mut prev_ws = true;
    let mut i: usize = 0;
    assert(cs@.take(0) =~= Seq::<char>::empty());
    while i < cs.len()
        invariant
            i <= cs@.len(),
            n == word_count(cs@.take(i as int)),
            n <= i,
            prev_ws == (i == 0 || whitespace(cs@[i - 1])),
        decreases cs.len() - i,
    {
        let c = cs[i];
        let w = is_ws(c);
        assert(cs@.take(i + 1).drop_last() =~= cs@.take(i as int));
        assert(cs@.take(i + 1).last() == c);
        if i > 0 {
            assert(cs@.take(i + 1)[i - 1] == cs@[i - 1]);
        }
        if !w && prev_ws {
            n += 1;
        }
        prev_ws = w;
        i += 1;
    }
    assert(cs@.take(cs.len() as int) =~= cs@);
    n
}

/// The lines of `s` (`str::lines`).
pub fn text_lines(s: &str) -> (r: Vec<String>)
    ensures
        string_views(r@) == lines_of(s@),
{
    let cs = chars_of(s);
    let mut out: Vec<String> = Vec::new();
    let mut cur: Vec<char> = Vec::new();
    let mut i: usize = 0;
    assert(cs@.take(0) =~= Seq::<char>::empty());
    assert(split_char(Seq::<char>::empty(), '\n') =~= seq![Seq::<char>::empty()]);
    assert(string_views(out@) =~= strip_all(split_char(cs@.take(0), '\n').drop_last()));
    while i < cs.len()
        invariant
            i <= cs@.len(),
            split_char(cs@.take(i as int), '\n').len() > 0,
            string_views(out@) == strip_all(split_char(cs@.take(i as int), '\n').drop_last()),
            cur@ == split_char(cs@.take(i as int), '\n').last(),
        decreases cs.len() - i,
    {
        let c = cs[i];
        let ghost p = split_char(cs@.take(i as int), '\n');
        assert(cs@.take(i + 1).drop_last() =~= cs@.take(i as int));
        assert(cs@.take(i + 1).last() == c);
        if c == '\n' {
            let n = cur.len();
            let keep = if n > 0 && cur[n - 1] == '\r' { n - 1 } else { n };
            let mut line = String::new();
            let mut k: usize = 0;
            while k < keep
                invariant
                    k <= keep,
                    keep <= cur@.len(),
                    line@ == cur@.take(k as int),
                decreases keep - k,
            {
                push_char(&mut line, cur[k]);
                assert(cur@.take(k + 1) =~= cur@.take(k as int).push(cur@[k as int]));
                k += 1;
            }
            proof {
                assert(line@ =~= strip_cr(cur@));
                let q = split_char(cs@.take(i + 1), '\n');
                assert(q == p.push(Seq::<char>::empty()));
                assert(q.drop_last() =~= p);
                assert(p =~= p.drop_last().push(p.last()));
                assert(strip_all(p) =~= strip_all(p.drop_last()).push(strip_cr(p.last())));
            }
            let ghost before = out@;
            out.push(line);
            proof {
                assert(string_views(out@) =~= string_views(before).push(strip_cr(cur@)));
            }
            cur = Vec::new();
        } else {
            cur.push(c);
            proof {
                let q = split_char(cs@.take(i + 1), '\n');
                assert(q == p.update(p.len() - 1, p.last().push(c)));
                assert(q.drop_last() =~= p.drop_last());
            }
        }
        i += 1;
    }
    assert(cs@.take(cs.len() as int) =~= cs@);
    if cur.len() > 0 {
        let mut line = String::new();
        let mut k: usize = 0;
        while k < cur.len()
            invariant
                k <= cur@.len(),
                line@ == cur@.take(k as int),
            decreases cur.len() - k,
        {
            push_char(&mut line, cur[k]);
            assert(cur@.take(k + 1) =~= cur@.take(k as int).push(cur@[k as int]));
            k += 1;
        }
        assert(cur@.take(cur@.len() as int) =~= cur@);
        let ghost before = out@;
        out.push(line);
        assert(string_views(out@) =~= string_views(before).push(cur@));
    }
    out
}

/// `s` with every occurrence of `pat` replaced by `rep`, taken from the
/// left without overlap (`str::replace`, for a non-empty pattern).
pub open spec fn replace_all(s: Seq<char>, pat: Seq<char>, rep: Seq<char>) -> Seq<char>
    decreases s.len(),
{
    if s.len() == 0 {
        seq![]
    } else if pat.len() > 0 && has_prefix(s, pat) {
        rep + replace_all(s.skip(pat.len() as int), pat, rep)
    } else {
        seq![s[0]] + replace_all(s.skip(1), pat, rep)
    }
}

/// Replaces every occurrence of `pat` (not empty) in `s` with `rep`.
pub fn replace_str(s: &Vec<char>, pat: &Vec<char>, rep: &Vec<char>) -> (r: Vec<char>)
    requires
        pat@.len() > 0,
    ensures
        r@ == replace_all(s@, pat@, rep@),
{
    let mut out: Vec<char> = Vec::new();
    let mut i: usize = 0;
    assert(s@.skip(0) =~= s@);
    while i < s.len()
        invariant
            i <= s@.len(),
            pat@.len() > 0,
            out@ + replace_all(s@.skip(i as int), pat@, rep@) == replace_all(s@, pat@, rep@),
        decreases s.len() - i,
    {
        let ghost rest = s@.skip(i as int);
        let slen = s.len();
        let mut matched = pat.len() <= slen - i;
        let mut k: usize = 0;
        while matched && k < pat.len()
            invariant
                slen == s@.len(),
                i < s@.len(),
                k <= pat@.len(),
                matched ==> i + pat@.len() <= s@.len(),
                matched ==> forall|j: int| 0 <= j < k ==> s@[i + j] == pat@[j],
                !matched ==> (i + pat@.len() > s@.len() || exists|j: int| 0 <= j < pat@.len() && s@[i + j] != pat@[j]),
            decreases pat.len() - k,
        {
            assert(i + k < s@.len());
            if s[i + k] != pat[k] {
                matched = false;
            }
            k += 1;
        }
        if matched {
            assert(rest.take(pat@.len() as int) =~= pat@);
            assert(rest.skip(pat@.len() as int) =~= s@.skip(i + pat@.len()));
            let ghost before = out@;
            let mut j: usize = 0;
            while j < rep.len()
                invariant
                    j <= rep@.len(),
                    out@ == before + rep@.take(j as int),
                decreases rep.len() - j,
            {
                out.push(rep[j]);
                assert(rep@.take(j + 1) =~= rep@.take(j as int).push(rep@[j as int]));
                j += 1;
            }
            assert(rep@.take(rep@.len() as int) =~= rep@);
            assert(before + rep@ + replace_all(rest.skip(pat@.len() as int), pat@, rep@)
                =~= before + replace_all(rest, pat@, rep@));
            i = i + pat.len();
        } else {
            proof {
                if has_prefix(rest, pat@) {
                    if i + pat@.len() <= s@.len() {
                        let j = choose|j: int| 0 <= j < pat@.len() && s@[i + j] != pat@[j];
                        assert(rest.take(pat@.len() as int)[j] == rest[j]);
                        assert(rest[j] == s@[i + j]);
                    }
                }
                assert(!has_prefix(rest, pat@));
                assert(replace_all(rest, pat@, rep@) == seq![rest[0]] + replace_all(rest.skip(1), pat@, rep@));
            }
            assert(rest.skip(1) =~= s@.skip(i + 1));
            assert(rest[0] == s@[i as int]);
            let ghost before = out@;
            out.push(s[i]);
            assert(before + seq![s@[i as int]] + replace_all(rest.skip(1), pat@, rep@)
                =~= before + replace_all(rest, pat@, rep@));
            assert(out@ =~= before + seq![s@[i as int]]);
            i = i + 1;
        }
    }
    assert(s@.skip(s@.len() as int) =~= Seq::<char>::empty());
    assert(out@ + Seq::<char>::empty() =~= out@);
    out
}

/// The number of whitespace characters at the start of `s`.
pub open spec fn leading_ws(s: Seq<char>) -> nat
    decreases s.len(),
{
    if s.len() == 0 || !whitespace(s[0]) {
        0
    } else {
        1 + leading_ws(s.skip(1))
    }
}

/// The number of whitespace characters at the end of `s`.
pub open spec fn trailing_ws(s: Seq<char>) -> nat
    decreases s.len(),
{
    if s.len() == 0 || !whitespace(s.last()) {
        0
    } else {
        1 + trailing_ws(s.drop_last())
    }
}

/// `s` without leading and trailing whitespace (`str::trim`).
pub open spec fn trim_ws(s: Seq<char>) -> Seq<char> {
    let a = leading_ws(s);
    if a >= s.len() {
        seq![]
    } else {
        s.subrange(a as int, s.len() - trailing_ws(s))
    }
}

proof fn lemma_leading_ws(s: Seq<char>, k: int)
    requires
        0 <= k <= s.len(),
        forall|j: int| 0 <= j < k ==> whitespace(s[j]),
        k < s.len() ==> !whitespace(s[k]),
    ensures
        leading_ws(s) == k,
    decreases k,
{
    if k > 0 {
        assert forall|j: int| 0 <= j < k - 1 implies whitespace(s.skip(1)[j]) by {
            assert(s.skip(1)[j] == s[j + 1]);
        }
        if k < s.len() {
            assert(s.skip(1)[k - 1] == s[k]);
        }
        lemma_leading_ws(s.skip(1), k - 1);
    }
}

proof fn lemma_trailing_ws(s: Seq<char>, k: int)
    requires
        0 <= k <= s.len(),
        forall|j: int| s.len() - k <= j < s.len() ==> whitespace(s[j]),
        k < s.len() ==> !whitespace(s[s.len() - 1 - k]),
    ensures
        trailing_ws(s) == k,
    decreases k,
{
    if k > 0 {
        let d = s.drop_last();
        assert forall|j: int| d.len() - (k - 1) <= j < d.len() implies whitespace(d[j]) by {
            assert(d[j] == s[j]);
        }
        if k < s.len() {
            assert(d[d.len() - 1 - (k - 1)] == s[s.len() - 1 - k]);
        }
        lemma_trailing_ws(d, k - 1);
    }
}

/// `s` without leading and trailing whitespace.
pub fn trim_chars(s: &Vec<char>) -> (r: Vec<char>)
    ensures
        r@ == trim_ws(s@),
{
    let n = s.len();
    let mut a: usize = 0;
    while a < n && is_ws(s[a])
        invariant
            a <= n,
            n == s@.len(),
            forall|j: int| 0 <= j < a ==> whitespace(s@[j]),
        decreases n - a,
    {
        a += 1;
    }
    proof {
        lemma_leading_ws(s@, a as int);
    }
    if a >= n {
        return Vec::new();
    }
    let mut t: usize = 0;
    while t < n - a && is_ws(s[n - 1 - t])
        invariant
            a < n,
            n == s@.len(),
            t <= n - a,
            forall|j: int| n - t <= j < n ==> whitespace(s@[j]),
        decreases n - a - t,
    {
        t += 1;
    }
    proof {
        if t == n - a {
            assert(!whitespace(s@[a as int]));
            assert(whitespace(s@[a as int]));
        }
        lemma_trailing_ws(s@, t as int);
    }
    let mut out: Vec<char> = Vec::new();
    let mut i: usize = a;
    while i < n - t
        invariant
            a <= i <= n - t,
            n == s@.len(),
            out@ == s@.subrange(a as int, i as int),
        decreases n - t - i,
    {
        out.push(s[i]);
        assert(s@.subrange(a as int, i + 1) =~= s@.subrange(a as int, i as int).push(s@[i as int]));
        i += 1;
    }
    out
}

/// The function names of a code text: for every line that contains
/// `fn `, the line with every `fn ` and every `()` removed, trimmed.
pub open spec fn code_functions(lines: Seq<Seq<char>>) -> Seq<Seq<char>>
    decreases lines.len(),
{
    if lines.len() == 0 {
        seq![]
    } else {
        let rest = code_functions(lines.drop_last());
        let l = lines.last();
        if contains_seq(l, seq!['f', 'n', ' ']) {
            rest.push(trim_ws(replace_all(replace_all(l, seq!['f', 'n', ' '], seq![]), seq!['(', ')'], seq![])))
        } else {
            rest
        }
    }
}

/// The number of lines and the function names of a code text.
pub fn analyze_code(code: &str) -> (r: (usize, Vec<String>))
    ensures
        r.0 == lines_of(code@).len(),
        string_views(r.1@) == code_functions(lines_of(code@)),
{
    let lines = text_lines(code);
    let ghost ls = string_views(lines@);
    let fn_pat = vec!['f', 'n', ' '];
    let paren_pat = vec!['(', ')'];
    let empty: Vec<char> = Vec::new();
    let mut out: Vec<String> = Vec::new();
    let mut i: usize = 0;
    assert(ls.take(0) =~= Seq::<Seq<char>>::empty());
    while i < lines.len()
        invariant
            i <= lines@.len(),
            ls == string_views(lines@),
            fn_pat@ == seq!['f', 'n', ' '],
            paren_pat@ == seq!['(', ')'],
            empty@ == Seq::<char>::empty(),
            string_views(out@) == code_functions(ls.take(i as int)),
        decreases lines.len() - i,
    {
        assert(ls.take(i + 1).drop_last() =~= ls.take(i as int));
        assert(ls.take(i + 1).last() == lines@[i as int]@);
        let lc = chars_of(lines[i].as_str());
        let found = crate::glob::find_in(&lc, &fn_pat);
        proof {
            if found.is_none() && contains_seq(lc@, fn_pat@) {
                let k = choose|k: int| crate::glob::occurs_at(lc@, fn_pat@, k);
            }
        }
        if found.is_some() {
            let a = replace_str(&lc, &fn_pat, &empty);
            let b = replace_str(&a, &paren_pat, &empty);
            let c = trim_chars(&b);
            let mut name = String::new();
            let mut k: usize = 0;
            while k < c.len()
                invariant
                    k <= c@.len(),
                    name@ == c@.take(k as int),
                decreases c.len() - k,
            {
                push_char(&mut name, c[k]);
                assert(c@.take(k + 1) =~= c@.take(k as int).push(c@[k as int]));
                k += 1;
            }
            assert(c@.take(c@.len() as int) =~= c@);
            let ghost before = out@;
            out.push(name);
            assert(string_views(out@) =~= string_views(before).push(c@));
        }
        i += 1;
    }
    assert(ls.take(lines@.len() as int) =~= ls);
    (lines.len(), out)
}

} // verus!
