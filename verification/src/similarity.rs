use vstd::prelude::*;

use crate::text::{chars_of, push_char};

verus! {

broadcast use vstd::seq_lib::group_seq_properties;

/// The distinct runs of `n` consecutive characters of `s`.
pub open spec fn windows_set(s: Seq<char>, n: nat) -> Set<Seq<char>> {
    Set::new(|w: Seq<char>| exists|i: int| 0 <= i && i + n <= s.len() && w == #[trigger] s.subrange(i, i + n))
}

/// The characters of each vector.
pub open spec fn vec_views(v: Seq<Vec<char>>) -> Seq<Seq<char>> {
    v.map_values(|x: Vec<char>| x@)
}

fn same_chars(a: &Vec<char>, b: &Vec<char>) -> (r: bool)
    ensures
        r == (a@ == b@),
{
    if a.len() != b.len() {
        return false;
    }
    let mut i: usize = 0;
    while i < a.len()
        invariant
            a@.len() == b@.len(),
            i <= a@.len(),
            forall|k: int| 0 <= k < i ==> a@[k] == b@[k],
        decreases a@.len() - i,
    {
        if a[i] != b[i] {
            return false;
        }
        i += 1;
    }
    assert(a@ =~= b@);
    true
}

fn contains_chars(v: &Vec<Vec<char>>, w: &Vec<char>) -> (r: bool)
    ensures
        r == vec_views(v@).contains(w@),
{
    let mut i: usize = 0;
    while i < v.len()
        invariant
            i <= v@.len(),
            forall|k: int| 0 <= k < i ==> v@[k]@ != w@,
        decreases v@.len() - i,
    {
        if same_chars(&v[i], w) {
            assert(vec_views(v@)[i as int] == w@);
            return true;
        }
        i += 1;
    }
    proof {
        if vec_views(v@).contains(w@) {
            let k = choose|k: int| 0 <= k < vec_views(v@).len() && vec_views(v@)[k] == w@;
            assert(v@[k]@ == w@);
        }
    }
    false
}

/// The distinct windows of `n` characters of `c`, in order of first
/// occurrence.
pub fn distinct_windows(c: &Vec<char>, n: usize) -> (r: Vec<Vec<char>>)
    requires
        n > 0,
    ensures
        vec_views(r@).no_duplicates(),
        vec_views(r@).to_set() == windows_set(c@, n as nat),
        r@.len() <= c@.len(),
{
    let mut out: Vec<Vec<char>> = Vec::new();
    if n > c.len() {
        assert(vec_views(out@).to_set() =~= windows_set(c@, n as nat));
        return out;
    }
    let last = c.len() - n;
    let mut i: usize = 0;
    while i <= last
        invariant
            n > 0,
            last + n == c@.len(),
            last + n == c.len(),
            i <= last + 1,
            out@.len() <= i,
            vec_views(out@).no_duplicates(),
            forall|w: Seq<char>| #[trigger] vec_views(out@).contains(w) <==> exists|j: int|
                0 <= j < i && w == #[trigger] c@.subrange(j, j + n),
        decreases last + 1 - i,
    {
        let mut w: Vec<char> = Vec::new();
        let mut k: usize = 0;
        while k < n
            invariant
                i + n <= c@.len(),
                i + n <= c.len(),
                k <= n,
                w@ == c@.subrange(i as int, i + k),
            decreases n - k,
        {
            w.push(c[i + k]);
            k += 1;
            assert(w@ =~= c@.subrange(i as int, i + k));
        }
        let ghost before = out@;
        if !contains_chars(&out, &w) {
            out.push(w);
            assert(vec_views(out@) =~= vec_views(before).push(c@.subrange(i as int, i + n)));
        }
        proof {
            assert forall|x: Seq<char>| #[trigger] vec_views(out@).contains(x) <==> exists|j: int|
                0 <= j < i + 1 && x == #[trigger] c@.subrange(j, j + n) by {
                if vec_views(out@).contains(x) && x != c@.subrange(i as int, i + n) {
                    assert(vec_views(before).contains(x));
                }
                if exists|j: int| 0 <= j < i + 1 && x == #[trigger] c@.subrange(j, j + n) {
                    let j = choose|j: int| 0 <= j < i + 1 && x == #[trigger] c@.subrange(j, j + n);
                    if j < i {
                        assert(vec_views(before).contains(x));
                    }
                }
            }
        }
        i += 1;
    }
    assert(vec_views(out@).to_set() =~= windows_set(c@, n as nat));
    out
}

/// How many of the windows of `a` are also windows of `b`.
fn count_common(a: &Vec<Vec<char>>, b: &Vec<Vec<char>>) -> (r: usize)
    requires
        vec_views(a@).no_duplicates(),
    ensures
        r == vec_views(a@).to_set().intersect(vec_views(b@).to_set()).len(),
{
    let ghost bs = vec_views(b@).to_set();
    let mut count: usize = 0;
    let ghost mut common: Seq<Seq<char>> = Seq::empty();
    let mut i: usize = 0;
    while i < a.len()
        invariant
            i <= a@.len(),
            vec_views(a@).no_duplicates(),
            bs == vec_views(b@).to_set(),
            common.no_duplicates(),
            count == common.len(),
            common.len() <= i,
            common.to_set() == vec_views(a@).take(i as int).to_set().intersect(bs),
            forall|x: Seq<char>| #[trigger] common.contains(x) ==> vec_views(a@).take(i as int).contains(x),
        decreases a@.len() - i,
    {
        let ghost x = a@[i as int]@;
        assert(vec_views(a@).take(i + 1) =~= vec_views(a@).take(i as int).push(x));
        assert(vec_views(a@).take(i + 1).to_set() =~= vec_views(a@).take(i as int).to_set().insert(x));
        let ghost old_common = common;
        if contains_chars(b, &a[i]) {
            proof {
                if common.contains(x) {
                    let j = choose|j: int| 0 <= j < i && vec_views(a@).take(i as int)[j] == x;
                    assert(vec_views(a@)[j] == vec_views(a@)[i as int]);
                }
                common = common.push(x);
                assert(bs.contains(x));
            }
            count = count + 1;
        }
        proof {
            if common != old_common {
                assert(common.to_set() =~= old_common.to_set().insert(x));
            } else {
                assert(!bs.contains(x));
            }
            assert(common.to_set() =~= vec_views(a@).take(i + 1).to_set().intersect(bs));
        }
        i += 1;
    }
    proof {
        assert(vec_views(a@).take(a@.len() as int) =~= vec_views(a@));
        common.unique_seq_to_set();
    }
    count
}

/// For the sets of distinct windows of `n` characters of two strings: the
/// size of their intersection and of their union.
pub fn ngram_counts(key1: &str, key2: &str, n: usize) -> (r: (usize, usize))
    requires
        n > 0,
        key1@.len() + key2@.len() <= usize::MAX,
    ensures
        r.0 == windows_set(key1@, n as nat).intersect(windows_set(key2@, n as nat)).len(),
        r.1 == windows_set(key1@, n as nat).union(windows_set(key2@, n as nat)).len(),
{
    let c1 = chars_of(key1);
    let c2 = chars_of(key2);
    let w1 = distinct_windows(&c1, n);
    let w2 = distinct_windows(&c2, n);
    let inter = count_common(&w1, &w2);
    proof {
        let a = vec_views(w1@).to_set();
        let b = vec_views(w2@).to_set();
        vec_views(w1@).unique_seq_to_set();
        vec_views(w2@).unique_seq_to_set();
        vstd::set_lib::lemma_set_intersect_union_lens(a, b);
        vstd::set_lib::lemma_len_intersect(a, b);
    }
    let union = w1.len() + w2.len() - inter;
    (inter, union)
}

/// For the bigram sets of two strings: the size of their intersection and
/// the sum of their sizes (the terms of the Sørensen–Dice coefficient).
pub fn dice_counts(s1: &str, s2: &str) -> (r: (usize, usize))
    requires
        s1@.len() + s2@.len() <= usize::MAX,
    ensures
        r.0 == windows_set(s1@, 2).intersect(windows_set(s2@, 2)).len(),
        r.1 == windows_set(s1@, 2).len() + windows_set(s2@, 2).len(),
{
    let c1 = chars_of(s1);
    let c2 = chars_of(s2);
    let w1 = distinct_windows(&c1, 2);
    let w2 = distinct_windows(&c2, 2);
    let inter = count_common(&w1, &w2);
    proof {
        vec_views(w1@).unique_seq_to_set();
        vec_views(w2@).unique_seq_to_set();
        vstd::set_lib::lemma_len_intersect(vec_views(w1@).to_set(), vec_views(w2@).to_set());
    }
    (inter, w1.len() + w2.len())
}

/// The string made of the characters of `v`.
fn string_of(v: &Vec<char>) -> (s: String)
    ensures
        s@ == v@,
{
    let mut s = String::new();
    let mut i: usize = 0;
    while i < v.len()
        invariant
            i <= v@.len(),
            s@ == v@.take(i as int),
        decreases v@.len() - i,
    {
        push_char(&mut s, v[i]);
        i += 1;
        assert(s@ =~= v@.take(i as int));
    }
    assert(v@.take(v@.len() as int) =~= v@);
    s
}

/// The characters of each string.
pub open spec fn string_seq_views(v: Seq<String>) -> Seq<Seq<char>> {
    v.map_values(|x: String| x@)
}

/// The Sørensen–Dice coefficient of two strings: twice the number of
/// bigrams they share over the total number of their distinct bigrams (1
/// when neither has a bigram).
pub struct SorensenDice;

impl SorensenDice {
    /// The distinct pairs of adjacent characters of `s`, each as a
    /// two-character string, in order of first occurrence.
    pub fn get_bigrams(s: &str) -> (r: Vec<String>)
        ensures
            string_seq_views(r@).no_duplicates(),
            string_seq_views(r@).to_set() == windows_set(s@, 2),
    {
        let c = chars_of(s);
        let w = distinct_windows(&c, 2);
        let mut out: Vec<String> = Vec::new();
        let mut i: usize = 0;
        while i < w.len()
            invariant
                i <= w@.len(),
                string_seq_views(out@) == vec_views(w@).take(i as int),
            decreases w@.len() - i,
        {
            let t = string_of(&w[i]);
            let ghost before = out@;
            out.push(t);
            assert(string_seq_views(out@) =~= string_seq_views(before).push(w@[i as int]@));
            i += 1;
            assert(string_seq_views(out@) =~= vec_views(w@).take(i as int));
        }
        assert(vec_views(w@).take(w@.len() as int) =~= vec_views(w@));
        out
    }
}

} // verus!
