use vstd::prelude::*;

use crate::text::{chars_of, push_char};

verus! {

/// The path starts with the root `/`.
pub open spec fn has_root(p: Seq<char>) -> bool {
    p.len() > 0 && p[0] == '/'
}

/// The position of the last `/` in `p`, or -1.
pub open spec fn last_sep(p: Seq<char>) -> int
    decreases p.len(),
{
    if p.len() == 0 {
        -1
    } else if p.last() == '/' {
        p.len() - 1
    } else {
        last_sep(p.drop_last())
    }
}

/// The last piece of `p`: what follows its last `/`.
pub open spec fn last_piece(p: Seq<char>) -> Seq<char> {
    p.skip(last_sep(p) + 1)
}

/// `p` without its last piece and the `/` before it; the root `/` of an
/// absolute path stays.
pub open spec fn cut_piece(p: Seq<char>) -> Seq<char> {
    let s = last_sep(p);
    if has_root(p) {
        p.take(if s > 1 { s } else { 1 })
    } else {
        p.take(if s > 0 { s } else { 0 })
    }
}

/// The length below which nothing more is cut: the root of an absolute
/// path.
pub open spec fn root_len(p: Seq<char>) -> int {
    if has_root(p) { 1 } else { 0 }
}

/// A piece that names no component: empty (from a doubled or trailing
/// `/`) or `.`.
pub open spec fn is_void_piece(c: Seq<char>) -> bool {
    c.len() == 0 || c == seq!['.']
}

/// `p` with its trailing empty and `.` pieces removed.
pub open spec fn trim_back(p: Seq<char>) -> Seq<char>
    decreases p.len(),
{
    if p.len() > root_len(p) && is_void_piece(last_piece(p)) {
        proof {
            lemma_last_sep(p);
        }
        trim_back(cut_piece(p))
    } else {
        p
    }
}

/// The final component of a path, if it names something (as
/// `Path::file_name` gives it): none for the root, the empty path, or a
/// path ending in `..`.
pub open spec fn path_file_name(p: Seq<char>) -> Option<Seq<char>> {
    let q = trim_back(p);
    if q.len() <= root_len(q) || last_piece(q) == seq!['.', '.'] {
        None
    } else {
        Some(last_piece(q))
    }
}

/// The path without its final component (as `Path::parent` gives it for an
/// absolute path): none for the root.
pub open spec fn path_parent(p: Seq<char>) -> Option<Seq<char>> {
    let q = trim_back(p);
    if q.len() <= root_len(q) {
        None
    } else {
        Some(trim_back(cut_piece(q)))
    }
}

/// The non-empty pieces of `p` between `/` characters, in order.
pub open spec fn path_parts(p: Seq<char>) -> Seq<Seq<char>> {
    let r = scan_parts(p);
    if r.1.len() > 0 { r.0.push(r.1) } else { r.0 }
}

/// Scanning `p` from the left: the non-empty pieces completed so far and
/// the piece in progress.
pub open spec fn scan_parts(p: Seq<char>) -> (Seq<Seq<char>>, Seq<char>)
    decreases p.len(),
{
    if p.len() == 0 {
        (seq![], seq![])
    } else {
        let prev = scan_parts(p.drop_last());
        if p.last() != '/' {
            (prev.0, prev.1.push(p.last()))
        } else if prev.1.len() > 0 {
            (prev.0.push(prev.1), seq![])
        } else {
            (prev.0, seq![])
        }
    }
}

pub proof fn lemma_last_sep(p: Seq<char>)
    ensures
        -1 <= last_sep(p) < p.len(),
        last_sep(p) >= 0 ==> p[last_sep(p)] == '/',
        forall|k: int| last_sep(p) < k < p.len() ==> p[k] != '/',
        has_root(p) ==> last_sep(p) >= 0,
    decreases p.len(),
{
    if p.len() > 0 && p.last() != '/' {
        lemma_last_sep(p.drop_last());
        assert forall|k: int| last_sep(p) < k < p.len() implies p[k] != '/' by {
            if k < p.len() - 1 {
                assert(p.drop_last()[k] == p[k]);
            }
        }
        if has_root(p) {
            assert(p.drop_last()[0] == '/');
        }
    }
}

/// The position of the last `/` in `cs`, if any.
fn find_last_sep(cs: &Vec<char>, len: usize) -> (r: Option<usize>)
    requires
        len <= cs@.len(),
    ensures
        match r {
            Some(i) => i < len && i == last_sep(cs@.take(len as int)),
            None => last_sep(cs@.take(len as int)) == -1,
        },
{
    let mut k: usize = len;
    proof {
        lemma_last_sep(cs@.take(len as int));
    }
    while k > 0
        invariant
            k <= len,
            len <= cs@.len(),
            forall|j: int| k <= j < len ==> cs@[j] != '/',
        decreases k,
    {
        if cs[k - 1] == '/' {
            proof {
                let t = cs@.take(len as int);
                lemma_last_sep(t);
                assert(t[k - 1] == '/');
                assert forall|j: int| k - 1 < j < t.len() implies t[j] != '/' by {}
                if last_sep(t) != k - 1 {
                    assert(last_sep(t) > k - 1 || last_sep(t) < k - 1);
                }
            }
            return Some(k - 1);
        }
        k -= 1;
    }
    proof {
        let t = cs@.take(len as int);
        lemma_last_sep(t);
        if last_sep(t) >= 0 {
            assert(t[last_sep(t)] == '/');
        }
    }
    None
}

/// The length of `trim_back` of the first `len` characters of `cs`.
fn trim_back_len(cs: &Vec<char>, len: usize) -> (r: usize)
    requires
        len <= cs@.len(),
    ensures
        r <= len,
        cs@.take(r as int) == trim_back(cs@.take(len as int)),
    decreases len,
{
    let ghost p = cs@.take(len as int);
    let rl: usize = if len > 0 && cs[0] == '/' { 1 } else { 0 };
    assert(rl == root_len(p));
    if len <= rl {
        return len;
    }
    let s = find_last_sep(cs, len);
    let start: usize = match s { Some(i) => i + 1, None => 0 };
    proof {
        lemma_last_sep(p);
    }
    let piece_len = len - start;
    let void = piece_len == 0 || (piece_len == 1 && cs[start] == '.');
    assert(last_piece(p) =~= cs@.subrange(start as int, len as int));
    if void {
        proof {
            if piece_len == 1 {
                assert(last_piece(p) =~= seq!['.']);
            }
        }
        let cut: usize = if rl == 1 {
            match s { Some(i) => if i > 1 { i } else { 1 }, None => 1 }
        } else {
            match s { Some(i) => i, None => 0 }
        };
        assert(cs@.take(cut as int) =~= cut_piece(p).take(cut as int));
        assert(cut_piece(p) =~= cs@.take(cut as int));
        trim_back_len(cs, cut)
    } else {
        proof {
            if piece_len == 1 {
                assert(last_piece(p)[0] == cs@[start as int]);
            }
        }
        len
    }
}

/// A string with the first `n` characters of `cs`.
fn prefix_string(cs: &Vec<char>, n: usize) -> (s: String)
    requires
        n <= cs@.len(),
    ensures
        s@ == cs@.take(n as int),
{
    let mut s = String::new();
    let mut i: usize = 0;
    while i < n
        invariant
            i <= n,
            n <= cs@.len(),
            s@ == cs@.take(i as int),
        decreases n - i,
    {
        push_char(&mut s, cs[i]);
        assert(cs@.take(i + 1) =~= cs@.take(i as int).push(cs@[i as int]));
        i += 1;
    }
    s
}

/// A string with the characters `a..b` of `cs`.
fn slice_string(cs: &Vec<char>, a: usize, b: usize) -> (s: String)
    requires
        a <= b <= cs@.len(),
    ensures
        s@ == cs@.subrange(a as int, b as int),
{
    let mut s = String::new();
    let mut i: usize = a;
    while i < b
        invariant
            a <= i <= b,
            b <= cs@.len(),
            s@ == cs@.subrange(a as int, i as int),
        decreases b - i,
    {
        push_char(&mut s, cs[i]);
        assert(cs@.subrange(a as int, i + 1) =~= cs@.subrange(a as int, i as int).push(cs@[i as int]));
        i += 1;
    }
    s
}

/// The parent and the final component of `path`, as `Path::parent` and
/// `Path::file_name` give them.
pub fn split_path(path: &str) -> (r: (Option<String>, Option<String>))
    ensures
        match path_parent(path@) {
            Some(q) => r.0 is Some && r.0->0@ == q,
            None => r.0 is None,
        },
        match path_file_name(path@) {
            Some(n) => r.1 is Some && r.1->0@ == n,
            None => r.1 is None,
        },
{
    let cs = chars_of(path);
    let n = cs.len();
    assert(cs@.take(n as int) =~= cs@);
    let q = trim_back_len(&cs, n);
    let ghost qs = cs@.take(q as int);
    let rl: usize = if q > 0 && cs[0] == '/' { 1 } else { 0 };
    assert(rl == root_len(qs)) by {
        if q > 0 {
            assert(qs[0] == cs@[0]);
        }
    }
    if q <= rl {
        return (None, None);
    }
    let s = find_last_sep(&cs, q);
    let start: usize = match s { Some(i) => i + 1, None => 0 };
    proof {
        lemma_last_sep(qs);
    }
    assert(last_piece(qs) =~= cs@.subrange(start as int, q as int));
    let name = slice_string(&cs, start, q);
    let cut: usize = if rl == 1 {
        match s { Some(i) => if i > 1 { i } else { 1 }, None => 1 }
    } else {
        match s { Some(i) => i, None => 0 }
    };
    assert(cut_piece(qs) =~= cs@.take(cut as int));
    let pl = trim_back_len(&cs, cut);
    let parent = prefix_string(&cs, pl);
    let dotdot = q - start == 2 && cs[start] == '.' && cs[start + 1] == '.';
    proof {
        if q - start == 2 {
            assert(last_piece(qs)[0] == cs@[start as int]);
            assert(last_piece(qs)[1] == cs@[start + 1]);
        }
        if dotdot {
            assert(last_piece(qs) =~= seq!['.', '.']);
        } else if last_piece(qs) == seq!['.', '.'] {
            assert(last_piece(qs)[0] == '.');
            assert(last_piece(qs)[1] == '.');
        }
    }
    if dotdot {
        (Some(parent), None)
    } else {
        (Some(parent), Some(name))
    }
}

/// The non-empty pieces of `path` between `/` characters.
pub fn split_parts(path: &str) -> (r: Vec<String>)
    ensures
        r@.len() == path_parts(path@).len(),
        forall|i: int| 0 <= i < r@.len() ==> #[trigger] r@[i]@ == path_parts(path@)[i],
{
    let cs = chars_of(path);
    let mut out: Vec<String> = Vec::new();
    let mut cur: Vec<char> = Vec::new();
    let mut i: usize = 0;
    assert(cs@.take(0) =~= Seq::<char>::empty());
    while i < cs.len()
        invariant
            i <= cs@.len(),
            cur@ == scan_parts(cs@.take(i as int)).1,
            out@.len() == scan_parts(cs@.take(i as int)).0.len(),
            forall|k: int| 0 <= k < out@.len() ==> #[trigger] out@[k]@ == scan_parts(cs@.take(i as int)).0[k],
        decreases cs.len() - i,
    {
        assert(cs@.take(i + 1).drop_last() =~= cs@.take(i as int));
        let c = cs[i];
        if c != '/' {
            cur.push(c);
        } else if cur.len() > 0 {
            let piece = prefix_string(&cur, cur.len());
            assert(cur@.take(cur@.len() as int) =~= cur@);
            out.push(piece);
            cur = Vec::new();
        } else {
        }
        i += 1;
    }
    assert(cs@.take(cs.len() as int) =~= cs@);
    if cur.len() > 0 {
        let piece = prefix_string(&cur, cur.len());
        assert(cur@.take(cur@.len() as int) =~= cur@);
        out.push(piece);
    }
    out
}

} // verus!
