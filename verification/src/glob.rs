use vstd::prelude::*;

use crate::text::chars_of;

verus! {

/// The pieces of a pattern between its `*` characters, in order; a pattern
/// with `n` stars has `n + 1` pieces, some of which may be empty.
pub open spec fn split_star(p: Seq<char>) -> Seq<Seq<char>>
    decreases p.len(),
{
    if p.len() == 0 {
        seq![Seq::<char>::empty()]
    } else {
        let r = split_star(p.drop_last());
        if p.last() == '*' {
            r.push(Seq::<char>::empty())
        } else {
            r.update(r.len() - 1, r.last().push(p.last()))
        }
    }
}

/// `t` begins with `p`.
pub open spec fn has_prefix(t: Seq<char>, p: Seq<char>) -> bool {
    p.len() <= t.len() && t.take(p.len() as int) == p
}

/// `t` ends with `p`.
pub open spec fn has_suffix(t: Seq<char>, p: Seq<char>) -> bool {
    p.len() <= t.len() && t.skip(t.len() - p.len()) == p
}

/// `needle` occurs in `hay` starting at position `i`.
pub open spec fn occurs_at(hay: Seq<char>, needle: Seq<char>, i: int) -> bool {
    0 <= i && i + needle.len() <= hay.len() && hay.subrange(i, i + needle.len()) == needle
}

/// `s` is the concatenation of `parts[0]`, then any text, then `parts[1]`,
/// and so on: the pieces of a wildcard pattern, each star standing for any
/// (possibly empty) run of characters.
pub open spec fn glob_parts(s: Seq<char>, parts: Seq<Seq<char>>) -> bool
    decreases parts.len(), 0int,
{
    if parts.len() == 0 {
        false
    } else if parts.len() == 1 {
        s == parts[0]
    } else {
        has_prefix(s, parts[0]) && star_rec(s.skip(parts[0].len() as int), parts.drop_first())
    }
}

/// A star, then the pieces `parts`: the star takes no character and the
/// pieces match `t`, or the star takes the first character of `t` and
/// matches on.
pub open spec fn star_rec(t: Seq<char>, parts: Seq<Seq<char>>) -> bool
    decreases parts.len(), t.len() + 1,
{
    glob_parts(t, parts) || (t.len() > 0 && star_rec(t.drop_first(), parts))
}

/// The same, stated as a choice of how many characters the star takes.
pub open spec fn star_then(t: Seq<char>, parts: Seq<Seq<char>>) -> bool {
    exists|k: int| 0 <= k <= t.len() && #[trigger] glob_parts(t.skip(k), parts)
}

proof fn lemma_star_rec_exists(t: Seq<char>, parts: Seq<Seq<char>>)
    ensures
        star_rec(t, parts) == star_then(t, parts),
    decreases t.len(),
{
    assert(t.skip(0) =~= t);
    if glob_parts(t, parts) {
        assert(glob_parts(t.skip(0), parts));
    }
    if t.len() > 0 {
        lemma_star_rec_exists(t.drop_first(), parts);
        if star_then(t.drop_first(), parts) {
            let k = choose|k: int| 0 <= k <= t.drop_first().len() && #[trigger] glob_parts(t.drop_first().skip(k), parts);
            assert(t.drop_first().skip(k) =~= t.skip(k + 1));
            assert(glob_parts(t.skip(k + 1), parts));
        }
        if star_then(t, parts) {
            let k = choose|k: int| 0 <= k <= t.len() && #[trigger] glob_parts(t.skip(k), parts);
            if k > 0 {
                assert(t.drop_first().skip(k - 1) =~= t.skip(k));
                assert(glob_parts(t.drop_first().skip(k - 1), parts));
            }
        }
    } else {
        if star_then(t, parts) {
            let k = choose|k: int| 0 <= k <= t.len() && #[trigger] glob_parts(t.skip(k), parts);
            assert(k == 0);
        }
    }
}

/// `s` matches the wildcard pattern `pattern`, in which each `*` stands for
/// any run of characters and every other character stands for itself.
pub open spec fn glob_matches(s: Seq<char>, pattern: Seq<char>) -> bool {
    glob_parts(s, split_star(pattern))
}

proof fn lemma_glob_parts_unfold(s: Seq<char>, parts: Seq<Seq<char>>)
    requires
        parts.len() >= 2,
    ensures
        glob_parts(s, parts) == (has_prefix(s, parts[0]) && star_then(
            s.skip(parts[0].len() as int),
            parts.drop_first(),
        )),
{
    lemma_star_rec_exists(s.skip(parts[0].len() as int), parts.drop_first());
}

proof fn lemma_split_star_nonempty(p: Seq<char>)
    ensures
        split_star(p).len() >= 1,
    decreases p.len(),
{
    if p.len() > 0 {
        lemma_split_star_nonempty(p.drop_last());
    }
}

proof fn lemma_skip_skip(t: Seq<char>, a: int, b: int)
    requires
        0 <= a <= t.len(),
        0 <= b <= t.len() - a,
    ensures
        t.skip(a).skip(b) == t.skip(a + b),
{
    assert(t.skip(a).skip(b) =~= t.skip(a + b));
}

/// A star swallows any extra leading text.
proof fn lemma_star_then_suffix(t: Seq<char>, d: int, parts: Seq<Seq<char>>)
    requires
        0 <= d <= t.len(),
        star_then(t.skip(d), parts),
    ensures
        star_then(t, parts),
{
    let k = choose|k: int| 0 <= k <= t.skip(d).len() && #[trigger] glob_parts(t.skip(d).skip(k), parts);
    lemma_skip_skip(t, d, k);
    assert(glob_parts(t.skip(d + k), parts));
}

/// An empty piece after a star can be dropped.
proof fn lemma_star_then_empty_piece(t: Seq<char>, parts: Seq<Seq<char>>)
    requires
        parts.len() >= 2,
        parts[0].len() == 0,
    ensures
        star_then(t, parts) == star_then(t, parts.drop_first()),
{
    if star_then(t, parts) {
        let k = choose|k: int| 0 <= k <= t.len() && #[trigger] glob_parts(t.skip(k), parts);
        assert(t.skip(k).skip(0) =~= t.skip(k));
        lemma_glob_parts_unfold(t.skip(k), parts);
        assert(star_then(t.skip(k), parts.drop_first()));
        lemma_star_then_suffix(t, k, parts.drop_first());
    }
    if star_then(t, parts.drop_first()) {
        assert(t.skip(0) =~= t);
        assert(t.take(0) =~= parts[0]);
        assert(t.skip(0).skip(0) =~= t);
        lemma_glob_parts_unfold(t.skip(0), parts);
        assert(glob_parts(t.skip(0), parts));
    }
}

/// A star followed by a non-empty piece and more pieces matches exactly
/// when the piece occurs and the rest matches after its leftmost occurrence.
proof fn lemma_star_then_leftmost(t: Seq<char>, parts: Seq<Seq<char>>, pos: int)
    requires
        parts.len() >= 2,
        occurs_at(t, parts[0], pos),
        forall|j: int| 0 <= j < pos ==> !occurs_at(t, parts[0], j),
    ensures
        star_then(t, parts) == star_then(t.skip(pos + parts[0].len()), parts.drop_first()),
{
    let n = parts[0].len() as int;
    if star_then(t, parts) {
        let k = choose|k: int| 0 <= k <= t.len() && #[trigger] glob_parts(t.skip(k), parts);
        let u = t.skip(k);
        assert(u.take(n) =~= t.subrange(k, k + n));
        assert(occurs_at(t, parts[0], k));
        assert(pos <= k);
        lemma_skip_skip(t, k, n);
        lemma_glob_parts_unfold(u, parts);
        assert(star_then(t.skip(k + n), parts.drop_first()));
        lemma_skip_skip(t, pos + n, k - pos);
        lemma_star_then_suffix(t.skip(pos + n), k - pos, parts.drop_first());
    }
    if star_then(t.skip(pos + n), parts.drop_first()) {
        let u = t.skip(pos);
        assert(u.take(n) =~= t.subrange(pos, pos + n));
        lemma_skip_skip(t, pos, n);
        lemma_glob_parts_unfold(u, parts);
        assert(glob_parts(t.skip(pos), parts));
    }
}

/// A star followed by one last piece matches exactly the texts that end
/// with that piece.
proof fn lemma_star_then_last(t: Seq<char>, parts: Seq<Seq<char>>)
    requires
        parts.len() == 1,
    ensures
        star_then(t, parts) == has_suffix(t, parts[0]),
{
    if star_then(t, parts) {
        let k = choose|k: int| 0 <= k <= t.len() && #[trigger] glob_parts(t.skip(k), parts);
        assert(t.len() - parts[0].len() == k);
    }
    if has_suffix(t, parts[0]) {
        assert(glob_parts(t.skip(t.len() - parts[0].len()), parts));
    }
}

/// The pattern `*` matches every text.
pub proof fn lemma_star_matches_all(s: Seq<char>)
    ensures
        glob_matches(s, "*"@),
{
    reveal_strlit("*");
    let p = "*"@;
    assert(p.len() == 1);
    assert(p[0] == '*');
    assert(p.last() == '*');
    assert(p.drop_last() =~= Seq::<char>::empty());
    assert(split_star(Seq::<char>::empty()) == seq![Seq::<char>::empty()]);
    assert(split_star(p) =~= seq![Seq::<char>::empty(), Seq::<char>::empty()]);
    let parts = split_star(p);
    assert(s.take(0) =~= parts[0]);
    assert(s.skip(0) =~= s);
    lemma_star_then_last(s, parts.drop_first());
    assert(s.skip(s.len() as int) =~= parts[1]);
    lemma_glob_parts_unfold(s, parts);
}

proof fn lemma_split_star_no_star(p: Seq<char>)
    requires
        !p.contains('*'),
    ensures
        split_star(p) == seq![p],
    decreases p.len(),
{
    if p.len() > 0 {
        assert(!p.drop_last().contains('*')) by {
            if p.drop_last().contains('*') {
                let i = choose|i: int| 0 <= i < p.drop_last().len() && p.drop_last()[i] == '*';
                assert(p[i] == '*');
            }
        }
        lemma_split_star_no_star(p.drop_last());
        assert(p[p.len() - 1] != '*');
        assert(p.drop_last().push(p.last()) =~= p);
    } else {
        assert(p =~= Seq::<char>::empty());
    }
}

/// A pattern without `*` matches exactly the text equal to it.
pub proof fn lemma_plain_pattern_is_equality(s: Seq<char>, p: Seq<char>)
    requires
        !p.contains('*'),
    ensures
        glob_matches(s, p) == (s == p),
{
    lemma_split_star_no_star(p);
}

/// Splits a pattern at its stars.
fn split_on_star(p: &Vec<char>) -> (parts: Vec<Vec<char>>)
    ensures
        parts@.len() == split_star(p@).len(),
        forall|i: int| 0 <= i < parts@.len() ==> #[trigger] parts@[i]@ == split_star(p@)[i],
{
    let mut parts: Vec<Vec<char>> = Vec::new();
    parts.push(Vec::new());
    let mut i: usize = 0;
    assert(p@.take(0) =~= Seq::<char>::empty());
    while i < p.len()
        invariant
            i <= p@.len(),
            parts@.len() == split_star(p@.take(i as int)).len(),
            parts@.len() >= 1,
            forall|k: int| 0 <= k < parts@.len() ==> #[trigger] parts@[k]@ == split_star(p@.take(i as int))[k],
        decreases p@.len() - i,
    {
        let c = p[i];
        assert(p@.take(i + 1).drop_last() =~= p@.take(i as int));
        proof {
            lemma_split_star_nonempty(p@.take(i as int));
        }
        if c == '*' {
            parts.push(Vec::new());
        } else {
            let last = parts.len() - 1;
            let mut piece = parts.pop().unwrap();
            piece.push(c);
            parts.push(piece);
            assert(parts@.len() == split_star(p@.take(i + 1)).len());
            assert forall|k: int| 0 <= k < parts@.len() implies #[trigger] parts@[k]@ == split_star(p@.take(i + 1))[k] by {
                if k == last {
                } else {
                }
            }
        }
        i += 1;
    }
    assert(p@.take(p@.len() as int) =~= p@);
    parts
}

/// Whether `needle` occurs at position `i` of `hay`.
pub(crate) fn occurs_at_exec(hay: &Vec<char>, needle: &Vec<char>, i: usize) -> (b: bool)
    requires
        i <= hay@.len(),
    ensures
        b == occurs_at(hay@, needle@, i as int),
{
    if needle.len() > hay.len() - i {
        return false;
    }
    let mut j: usize = 0;
    while j < needle.len()
        invariant
            i + needle@.len() <= hay@.len(),
            i + needle.len() <= hay.len(),
            j <= needle@.len(),
            forall|k: int| 0 <= k < j ==> hay@[i + k] == needle@[k],
        decreases needle@.len() - j,
    {
        if hay[i + j] != needle[j] {
            assert(hay@.subrange(i as int, i + needle@.len())[j as int] != needle@[j as int]);
            return false;
        }
        j += 1;
    }
    assert(hay@.subrange(i as int, i + needle@.len()) =~= needle@);
    true
}

/// The leftmost occurrence of `needle` in `hay` at or after `from`.
pub(crate) fn find_from(hay: &Vec<char>, needle: &Vec<char>, from: usize) -> (r: Option<usize>)
    requires
        from <= hay@.len(),
    ensures
        match r {
            Some(i) => from <= i && occurs_at(hay@, needle@, i as int) && forall|j: int|
                from <= j < i ==> !occurs_at(hay@, needle@, j),
            None => forall|j: int| from <= j ==> !occurs_at(hay@, needle@, j),
        },
{
    if needle.len() == 0 {
        assert(hay@.subrange(from as int, from as int) =~= needle@);
        return Some(from);
    }
    let mut i = from;
    while i < hay.len()
        invariant
            from <= i <= hay@.len(),
            needle@.len() > 0,
            forall|j: int| from <= j < i ==> !occurs_at(hay@, needle@, j),
        decreases hay@.len() - i,
    {
        if occurs_at_exec(hay, needle, i) {
            return Some(i);
        }
        i += 1;
    }
    None
}

/// The leftmost occurrence of `needle` in `hay`.
pub fn find_in(hay: &Vec<char>, needle: &Vec<char>) -> (r: Option<usize>)
    ensures
        match r {
            Some(i) => occurs_at(hay@, needle@, i as int) && forall|j: int| 0 <= j < i ==> !occurs_at(hay@, needle@, j),
            None => forall|j: int| !occurs_at(hay@, needle@, j),
        },
{
    let r = find_from(hay, needle, 0);
    proof {
        if r.is_none() {
            assert forall|j: int| !occurs_at(hay@, needle@, j) by {
                if j < 0 {
                }
            }
        }
    }
    r
}

/// Whether `s` matches the wildcard `pattern` (only `*` is special).
pub fn matches_pattern(s: &str, pattern: &str) -> (b: bool)
    ensures
        b == glob_matches(s@, pattern@),
{
    let sc = chars_of(s);
    let pc = chars_of(pattern);
    let parts = split_on_star(&pc);
    let ghost ps = split_star(pattern@);
    proof {
        lemma_split_star_nonempty(pattern@);
    }
    if parts.len() == 1 {
        let only = &parts[0];
        if only.len() != sc.len() {
            return false;
        }
        let r = occurs_at_exec(&sc, only, 0);
        assert(r ==> sc@.subrange(0, only@.len() as int) =~= sc@);
        assert(sc@.subrange(0, sc@.len() as int) =~= sc@);
        return r;
    }
    // There are at least two pieces: the text must begin with the first one,
    // then each further piece is found after the previous one.
    let first = &parts[0];
    if first.len() > sc.len() {
        return false;
    }
    if !occurs_at_exec(&sc, first, 0) {
        assert(!has_prefix(sc@, ps[0]) ) by {
            assert(sc@.subrange(0, first@.len() as int) =~= sc@.take(first@.len() as int));
        }
        return false;
    }
    assert(sc@.subrange(0, first@.len() as int) =~= sc@.take(first@.len() as int));
    let mut start: usize = first.len();
    let mut i: usize = 1;
    proof {
        lemma_glob_parts_unfold(sc@, ps);
        assert(ps.skip(1) =~= ps.drop_first());
    }
    while i < parts.len()
        invariant
            1 <= i <= parts@.len(),
            sc@ == s@,
            ps == split_star(pattern@),
            parts@.len() == ps.len(),
            ps.len() >= 2,
            forall|k: int| 0 <= k < parts@.len() ==> #[trigger] parts@[k]@ == ps[k],
            start <= sc@.len(),
            i < ps.len() ==> glob_parts(sc@, ps) == star_then(sc@.skip(start as int), ps.skip(i as int)),
            i == ps.len() ==> glob_parts(sc@, ps),
        decreases parts@.len() - i,
    {
        let ghost t = sc@.skip(start as int);
        let ghost rest = ps.skip(i as int);
        assert(rest[0] == ps[i as int]);
        assert(rest.drop_first() =~= ps.skip(i + 1));
        let part = &parts[i];
        if part.len() == 0 {
            if i == parts.len() - 1 {
                proof {
                    lemma_star_then_last(t, rest);
                    assert(t.skip(t.len() as int) =~= rest[0]);
                    assert(has_suffix(t, rest[0]));
                }
            } else {
                proof {
                    lemma_star_then_empty_piece(t, rest);
                    assert(glob_parts(sc@, ps) == star_then(sc@.skip(start as int), ps.skip(i + 1)));
                }
            }
        } else if i == parts.len() - 1 {
            proof {
                lemma_star_then_last(t, rest);
                assert(rest.len() == 1);
                assert(part@ == ps[i as int]);
                assert(t.len() == sc@.len() - start);
            }
            // The last piece must end the text.
            if part.len() > sc.len() - start {
                return false;
            }
            let at = sc.len() - part.len();
            let r = occurs_at_exec(&sc, part, at);
            proof {
                assert(t.skip(t.len() - part@.len()) =~= sc@.subrange(at as int, at + part@.len()));
            }
            return r;
        } else {
            match find_from(&sc, part, start) {
                Some(pos) => {
                    proof {
                        assert forall|j: int| 0 <= j < pos - start implies !occurs_at(t, rest[0], j) by {
                            if occurs_at(t, rest[0], j) {
                                assert(t.subrange(j, j + rest[0].len()) =~= sc@.subrange(start + j, start + j + rest[0].len()));
                                assert(occurs_at(sc@, part@, start + j));
                            }
                        }
                        assert(t.subrange(pos - start, pos - start + rest[0].len()) =~= sc@.subrange(pos as int, pos + rest[0].len()));
                        lemma_star_then_leftmost(t, rest, pos - start);
                        lemma_skip_skip(sc@, start as int, pos - start + part@.len());
                        assert(pos + part@.len() <= sc@.len());
                        assert(glob_parts(sc@, ps) == star_then(sc@.skip(pos + part@.len()), ps.skip(i + 1)));
                    }
                    let plen = part.len();
                    let slen = sc.len();
                    assert(pos + plen <= slen);
                    start = pos + plen;
                }
                None => {
                    proof {
                        if star_then(t, rest) {
                            let k = choose|k: int| 0 <= k <= t.len() && #[trigger] glob_parts(t.skip(k), rest);
                            assert(t.skip(k).take(rest[0].len() as int) =~= sc@.subrange(start + k, start + k + rest[0].len()));
                            assert(occurs_at(sc@, part@, start + k));
                        }
                    }
                    return false;
                }
            }
        }
        i += 1;
    }
    true
}

} // verus!
