use vstd::prelude::*;

verus! {

broadcast use vstd::string::group_string_axioms;

/// The characters of a string slice, in order.
pub fn chars_of(s: &str) -> (out: Vec<char>)
    ensures
        out@ == s@,
{
    let mut out: Vec<char> = Vec::new();
    for c in it: s.chars()
        invariant
            out@ == it.seq().take(it.index() as int),
            it.seq() == s@,
    {
        out.push(c);
    }
    out
}


pub open spec fn min2(x: int, y: int) -> int {
    if x <= y { x } else { y }
}

/// Appends one character to a string (`String::push`).
#[verifier::external_body]
pub(crate) fn push_char(s: &mut String, c: char)
    ensures
        final(s)@ == old(s)@.push(c),
{
    s.push(c);
}

/// Appends a string slice to a string (`String::push_str`).
#[verifier::external_body]
pub(crate) fn push_str(s: &mut String, t: &str)
    ensures
        final(s)@ == old(s)@ + t@,
{
    s.push_str(t);
}

/// The decimal digit for `d` (`0 <= d < 10`).
pub open spec fn digit_char(d: nat) -> char {
    if d == 0 { '0' } else if d == 1 { '1' } else if d == 2 { '2' } else if d == 3 { '3' }
    else if d == 4 { '4' } else if d == 5 { '5' } else if d == 6 { '6' } else if d == 7 { '7' }
    else if d == 8 { '8' } else { '9' }
}

/// The decimal representation of a natural number, without leading zeros.
pub open spec fn nat_decimal(n: nat) -> Seq<char>
    decreases n,
{
    if n < 10 {
        seq![digit_char(n)]
    } else {
        nat_decimal(n / 10).push(digit_char(n % 10))
    }
}

/// The decimal representation of an integer, with a leading `-` when it is
/// negative.
pub open spec fn int_decimal(i: int) -> Seq<char> {
    if i < 0 {
        seq!['-'] + nat_decimal((-i) as nat)
    } else {
        nat_decimal(i as nat)
    }
}

fn digit_of(d: u64) -> (c: char)
    requires
        d < 10,
    ensures
        c == digit_char(d as nat),
{
    if d == 0 { '0' } else if d == 1 { '1' } else if d == 2 { '2' } else if d == 3 { '3' }
    else if d == 4 { '4' } else if d == 5 { '5' } else if d == 6 { '6' } else if d == 7 { '7' }
    else if d == 8 { '8' } else { '9' }
}

/// Appends the decimal representation of `n` to `out`.
pub fn push_u64_decimal(out: &mut String, n: u64)
    ensures
        final(out)@ == old(out)@ + nat_decimal(n as nat),
    decreases n,
{
    if n < 10 {
        push_char(out, digit_of(n));
        assert(seq![digit_char(n as nat)] =~= nat_decimal(n as nat));
    } else {
        push_u64_decimal(out, n / 10);
        push_char(out, digit_of(n % 10));
        assert(old(out)@ + nat_decimal((n / 10) as nat) + seq![digit_char((n % 10) as nat)]
            =~= old(out)@ + nat_decimal(n as nat));
    }
}

/// Appends the decimal representation of `i` to `out`.
pub fn push_i64_decimal(out: &mut String, i: i64)
    ensures
        final(out)@ == old(out)@ + int_decimal(i as int),
{
    if i < 0 {
        push_char(out, '-');
        let magnitude: u64 = if i == i64::MIN {
            9223372036854775808u64
        } else {
            (-i) as u64
        };
        push_u64_decimal(out, magnitude);
        assert(old(out)@.push('-') + nat_decimal(magnitude as nat) =~= old(out)@ + (seq!['-'] + nat_decimal(magnitude as nat)));
    } else {
        push_u64_decimal(out, i as u64);
    }
}

/// The decimal representation of `i`, as `format!("{}", i)` writes it.
pub fn i64_to_string(i: i64) -> (s: String)
    ensures
        s@ == int_decimal(i as int),
{
    let mut s = String::new();
    push_i64_decimal(&mut s, i);
    assert(Seq::<char>::empty() + int_decimal(i as int) =~= int_decimal(i as int));
    s
}

/// Whether `s` begins with `p`.
pub fn str_starts_with(s: &str, p: &str) -> (b: bool)
    ensures
        b == crate::glob::has_prefix(s@, p@),
{
    let sc = chars_of(s);
    let pc = chars_of(p);
    if pc.len() > sc.len() {
        return false;
    }
    let mut i: usize = 0;
    while i < pc.len()
        invariant
            pc@.len() <= sc@.len(),
            sc@ == s@,
            pc@ == p@,
            i <= pc@.len(),
            forall|k: int| 0 <= k < i ==> sc@[k] == pc@[k],
        decreases pc@.len() - i,
    {
        if sc[i] != pc[i] {
            assert(sc@.take(pc@.len() as int)[i as int] != pc@[i as int]);
            assert(sc@.take(pc@.len() as int) != pc@);
            return false;
        }
        i += 1;
    }
    assert(sc@.take(pc@.len() as int) =~= pc@);
    true
}

/// The number of leading characters that `a` and `b` share.
pub open spec fn common_prefix_len(a: Seq<char>, b: Seq<char>) -> nat
    decreases a.len(),
{
    if a.len() == 0 || b.len() == 0 || a[0] != b[0] {
        0
    } else {
        1 + common_prefix_len(a.drop_first(), b.drop_first())
    }
}

/// The number of leading characters two strings share.
pub fn common_prefix_length(s1: &str, s2: &str) -> (n: usize)
    ensures
        n == common_prefix_len(s1@, s2@),
{
    let a = chars_of(s1);
    let b = chars_of(s2);
    let mut i: usize = 0;
    assert(s1@.skip(0) =~= s1@);
    assert(s2@.skip(0) =~= s2@);
    while i < a.len() && i < b.len() && a[i] == b[i]
        invariant
            i <= a@.len(),
            i <= b@.len(),
            a@ == s1@,
            b@ == s2@,
            common_prefix_len(s1@, s2@) == i + common_prefix_len(s1@.skip(i as int), s2@.skip(i as int)),
        decreases a@.len() - i,
    {
        assert(s1@.skip(i as int).drop_first() =~= s1@.skip(i + 1));
        assert(s2@.skip(i as int).drop_first() =~= s2@.skip(i + 1));
        i += 1;
    }
    i
}

/// Levenshtein edit distance between two character sequences: the least
/// number of single-character insertions, deletions and substitutions that
/// turn `a` into `b`.
pub open spec fn edit_distance(a: Seq<char>, b: Seq<char>) -> nat
    decreases a.len() + b.len(),
{
    if a.len() == 0 {
        b.len()
    } else if b.len() == 0 {
        a.len()
    } else {
        let sub: int = edit_distance(a.drop_last(), b.drop_last()) + if a.last() == b.last() {
            0int
        } else {
            1int
        };
        min2(
            min2(edit_distance(a.drop_last(), b) + 1int, edit_distance(a, b.drop_last()) + 1int),
            sub,
        ) as nat
    }
}

/// The edit distance never exceeds the longer of the two lengths.
pub proof fn lemma_edit_distance_bound(a: Seq<char>, b: Seq<char>)
    ensures
        edit_distance(a, b) <= if a.len() >= b.len() { a.len() } else { b.len() },
    decreases a.len() + b.len(),
{
    if a.len() > 0 && b.len() > 0 {
        lemma_edit_distance_bound(a.drop_last(), b.drop_last());
    }
}

/// A string is at distance zero from itself.
pub proof fn lemma_edit_distance_self(a: Seq<char>)
    ensures
        edit_distance(a, a) == 0,
    decreases a.len(),
{
    if a.len() > 0 {
        lemma_edit_distance_self(a.drop_last());
    }
}

/// The distance from the empty string is the length of the other string.
pub proof fn lemma_edit_distance_empty(a: Seq<char>)
    ensures
        edit_distance(Seq::<char>::empty(), a) == a.len(),
        edit_distance(a, Seq::<char>::empty()) == a.len(),
{
}

/// Levenshtein distance between two strings, counted over characters.
pub fn levenshtein_distance(a: &str, b: &str) -> (d: usize)
    ensures
        d == edit_distance(a@, b@),
{
    let a_chars = chars_of(a);
    let b_chars = chars_of(b);
    let a_len = a_chars.len();
    let b_len = b_chars.len();
    if a_len == 0 {
        return b_len;
    }
    if b_len == 0 {
        return a_len;
    }
    let ghost sa = a_chars@;
    let ghost sb = b_chars@;
    // prev[k] holds the distance between the first `i` characters of `a`
    // and the first k + 1 characters of `b`; the distance to the empty
    // prefix of `b` is `i` itself.
    let mut prev: Vec<usize> = Vec::new();
    let mut j: usize = 0;
    while j < b_len
        invariant
            j <= b_len,
            b_len == sb.len(),
            prev@.len() == j,
            forall|k: int| 0 <= k < j ==> #[trigger] prev@[k] == edit_distance(sa.take(0), sb.take(k + 1)),
        decreases b_len - j,
    {
        assert(sa.take(0).len() == 0);
        prev.push(j + 1);
        j += 1;
    }
    let mut i: usize = 0;
    while i < a_len
        invariant
            i <= a_len,
            a_len == sa.len(),
            b_len == sb.len(),
            b_len >= 1,
            a_chars@ == sa,
            b_chars@ == sb,
            prev@.len() == b_len,
            forall|k: int| 0 <= k < b_len ==> #[trigger] prev@[k] == edit_distance(sa.take(i as int), sb.take(k + 1)),
        decreases a_len - i,
    {
        let mut cur: Vec<usize> = Vec::new();
        let mut j: usize = 0;
        while j < b_len
            invariant
                i < a_len,
                j <= b_len,
                a_len == sa.len(),
                b_len == sb.len(),
                a_chars@ == sa,
                b_chars@ == sb,
                prev@.len() == b_len,
                cur@.len() == j,
                forall|k: int| 0 <= k < b_len ==> #[trigger] prev@[k] == edit_distance(sa.take(i as int), sb.take(k + 1)),
                forall|k: int| 0 <= k < j ==> #[trigger] cur@[k] == edit_distance(sa.take(i + 1), sb.take(k + 1)),
            decreases b_len - j,
        {
            let ghost x = sa.take(i + 1);
            let ghost y = sb.take(j + 1);
            assert(x.drop_last() =~= sa.take(i as int));
            assert(y.drop_last() =~= sb.take(j as int));
            assert(x.last() == sa[i as int]);
            assert(y.last() == sb[j as int]);
            proof {
                lemma_edit_distance_bound(sa.take(i as int), sb.take(j + 1));
                lemma_edit_distance_bound(sa.take(i + 1), sb.take(j as int));
                lemma_edit_distance_bound(sa.take(i as int), sb.take(j as int));
                assert(sa.take(i + 1).len() == i + 1);
                assert(sb.take(j as int).len() == 0 ==> edit_distance(sa.take(i + 1), sb.take(j as int)) == i + 1);
                assert(sb.take(j as int).len() == 0 ==> edit_distance(sa.take(i as int), sb.take(j as int)) == i);
            }
            // distances to the prefix of `b` of length j (left) and, for
            // the row above, of length j (diagonal)
            let left: usize = if j == 0 { i + 1 } else { cur[j - 1] };
            let diag: usize = if j == 0 { i } else { prev[j - 1] };
            let cost: usize = if a_chars[i] == b_chars[j] { 0 } else { 1 };
            // one more than a distance; kept at `usize::MAX`, above which the
            // distance wanted here cannot lie
            let del = if prev[j] < usize::MAX { prev[j] + 1 } else { usize::MAX };
            let ins = if left < usize::MAX { left + 1 } else { usize::MAX };
            let subst = diag + cost;
            proof {
                lemma_edit_distance_bound(sa.take(i + 1), sb.take(j + 1));
            }
            let m1 = if del <= ins { del } else { ins };
            let m = if m1 <= subst { m1 } else { subst };
            cur.push(m);
            j += 1;
        }
        prev = cur;
        i += 1;
    }
    assert(sa.take(a_len as int) =~= sa);
    assert(sb.take(b_len as int) =~= sb);
    prev[b_len - 1]
}

} // verus!
