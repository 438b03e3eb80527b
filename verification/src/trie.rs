use vstd::prelude::*;

use crate::text::chars_of;

verus! {

broadcast use vstd::seq_lib::group_seq_properties;

/// A node of the fuzzy trie: the character on the edge into it, its
/// children, whether a term ends here, and the terms that end here.
pub struct TrieNode {
    pub ch: char,
    pub children: Vec<TrieNode>,
    pub is_end: bool,
    pub terms: Vec<String>,
}

/// The characters of each string.
pub open spec fn term_views(ts: Seq<String>) -> Seq<Seq<char>> {
    ts.map_values(|t: String| t@)
}

/// The terms stored in the subtree below (and at) `n`.
pub open spec fn node_words(n: TrieNode) -> Set<Seq<char>>
    decreases n,
{
    term_views(n.terms@).to_set().union(children_words(n.children@))
}

/// The terms stored below the given children.
pub open spec fn children_words(cs: Seq<TrieNode>) -> Set<Seq<char>>
    decreases cs,
{
    if cs.len() == 0 {
        Set::empty()
    } else {
        children_words(cs.drop_last()).union(node_words(cs.last()))
    }
}

/// One plus how far `dist` is from exceeding `max` (zero once exceeded).
pub open spec fn budget(dist: nat, max: nat) -> nat {
    if dist <= max { (max + 1 - dist) as nat } else { 0 }
}

/// What the fuzzy search collects from node `n` with the query read up to
/// `pos` at distance `dist`: nothing once the distance exceeds `max`; at
/// the end of the query, the terms that end at `n`; otherwise, in this
/// order, the results of matching or substituting the next character
/// into each child, of skipping the query character, of inserting each
/// child's character, and of transposing the next two characters.
pub open spec fn search_spec(n: TrieNode, q: Seq<char>, pos: nat, dist: nat, max: nat) -> Seq<(Seq<char>, nat)>
    decreases budget(dist, max), n, 3nat,
{
    if dist > max || pos > q.len() {
        Seq::empty()
    } else if pos == q.len() {
        if n.is_end {
            term_views(n.terms@).map_values(|t: Seq<char>| (t, dist))
        } else {
            Seq::empty()
        }
    } else {
        step_children(n.children@, q, pos, dist, max) + search_spec(n, q, pos + 1, dist + 1, max)
            + insert_children(n.children@, q, pos, dist, max) + swap_children(n.children@, q, pos, dist, max)
    }
}

/// Each child taken with the next query character, at no cost when they
/// are equal, at one otherwise.
pub open spec fn step_children(cs: Seq<TrieNode>, q: Seq<char>, pos: nat, dist: nat, max: nat) -> Seq<(Seq<char>, nat)>
    decreases budget(dist, max), cs, 2nat,
{
    if cs.len() == 0 || dist > max || pos >= q.len() {
        Seq::empty()
    } else {
        step_children(cs.drop_last(), q, pos, dist, max) + search_spec(
            cs.last(),
            q,
            pos + 1,
            if cs.last().ch == q[pos as int] { dist } else { dist + 1 },
            max,
        )
    }
}

/// Each child taken without reading the query, at a cost of one.
pub open spec fn insert_children(cs: Seq<TrieNode>, q: Seq<char>, pos: nat, dist: nat, max: nat) -> Seq<(Seq<char>, nat)>
    decreases budget(dist, max), cs, 2nat,
{
    if cs.len() == 0 || dist > max {
        Seq::empty()
    } else {
        insert_children(cs.drop_last(), q, pos, dist, max) + search_spec(cs.last(), q, pos, dist + 1, max)
    }
}

/// The children that match the query character after next, then their
/// children that match the next one: two characters read swapped, at a
/// cost of one.
pub open spec fn swap_children(cs: Seq<TrieNode>, q: Seq<char>, pos: nat, dist: nat, max: nat) -> Seq<(Seq<char>, nat)>
    decreases budget(dist, max), cs, 2nat,
{
    if cs.len() == 0 || dist > max || pos + 1 >= q.len() {
        Seq::empty()
    } else {
        swap_children(cs.drop_last(), q, pos, dist, max) + if cs.last().ch == q[pos + 1int] {
            swap_grandchildren(cs.last().children@, q, pos, dist, max)
        } else {
            Seq::empty()
        }
    }
}

/// The second step of a transposition.
pub open spec fn swap_grandchildren(cs: Seq<TrieNode>, q: Seq<char>, pos: nat, dist: nat, max: nat) -> Seq<(Seq<char>, nat)>
    decreases budget(dist, max), cs, 1nat,
{
    if cs.len() == 0 || dist > max || pos + 1 >= q.len() {
        Seq::empty()
    } else {
        swap_grandchildren(cs.drop_last(), q, pos, dist, max) + if cs.last().ch == q[pos as int] {
            search_spec(cs.last(), q, pos + 2, dist + 1, max)
        } else {
            Seq::empty()
        }
    }
}

proof fn lemma_child_words(cs: Seq<TrieNode>, i: int)
    requires
        0 <= i < cs.len(),
    ensures
        node_words(cs[i]).subset_of(children_words(cs)),
    decreases cs.len(),
{
    if i < cs.len() - 1 {
        lemma_child_words(cs.drop_last(), i);
        assert(cs.drop_last()[i] == cs[i]);
    }
}

/// Every result of the search is a term stored below `n`, at a distance
/// no greater than `max`.
pub proof fn lemma_search_sound(n: TrieNode, q: Seq<char>, pos: nat, dist: nat, max: nat)
    ensures
        forall|i: int| 0 <= i < search_spec(n, q, pos, dist, max).len() ==> {
            let r = #[trigger] search_spec(n, q, pos, dist, max)[i];
            r.1 <= max && node_words(n).contains(r.0)
        },
    decreases budget(dist, max), n, 3nat,
{
    let r = search_spec(n, q, pos, dist, max);
    if dist > max || pos > q.len() {
    } else if pos == q.len() {
        if n.is_end {
            assert forall|i: int| 0 <= i < r.len() implies r[i].1 <= max && node_words(n).contains(r[i].0) by {
                assert(term_views(n.terms@).contains(term_views(n.terms@)[i]));
            }
        }
    } else {
        let a = step_children(n.children@, q, pos, dist, max);
        let b = search_spec(n, q, pos + 1, dist + 1, max);
        let c = insert_children(n.children@, q, pos, dist, max);
        let d = swap_children(n.children@, q, pos, dist, max);
        lemma_step_sound(n.children@, q, pos, dist, max);
        lemma_search_sound(n, q, pos + 1, dist + 1, max);
        lemma_insert_sound(n.children@, q, pos, dist, max);
        lemma_swap_sound(n.children@, q, pos, dist, max);
        assert(r == a + b + c + d);
        assert forall|i: int| 0 <= i < r.len() implies r[i].1 <= max && node_words(n).contains(r[i].0) by {
            if i < a.len() {
                assert(r[i] == a[i]);
            } else if i < a.len() + b.len() {
                assert(r[i] == b[i - a.len()]);
            } else if i < a.len() + b.len() + c.len() {
                assert(r[i] == c[i - a.len() - b.len()]);
            } else {
                assert(r[i] == d[i - a.len() - b.len() - c.len()]);
            }
        }
    }
}

proof fn lemma_step_sound(cs: Seq<TrieNode>, q: Seq<char>, pos: nat, dist: nat, max: nat)
    ensures
        forall|i: int| 0 <= i < step_children(cs, q, pos, dist, max).len() ==> {
            let r = #[trigger] step_children(cs, q, pos, dist, max)[i];
            r.1 <= max && children_words(cs).contains(r.0)
        },
    decreases budget(dist, max), cs, 2nat,
{
    if !(cs.len() == 0 || dist > max || pos >= q.len()) {
        let last = cs.last();
        let d2 = if last.ch == q[pos as int] { dist } else { dist + 1 };
        lemma_step_sound(cs.drop_last(), q, pos, dist, max);
        lemma_search_sound(last, q, pos + 1, d2, max);
        let a = step_children(cs.drop_last(), q, pos, dist, max);
        let b = search_spec(last, q, pos + 1, d2, max);
        let r = step_children(cs, q, pos, dist, max);
        assert forall|i: int| 0 <= i < r.len() implies r[i].1 <= max && children_words(cs).contains(r[i].0) by {
            if i < a.len() {
                assert(r[i] == a[i]);
            } else {
                assert(r[i] == b[i - a.len()]);
            }
        }
    }
}

proof fn lemma_insert_sound(cs: Seq<TrieNode>, q: Seq<char>, pos: nat, dist: nat, max: nat)
    ensures
        forall|i: int| 0 <= i < insert_children(cs, q, pos, dist, max).len() ==> {
            let r = #[trigger] insert_children(cs, q, pos, dist, max)[i];
            r.1 <= max && children_words(cs).contains(r.0)
        },
    decreases budget(dist, max), cs, 2nat,
{
    if !(cs.len() == 0 || dist > max) {
        let last = cs.last();
        lemma_insert_sound(cs.drop_last(), q, pos, dist, max);
        lemma_search_sound(last, q, pos, dist + 1, max);
        let a = insert_children(cs.drop_last(), q, pos, dist, max);
        let b = search_spec(last, q, pos, dist + 1, max);
        let r = insert_children(cs, q, pos, dist, max);
        assert forall|i: int| 0 <= i < r.len() implies r[i].1 <= max && children_words(cs).contains(r[i].0) by {
            if i < a.len() {
                assert(r[i] == a[i]);
            } else {
                assert(r[i] == b[i - a.len()]);
            }
        }
    }
}

proof fn lemma_swap_sound(cs: Seq<TrieNode>, q: Seq<char>, pos: nat, dist: nat, max: nat)
    ensures
        forall|i: int| 0 <= i < swap_children(cs, q, pos, dist, max).len() ==> {
            let r = #[trigger] swap_children(cs, q, pos, dist, max)[i];
            r.1 <= max && children_words(cs).contains(r.0)
        },
    decreases budget(dist, max), cs, 2nat,
{
    if !(cs.len() == 0 || dist > max || pos + 1 >= q.len()) {
        let last = cs.last();
        lemma_swap_sound(cs.drop_last(), q, pos, dist, max);
        let a = swap_children(cs.drop_last(), q, pos, dist, max);
        let r = swap_children(cs, q, pos, dist, max);
        if last.ch == q[pos + 1int] {
            lemma_swap_grand_sound(last.children@, q, pos, dist, max);
            let b = swap_grandchildren(last.children@, q, pos, dist, max);
            assert(children_words(last.children@).subset_of(node_words(last)));
            assert(node_words(last).subset_of(children_words(cs)));
            assert forall|i: int| 0 <= i < r.len() implies r[i].1 <= max && children_words(cs).contains(r[i].0) by {
                if i < a.len() {
                    assert(r[i] == a[i]);
                } else {
                    assert(r[i] == b[i - a.len()]);
                }
            }
        } else {
            assert(r =~= a);
        }
    }
}

proof fn lemma_swap_grand_sound(cs: Seq<TrieNode>, q: Seq<char>, pos: nat, dist: nat, max: nat)
    ensures
        forall|i: int| 0 <= i < swap_grandchildren(cs, q, pos, dist, max).len() ==> {
            let r = #[trigger] swap_grandchildren(cs, q, pos, dist, max)[i];
            r.1 <= max && children_words(cs).contains(r.0)
        },
    decreases budget(dist, max), cs, 1nat,
{
    if !(cs.len() == 0 || dist > max || pos + 1 >= q.len()) {
        let last = cs.last();
        lemma_swap_grand_sound(cs.drop_last(), q, pos, dist, max);
        let a = swap_grandchildren(cs.drop_last(), q, pos, dist, max);
        let r = swap_grandchildren(cs, q, pos, dist, max);
        if last.ch == q[pos as int] {
            lemma_search_sound(last, q, pos + 2, dist + 1, max);
            let b = search_spec(last, q, pos + 2, dist + 1, max);
            assert forall|i: int| 0 <= i < r.len() implies r[i].1 <= max && children_words(cs).contains(r[i].0) by {
                if i < a.len() {
                    assert(r[i] == a[i]);
                } else {
                    assert(r[i] == b[i - a.len()]);
                }
            }
        } else {
            assert(r =~= a);
        }
    }
}

/// `t` is reached from `q` by edits costing at most `k` (each one):
/// keeping or substituting a character, deleting one of `q`, inserting one
/// of `t`, or swapping two neighbouring characters.
pub open spec fn within(q: Seq<char>, t: Seq<char>, k: int) -> bool
    decreases q.len() + t.len(),
{
    if k < 0 {
        false
    } else if q.len() == 0 && t.len() == 0 {
        true
    } else {
        ||| (q.len() > 0 && t.len() > 0 && q[0] == t[0] && within(q.drop_first(), t.drop_first(), k))
        ||| (q.len() > 0 && t.len() > 0 && within(q.drop_first(), t.drop_first(), k - 1))
        ||| (q.len() > 0 && within(q.drop_first(), t, k - 1))
        ||| (t.len() > 0 && within(q, t.drop_first(), k - 1))
        ||| (q.len() > 1 && t.len() > 1 && q[0] == t[1] && q[1] == t[0] && within(q.skip(2), t.skip(2), k - 1))
    }
}

/// Every term stored at a node is the path of characters from the root to
/// it, `p`, kept once, and marks the node as an end; no two children share a
/// character; each child lies at `p` and its own character.
pub open spec fn placed(n: TrieNode, p: Seq<char>) -> bool
    decreases n,
{
    &&& forall|i: int| 0 <= i < n.terms@.len() ==> #[trigger] n.terms@[i]@ == p
    &&& n.terms@.len() > 0 ==> n.is_end
    &&& n.terms@.len() <= 1
    &&& forall|i: int, j: int|
        0 <= i < j < n.children@.len() ==> #[trigger] n.children@[i].ch != #[trigger] n.children@[j].ch
    &&& placed_children(n.children@, p)
}

/// Each child lies at `p` and its own character.
pub open spec fn placed_children(cs: Seq<TrieNode>, p: Seq<char>) -> bool
    decreases cs,
{
    if cs.len() == 0 {
        true
    } else {
        placed_children(cs.drop_last(), p) && placed(cs.last(), p.push(cs.last().ch))
    }
}

proof fn lemma_placed_children(cs: Seq<TrieNode>, p: Seq<char>)
    ensures
        placed_children(cs, p) <==> forall|i: int| 0 <= i < cs.len() ==> placed(#[trigger] cs[i], p.push(cs[i].ch)),
    decreases cs.len(),
{
    if cs.len() > 0 {
        lemma_placed_children(cs.drop_last(), p);
        if forall|i: int| 0 <= i < cs.len() ==> placed(#[trigger] cs[i], p.push(cs[i].ch)) {
            assert forall|i: int| 0 <= i < cs.drop_last().len() implies placed(#[trigger] cs.drop_last()[i], p.push(cs.drop_last()[i].ch)) by {
                assert(cs.drop_last()[i] == cs[i]);
            }
            assert(placed(cs[cs.len() - 1], p.push(cs[cs.len() - 1].ch)));
        }
        if placed_children(cs, p) {
            assert forall|i: int| 0 <= i < cs.len() implies placed(#[trigger] cs[i], p.push(cs[i].ch)) by {
                if i < cs.len() - 1 {
                    assert(cs.drop_last()[i] == cs[i]);
                }
            }
        }
    }
}

/// A result found from a node at path `p`, with the query read up to
/// `pos` at distance `dist`: a term that goes on from `p`, whose rest is
/// reached from the rest of the query by edits costing the distance added.
pub open spec fn found_ok(q: Seq<char>, pos: nat, dist: nat, p: Seq<char>, r: (Seq<char>, nat)) -> bool {
    &&& r.0.len() >= p.len()
    &&& r.0.take(p.len() as int) == p
    &&& r.1 >= dist
    &&& within(q.skip(pos as int), r.0.skip(p.len() as int), r.1 - dist)
}

proof fn lemma_edit_step(q: Seq<char>, pos: nat, dist: nat, d2: nat, p: Seq<char>, ch: char, r: (Seq<char>, nat))
    requires
        pos < q.len(),
        d2 == if ch == q[pos as int] { dist } else { dist + 1 },
        found_ok(q, pos + 1, d2, p.push(ch), r),
    ensures
        found_ok(q, pos, dist, p, r),
{
    let t = r.0;
    let n = p.len() as int;
    assert(t.take(n + 1).take(n) =~= t.take(n));
    assert(p.push(ch).take(n) =~= p);
    assert(t[n] == t.take(n + 1)[n]);
    let qq = q.skip(pos as int);
    let tt = t.skip(n);
    assert(qq[0] == q[pos as int]);
    assert(tt[0] == t[n]);
    assert(qq.drop_first() =~= q.skip(pos + 1int));
    assert(tt.drop_first() =~= t.skip(n + 1));
}

proof fn lemma_edit_delete(q: Seq<char>, pos: nat, dist: nat, p: Seq<char>, r: (Seq<char>, nat))
    requires
        pos < q.len(),
        found_ok(q, pos + 1, dist + 1, p, r),
    ensures
        found_ok(q, pos, dist, p, r),
{
    let qq = q.skip(pos as int);
    assert(qq.drop_first() =~= q.skip(pos + 1int));
}

proof fn lemma_edit_insert(q: Seq<char>, pos: nat, dist: nat, p: Seq<char>, ch: char, r: (Seq<char>, nat))
    requires
        pos <= q.len(),
        found_ok(q, pos, dist + 1, p.push(ch), r),
    ensures
        found_ok(q, pos, dist, p, r),
{
    let t = r.0;
    let n = p.len() as int;
    assert(t.take(n + 1).take(n) =~= t.take(n));
    assert(p.push(ch).take(n) =~= p);
    let tt = t.skip(n);
    assert(tt.drop_first() =~= t.skip(n + 1));
}

proof fn lemma_edit_swap(q: Seq<char>, pos: nat, dist: nat, p: Seq<char>, c1: char, c2: char, r: (Seq<char>, nat))
    requires
        pos + 1 < q.len(),
        c1 == q[pos + 1int],
        c2 == q[pos as int],
        found_ok(q, pos + 2, dist + 1, p.push(c1).push(c2), r),
    ensures
        found_ok(q, pos, dist, p, r),
{
    let t = r.0;
    let n = p.len() as int;
    assert(t.take(n + 2).take(n) =~= t.take(n));
    assert(p.push(c1).push(c2).take(n) =~= p);
    assert(t[n] == t.take(n + 2)[n]);
    assert(t[n + 1] == t.take(n + 2)[n + 1]);
    assert(p.push(c1).push(c2)[n] == c1);
    assert(p.push(c1).push(c2)[n + 1] == c2);
    let qq = q.skip(pos as int);
    let tt = t.skip(n);
    assert(qq[0] == q[pos as int]);
    assert(qq[1] == q[pos + 1int]);
    assert(tt[0] == t[n]);
    assert(tt[1] == t[n + 1]);
    assert(qq.skip(2) =~= q.skip(pos + 2int));
    assert(tt.skip(2) =~= t.skip(n + 2));
}

/// Every result of the walk from a node at path `p` is a term that goes on
/// from `p` and is reached from the rest of the query by edits costing
/// the distance added.
proof fn lemma_search_edits(n: TrieNode, q: Seq<char>, pos: nat, dist: nat, max: nat, p: Seq<char>)
    requires
        placed(n, p),
    ensures
        forall|i: int| 0 <= i < search_spec(n, q, pos, dist, max).len()
            ==> found_ok(q, pos, dist, p, #[trigger] search_spec(n, q, pos, dist, max)[i]),
    decreases budget(dist, max), n, 3nat,
{
    let r = search_spec(n, q, pos, dist, max);
    if dist > max || pos > q.len() {
    } else if pos == q.len() {
        if n.is_end {
            assert forall|i: int| 0 <= i < r.len() implies found_ok(q, pos, dist, p, #[trigger] r[i]) by {
                assert(r[i].0 == n.terms@[i]@);
                assert(r[i].0.take(p.len() as int) =~= p);
                assert(q.skip(pos as int).len() == 0);
                assert(r[i].0.skip(p.len() as int).len() == 0);
            }
        }
    } else {
        let a = step_children(n.children@, q, pos, dist, max);
        let b = search_spec(n, q, pos + 1, dist + 1, max);
        let c = insert_children(n.children@, q, pos, dist, max);
        let d = swap_children(n.children@, q, pos, dist, max);
        lemma_step_edits(n.children@, q, pos, dist, max, p);
        lemma_search_edits(n, q, pos + 1, dist + 1, max, p);
        lemma_insert_edits(n.children@, q, pos, dist, max, p);
        lemma_swap_edits(n.children@, q, pos, dist, max, p);
        assert(r == a + b + c + d);
        assert forall|i: int| 0 <= i < r.len() implies found_ok(q, pos, dist, p, #[trigger] r[i]) by {
            if i < a.len() {
                assert(r[i] == a[i]);
            } else if i < a.len() + b.len() {
                assert(r[i] == b[i - a.len()]);
                lemma_edit_delete(q, pos, dist, p, r[i]);
            } else if i < a.len() + b.len() + c.len() {
                assert(r[i] == c[i - a.len() - b.len()]);
            } else {
                assert(r[i] == d[i - a.len() - b.len() - c.len()]);
            }
        }
    }
}

proof fn lemma_step_edits(cs: Seq<TrieNode>, q: Seq<char>, pos: nat, dist: nat, max: nat, p: Seq<char>)
    requires
        placed_children(cs, p),
    ensures
        forall|i: int| 0 <= i < step_children(cs, q, pos, dist, max).len()
            ==> found_ok(q, pos, dist, p, #[trigger] step_children(cs, q, pos, dist, max)[i]),
    decreases budget(dist, max), cs, 2nat,
{
    if !(cs.len() == 0 || dist > max || pos >= q.len()) {
        let last = cs.last();
        let d2 = if last.ch == q[pos as int] { dist } else { dist + 1 };
        lemma_step_edits(cs.drop_last(), q, pos, dist, max, p);
        lemma_search_edits(last, q, pos + 1, d2, max, p.push(last.ch));
        let a = step_children(cs.drop_last(), q, pos, dist, max);
        let b = search_spec(last, q, pos + 1, d2, max);
        let r = step_children(cs, q, pos, dist, max);
        assert forall|i: int| 0 <= i < r.len() implies found_ok(q, pos, dist, p, #[trigger] r[i]) by {
            if i < a.len() {
                assert(r[i] == a[i]);
            } else {
                assert(r[i] == b[i - a.len()]);
                lemma_edit_step(q, pos, dist, d2, p, last.ch, r[i]);
            }
        }
    }
}

proof fn lemma_insert_edits(cs: Seq<TrieNode>, q: Seq<char>, pos: nat, dist: nat, max: nat, p: Seq<char>)
    requires
        placed_children(cs, p),
        pos <= q.len(),
    ensures
        forall|i: int| 0 <= i < insert_children(cs, q, pos, dist, max).len()
            ==> found_ok(q, pos, dist, p, #[trigger] insert_children(cs, q, pos, dist, max)[i]),
    decreases budget(dist, max), cs, 2nat,
{
    if !(cs.len() == 0 || dist > max) {
        let last = cs.last();
        lemma_insert_edits(cs.drop_last(), q, pos, dist, max, p);
        lemma_search_edits(last, q, pos, dist + 1, max, p.push(last.ch));
        let a = insert_children(cs.drop_last(), q, pos, dist, max);
        let b = search_spec(last, q, pos, dist + 1, max);
        let r = insert_children(cs, q, pos, dist, max);
        assert forall|i: int| 0 <= i < r.len() implies found_ok(q, pos, dist, p, #[trigger] r[i]) by {
            if i < a.len() {
                assert(r[i] == a[i]);
            } else {
                assert(r[i] == b[i - a.len()]);
                lemma_edit_insert(q, pos, dist, p, last.ch, r[i]);
            }
        }
    }
}

proof fn lemma_swap_edits(cs: Seq<TrieNode>, q: Seq<char>, pos: nat, dist: nat, max: nat, p: Seq<char>)
    requires
        placed_children(cs, p),
    ensures
        forall|i: int| 0 <= i < swap_children(cs, q, pos, dist, max).len()
            ==> found_ok(q, pos, dist, p, #[trigger] swap_children(cs, q, pos, dist, max)[i]),
    decreases budget(dist, max), cs, 2nat,
{
    if !(cs.len() == 0 || dist > max || pos + 1 >= q.len()) {
        let last = cs.last();
        lemma_swap_edits(cs.drop_last(), q, pos, dist, max, p);
        let a = swap_children(cs.drop_last(), q, pos, dist, max);
        let r = swap_children(cs, q, pos, dist, max);
        if last.ch == q[pos + 1int] {
            assert(placed(last, p.push(last.ch)));
            assert(placed_children(last.children@, p.push(last.ch)));
            lemma_swap_grand_edits(last.children@, q, pos, dist, max, p, last.ch);
            let b = swap_grandchildren(last.children@, q, pos, dist, max);
            assert forall|i: int| 0 <= i < r.len() implies found_ok(q, pos, dist, p, #[trigger] r[i]) by {
                if i < a.len() {
                    assert(r[i] == a[i]);
                } else {
                    assert(r[i] == b[i - a.len()]);
                }
            }
        } else {
            assert(r =~= a);
        }
    }
}

proof fn lemma_swap_grand_edits(cs: Seq<TrieNode>, q: Seq<char>, pos: nat, dist: nat, max: nat, p: Seq<char>, c1: char)
    requires
        placed_children(cs, p.push(c1)),
        pos + 1 < q.len() ==> c1 == q[pos + 1int],
    ensures
        forall|i: int| 0 <= i < swap_grandchildren(cs, q, pos, dist, max).len()
            ==> found_ok(q, pos, dist, p, #[trigger] swap_grandchildren(cs, q, pos, dist, max)[i]),
    decreases budget(dist, max), cs, 1nat,
{
    if !(cs.len() == 0 || dist > max || pos + 1 >= q.len()) {
        let last = cs.last();
        lemma_swap_grand_edits(cs.drop_last(), q, pos, dist, max, p, c1);
        let a = swap_grandchildren(cs.drop_last(), q, pos, dist, max);
        let r = swap_grandchildren(cs, q, pos, dist, max);
        if last.ch == q[pos as int] {
            lemma_search_edits(last, q, pos + 2, dist + 1, max, p.push(c1).push(last.ch));
            let b = search_spec(last, q, pos + 2, dist + 1, max);
            assert forall|i: int| 0 <= i < r.len() implies found_ok(q, pos, dist, p, #[trigger] r[i]) by {
                if i < a.len() {
                    assert(r[i] == a[i]);
                } else {
                    assert(r[i] == b[i - a.len()]);
                    lemma_edit_swap(q, pos, dist, p, c1, last.ch, r[i]);
                }
            }
        } else {
            assert(r =~= a);
        }
    }
}

/// The characters and distance of each result.
pub open spec fn results_view(r: Seq<(String, usize)>) -> Seq<(Seq<char>, nat)> {
    r.map_values(|e: (String, usize)| (e.0@, e.1 as nat))
}

proof fn lemma_results_push(r: Seq<(String, usize)>, e: (String, usize))
    ensures
        results_view(r.push(e)) == results_view(r).push((e.0@, e.1 as nat)),
{
    assert(results_view(r.push(e)) =~= results_view(r).push((e.0@, e.1 as nat)));
}

fn emit_terms(terms: &Vec<String>, dist: usize, results: &mut Vec<(String, usize)>)
    ensures
        results_view(final(results)@) == results_view(old(results)@) + term_views(terms@).map_values(
            |t: Seq<char>| (t, dist as nat),
        ),
{
    let mut k: usize = 0;
    while k < terms.len()
        invariant
            k <= terms@.len(),
            results_view(results@) == results_view(old(results)@) + term_views(terms@.take(k as int)).map_values(
                |t: Seq<char>| (t, dist as nat),
            ),
        decreases terms@.len() - k,
    {
        let ghost before = results@;
        results.push((terms[k].clone(), dist));
        proof {
            lemma_results_push(before, (terms@[k as int], dist));
            assert(term_views(terms@.take(k + 1)).map_values(|t: Seq<char>| (t, dist as nat)) =~= term_views(
                terms@.take(k as int),
            ).map_values(|t: Seq<char>| (t, dist as nat)).push((terms@[k as int]@, dist as nat)));
        }
        k += 1;
    }
    assert(terms@.take(terms@.len() as int) =~= terms@);
}

fn search_rec(n: &TrieNode, q: &Vec<char>, pos: usize, dist: usize, max: usize, results: &mut Vec<(String, usize)>)
    requires
        pos <= q.len(),
    ensures
        results_view(final(results)@) == results_view(old(results)@) + search_spec(*n, q@, pos as nat, dist as nat, max as nat),
    decreases budget(dist as nat, max as nat), *n, 3nat,
{
    if dist > max {
        assert(results_view(results@) =~= results_view(old(results)@) + Seq::<(Seq<char>, nat)>::empty());
        return;
    }
    if pos == q.len() {
        if n.is_end {
            emit_terms(&n.terms, dist, results);
        } else {
            assert(results_view(results@) =~= results_view(old(results)@) + Seq::<(Seq<char>, nat)>::empty());
        }
        return;
    }
    let ghost r0 = results_view(results@);
    step_children_exec(&n.children, q, pos, dist, max, results);
    let ghost r1 = results_view(results@);
    search_rec_next(n, q, pos + 1, dist, max, results);
    let ghost r2 = results_view(results@);
    insert_children_exec(&n.children, q, pos, dist, max, results);
    let ghost r3 = results_view(results@);
    swap_children_exec(&n.children, q, pos, dist, max, results);
    assert(results_view(results@) =~= results_view(old(results)@) + search_spec(*n, q@, pos as nat, dist as nat, max as nat));
}

/// What the walk finds from `n` one edit further on: nothing once that
/// passes `max`.
fn search_rec_next(n: &TrieNode, q: &Vec<char>, pos: usize, dist: usize, max: usize, results: &mut Vec<(String, usize)>)
    requires
        pos <= q.len(),
        dist <= max,
    ensures
        results_view(final(results)@) == results_view(old(results)@) + search_spec(*n, q@, pos as nat, (dist + 1) as nat, max as nat),
    decreases budget((dist + 1) as nat, max as nat), *n, 4nat,
{
    if dist == max {
        assert(results_view(results@) =~= results_view(old(results)@) + Seq::<(Seq<char>, nat)>::empty());
        return;
    }
    search_rec(n, q, pos, dist + 1, max, results);
}

fn step_children_exec(cs: &Vec<TrieNode>, q: &Vec<char>, pos: usize, dist: usize, max: usize, results: &mut Vec<(String, usize)>)
    requires
        dist <= max,
        pos < q.len(),
    ensures
        results_view(final(results)@) == results_view(old(results)@) + step_children(cs@, q@, pos as nat, dist as nat, max as nat),
    decreases budget(dist as nat, max as nat), cs@, 2nat,
{
    let mut k: usize = 0;
    assert(results_view(results@) =~= results_view(old(results)@) + step_children(cs@.take(0), q@, pos as nat, dist as nat, max as nat));
    while k < cs.len()
        invariant
            k <= cs@.len(),
            dist <= max,
            pos < q.len(),
            results_view(results@) == results_view(old(results)@) + step_children(cs@.take(k as int), q@, pos as nat, dist as nat, max as nat),
        decreases cs@.len() - k,
    {
        let ghost before = results_view(results@);
        let c = &cs[k];
        if c.ch == q[pos] {
            search_rec(c, q, pos + 1, dist, max, results);
        } else {
            search_rec_next(c, q, pos + 1, dist, max, results);
        }
        proof {
            let t = cs@.take(k + 1);
            assert(t.drop_last() =~= cs@.take(k as int));
            assert(t.last() == cs@[k as int]);
        }
        k += 1;
    }
    assert(cs@.take(cs@.len() as int) =~= cs@);
}

fn insert_children_exec(cs: &Vec<TrieNode>, q: &Vec<char>, pos: usize, dist: usize, max: usize, results: &mut Vec<(String, usize)>)
    requires
        dist <= max,
        pos <= q.len(),
    ensures
        results_view(final(results)@) == results_view(old(results)@) + insert_children(cs@, q@, pos as nat, dist as nat, max as nat),
    decreases budget(dist as nat, max as nat), cs@, 2nat,
{
    let mut k: usize = 0;
    assert(results_view(results@) =~= results_view(old(results)@) + insert_children(cs@.take(0), q@, pos as nat, dist as nat, max as nat));
    while k < cs.len()
        invariant
            k <= cs@.len(),
            dist <= max,
            pos <= q.len(),
            results_view(results@) == results_view(old(results)@) + insert_children(cs@.take(k as int), q@, pos as nat, dist as nat, max as nat),
        decreases cs@.len() - k,
    {
        search_rec_next(&cs[k], q, pos, dist, max, results);
        proof {
            let t = cs@.take(k + 1);
            assert(t.drop_last() =~= cs@.take(k as int));
            assert(t.last() == cs@[k as int]);
        }
        k += 1;
    }
    assert(cs@.take(cs@.len() as int) =~= cs@);
}

fn swap_children_exec(cs: &Vec<TrieNode>, q: &Vec<char>, pos: usize, dist: usize, max: usize, results: &mut Vec<(String, usize)>)
    requires
        dist <= max,
        pos < q.len(),
    ensures
        results_view(final(results)@) == results_view(old(results)@) + swap_children(cs@, q@, pos as nat, dist as nat, max as nat),
    decreases budget(dist as nat, max as nat), cs@, 2nat,
{
    if pos + 1 >= q.len() {
        assert(results_view(results@) =~= results_view(old(results)@) + swap_children(cs@, q@, pos as nat, dist as nat, max as nat));
        return;
    }
    let mut k: usize = 0;
    assert(results_view(results@) =~= results_view(old(results)@) + swap_children(cs@.take(0), q@, pos as nat, dist as nat, max as nat));
    while k < cs.len()
        invariant
            k <= cs@.len(),
            dist <= max,
            pos + 1 < q.len(),
            results_view(results@) == results_view(old(results)@) + swap_children(cs@.take(k as int), q@, pos as nat, dist as nat, max as nat),
        decreases cs@.len() - k,
    {
        let c = &cs[k];
        let ghost before = results_view(results@);
        if c.ch == q[pos + 1] {
            swap_grandchildren_exec(&c.children, q, pos, dist, max, results);
        } else {
            assert(results_view(results@) =~= before + Seq::<(Seq<char>, nat)>::empty());
        }
        proof {
            let t = cs@.take(k + 1);
            assert(t.drop_last() =~= cs@.take(k as int));
            assert(t.last() == cs@[k as int]);
        }
        k += 1;
    }
    assert(cs@.take(cs@.len() as int) =~= cs@);
}

fn swap_grandchildren_exec(cs: &Vec<TrieNode>, q: &Vec<char>, pos: usize, dist: usize, max: usize, results: &mut Vec<(String, usize)>)
    requires
        dist <= max,
        pos + 1 < q.len(),
    ensures
        results_view(final(results)@) == results_view(old(results)@) + swap_grandchildren(cs@, q@, pos as nat, dist as nat, max as nat),
    decreases budget(dist as nat, max as nat), cs@, 1nat,
{
    let mut k: usize = 0;
    assert(results_view(results@) =~= results_view(old(results)@) + swap_grandchildren(cs@.take(0), q@, pos as nat, dist as nat, max as nat));
    while k < cs.len()
        invariant
            k <= cs@.len(),
            dist <= max,
            pos + 1 < q.len(),
            results_view(results@) == results_view(old(results)@) + swap_grandchildren(cs@.take(k as int), q@, pos as nat, dist as nat, max as nat),
        decreases cs@.len() - k,
    {
        let c = &cs[k];
        let ghost before = results_view(results@);
        if c.ch == q[pos] {
            search_rec_next(c, q, pos + 2, dist, max, results);
        } else {
            assert(results_view(results@) =~= before + Seq::<(Seq<char>, nat)>::empty());
        }
        proof {
            let t = cs@.take(k + 1);
            assert(t.drop_last() =~= cs@.take(k as int));
            assert(t.last() == cs@[k as int]);
        }
        k += 1;
    }
    assert(cs@.take(cs@.len() as int) =~= cs@);
}

/// The results at exactly distance `d`, in order.
pub open spec fn with_dist(s: Seq<(Seq<char>, nat)>, d: nat) -> Seq<(Seq<char>, nat)>
    decreases s.len(),
{
    if s.len() == 0 {
        Seq::empty()
    } else if s.last().1 == d {
        with_dist(s.drop_last(), d).push(s.last())
    } else {
        with_dist(s.drop_last(), d)
    }
}

/// The results at distances `0` to `upto`, grouped by distance in
/// increasing order, each group in its original order (a stable sort by
/// distance).
pub open spec fn by_distance(s: Seq<(Seq<char>, nat)>, upto: nat) -> Seq<(Seq<char>, nat)>
    decreases upto,
{
    if upto == 0 {
        with_dist(s, 0)
    } else {
        by_distance(s, (upto - 1) as nat) + with_dist(s, upto)
    }
}

proof fn lemma_with_dist_none(s: Seq<(Seq<char>, nat)>, d: nat)
    requires
        forall|i: int| 0 <= i < s.len() ==> s[i].1 != d,
    ensures
        with_dist(s, d) == Seq::<(Seq<char>, nat)>::empty(),
    decreases s.len(),
{
    if s.len() > 0 {
        lemma_with_dist_none(s.drop_last(), d);
    }
}

/// Grouping beyond the largest distance present adds nothing.
proof fn lemma_by_distance_beyond(s: Seq<(Seq<char>, nat)>, m: nat, u: nat)
    requires
        m <= u,
        forall|i: int| 0 <= i < s.len() ==> s[i].1 <= m,
    ensures
        by_distance(s, u) == by_distance(s, m),
    decreases u,
{
    if u > m {
        lemma_by_distance_beyond(s, m, (u - 1) as nat);
        lemma_with_dist_none(s, u);
        assert(by_distance(s, u) =~= by_distance(s, (u - 1) as nat));
    }
}

fn sort_by_distance(raw: &Vec<(String, usize)>, max: usize) -> (r: Vec<(String, usize)>)
    requires
        forall|i: int| 0 <= i < raw@.len() ==> raw@[i].1 <= max,
    ensures
        results_view(r@) == by_distance(results_view(raw@), max as nat),
{
    let mut m: usize = 0;
    let mut j: usize = 0;
    while j < raw.len()
        invariant
            j <= raw@.len(),
            m <= max,
            forall|i: int| 0 <= i < raw@.len() ==> raw@[i].1 <= max,
            forall|i: int| 0 <= i < j ==> raw@[i].1 <= m,
        decreases raw@.len() - j,
    {
        if raw[j].1 > m {
            m = raw[j].1;
        }
        j += 1;
    }
    proof {
        lemma_by_distance_beyond(results_view(raw@), m as nat, max as nat);
    }
    let mut out: Vec<(String, usize)> = Vec::new();
    let mut d: usize = 0;
    loop
        invariant_except_break
            d <= m,
            d == 0 ==> out@.len() == 0,
            d > 0 ==> results_view(out@) == by_distance(results_view(raw@), (d - 1) as nat),
        ensures
            results_view(out@) == by_distance(results_view(raw@), m as nat),
        decreases m - d,
    {
        let ghost start = results_view(out@);
        let mut i: usize = 0;
        while i < raw.len()
            invariant
                i <= raw@.len(),
                results_view(out@) == start + with_dist(results_view(raw@).take(i as int), d as nat),
            decreases raw@.len() - i,
        {
            let ghost before = out@;
            assert(results_view(raw@).take(i + 1).drop_last() =~= results_view(raw@).take(i as int));
            if raw[i].1 == d {
                out.push((raw[i].0.clone(), raw[i].1));
                proof {
                    lemma_results_push(before, (raw@[i as int].0, raw@[i as int].1));
                }
            }
            i += 1;
        }
        assert(results_view(raw@).take(raw@.len() as int) =~= results_view(raw@));
        proof {
            if d == 0 {
                assert(results_view(out@) =~= by_distance(results_view(raw@), 0));
            }
        }
        if d == m {
            break;
        }
        d += 1;
    }
    out
}

/// Every result at distance `d` has distance `d`.
proof fn lemma_with_dist(s: Seq<(Seq<char>, nat)>, d: nat)
    ensures
        forall|i: int| 0 <= i < with_dist(s, d).len() ==> (#[trigger] with_dist(s, d)[i]).1 == d && s.contains(with_dist(s, d)[i]),
    decreases s.len(),
{
    if s.len() > 0 {
        lemma_with_dist(s.drop_last(), d);
        let w = with_dist(s, d);
        let p = with_dist(s.drop_last(), d);
        assert forall|i: int| 0 <= i < w.len() implies (#[trigger] w[i]).1 == d && s.contains(w[i]) by {
            if i < p.len() {
                assert(w[i] == p[i]);
                let j = choose|j: int| 0 <= j < s.drop_last().len() && s.drop_last()[j] == p[i];
                assert(s[j] == p[i]);
            } else {
                assert(s[s.len() - 1] == w[i]);
            }
        }
    }
}

/// The grouped results are ordered by distance and are results of `s`.
pub proof fn lemma_by_distance_sorted(s: Seq<(Seq<char>, nat)>, upto: nat)
    ensures
        forall|i: int, j: int| 0 <= i < j < by_distance(s, upto).len() ==> (#[trigger] by_distance(s, upto)[i]).1
            <= (#[trigger] by_distance(s, upto)[j]).1,
        forall|i: int| 0 <= i < by_distance(s, upto).len() ==> (#[trigger] by_distance(s, upto)[i]).1 <= upto
            && s.contains(by_distance(s, upto)[i]),
    decreases upto,
{
    lemma_with_dist(s, upto);
    if upto > 0 {
        lemma_by_distance_sorted(s, (upto - 1) as nat);
        let a = by_distance(s, (upto - 1) as nat);
        let b = with_dist(s, upto);
        let r = by_distance(s, upto);
        assert(r == a + b);
        assert forall|i: int| 0 <= i < r.len() implies (#[trigger] r[i]).1 <= upto && s.contains(r[i]) by {
            if i < a.len() {
                assert(r[i] == a[i]);
            } else {
                assert(r[i] == b[i - a.len()]);
            }
        }
        assert forall|i: int, j: int| 0 <= i < j < r.len() implies (#[trigger] r[i]).1 <= (#[trigger] r[j]).1 by {
            if j < a.len() {
                assert(r[i] == a[i]);
                assert(r[j] == a[j]);
            } else if i >= a.len() {
                assert(r[i] == b[i - a.len()]);
                assert(r[j] == b[j - a.len()]);
            } else {
                assert(r[i] == a[i]);
                assert(r[j] == b[j - a.len()]);
            }
        }
    }
}

proof fn lemma_children_update(cs: Seq<TrieNode>, i: int, c: TrieNode, w: Seq<char>)
    requires
        0 <= i < cs.len(),
        node_words(c) == node_words(cs[i]).insert(w),
    ensures
        children_words(cs.update(i, c)) == children_words(cs).insert(w),
    decreases cs.len(),
{
    let u = cs.update(i, c);
    if i == cs.len() - 1 {
        assert(u.drop_last() =~= cs.drop_last());
        assert(children_words(u) =~= children_words(cs).insert(w));
    } else {
        assert(u.drop_last() =~= cs.drop_last().update(i, c));
        lemma_children_update(cs.drop_last(), i, c, w);
        assert(children_words(u) =~= children_words(cs).insert(w));
    }
}

proof fn lemma_push_empty_child(cs: Seq<TrieNode>, e: TrieNode)
    requires
        e.children@.len() == 0,
        e.terms@.len() == 0,
    ensures
        children_words(cs.push(e)) == children_words(cs),
{
    assert(term_views(e.terms@) =~= Seq::<Seq<char>>::empty());
    assert(term_views(e.terms@).to_set() =~= Set::<Seq<char>>::empty());
    assert(children_words(e.children@) =~= Set::<Seq<char>>::empty());
    assert(node_words(e) =~= Set::<Seq<char>>::empty());
    assert(cs.push(e).drop_last() =~= cs);
    assert(children_words(cs.push(e)) =~= children_words(cs));
}

/// Two nodes that no search tells apart: the same character, end mark and
/// stored terms, and children alike one by one.
spec fn alike(a: TrieNode, b: TrieNode) -> bool
    decreases a,
{
    &&& a.ch == b.ch
    &&& a.is_end == b.is_end
    &&& term_views(a.terms@) == term_views(b.terms@)
    &&& alike_children(a.children@, b.children@)
}

spec fn alike_children(x: Seq<TrieNode>, y: Seq<TrieNode>) -> bool
    decreases x,
{
    if x.len() == 0 {
        y.len() == 0
    } else {
        &&& y.len() == x.len()
        &&& alike_children(x.drop_last(), y.drop_last())
        &&& alike(x.last(), y.last())
    }
}

proof fn lemma_alike_refl(n: TrieNode)
    ensures
        alike(n, n),
    decreases n,
{
    lemma_alike_children_refl(n.children@);
}

proof fn lemma_alike_children_refl(x: Seq<TrieNode>)
    ensures
        alike_children(x, x),
    decreases x,
{
    if x.len() > 0 {
        lemma_alike_children_refl(x.drop_last());
        lemma_alike_refl(x.last());
    }
}

proof fn lemma_alike_update(x: Seq<TrieNode>, i: int, c: TrieNode)
    requires
        0 <= i < x.len(),
        alike(c, x[i]),
    ensures
        alike_children(x.update(i, c), x),
    decreases x.len(),
{
    let y = x.update(i, c);
    if i == x.len() - 1 {
        assert(y.drop_last() =~= x.drop_last());
        lemma_alike_children_refl(x.drop_last());
    } else {
        lemma_alike_update(x.drop_last(), i, c);
        assert(y.drop_last() =~= x.drop_last().update(i, c));
        lemma_alike_refl(x.last());
    }
}

proof fn lemma_alike_search(a: TrieNode, b: TrieNode, q: Seq<char>, pos: nat, dist: nat, max: nat)
    requires
        alike(a, b),
    ensures
        search_spec(a, q, pos, dist, max) == search_spec(b, q, pos, dist, max),
    decreases budget(dist, max), a, 3nat,
{
    if dist <= max && pos < q.len() {
        lemma_alike_step(a.children@, b.children@, q, pos, dist, max);
        lemma_alike_search(a, b, q, pos + 1, dist + 1, max);
        lemma_alike_insert(a.children@, b.children@, q, pos, dist, max);
        lemma_alike_swap(a.children@, b.children@, q, pos, dist, max);
    }
}

proof fn lemma_alike_step(x: Seq<TrieNode>, y: Seq<TrieNode>, q: Seq<char>, pos: nat, dist: nat, max: nat)
    requires
        alike_children(x, y),
    ensures
        step_children(x, q, pos, dist, max) == step_children(y, q, pos, dist, max),
    decreases budget(dist, max), x, 2nat,
{
    if x.len() > 0 && dist <= max && pos < q.len() {
        lemma_alike_step(x.drop_last(), y.drop_last(), q, pos, dist, max);
        let d = if x.last().ch == q[pos as int] { dist } else { dist + 1 };
        lemma_alike_search(x.last(), y.last(), q, pos + 1, d, max);
    }
}

proof fn lemma_alike_insert(x: Seq<TrieNode>, y: Seq<TrieNode>, q: Seq<char>, pos: nat, dist: nat, max: nat)
    requires
        alike_children(x, y),
    ensures
        insert_children(x, q, pos, dist, max) == insert_children(y, q, pos, dist, max),
    decreases budget(dist, max), x, 2nat,
{
    if x.len() > 0 && dist <= max {
        lemma_alike_insert(x.drop_last(), y.drop_last(), q, pos, dist, max);
        lemma_alike_search(x.last(), y.last(), q, pos, dist + 1, max);
    }
}

proof fn lemma_alike_swap(x: Seq<TrieNode>, y: Seq<TrieNode>, q: Seq<char>, pos: nat, dist: nat, max: nat)
    requires
        alike_children(x, y),
    ensures
        swap_children(x, q, pos, dist, max) == swap_children(y, q, pos, dist, max),
    decreases budget(dist, max), x, 2nat,
{
    if x.len() > 0 && dist <= max && pos + 1 < q.len() {
        lemma_alike_swap(x.drop_last(), y.drop_last(), q, pos, dist, max);
        assert(alike(x.last(), y.last()));
        lemma_alike_swap_grand(x.last().children@, y.last().children@, q, pos, dist, max);
    }
}

proof fn lemma_alike_swap_grand(x: Seq<TrieNode>, y: Seq<TrieNode>, q: Seq<char>, pos: nat, dist: nat, max: nat)
    requires
        alike_children(x, y),
    ensures
        swap_grandchildren(x, q, pos, dist, max) == swap_grandchildren(y, q, pos, dist, max),
    decreases budget(dist, max), x, 1nat,
{
    if x.len() > 0 && dist <= max && pos + 1 < q.len() {
        lemma_alike_swap_grand(x.drop_last(), y.drop_last(), q, pos, dist, max);
        lemma_alike_search(x.last(), y.last(), q, pos + 2, dist + 1, max);
    }
}

fn push_fresh(cs: &mut Vec<TrieNode>, c: char)
    ensures
        final(cs)@.len() == old(cs)@.len() + 1,
        final(cs)@.drop_last() == old(cs)@,
        final(cs)@.last().ch == c,
        final(cs)@.last().terms@.len() == 0,
        final(cs)@.last().children@.len() == 0,
        children_words(final(cs)@) == children_words(old(cs)@),
{
    let fresh = TrieNode { ch: c, children: Vec::new(), is_end: false, terms: Vec::new() };
    let ghost fv = fresh;
    cs.push(fresh);
    proof {
        lemma_push_empty_child(old(cs)@, fv);
        assert(cs@.drop_last() =~= old(cs)@);
    }
}

fn contains_term(ts: &Vec<String>, t: &String) -> (b: bool)
    ensures
        b == term_views(ts@).contains(t@),
{
    let mut i: usize = 0;
    while i < ts.len()
        invariant
            i <= ts@.len(),
            forall|k: int| 0 <= k < i ==> ts@[k]@ != t@,
        decreases ts@.len() - i,
    {
        if ts[i] == *t {
            assert(term_views(ts@)[i as int] == t@);
            return true;
        }
        i += 1;
    }
    proof {
        if term_views(ts@).contains(t@) {
            let k = choose|k: int| 0 <= k < term_views(ts@).len() && term_views(ts@)[k] == t@;
            assert(ts@[k]@ == t@);
        }
    }
    false
}

#[verifier::rlimit(50)]
fn insert_at(n: &mut TrieNode, w: &Vec<char>, pos: usize, term: String)
    requires
        pos <= w@.len(),
        placed(*old(n), w@.take(pos as int)),
        term@ == w@,
    ensures
        node_words(*final(n)) == node_words(*old(n)).insert(term@),
        placed(*final(n), w@.take(pos as int)),
        final(n).ch == old(n).ch,
        node_words(*old(n)).contains(term@) ==> alike(*final(n), *old(n)),
    decreases w@.len() - pos,
{
    let ghost had = node_words(*old(n)).contains(term@);
    proof {
        if had {
            lemma_placed_words(*old(n), w@.take(pos as int), term@);
            lemma_alike_children_refl(old(n).children@);
        }
    }
    if pos == w.len() {
        assert(w@.take(pos as int) =~= w@);
        n.is_end = true;
        proof {
            if n.terms@.len() > 0 {
                assert(term_views(n.terms@)[0] == term@);
            }
        }
        if !contains_term(&n.terms, &term) {
            let ghost before = n.terms@;
            n.terms.push(term);
            proof {
                assert(term_views(n.terms@) =~= term_views(before).push(term@));
                assert(term_views(n.terms@).to_set() =~= term_views(before).to_set().insert(term@));
            }
        } else {
            assert(term_views(n.terms@).to_set() =~= term_views(old(n).terms@).to_set().insert(term@));
        }
        assert(node_words(*n) =~= node_words(*old(n)).insert(term@));
        return;
    }
    let c = w[pos];
    let mut idx: usize = 0;
    while idx < n.children.len() && n.children[idx].ch != c
        invariant
            idx <= n.children@.len(),
            n.children@ == old(n).children@,
            forall|k: int| 0 <= k < idx ==> n.children@[k].ch != c,
        decreases n.children@.len() - idx,
    {
        idx += 1;
    }
    proof {
        if had {
            let i = choose|i: int|
                0 <= i < old(n).children@.len() && old(n).children@[i].ch == term@[pos as int]
                    && #[trigger] node_words(old(n).children@[i]).contains(term@);
            assert(term@[pos as int] == c);
            if i != idx {
                assert(old(n).children@[i].ch == c);
            }
            assert(i == idx);
        }
    }
    if idx == n.children.len() {
        push_fresh(&mut n.children, c);
    }
    let ghost mid = n.children@;
    let ghost mid_words = node_words(*n);
    let ghost p = w@.take(pos as int);
    proof {
        lemma_placed_children(old(n).children@, p);
        lemma_placed_children(mid, p);
        assert(w@.take(pos + 1) =~= p.push(c));
        if idx < old(n).children@.len() {
            assert(mid[idx as int] == old(n).children@[idx as int]);
        } else {
            let e = mid[idx as int];
            assert(e.children@ =~= Seq::<TrieNode>::empty());
            assert(placed_children(e.children@, p.push(c)));
            assert(placed(e, p.push(c)));
        }
        assert forall|k: int| 0 <= k < mid.len() implies placed(#[trigger] mid[k], p.push(mid[k].ch)) by {
            if k < old(n).children@.len() {
                assert(mid[k] == old(n).children@[k]);
            } else {
                let e = mid[k];
                assert(e.children@ =~= Seq::<TrieNode>::empty());
                assert(placed_children(e.children@, p.push(e.ch)));
            }
        }
        assert(mid[idx as int].ch == c);
        assert forall|a: int, b: int| 0 <= a < b < mid.len() implies #[trigger] mid[a].ch != #[trigger] mid[b].ch by {
            if b < old(n).children@.len() {
                assert(mid[a] == old(n).children@[a]);
                assert(mid[b] == old(n).children@[b]);
            } else {
                assert(mid[a] == old(n).children@[a]);
            }
        }
    }
    let mut child = n.children.remove(idx);
    let ghost old_child = child;
    insert_at(&mut child, w, pos + 1, term);
    n.children.insert(idx, child);
    proof {
        assert(n.children@ =~= mid.update(idx as int, child));
        lemma_children_update(mid, idx as int, child, term@);
        assert(node_words(*n) =~= mid_words.insert(term@));
        assert forall|k: int| 0 <= k < n.children@.len() implies placed(#[trigger] n.children@[k], p.push(n.children@[k].ch)) by {
            if k != idx {
                assert(n.children@[k] == mid[k]);
            }
        }
        lemma_placed_children(n.children@, p);
        if had {
            assert(mid == old(n).children@);
            lemma_alike_update(mid, idx as int, child);
        }
        assert forall|a: int, b: int| 0 <= a < b < n.children@.len() implies #[trigger] n.children@[a].ch
            != #[trigger] n.children@[b].ch by {
            assert(n.children@[a].ch == mid[a].ch);
            assert(n.children@[b].ch == mid[b].ch);
        }
    }
}

/// A trie of terms for approximate lookup.
pub struct FuzzyTrie {
    root: TrieNode,
}

impl FuzzyTrie {
    /// The terms stored.
    pub closed spec fn words(&self) -> Set<Seq<char>> {
        node_words(self.root)
    }

    /// Every stored term lies at the node its characters lead to, which is
    /// marked as the end of a term.
    pub closed spec fn wf(&self) -> bool {
        placed(self.root, Seq::<char>::empty())
    }

    /// What a search for `q` within `max` collects, before grouping by
    /// distance.
    pub closed spec fn raw_results(&self, q: Seq<char>, max: nat) -> Seq<(Seq<char>, nat)> {
        search_spec(self.root, q, 0, 0, max)
    }

    /// An empty trie.
    pub fn new() -> (t: Self)
        ensures
            t.wf(),
            t.words() == Set::<Seq<char>>::empty(),
    {
        let t = FuzzyTrie { root: TrieNode { ch: ' ', children: Vec::new(), is_end: false, terms: Vec::new() } };
        assert(term_views(t.root.terms@).to_set() =~= Set::<Seq<char>>::empty());
        assert(t.words() =~= Set::<Seq<char>>::empty());
        assert(t.root.children@ =~= Seq::<TrieNode>::empty());
        t
    }

    /// Stores `term` along the path of its characters. Storing a term that
    /// is already stored changes no search result.
    pub fn insert(&mut self, term: &str)
        requires
            old(self).wf(),
        ensures
            final(self).wf(),
            final(self).words() == old(self).words().insert(term@),
            old(self).words().contains(term@) ==> forall|q: Seq<char>, max: nat|
                #[trigger] final(self).raw_results(q, max) == old(self).raw_results(q, max),
    {
        let chars = chars_of(term);
        assert(chars@.take(0) =~= Seq::<char>::empty());
        insert_at(&mut self.root, &chars, 0, term.to_owned());
        proof {
            if old(self).words().contains(term@) {
                assert forall|q: Seq<char>, max: nat|
                    #[trigger] self.raw_results(q, max) == old(self).raw_results(q, max) by {
                    lemma_alike_search(self.root, old(self).root, q, 0, 0, max);
                }
            }
        }
    }

    /// The terms within `max_distance` edits of `query` (substitutions,
    /// insertions, deletions and swaps of neighbouring characters, each
    /// counting one, as the walk over the trie finds them), each with the
    /// distance of the path that found it, ordered by distance.
    pub fn search(&self, query: &str, max_distance: usize) -> (r: Vec<(String, usize)>)
        ensures
            results_view(r@) == by_distance(self.raw_results(query@, max_distance as nat), max_distance as nat),
    {
        let q = chars_of(query);
        let mut raw: Vec<(String, usize)> = Vec::new();
        self.search_recursive(&self.root, &q, 0, 0, max_distance, &mut raw);
        assert(results_view(raw@) =~= Seq::<(Seq<char>, nat)>::empty() + search_spec(self.root, q@, 0, 0, max_distance as nat));
        proof {
            lemma_search_sound(self.root, q@, 0, 0, max_distance as nat);
            assert forall|i: int| 0 <= i < raw@.len() implies raw@[i].1 <= max_distance by {
                assert(results_view(raw@)[i] == search_spec(self.root, q@, 0, 0, max_distance as nat)[i]);
            }
        }
        sort_by_distance(&raw, max_distance)
    }

    /// Appends what the walk from `node` finds to `results`.
    pub fn search_recursive(
        &self,
        node: &TrieNode,
        query: &Vec<char>,
        pos: usize,
        dist: usize,
        max_distance: usize,
        results: &mut Vec<(String, usize)>,
    )
        requires
            pos <= query.len(),
        ensures
            results_view(final(results)@) == results_view(old(results)@) + search_spec(*node, query@, pos as nat, dist as nat, max_distance as nat),
    {
        search_rec(node, query, pos, dist, max_distance, results);
    }
}

/// Every result of a trie search is a term reached from the query by edits
/// (keeping, substituting, deleting, inserting or swapping neighbouring
/// characters, each but keeping costing one) whose cost is at most the
/// distance reported.
pub proof fn lemma_trie_results_are_edits(t: FuzzyTrie, q: Seq<char>, max: nat)
    requires
        t.wf(),
    ensures
        forall|i: int| 0 <= i < by_distance(t.raw_results(q, max), max).len() ==> {
            let r = #[trigger] by_distance(t.raw_results(q, max), max)[i];
            within(q, r.0, r.1 as int)
        },
{
    let raw = t.raw_results(q, max);
    let e = Seq::<char>::empty();
    lemma_search_edits(t.root, q, 0, 0, max, e);
    lemma_by_distance_sorted(raw, max);
    assert(q.skip(0) =~= q);
    assert forall|i: int| 0 <= i < by_distance(raw, max).len() implies {
        let r = #[trigger] by_distance(raw, max)[i];
        within(q, r.0, r.1 as int)
    } by {
        let r = by_distance(raw, max)[i];
        let j = choose|j: int| 0 <= j < raw.len() && raw[j] == r;
        assert(found_ok(q, 0, 0, e, raw[j]));
        assert(r.0.skip(0) =~= r.0);
    }
}

/// Every result of a trie search is a stored term, within the distance
/// asked for, and the results come ordered by distance.
pub proof fn lemma_trie_search_sound(t: FuzzyTrie, q: Seq<char>, max: nat)
    ensures
        forall|i: int| 0 <= i < by_distance(t.raw_results(q, max), max).len() ==> {
            let r = #[trigger] by_distance(t.raw_results(q, max), max)[i];
            r.1 <= max && t.words().contains(r.0)
        },
        forall|i: int, j: int| 0 <= i < j < by_distance(t.raw_results(q, max), max).len()
            ==> (#[trigger] by_distance(t.raw_results(q, max), max)[i]).1
            <= (#[trigger] by_distance(t.raw_results(q, max), max)[j]).1,
{
    let raw = t.raw_results(q, max);
    lemma_search_sound(t.root, q, 0, 0, max);
    lemma_by_distance_sorted(raw, max);
    assert forall|i: int| 0 <= i < by_distance(raw, max).len() implies {
        let r = #[trigger] by_distance(raw, max)[i];
        r.1 <= max && t.words().contains(r.0)
    } by {
        let r = by_distance(raw, max)[i];
        let j = choose|j: int| 0 <= j < raw.len() && raw[j] == r;
        assert(raw[j] == search_spec(t.root, q, 0, 0, max)[j]);
    }
}

/// A member of the children's words is stored below one of them.
proof fn lemma_children_words_member(cs: Seq<TrieNode>, w: Seq<char>) -> (i: int)
    requires
        children_words(cs).contains(w),
    ensures
        0 <= i < cs.len(),
        node_words(cs[i]).contains(w),
    decreases cs.len(),
{
    if node_words(cs.last()).contains(w) {
        cs.len() - 1
    } else {
        let i = lemma_children_words_member(cs.drop_last(), w);
        assert(cs.drop_last()[i] == cs[i]);
        i
    }
}

/// Every term stored below a node at path `p` goes on from `p`; one no
/// longer than `p` is stored at the node itself, a longer one below the
/// child of its next character.
proof fn lemma_placed_words(n: TrieNode, p: Seq<char>, w: Seq<char>)
    requires
        placed(n, p),
        node_words(n).contains(w),
    ensures
        w.len() >= p.len(),
        w.take(p.len() as int) == p,
        w.len() == p.len() ==> term_views(n.terms@).contains(w),
        w.len() > p.len() ==> exists|i: int|
            0 <= i < n.children@.len() && n.children@[i].ch == w[p.len() as int]
                && #[trigger] node_words(n.children@[i]).contains(w),
    decreases n,
{
    if term_views(n.terms@).contains(w) {
        let k = choose|k: int| 0 <= k < term_views(n.terms@).len() && term_views(n.terms@)[k] == w;
        assert(n.terms@[k]@ == p);
        assert(w.take(p.len() as int) =~= p);
    } else {
        let i = lemma_children_words_member(n.children@, w);
        lemma_placed_children(n.children@, p);
        let c = n.children@[i];
        assert(placed(c, p.push(c.ch)));
        lemma_placed_words(c, p.push(c.ch), w);
        assert(w.take(p.len() as int) =~= w.take(p.len() + 1int).take(p.len() as int));
        assert(w[p.len() as int] == w.take(p.len() + 1int)[p.len() as int]);
        assert(w.take(p.len() as int) =~= p);
    }
}

/// A child that the next query character leads to contributes its results
/// to the step.
proof fn lemma_step_includes(
    cs: Seq<TrieNode>,
    q: Seq<char>,
    pos: nat,
    dist: nat,
    max: nat,
    i: int,
    x: (Seq<char>, nat),
)
    requires
        0 <= i < cs.len(),
        pos < q.len(),
        dist <= max,
        search_spec(cs[i], q, pos + 1, if cs[i].ch == q[pos as int] { dist } else { dist + 1 }, max).contains(x),
    ensures
        step_children(cs, q, pos, dist, max).contains(x),
    decreases cs.len(),
{
    let a = step_children(cs.drop_last(), q, pos, dist, max);
    let s = step_children(cs, q, pos, dist, max);
    if i < cs.len() - 1 {
        assert(cs.drop_last()[i] == cs[i]);
        lemma_step_includes(cs.drop_last(), q, pos, dist, max, i, x);
        let j = choose|j: int| 0 <= j < a.len() && a[j] == x;
        assert(s[j] == x);
    } else {
        let b = search_spec(cs.last(), q, pos + 1, if cs.last().ch == q[pos as int] { dist } else { dist + 1 }, max);
        let j = choose|j: int| 0 <= j < b.len() && b[j] == x;
        assert(s[a.len() + j] == x);
    }
}

/// The walk along the query's own characters finds a stored query at the
/// distance reached so far.
proof fn lemma_search_finds(n: TrieNode, q: Seq<char>, pos: nat, dist: nat, max: nat)
    requires
        pos <= q.len(),
        dist <= max,
        placed(n, q.take(pos as int)),
        node_words(n).contains(q),
    ensures
        search_spec(n, q, pos, dist, max).contains((q, dist)),
    decreases q.len() - pos,
{
    let p = q.take(pos as int);
    lemma_placed_words(n, p, q);
    if pos == q.len() {
        let k = choose|k: int| 0 <= k < term_views(n.terms@).len() && term_views(n.terms@)[k] == q;
        let m = term_views(n.terms@).map_values(|t: Seq<char>| (t, dist));
        assert(m[k] == (q, dist));
        assert(search_spec(n, q, pos, dist, max) == m);
    } else {
        let i = choose|i: int|
            0 <= i < n.children@.len() && n.children@[i].ch == q[pos as int]
                && #[trigger] node_words(n.children@[i]).contains(q);
        let c = n.children@[i];
        lemma_placed_children(n.children@, p);
        assert(q.take(pos + 1int) =~= p.push(c.ch));
        lemma_search_finds(c, q, pos + 1, dist, max);
        lemma_step_includes(n.children@, q, pos, dist, max, i, (q, dist));
        let s = step_children(n.children@, q, pos, dist, max);
        let j = choose|j: int| 0 <= j < s.len() && s[j] == (q, dist);
        assert(search_spec(n, q, pos, dist, max)[j] == (q, dist));
    }
}

proof fn lemma_with_dist_has(s: Seq<(Seq<char>, nat)>, d: nat, j: int)
    requires
        0 <= j < s.len(),
        s[j].1 == d,
    ensures
        with_dist(s, d).len() > 0,
    decreases s.len(),
{
    if j < s.len() - 1 && s.last().1 != d {
        assert(s.drop_last()[j] == s[j]);
        lemma_with_dist_has(s.drop_last(), d, j);
    }
}

proof fn lemma_by_distance_starts(s: Seq<(Seq<char>, nat)>, u: nat)
    ensures
        with_dist(s, 0).len() <= by_distance(s, u).len(),
        forall|i: int| 0 <= i < with_dist(s, 0).len() ==> by_distance(s, u)[i] == with_dist(s, 0)[i],
    decreases u,
{
    if u > 0 {
        lemma_by_distance_starts(s, (u - 1) as nat);
        let a = by_distance(s, (u - 1) as nat);
        assert forall|i: int| 0 <= i < with_dist(s, 0).len() implies by_distance(s, u)[i] == with_dist(s, 0)[i] by {
            assert(by_distance(s, u)[i] == a[i]);
        }
    }
}

proof fn lemma_within_zero(q: Seq<char>, t: Seq<char>)
    requires
        within(q, t, 0),
    ensures
        q == t,
    decreases q.len() + t.len(),
{
    if q.len() > 0 || t.len() > 0 {
        reveal_with_fuel(within, 2);
        assert(q.len() > 0 && t.len() > 0 && q[0] == t[0]);
        lemma_within_zero(q.drop_first(), t.drop_first());
        assert forall|i: int| 0 <= i < q.len() implies q[i] == t[i] by {
            if i > 0 {
                assert(q[i] == q.drop_first()[i - 1]);
                assert(t[i] == t.drop_first()[i - 1]);
            }
        }
        assert(q =~= t);
    }
}

/// A stored term searched for comes first among the results, at distance
/// zero, whatever the distance allowed.
pub proof fn lemma_trie_finds_stored(t: FuzzyTrie, q: Seq<char>, max: nat)
    requires
        t.wf(),
        t.words().contains(q),
    ensures
        by_distance(t.raw_results(q, max), max).len() > 0,
        by_distance(t.raw_results(q, max), max)[0] == (q, 0nat),
{
    let raw = t.raw_results(q, max);
    assert(q.take(0) =~= Seq::<char>::empty());
    lemma_search_finds(t.root, q, 0, 0, max);
    let j = choose|j: int| 0 <= j < raw.len() && raw[j] == (q, 0nat);
    lemma_with_dist_has(raw, 0, j);
    lemma_by_distance_starts(raw, max);
    lemma_with_dist(raw, 0);
    lemma_trie_results_are_edits(t, q, max);
    let r = by_distance(raw, max)[0];
    assert(r == with_dist(raw, 0)[0]);
    assert(r.1 == 0);
    assert(within(q, r.0, r.1 as int));
    lemma_within_zero(q, r.0);
}

proof fn lemma_insert_exact_empty(cs: Seq<TrieNode>, q: Seq<char>, pos: nat)
    ensures
        insert_children(cs, q, pos, 0, 0) == Seq::<(Seq<char>, nat)>::empty(),
    decreases cs.len(),
{
    if cs.len() > 0 {
        lemma_insert_exact_empty(cs.drop_last(), q, pos);
        assert(search_spec(cs.last(), q, pos, 1, 0) == Seq::<(Seq<char>, nat)>::empty());
        assert(insert_children(cs, q, pos, 0, 0) =~= Seq::<(Seq<char>, nat)>::empty());
    }
}

proof fn lemma_swap_grand_exact_empty(gs: Seq<TrieNode>, q: Seq<char>, pos: nat)
    ensures
        swap_grandchildren(gs, q, pos, 0, 0) == Seq::<(Seq<char>, nat)>::empty(),
    decreases gs.len(),
{
    if gs.len() > 0 && pos + 1 < q.len() {
        lemma_swap_grand_exact_empty(gs.drop_last(), q, pos);
        assert(search_spec(gs.last(), q, pos + 2, 1, 0) == Seq::<(Seq<char>, nat)>::empty());
        assert(swap_grandchildren(gs, q, pos, 0, 0) =~= Seq::<(Seq<char>, nat)>::empty());
    }
}

proof fn lemma_swap_exact_empty(cs: Seq<TrieNode>, q: Seq<char>, pos: nat)
    ensures
        swap_children(cs, q, pos, 0, 0) == Seq::<(Seq<char>, nat)>::empty(),
    decreases cs.len(),
{
    if cs.len() > 0 && pos + 1 < q.len() {
        lemma_swap_exact_empty(cs.drop_last(), q, pos);
        lemma_swap_grand_exact_empty(cs.last().children@, q, pos);
        assert(swap_children(cs, q, pos, 0, 0) =~= Seq::<(Seq<char>, nat)>::empty());
    }
}

proof fn lemma_step_no_match(cs: Seq<TrieNode>, q: Seq<char>, pos: nat)
    requires
        pos < q.len(),
        forall|k: int| 0 <= k < cs.len() ==> (#[trigger] cs[k]).ch != q[pos as int],
    ensures
        step_children(cs, q, pos, 0, 0) == Seq::<(Seq<char>, nat)>::empty(),
    decreases cs.len(),
{
    if cs.len() > 0 {
        assert forall|k: int| 0 <= k < cs.drop_last().len() implies (#[trigger] cs.drop_last()[k]).ch != q[pos as int] by {
            assert(cs.drop_last()[k] == cs[k]);
        }
        lemma_step_no_match(cs.drop_last(), q, pos);
        assert(cs.last() == cs[cs.len() - 1]);
        assert(search_spec(cs.last(), q, pos + 1, 1, 0) == Seq::<(Seq<char>, nat)>::empty());
        assert(step_children(cs, q, pos, 0, 0) =~= Seq::<(Seq<char>, nat)>::empty());
    }
}

/// An exact walk from a placed node finds at most one result.
proof fn lemma_exact_len(n: TrieNode, q: Seq<char>, pos: nat, p: Seq<char>)
    requires
        placed(n, p),
        pos <= q.len(),
    ensures
        search_spec(n, q, pos, 0, 0).len() <= 1,
    decreases n,
{
    if pos < q.len() {
        lemma_step_exact_len(n.children@, q, pos, p);
        lemma_insert_exact_empty(n.children@, q, pos);
        lemma_swap_exact_empty(n.children@, q, pos);
        assert(search_spec(n, q, pos + 1, 1, 0) == Seq::<(Seq<char>, nat)>::empty());
    }
}

proof fn lemma_step_exact_len(cs: Seq<TrieNode>, q: Seq<char>, pos: nat, p: Seq<char>)
    requires
        pos < q.len(),
        placed_children(cs, p),
        forall|i: int, j: int| 0 <= i < j < cs.len() ==> #[trigger] cs[i].ch != #[trigger] cs[j].ch,
    ensures
        step_children(cs, q, pos, 0, 0).len() <= 1,
    decreases cs,
{
    if cs.len() > 0 {
        let l = cs.last();
        let d = cs.drop_last();
        assert(l == cs[cs.len() - 1]);
        assert forall|i: int, j: int| 0 <= i < j < d.len() implies #[trigger] d[i].ch != #[trigger] d[j].ch by {
            assert(d[i] == cs[i] && d[j] == cs[j]);
        }
        if l.ch == q[pos as int] {
            assert forall|k: int| 0 <= k < d.len() implies (#[trigger] d[k]).ch != q[pos as int] by {
                assert(d[k] == cs[k]);
            }
            lemma_step_no_match(d, q, pos);
            lemma_exact_len(l, q, pos + 1, p.push(l.ch));
        } else {
            lemma_step_exact_len(d, q, pos, p);
            assert(search_spec(l, q, pos + 1, 1, 0) == Seq::<(Seq<char>, nat)>::empty());
        }
    }
}

proof fn lemma_with_dist_len(s: Seq<(Seq<char>, nat)>, d: nat)
    ensures
        with_dist(s, d).len() <= s.len(),
    decreases s.len(),
{
    if s.len() > 0 {
        lemma_with_dist_len(s.drop_last(), d);
    }
}

/// An exact search (distance zero) returns the query itself, once, exactly
/// when it is stored, and nothing otherwise.
pub proof fn lemma_trie_exact_search(t: FuzzyTrie, q: Seq<char>)
    requires
        t.wf(),
    ensures
        forall|i: int| 0 <= i < by_distance(t.raw_results(q, 0), 0).len()
            ==> #[trigger] by_distance(t.raw_results(q, 0), 0)[i] == (q, 0nat),
        by_distance(t.raw_results(q, 0), 0).len() > 0 <==> t.words().contains(q),
        by_distance(t.raw_results(q, 0), 0).len() <= 1,
        t.words().contains(q) ==> by_distance(t.raw_results(q, 0), 0) == seq![(q, 0nat)],
{
    let r = by_distance(t.raw_results(q, 0), 0);
    lemma_exact_len(t.root, q, 0, Seq::<char>::empty());
    lemma_with_dist_len(t.raw_results(q, 0), 0);
    lemma_trie_results_are_edits(t, q, 0);
    lemma_trie_search_sound(t, q, 0);
    assert forall|i: int| 0 <= i < r.len() implies #[trigger] r[i] == (q, 0nat) by {
        assert(within(q, r[i].0, r[i].1 as int));
        lemma_within_zero(q, r[i].0);
    }
    if t.words().contains(q) {
        lemma_trie_finds_stored(t, q, 0);
    }
    if r.len() > 0 {
        assert(r[0] == (q, 0nat));
        assert(r =~= seq![(q, 0nat)]);
    }
}

/// The number of positions at which two sequences of the same length differ.
pub open spec fn mismatches(a: Seq<char>, b: Seq<char>) -> nat
    decreases a.len(),
{
    if a.len() == 0 || b.len() == 0 {
        0
    } else {
        mismatches(a.drop_first(), b.drop_first()) + if a[0] == b[0] { 0nat } else { 1nat }
    }
}

proof fn lemma_search_finds_substituted(n: TrieNode, q: Seq<char>, w: Seq<char>, pos: nat, dist: nat, max: nat)
    requires
        pos <= q.len(),
        w.len() == q.len(),
        dist + mismatches(q.skip(pos as int), w.skip(pos as int)) <= max,
        placed(n, w.take(pos as int)),
        node_words(n).contains(w),
    ensures
        search_spec(n, q, pos, dist, max).contains((w, dist + mismatches(q.skip(pos as int), w.skip(pos as int)))),
    decreases q.len() - pos,
{
    let p = w.take(pos as int);
    lemma_placed_words(n, p, w);
    if pos == q.len() {
        assert(q.skip(pos as int).len() == 0);
        let k = choose|k: int| 0 <= k < term_views(n.terms@).len() && term_views(n.terms@)[k] == w;
        let m = term_views(n.terms@).map_values(|t: Seq<char>| (t, dist));
        assert(m[k] == (w, dist));
        assert(search_spec(n, q, pos, dist, max) == m);
    } else {
        let i = choose|i: int|
            0 <= i < n.children@.len() && n.children@[i].ch == w[pos as int]
                && #[trigger] node_words(n.children@[i]).contains(w);
        let c = n.children@[i];
        lemma_placed_children(n.children@, p);
        assert(w.take(pos + 1int) =~= p.push(c.ch));
        assert(q.skip(pos as int).drop_first() =~= q.skip(pos + 1int));
        assert(w.skip(pos as int).drop_first() =~= w.skip(pos + 1int));
        assert(q.skip(pos as int)[0] == q[pos as int]);
        assert(w.skip(pos as int)[0] == w[pos as int]);
        let d2 = if c.ch == q[pos as int] { dist } else { dist + 1 };
        let total = dist + mismatches(q.skip(pos as int), w.skip(pos as int));
        assert(d2 + mismatches(q.skip(pos + 1int), w.skip(pos + 1int)) == total);
        lemma_search_finds_substituted(c, q, w, pos + 1, d2, max);
        lemma_step_includes(n.children@, q, pos, dist, max, i, (w, total));
        let s = step_children(n.children@, q, pos, dist, max);
        let j = choose|j: int| 0 <= j < s.len() && s[j] == (w, total);
        assert(search_spec(n, q, pos, dist, max)[j] == (w, total));
    }
}

proof fn lemma_with_dist_contains(s: Seq<(Seq<char>, nat)>, d: nat, j: int)
    requires
        0 <= j < s.len(),
        s[j].1 == d,
    ensures
        with_dist(s, d).contains(s[j]),
    decreases s.len(),
{
    if j == s.len() - 1 {
        assert(with_dist(s, d).last() == s[j]);
    } else {
        assert(s.drop_last()[j] == s[j]);
        lemma_with_dist_contains(s.drop_last(), d, j);
        let w = with_dist(s.drop_last(), d);
        let k = choose|k: int| 0 <= k < w.len() && w[k] == s[j];
        assert(with_dist(s, d)[k] == s[j]);
    }
}

proof fn lemma_by_distance_contains(s: Seq<(Seq<char>, nat)>, upto: nat, j: int)
    requires
        0 <= j < s.len(),
        s[j].1 <= upto,
    ensures
        by_distance(s, upto).contains(s[j]),
    decreases upto,
{
    if s[j].1 == upto {
        lemma_with_dist_contains(s, upto, j);
        let w = with_dist(s, upto);
        let k = choose|k: int| 0 <= k < w.len() && w[k] == s[j];
        if upto == 0 {
            assert(by_distance(s, upto)[k] == s[j]);
        } else {
            let a = by_distance(s, (upto - 1) as nat);
            assert(by_distance(s, upto)[a.len() + k] == s[j]);
        }
    } else {
        lemma_by_distance_contains(s, (upto - 1) as nat, j);
        let a = by_distance(s, (upto - 1) as nat);
        let k = choose|k: int| 0 <= k < a.len() && a[k] == s[j];
        assert(by_distance(s, upto)[k] == s[j]);
    }
}

/// A stored term as long as the query, differing from it at no more
/// positions than the distance allowed, is found, at a distance of the
/// number of positions at which the two differ.
pub proof fn lemma_trie_finds_substitutions(t: FuzzyTrie, q: Seq<char>, w: Seq<char>, max: nat)
    requires
        t.wf(),
        t.words().contains(w),
        w.len() == q.len(),
        mismatches(q, w) <= max,
    ensures
        by_distance(t.raw_results(q, max), max).contains((w, mismatches(q, w))),
{
    let raw = t.raw_results(q, max);
    assert(w.take(0) =~= Seq::<char>::empty());
    assert(q.skip(0) =~= q);
    assert(w.skip(0) =~= w);
    lemma_search_finds_substituted(t.root, q, w, 0, 0, max);
    let j = choose|j: int| 0 <= j < raw.len() && raw[j] == (w, mismatches(q, w));
    lemma_by_distance_contains(raw, max, j);
}

/// `t` is reached from `q` by edits costing at most `k`, as in `within`,
/// where characters of `t` are inserted only while characters of `q`
/// remain to be read.
pub open spec fn within_walk(q: Seq<char>, t: Seq<char>, k: int) -> bool
    decreases q.len() + t.len(),
{
    if k < 0 {
        false
    } else if q.len() == 0 && t.len() == 0 {
        true
    } else {
        ||| (q.len() > 0 && t.len() > 0 && q[0] == t[0] && within_walk(q.drop_first(), t.drop_first(), k))
        ||| (q.len() > 0 && t.len() > 0 && within_walk(q.drop_first(), t.drop_first(), k - 1))
        ||| (q.len() > 0 && within_walk(q.drop_first(), t, k - 1))
        ||| (q.len() > 0 && t.len() > 0 && within_walk(q, t.drop_first(), k - 1))
        ||| (q.len() > 1 && t.len() > 1 && q[0] == t[1] && q[1] == t[0] && within_walk(q.skip(2), t.skip(2), k - 1))
    }
}

proof fn lemma_insert_includes(cs: Seq<TrieNode>, q: Seq<char>, pos: nat, dist: nat, max: nat, i: int, x: (Seq<char>, nat))
    requires
        0 <= i < cs.len(),
        dist <= max,
        search_spec(cs[i], q, pos, dist + 1, max).contains(x),
    ensures
        insert_children(cs, q, pos, dist, max).contains(x),
    decreases cs.len(),
{
    let a = insert_children(cs.drop_last(), q, pos, dist, max);
    let s = insert_children(cs, q, pos, dist, max);
    if i < cs.len() - 1 {
        assert(cs.drop_last()[i] == cs[i]);
        lemma_insert_includes(cs.drop_last(), q, pos, dist, max, i, x);
        let j = choose|j: int| 0 <= j < a.len() && a[j] == x;
        assert(s[j] == x);
    } else {
        let b = search_spec(cs.last(), q, pos, dist + 1, max);
        let j = choose|j: int| 0 <= j < b.len() && b[j] == x;
        assert(s[a.len() + j] == x);
    }
}

proof fn lemma_swap_grand_includes(
    gs: Seq<TrieNode>,
    q: Seq<char>,
    pos: nat,
    dist: nat,
    max: nat,
    i: int,
    x: (Seq<char>, nat),
)
    requires
        0 <= i < gs.len(),
        dist <= max,
        pos + 1 < q.len(),
        gs[i].ch == q[pos as int],
        search_spec(gs[i], q, pos + 2, dist + 1, max).contains(x),
    ensures
        swap_grandchildren(gs, q, pos, dist, max).contains(x),
    decreases gs.len(),
{
    let a = swap_grandchildren(gs.drop_last(), q, pos, dist, max);
    let s = swap_grandchildren(gs, q, pos, dist, max);
    if i < gs.len() - 1 {
        assert(gs.drop_last()[i] == gs[i]);
        lemma_swap_grand_includes(gs.drop_last(), q, pos, dist, max, i, x);
        let j = choose|j: int| 0 <= j < a.len() && a[j] == x;
        assert(s[j] == x);
    } else {
        let b = search_spec(gs.last(), q, pos + 2, dist + 1, max);
        let j = choose|j: int| 0 <= j < b.len() && b[j] == x;
        assert(s[a.len() + j] == x);
    }
}

proof fn lemma_swap_includes(cs: Seq<TrieNode>, q: Seq<char>, pos: nat, dist: nat, max: nat, i: int, x: (Seq<char>, nat))
    requires
        0 <= i < cs.len(),
        dist <= max,
        pos + 1 < q.len(),
        cs[i].ch == q[pos + 1int],
        swap_grandchildren(cs[i].children@, q, pos, dist, max).contains(x),
    ensures
        swap_children(cs, q, pos, dist, max).contains(x),
    decreases cs.len(),
{
    let a = swap_children(cs.drop_last(), q, pos, dist, max);
    let s = swap_children(cs, q, pos, dist, max);
    if i < cs.len() - 1 {
        assert(cs.drop_last()[i] == cs[i]);
        lemma_swap_includes(cs.drop_last(), q, pos, dist, max, i, x);
        let j = choose|j: int| 0 <= j < a.len() && a[j] == x;
        assert(s[j] == x);
    } else {
        let b = swap_grandchildren(cs.last().children@, q, pos, dist, max);
        let j = choose|j: int| 0 <= j < b.len() && b[j] == x;
        assert(s[a.len() + j] == x);
    }
}

proof fn lemma_concat4_contains(
    a: Seq<(Seq<char>, nat)>,
    b: Seq<(Seq<char>, nat)>,
    c: Seq<(Seq<char>, nat)>,
    d: Seq<(Seq<char>, nat)>,
    x: (Seq<char>, nat),
)
    requires
        a.contains(x) || b.contains(x) || c.contains(x) || d.contains(x),
    ensures
        (a + b + c + d).contains(x),
{
    let s = a + b + c + d;
    if a.contains(x) {
        let j = choose|j: int| 0 <= j < a.len() && a[j] == x;
        assert(s[j] == x);
    } else if b.contains(x) {
        let j = choose|j: int| 0 <= j < b.len() && b[j] == x;
        assert(s[a.len() + j] == x);
    } else if c.contains(x) {
        let j = choose|j: int| 0 <= j < c.len() && c[j] == x;
        assert(s[a.len() + b.len() + j] == x);
    } else {
        let j = choose|j: int| 0 <= j < d.len() && d[j] == x;
        assert(s[a.len() + b.len() + c.len() + j] == x);
    }
}

proof fn lemma_walk_complete(n: TrieNode, q: Seq<char>, pos: nat, dist: nat, max: nat, w: Seq<char>, plen: nat, k: int)
    requires
        pos <= q.len(),
        plen <= w.len(),
        placed(n, w.take(plen as int)),
        node_words(n).contains(w),
        within_walk(q.skip(pos as int), w.skip(plen as int), k),
        dist + k <= max,
    ensures
        exists|d: nat| d <= dist + k && #[trigger] search_spec(n, q, pos, dist, max).contains((w, d)),
    decreases (q.len() - pos) + (w.len() - plen),
{
    let qs = q.skip(pos as int);
    let ws = w.skip(plen as int);
    let p = w.take(plen as int);
    lemma_placed_words(n, p, w);
    let res = search_spec(n, q, pos, dist, max);
    if qs.len() == 0 && ws.len() == 0 {
        let t = term_views(n.terms@);
        let kk = choose|kk: int| 0 <= kk < t.len() && t[kk] == w;
        let m = t.map_values(|u: Seq<char>| (u, dist));
        assert(m[kk] == (w, dist));
        assert(res == m);
        assert(res.contains((w, dist)));
    } else {
        assert(qs.len() > 0);
        let cs = n.children@;
        let a = step_children(cs, q, pos, dist, max);
        let b = search_spec(n, q, pos + 1, dist + 1, max);
        let c = insert_children(cs, q, pos, dist, max);
        let e = swap_children(cs, q, pos, dist, max);
        assert(res == a + b + c + e);
        assert(qs.drop_first() =~= q.skip(pos + 1int));
        assert(qs[0] == q[pos as int]);
        lemma_placed_children(cs, p);
        if ws.len() > 0 {
            assert(ws.drop_first() =~= w.skip(plen + 1int));
            assert(ws[0] == w[plen as int]);
        }
        if ws.len() > 0 && qs[0] == ws[0] && within_walk(qs.drop_first(), ws.drop_first(), k) {
            let i = choose|i: int|
                0 <= i < cs.len() && cs[i].ch == w[plen as int] && #[trigger] node_words(cs[i]).contains(w);
            assert(w.take(plen + 1int) =~= p.push(cs[i].ch));
            lemma_walk_complete(cs[i], q, pos + 1, dist, max, w, plen + 1, k);
            let d = choose|d: nat| d <= dist + k && #[trigger] search_spec(cs[i], q, pos + 1, dist, max).contains((w, d));
            lemma_step_includes(cs, q, pos, dist, max, i, (w, d));
            lemma_concat4_contains(a, b, c, e, (w, d));
        } else if ws.len() > 0 && within_walk(qs.drop_first(), ws.drop_first(), k - 1) {
            let i = choose|i: int|
                0 <= i < cs.len() && cs[i].ch == w[plen as int] && #[trigger] node_words(cs[i]).contains(w);
            assert(w.take(plen + 1int) =~= p.push(cs[i].ch));
            let d2: nat = if cs[i].ch == q[pos as int] { dist } else { dist + 1 };
            lemma_walk_complete(cs[i], q, pos + 1, d2, max, w, plen + 1, k - 1);
            let d = choose|d: nat| d <= d2 + k - 1 && #[trigger] search_spec(cs[i], q, pos + 1, d2, max).contains((w, d));
            lemma_step_includes(cs, q, pos, dist, max, i, (w, d));
            lemma_concat4_contains(a, b, c, e, (w, d));
        } else if within_walk(qs.drop_first(), ws, k - 1) {
            lemma_walk_complete(n, q, pos + 1, dist + 1, max, w, plen, k - 1);
            let d = choose|d: nat| d <= dist + 1 + k - 1 && #[trigger] search_spec(n, q, pos + 1, dist + 1, max).contains((w, d));
            lemma_concat4_contains(a, b, c, e, (w, d));
        } else if ws.len() > 0 && within_walk(qs, ws.drop_first(), k - 1) {
            let i = choose|i: int|
                0 <= i < cs.len() && cs[i].ch == w[plen as int] && #[trigger] node_words(cs[i]).contains(w);
            assert(w.take(plen + 1int) =~= p.push(cs[i].ch));
            lemma_walk_complete(cs[i], q, pos, dist + 1, max, w, plen + 1, k - 1);
            let d = choose|d: nat| d <= dist + 1 + k - 1 && #[trigger] search_spec(cs[i], q, pos, dist + 1, max).contains((w, d));
            lemma_insert_includes(cs, q, pos, dist, max, i, (w, d));
            lemma_concat4_contains(a, b, c, e, (w, d));
        } else {
            assert(qs.len() > 1 && ws.len() > 1 && qs[0] == ws[1] && qs[1] == ws[0] && within_walk(qs.skip(2), ws.skip(2), k - 1));
            assert(qs.skip(2) =~= q.skip(pos + 2int));
            assert(ws.skip(2) =~= w.skip(plen + 2int));
            assert(qs[1] == q[pos + 1int]);
            assert(ws[1] == w[plen + 1int]);
            let i = choose|i: int|
                0 <= i < cs.len() && cs[i].ch == w[plen as int] && #[trigger] node_words(cs[i]).contains(w);
            let c1 = cs[i];
            let p1 = w.take(plen + 1int);
            assert(p1 =~= p.push(c1.ch));
            lemma_placed_words(c1, p1, w);
            let gs = c1.children@;
            let g = choose|g: int|
                0 <= g < gs.len() && gs[g].ch == w[plen + 1int] && #[trigger] node_words(gs[g]).contains(w);
            lemma_placed_children(gs, p1);
            assert(w.take(plen + 2int) =~= p1.push(gs[g].ch));
            lemma_walk_complete(gs[g], q, pos + 2, dist + 1, max, w, plen + 2, k - 1);
            let d = choose|d: nat| d <= dist + 1 + k - 1 && #[trigger] search_spec(gs[g], q, pos + 2, dist + 1, max).contains((w, d));
            lemma_swap_grand_includes(gs, q, pos, dist, max, g, (w, d));
            lemma_swap_includes(cs, q, pos, dist, max, i, (w, d));
            lemma_concat4_contains(a, b, c, e, (w, d));
        }
    }
}

/// Every stored term reached from the query by edits (as in `within`)
/// costing at most `k`, itself no more than the distance allowed, and
/// inserting characters only while query characters remain, is found, at a
/// distance no greater than `k`.
pub proof fn lemma_trie_search_complete(t: FuzzyTrie, q: Seq<char>, w: Seq<char>, k: nat, max: nat)
    requires
        t.wf(),
        t.words().contains(w),
        within_walk(q, w, k as int),
        k <= max,
    ensures
        exists|d: nat| d <= k && #[trigger] by_distance(t.raw_results(q, max), max).contains((w, d)),
{
    let raw = t.raw_results(q, max);
    assert(w.take(0) =~= Seq::<char>::empty());
    assert(q.skip(0) =~= q);
    assert(w.skip(0) =~= w);
    lemma_walk_complete(t.root, q, 0, 0, max, w, 0, k as int);
    let d = choose|d: nat| d <= k && #[trigger] search_spec(t.root, q, 0, 0, max).contains((w, d));
    let j = choose|j: int| 0 <= j < raw.len() && raw[j] == (w, d);
    lemma_by_distance_contains(raw, max, j);
}

} // verus!
