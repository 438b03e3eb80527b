use vstd::prelude::*;

use crate::strmap::StrMap;

verus! {

/// A directed graph over the nodes `0..n`: `out[u]` lists the targets of
/// the edges that leave `u`, in the order the store gives them.
pub struct Digraph {
    pub out: Vec<Vec<usize>>,
}

impl Digraph {
    /// The number of nodes.
    pub open spec fn n(&self) -> int {
        self.out@.len() as int
    }

    /// The `k`-th target of node `u`.
    pub open spec fn target(&self, u: int, k: int) -> int {
        self.out@[u]@[k] as int
    }

    /// Every edge ends at a node of the graph.
    pub open spec fn wf(&self) -> bool {
        forall|u: int, k: int| 0 <= u < self.n() && 0 <= k < self.out@[u]@.len() ==> #[trigger] self.target(u, k) < self.n()
    }

    /// There is an edge from `u` to `v`.
    pub open spec fn edge(&self, u: int, v: int) -> bool {
        0 <= u < self.n() && exists|k: int| 0 <= k < self.out@[u]@.len() && #[trigger] self.target(u, k) == v
    }
}

/// `p` is a nonempty walk: its nodes are nodes of `g`, and each is joined to
/// the next by an edge.
pub open spec fn is_walk(g: &Digraph, p: Seq<usize>) -> bool {
    &&& p.len() > 0
    &&& forall|i: int| 0 <= i < p.len() ==> #[trigger] p[i] < g.n()
    &&& forall|i: int| 0 <= i < p.len() - 1 ==> g.edge(#[trigger] p[i] as int, p[i + 1] as int)
}

/// `c` is a cycle: a walk whose last node has an edge back to its first.
pub open spec fn is_cycle(g: &Digraph, c: Seq<usize>) -> bool {
    is_walk(g, c) && g.edge(c.last() as int, c[0] as int)
}

/// The number of `false` entries.
pub open spec fn count_false(s: Seq<bool>) -> nat
    decreases s.len(),
{
    if s.len() == 0 {
        0
    } else {
        count_false(s.drop_last()) + if s.last() { 0nat } else { 1nat }
    }
}

proof fn lemma_count_false_mono(a: Seq<bool>, b: Seq<bool>, w: int)
    requires
        a.len() == b.len(),
        forall|i: int| 0 <= i < a.len() && #[trigger] a[i] ==> b[i],
    ensures
        count_false(b) <= count_false(a),
        0 <= w < a.len() && !a[w] && b[w] ==> count_false(b) < count_false(a),
    decreases a.len(),
{
    if a.len() > 0 {
        assert forall|i: int| 0 <= i < a.drop_last().len() && #[trigger] a.drop_last()[i] implies b.drop_last()[i] by {
            assert(a[i]);
        }
        lemma_count_false_mono(a.drop_last(), b.drop_last(), w);
    }
}

/// What a depth-first search carries: the nodes reached, those on the
/// current path, the path itself, the cycles found with the node whose edge
/// closed each, and (for the proof) the order in which nodes finished.
struct DfsState {
    visited: Vec<bool>,
    on_stack: Vec<bool>,
    path: Vec<usize>,
    cycles: Vec<Vec<usize>>,
    affected: Vec<usize>,
    rank: Ghost<Seq<int>>,
    fin: Ghost<int>,
}

/// A node is finished: reached, and no longer on the path.
spec fn finished(st: DfsState, v: int) -> bool {
    st.rank@[v] >= 0
}

/// Every recorded cycle is a cycle of `g`, closed by the edge leaving the
/// recorded node.
pub open spec fn cycles_sound(g: &Digraph, cycles: Seq<Vec<usize>>, affected: Seq<usize>) -> bool {
    &&& affected.len() == cycles.len()
    &&& forall|k: int| 0 <= k < cycles.len() ==> is_cycle(g, (#[trigger] cycles[k])@) && affected[k] == cycles[k]@.last()
}

/// The sizes of the search state fit the graph, and the path holds nodes.
spec fn sizes_ok(g: &Digraph, st: DfsState) -> bool {
    &&& g.wf()
    &&& st.visited@.len() == g.n()
    &&& st.on_stack@.len() == g.n()
    &&& st.rank@.len() == g.n()
    &&& forall|i: int| 0 <= i < st.path@.len() ==> #[trigger] st.path@[i] < g.n()
}

#[verifier::opaque]
spec fn state_inv(g: &Digraph, st: DfsState) -> bool {
    let n = g.n();
    &&& sizes_ok(g, st)
    &&& st.fin@ >= 0
    &&& forall|v: int| 0 <= v < n && #[trigger] st.on_stack@[v] ==> st.visited@[v]
    &&& forall|v: int| 0 <= v < n ==> ((st.visited@[v] && !st.on_stack@[v]) <==> #[trigger] finished(st, v))
    &&& forall|v: int| 0 <= v < n ==> #[trigger] st.rank@[v] < st.fin@
    &&& forall|i: int| 0 <= i < st.path@.len() ==> st.on_stack@[#[trigger] st.path@[i] as int]
    &&& forall|v: usize| (v as int) < n && #[trigger] st.on_stack@[v as int] ==> st.path@.contains(v)
    &&& forall|i: int| 0 <= i < st.path@.len() - 1 ==> g.edge(#[trigger] st.path@[i] as int, st.path@[i + 1] as int)
    &&& cycles_sound(g, st.cycles@, st.affected@)
    &&& forall|u: int, k: int| 0 <= u < n && finished(st, u) && 0 <= k < g.out@[u]@.len() ==> st.visited@[#[trigger] g.target(u, k)]
    &&& st.cycles@.len() == 0 ==> forall|u: int, k: int| 0 <= u < n && finished(st, u) && 0 <= k < g.out@[u]@.len()
        ==> finished(st, #[trigger] g.target(u, k)) && st.rank@[g.target(u, k)] < st.rank@[u]
}

proof fn lemma_inv_sizes(g: &Digraph, st: DfsState)
    requires
        state_inv(g, st),
    ensures
        sizes_ok(g, st),
        forall|v: usize| (v as int) < g.n() && #[trigger] st.on_stack@[v as int] ==> st.path@.contains(v),
        forall|i: int| 0 <= i < st.path@.len() ==> st.on_stack@[#[trigger] st.path@[i] as int] && st.visited@[st.path@[i] as int],
        forall|v: int| 0 <= v < g.n() ==> ((st.visited@[v] && !st.on_stack@[v]) <==> #[trigger] finished(st, v)),
        forall|i: int| 0 <= i < st.path@.len() - 1 ==> g.edge(#[trigger] st.path@[i] as int, st.path@[i + 1] as int),
        cycles_sound(g, st.cycles@, st.affected@),
{
    reveal(state_inv);
}

/// Entering `u`: it is marked reached and put on the path.
proof fn lemma_enter(g: &Digraph, st0: DfsState, st1: DfsState, u: usize)
    requires
        state_inv(g, st0),
        u < g.n(),
        !st0.visited@[u as int],
        st0.path@.len() > 0 ==> g.edge(st0.path@.last() as int, u as int),
        st1.visited@ == st0.visited@.update(u as int, true),
        st1.on_stack@ == st0.on_stack@.update(u as int, true),
        st1.path@ == st0.path@.push(u),
        st1.cycles@ == st0.cycles@,
        st1.affected@ == st0.affected@,
        st1.rank@ == st0.rank@,
        st1.fin@ == st0.fin@,
    ensures
        state_inv(g, st1),
{
    reveal(state_inv);
    let n = g.n();
    assert forall|v: usize| (v as int) < n && #[trigger] st1.on_stack@[v as int] implies st1.path@.contains(v) by {
        if v == u {
            assert(st1.path@[st0.path@.len() as int] == u);
        } else {
            assert(st0.on_stack@[v as int]);
            let i = choose|i: int| 0 <= i < st0.path@.len() && st0.path@[i] == v;
            assert(st1.path@[i] == v);
        }
    }
    assert forall|i: int| 0 <= i < st1.path@.len() implies st1.on_stack@[#[trigger] st1.path@[i] as int] by {
        if i < st0.path@.len() {
            assert(st1.path@[i] == st0.path@[i]);
        }
    }
    assert forall|i: int| 0 <= i < st1.path@.len() - 1 implies g.edge(#[trigger] st1.path@[i] as int, st1.path@[i + 1] as int) by {
        assert(st1.path@[i] == st0.path@[i]);
        if i < st0.path@.len() - 1 {
            assert(st1.path@[i + 1] == st0.path@[i + 1]);
        }
    }
    assert forall|v: int| 0 <= v < n implies ((st1.visited@[v] && !st1.on_stack@[v]) <==> #[trigger] finished(st1, v)) by {
        assert(finished(st0, v) == finished(st1, v));
    }
    assert forall|uu: int, k: int| 0 <= uu < n && finished(st1, uu) && 0 <= k < g.out@[uu]@.len() implies st1.visited@[#[trigger] g.target(uu, k)] by {
        assert(finished(st0, uu));
    }
}

/// Recording the cycle that the edge from `u` (last on the path) to `v`
/// (on the path) closes.
proof fn lemma_record(g: &Digraph, st0: DfsState, st1: DfsState, u: usize, v: usize, pos: int)
    requires
        state_inv(g, st0),
        u < g.n(),
        st0.path@.len() > 0,
        st0.path@.last() == u,
        g.edge(u as int, v as int),
        0 <= pos < st0.path@.len(),
        st0.path@[pos] == v,
        st1.cycles@ == st0.cycles@.push(st1.cycles@.last()),
        st1.cycles@.last()@ == st0.path@.subrange(pos, st0.path@.len() as int),
        st1.affected@ == st0.affected@.push(u),
        st1.visited@ == st0.visited@,
        st1.on_stack@ == st0.on_stack@,
        st1.path@ == st0.path@,
        st1.rank@ == st0.rank@,
        st1.fin@ == st0.fin@,
    ensures
        state_inv(g, st1),
{
    reveal(state_inv);
    let c = st1.cycles@.last()@;
    assert(c.last() == u);
    assert(c[0] == v);
    assert forall|i: int| 0 <= i < c.len() - 1 implies g.edge(#[trigger] c[i] as int, c[i + 1] as int) by {
        assert(c[i] == st0.path@[pos + i] && c[i + 1] == st0.path@[pos + i + 1]);
    }
    assert forall|i: int| 0 <= i < c.len() implies #[trigger] c[i] < g.n() by {
        assert(c[i] == st0.path@[pos + i]);
    }
    assert(is_cycle(g, c));
    assert forall|v: int| 0 <= v < g.n() implies ((st1.visited@[v] && !st1.on_stack@[v]) <==> #[trigger] finished(st1, v)) by {
        assert(finished(st0, v) == finished(st1, v));
    }
    assert forall|uu: int, k: int| 0 <= uu < g.n() && finished(st1, uu) && 0 <= k < g.out@[uu]@.len() implies st1.visited@[#[trigger] g.target(uu, k)] by {
        assert(finished(st0, uu));
    }
    assert forall|q: int| 0 <= q < st1.cycles@.len() implies is_cycle(g, (#[trigger] st1.cycles@[q])@) && st1.affected@[q] == st1.cycles@[q]@.last() by {
        if q < st0.cycles@.len() {
            assert(st1.cycles@[q] == st0.cycles@[q]);
        }
    }
}

/// Leaving `u`, all of whose edges were followed: it comes off the path and
/// finishes after every node finished so far.
proof fn lemma_leave(g: &Digraph, st0: DfsState, st1: DfsState, u: usize)
    requires
        state_inv(g, st0),
        u < g.n(),
        st0.path@.len() > 0,
        st0.path@.last() == u,
        !st0.path@.drop_last().contains(u),
        forall|j: int| 0 <= j < g.out@[u as int]@.len() ==> st0.visited@[#[trigger] g.target(u as int, j)],
        st0.cycles@.len() == 0 ==> forall|j: int| 0 <= j < g.out@[u as int]@.len() ==> finished(st0, #[trigger] g.target(u as int, j)),
        st1.visited@ == st0.visited@,
        st1.on_stack@ == st0.on_stack@.update(u as int, false),
        st1.path@ == st0.path@.drop_last(),
        st1.cycles@ == st0.cycles@,
        st1.affected@ == st0.affected@,
        st1.rank@ == st0.rank@.update(u as int, st0.fin@),
        st1.fin@ == st0.fin@ + 1,
    ensures
        state_inv(g, st1),
        finished(st1, u as int),
        forall|w: int| 0 <= w < g.n() && finished(st0, w) ==> #[trigger] st1.rank@[w] == st0.rank@[w],
{
    reveal(state_inv);
    let n = g.n();
    assert(st0.path@[st0.path@.len() - 1] == u);
    assert(st0.on_stack@[u as int]);
    assert(!finished(st0, u as int));
    assert forall|v: usize| (v as int) < n && #[trigger] st1.on_stack@[v as int] implies st1.path@.contains(v) by {
        let i = choose|i: int| 0 <= i < st0.path@.len() && st0.path@[i] == v;
        if i == st0.path@.len() - 1 {
            assert(v == u);
        }
        assert(st1.path@[i] == v);
    }
    assert forall|i: int| 0 <= i < st1.path@.len() implies st1.on_stack@[#[trigger] st1.path@[i] as int] by {
        assert(st1.path@[i] == st0.path@[i]);
        if st1.path@[i] == u {
            assert(st0.path@.drop_last()[i] == u);
        }
    }
    assert forall|i: int| 0 <= i < st1.path@.len() - 1 implies g.edge(#[trigger] st1.path@[i] as int, st1.path@[i + 1] as int) by {
        assert(st1.path@[i] == st0.path@[i] && st1.path@[i + 1] == st0.path@[i + 1]);
    }
    assert forall|v: int| 0 <= v < n implies ((st1.visited@[v] && !st1.on_stack@[v]) <==> #[trigger] finished(st1, v)) by {
        if v != u as int {
            assert(finished(st0, v) == finished(st1, v));
        }
    }
    assert forall|uu: int, kk: int| 0 <= uu < n && finished(st1, uu) && 0 <= kk < g.out@[uu]@.len() implies st1.visited@[#[trigger] g.target(uu, kk)] by {
        if uu != u as int {
            assert(finished(st0, uu));
        }
    }
    if st1.cycles@.len() == 0 {
        assert forall|uu: int, kk: int| 0 <= uu < n && finished(st1, uu) && 0 <= kk < g.out@[uu]@.len() implies
            finished(st1, #[trigger] g.target(uu, kk)) && st1.rank@[g.target(uu, kk)] < st1.rank@[uu] by {
            let w = g.target(uu, kk);
            if uu != u as int {
                assert(finished(st0, uu));
                assert(finished(st0, w));
            } else {
                assert(finished(st0, w));
            }
        }
    }
}

/// The position of `v` in `p`.
fn position_of(p: &Vec<usize>, v: usize) -> (i: usize)
    requires
        p@.contains(v),
    ensures
        i < p@.len(),
        p@[i as int] == v,
{
    let mut i: usize = 0;
    while i < p.len()
        invariant
            i <= p@.len(),
            p@.contains(v),
            forall|j: int| 0 <= j < i ==> p@[j] != v,
        decreases p.len() - i,
    {
        if p[i] == v {
            return i;
        }
        i += 1;
    }
    proof {
        let j = choose|j: int| 0 <= j < p@.len() && p@[j] == v;
        assert(p@[j] != v);
    }
    0
}

/// The nodes of `p` from position `a` on.
fn suffix_from(p: &Vec<usize>, a: usize) -> (r: Vec<usize>)
    requires
        a <= p@.len(),
    ensures
        r@ == p@.subrange(a as int, p@.len() as int),
{
    let mut r: Vec<usize> = Vec::new();
    let mut i: usize = a;
    while i < p.len()
        invariant
            a <= i <= p@.len(),
            r@ == p@.subrange(a as int, i as int),
        decreases p.len() - i,
    {
        r.push(p[i]);
        i += 1;
        assert(r@ =~= p@.subrange(a as int, i as int));
    }
    r
}

/// What holds while the edges of `u` are followed, `k` of them so far,
/// against the state `st0` in which the search of `u` began.
#[verifier::opaque]
spec fn step_inv(g: &Digraph, st0: DfsState, st: DfsState, u: usize, k: int) -> bool {
    let n = g.n();
    &&& st.on_stack@ == st0.on_stack@.update(u as int, true)
    &&& st.visited@[u as int]
    &&& forall|w: int| 0 <= w < n && #[trigger] st0.visited@[w] ==> st.visited@[w]
    &&& forall|w: int| 0 <= w < n && finished(st0, w) ==> #[trigger] st.rank@[w] == st0.rank@[w]
    &&& st.cycles@.len() >= st0.cycles@.len()
    &&& st0.fin@ <= st.fin@
    &&& 0 <= k <= g.out@[u as int]@.len()
    &&& forall|j: int| 0 <= j < k ==> st.visited@[#[trigger] g.target(u as int, j)]
    &&& st.cycles@.len() == 0 ==> forall|j: int| 0 <= j < k ==> finished(st, #[trigger] g.target(u as int, j))
}

/// After the search of the `k`-th target of `u`, which was unreached.
proof fn lemma_step_child(g: &Digraph, st0: DfsState, before: DfsState, after: DfsState, u: usize, k: int)
    requires
        step_inv(g, st0, before, u, k),
        state_inv(g, before),
        state_inv(g, after),
        u < g.n(),
        0 <= k < g.out@[u as int]@.len(),
        after.on_stack@ == before.on_stack@,
        finished(after, g.target(u as int, k)),
        forall|w: int| 0 <= w < g.n() && #[trigger] before.visited@[w] ==> after.visited@[w],
        forall|w: int| 0 <= w < g.n() && finished(before, w) ==> #[trigger] after.rank@[w] == before.rank@[w],
        after.cycles@.len() >= before.cycles@.len(),
        before.fin@ <= after.fin@,
    ensures
        step_inv(g, st0, after, u, k + 1),
{
    reveal(step_inv);
    lemma_inv_sizes(g, before);
    lemma_inv_sizes(g, after);
    assert forall|j: int| 0 <= j < k + 1 implies after.visited@[#[trigger] g.target(u as int, j)] by {
        if j < k {
            assert(before.visited@[g.target(u as int, j)]);
        }
    }
    if after.cycles@.len() == 0 {
        assert forall|j: int| 0 <= j < k + 1 implies finished(after, #[trigger] g.target(u as int, j)) by {
            if j < k {
                assert(finished(before, g.target(u as int, j)));
            }
        }
    }
    assert forall|w: int| 0 <= w < g.n() && finished(st0, w) implies #[trigger] after.rank@[w] == st0.rank@[w] by {
        assert(finished(before, w));
    }
}

/// After a target of `u` that was already reached: it is finished, or it
/// is on the path and a cycle was recorded.
proof fn lemma_step_seen(g: &Digraph, st0: DfsState, before: DfsState, after: DfsState, u: usize, k: int)
    requires
        step_inv(g, st0, before, u, k),
        state_inv(g, before),
        u < g.n(),
        0 <= k < g.out@[u as int]@.len(),
        before.visited@[g.target(u as int, k)],
        after.visited@ == before.visited@,
        after.on_stack@ == before.on_stack@,
        after.rank@ == before.rank@,
        after.fin@ == before.fin@,
        after.cycles@.len() >= before.cycles@.len(),
        before.on_stack@[g.target(u as int, k)] ==> after.cycles@.len() > 0,
    ensures
        step_inv(g, st0, after, u, k + 1),
{
    reveal(step_inv);
    lemma_inv_sizes(g, before);
    let v = g.target(u as int, k);
    assert(0 <= v < g.n());
    if after.cycles@.len() == 0 {
        assert(finished(before, v));
        assert forall|j: int| 0 <= j < k + 1 implies finished(after, #[trigger] g.target(u as int, j)) by {
            if j < k {
                assert(finished(before, g.target(u as int, j)));
            }
        }
    }
}

/// Depth-first search from the unreached node `u`: every edge leaving a
/// node of the search either reaches a new node, which is searched in turn,
/// or meets a node on the current path, which closes a cycle that is
/// recorded.
fn dfs(g: &Digraph, u: usize, st: &mut DfsState)
    requires
        state_inv(g, *old(st)),
        u < g.n(),
        !old(st).visited@[u as int],
        old(st).path@.len() > 0 ==> g.edge(old(st).path@.last() as int, u as int),
    ensures
        state_inv(g, *final(st)),
        final(st).path@ == old(st).path@,
        final(st).on_stack@ == old(st).on_stack@,
        finished(*final(st), u as int),
        forall|w: int| 0 <= w < g.n() && #[trigger] old(st).visited@[w] ==> final(st).visited@[w],
        forall|w: int| 0 <= w < g.n() && finished(*old(st), w) ==> #[trigger] final(st).rank@[w] == old(st).rank@[w],
        final(st).cycles@.len() >= old(st).cycles@.len(),
        old(st).fin@ <= final(st).fin@,
        count_false(final(st).visited@) < count_false(old(st).visited@),
    decreases count_false(old(st).visited@),
{
    let ghost st0 = *st;
    proof {
        lemma_inv_sizes(g, st0);
    }
    st.visited.set(u, true);
    st.on_stack.set(u, true);
    st.path.push(u);
    proof {
        lemma_enter(g, st0, *st, u);
        lemma_count_false_mono(st0.visited@, st.visited@, u as int);
        assert(!st0.path@.contains(u)) by {
            if st0.path@.contains(u) {
                let i = choose|i: int| 0 <= i < st0.path@.len() && st0.path@[i] == u;
                assert(st0.visited@[st0.path@[i] as int]);
            }
        }
        reveal(step_inv);
    }
    let mut k: usize = 0;
    while k < g.out[u].len()
        invariant
            state_inv(g, *st),
            step_inv(g, st0, *st, u, k as int),
            u < g.n(),
            st.path@ == st0.path@.push(u),
            !st0.path@.contains(u),
            count_false(st.visited@) < count_false(st0.visited@),
            count_false(st0.visited@) == count_false(old(st).visited@),
        decreases g.out@[u as int]@.len() - k,
    {
        let v = g.out[u][k];
        proof {
            lemma_inv_sizes(g, *st);
            assert(v as int == g.target(u as int, k as int));
            assert(g.edge(u as int, v as int));
            assert(st.path@.last() == u);
        }
        if !st.visited[v] {
            let ghost before = *st;
            dfs(g, v, st);
            proof {
                lemma_inv_sizes(g, *st);
                lemma_count_false_mono(before.visited@, st.visited@, -1);
                lemma_step_child(g, st0, before, *st, u, k as int);
            }
        } else if st.on_stack[v] {
            let pos = position_of(&st.path, v);
            let cycle = suffix_from(&st.path, pos);
            let ghost before = *st;
            st.cycles.push(cycle);
            st.affected.push(u);
            proof {
                lemma_record(g, before, *st, u, v, pos as int);
                lemma_step_seen(g, st0, before, *st, u, k as int);
            }
        } else {
            proof {
                lemma_step_seen(g, st0, *st, *st, u, k as int);
            }
        }
        k += 1;
    }
    let ghost st2 = *st;
    st.path.pop();
    st.on_stack.set(u, false);
    st.rank = Ghost(st.rank@.update(u as int, st.fin@));
    st.fin = Ghost(st.fin@ + 1);
    proof {
        reveal(step_inv);
        lemma_inv_sizes(g, st2);
        assert(st2.path@.drop_last() =~= st0.path@);
        lemma_leave(g, st2, *st, u);
        assert(st.on_stack@ =~= st0.on_stack@);
        assert forall|w: int| 0 <= w < g.n() && finished(st0, w) implies #[trigger] st.rank@[w] == st0.rank@[w] by {
            assert(finished(st2, w));
        }
    }
}


/// Some walk leads from one of `starts` to `v`.
pub open spec fn reaches(g: &Digraph, starts: Seq<usize>, v: int) -> bool {
    exists|p: Seq<usize>| #[trigger] is_walk(g, p) && starts.contains(p[0]) && p.last() == v
}

/// The outcome of a cycle search: the cycles found, each as the nodes of
/// the path from where it was entered back to the node whose edge closed
/// it, and those closing nodes.
pub struct CycleDetectionResult {
    pub has_cycle: bool,
    pub cycles: Vec<Vec<usize>>,
    pub cycle_count: usize,
    pub affected_nodes: Vec<usize>,
}

/// A walk that starts at a reached node stays among reached nodes, when
/// every edge of a reached node leads to a reached node.
proof fn lemma_walk_closed(g: &Digraph, vis: Seq<bool>, p: Seq<usize>)
    requires
        g.wf(),
        vis.len() == g.n(),
        forall|u: int, k: int| 0 <= u < g.n() && vis[u] && 0 <= k < g.out@[u]@.len() ==> vis[#[trigger] g.target(u, k)],
        is_walk(g, p),
        vis[p[0] as int],
    ensures
        vis[p.last() as int],
    decreases p.len(),
{
    if p.len() > 1 {
        let q = p.drop_last();
        assert forall|i: int| 0 <= i < q.len() - 1 implies g.edge(#[trigger] q[i] as int, q[i + 1] as int) by {
            assert(q[i] == p[i] && q[i + 1] == p[i + 1]);
        }
        assert forall|i: int| 0 <= i < q.len() implies #[trigger] q[i] < g.n() by {
            assert(q[i] == p[i]);
        }
        lemma_walk_closed(g, vis, q);
        let a = p[p.len() - 2] as int;
        assert(g.edge(a, p.last() as int));
        let k = choose|k: int| 0 <= k < g.out@[a]@.len() && #[trigger] g.target(a, k) == p.last() as int;
    }
}

/// With finishing ranks that fall along every edge, no cycle passes
/// through a finished node.
proof fn lemma_ranked_acyclic(g: &Digraph, st: DfsState, c: Seq<usize>)
    requires
        state_inv(g, st),
        st.cycles@.len() == 0,
        is_walk(g, c),
        finished(st, c[0] as int),
    ensures
        !is_cycle(g, c),
{
    reveal(state_inv);
    assert forall|i: int| 0 <= i < c.len() implies finished(st, #[trigger] c[i] as int) && st.rank@[c[i] as int] <= st.rank@[c[0] as int] - i by {
        lemma_rank_falls(g, st, c, i);
    }
    let l = c.last() as int;
    if g.edge(l, c[0] as int) {
        let k = choose|k: int| 0 <= k < g.out@[l]@.len() && #[trigger] g.target(l, k) == c[0] as int;
        assert(finished(st, c[c.len() - 1] as int));
    }
}

proof fn lemma_rank_falls(g: &Digraph, st: DfsState, c: Seq<usize>, i: int)
    requires
        state_inv(g, st),
        st.cycles@.len() == 0,
        is_walk(g, c),
        finished(st, c[0] as int),
        0 <= i < c.len(),
    ensures
        finished(st, c[i] as int),
        st.rank@[c[i] as int] <= st.rank@[c[0] as int] - i,
    decreases i,
{
    reveal(state_inv);
    if i > 0 {
        lemma_rank_falls(g, st, c, i - 1);
        let a = c[i - 1] as int;
        assert(g.edge(a, c[i] as int));
        let k = choose|k: int| 0 <= k < g.out@[a]@.len() && #[trigger] g.target(a, k) == c[i] as int;
        assert(finished(st, g.target(a, k)));
    }
}

/// A fresh search state for a graph of `n` nodes.
fn fresh_state(g: &Digraph) -> (st: DfsState)
    requires
        g.wf(),
    ensures
        state_inv(g, st),
        st.path@.len() == 0,
        st.cycles@.len() == 0,
        forall|v: int| 0 <= v < g.n() ==> !(#[trigger] st.visited@[v]),
        forall|v: int| 0 <= v < g.n() ==> !(#[trigger] st.on_stack@[v]),
{
    let n = g.out.len();
    let mut visited: Vec<bool> = Vec::new();
    let mut on_stack: Vec<bool> = Vec::new();
    let mut i: usize = 0;
    while i < n
        invariant
            n == g.n(),
            i <= n,
            visited@.len() == i,
            on_stack@.len() == i,
            forall|v: int| 0 <= v < i ==> !(#[trigger] visited@[v]),
            forall|v: int| 0 <= v < i ==> !(#[trigger] on_stack@[v]),
        decreases n - i,
    {
        visited.push(false);
        on_stack.push(false);
        i += 1;
    }
    let st = DfsState {
        visited,
        on_stack,
        path: Vec::new(),
        cycles: Vec::new(),
        affected: Vec::new(),
        rank: Ghost(Seq::new(n as nat, |v: int| -1int)),
        fin: Ghost(0int),
    };
    proof {
        reveal(state_inv);
        assert forall|v: int| 0 <= v < n implies #[trigger] st.rank@[v] == -1 by {}
        assert forall|v: int| 0 <= v < n implies ((st.visited@[v] && !st.on_stack@[v]) <==> #[trigger] finished(st, v)) by {
            assert(st.rank@[v] == -1);
        }
        assert(cycles_sound(g, st.cycles@, st.affected@));
    }
    st
}

/// Searches `g` depth first from each node of `starts` not reached yet,
/// all searches sharing what was reached. Every cycle reported is a cycle
/// of `g`, closed by an edge from the node reported with it; and when none
/// is reported, no cycle passes through a node that `starts` reach.
pub fn detect_cycles(g: &Digraph, starts: &Vec<usize>) -> (r: CycleDetectionResult)
    requires
        g.wf(),
        forall|i: int| 0 <= i < starts@.len() ==> #[trigger] starts@[i] < g.n(),
    ensures
        cycles_sound(g, r.cycles@, r.affected_nodes@),
        r.cycle_count == r.cycles@.len(),
        r.has_cycle == (r.cycles@.len() > 0),
        !r.has_cycle ==> forall|c: Seq<usize>| #[trigger] is_cycle(g, c) ==> !reaches(g, starts@, c[0] as int),
{
    let mut st = fresh_state(g);
    let ghost on0 = st.on_stack@;
    let mut i: usize = 0;
    while i < starts.len()
        invariant
            g.wf(),
            forall|j: int| 0 <= j < starts@.len() ==> #[trigger] starts@[j] < g.n(),
            state_inv(g, st),
            st.path@.len() == 0,
            st.on_stack@ == on0,
            forall|v: int| 0 <= v < g.n() ==> !(#[trigger] on0[v]),
            i <= starts@.len(),
            forall|j: int| 0 <= j < i ==> st.visited@[#[trigger] starts@[j] as int],
        decreases starts.len() - i,
    {
        let s = starts[i];
        proof {
            lemma_inv_sizes(g, st);
        }
        if !st.visited[s] {
            let ghost before = st;
            dfs(g, s, &mut st);
            proof {
                lemma_inv_sizes(g, st);
                assert(st.visited@[s as int]);
                assert forall|j: int| 0 <= j < i + 1 implies st.visited@[#[trigger] starts@[j] as int] by {
                    if j < i {
                        assert(before.visited@[starts@[j] as int]);
                    }
                }
            }
        }
        i += 1;
    }
    proof {
        lemma_inv_sizes(g, st);
        if st.cycles@.len() == 0 {
            reveal(state_inv);
            assert forall|c: Seq<usize>| #[trigger] is_cycle(g, c) implies !reaches(g, starts@, c[0] as int) by {
                if reaches(g, starts@, c[0] as int) {
                    let p = choose|p: Seq<usize>| #[trigger] is_walk(g, p) && starts@.contains(p[0]) && p.last() == c[0] as int;
                    let j = choose|j: int| 0 <= j < starts@.len() && starts@[j] == p[0];
                    assert(st.visited@[starts@[j] as int]);
                    assert forall|u: int, k: int| 0 <= u < g.n() && st.visited@[u] && 0 <= k < g.out@[u]@.len() implies st.visited@[#[trigger] g.target(u, k)] by {
                        assert(finished(st, u));
                    }
                    lemma_walk_closed(g, st.visited@, p);
                    assert(finished(st, c[0] as int));
                    lemma_ranked_acyclic(g, st, c);
                }
            }
        }
    }
    let count = st.cycles.len();
    CycleDetectionResult { has_cycle: count > 0, cycles: st.cycles, cycle_count: count, affected_nodes: st.affected }
}


/// How often `v` occurs in `s`.
pub open spec fn occ(s: Seq<usize>, v: int) -> nat
    decreases s.len(),
{
    if s.len() == 0 {
        0
    } else {
        occ(s.drop_last(), v) + if s.last() as int == v { 1nat } else { 0nat }
    }
}

/// The number of edges into `v` from the nodes below `m` that are not
/// removed.
pub open spec fn pred_count(g: &Digraph, rem: Seq<bool>, v: int, m: int) -> nat
    decreases m,
{
    if m <= 0 {
        0
    } else {
        pred_count(g, rem, v, m - 1) + if rem[m - 1] { 0nat } else { occ(g.out@[m - 1]@, v) }
    }
}

/// The number of edges leaving the nodes below `m`.
pub open spec fn edges_below(g: &Digraph, m: int) -> nat
    decreases m,
{
    if m <= 0 {
        0
    } else {
        edges_below(g, m - 1) + g.out@[m - 1]@.len()
    }
}

proof fn lemma_occ_take(s: Seq<usize>, v: int, k: int)
    requires
        0 <= k < s.len(),
    ensures
        occ(s.take(k + 1), v) == occ(s.take(k), v) + if s[k] as int == v { 1nat } else { 0nat },
{
    assert(s.take(k + 1).drop_last() =~= s.take(k));
}

proof fn lemma_occ_bounds(s: Seq<usize>, v: int, k: int)
    requires
        0 <= k <= s.len(),
    ensures
        occ(s.take(k), v) <= occ(s, v),
        occ(s, v) <= s.len(),
        occ(s, v) - occ(s.take(k), v) <= s.len() - k,
    decreases s.len() - k,
{
    if k == s.len() {
        assert(s.take(k) =~= s);
        lemma_occ_len(s, v);
    } else {
        lemma_occ_take(s, v, k);
        lemma_occ_bounds(s, v, k + 1);
    }
}

proof fn lemma_occ_len(s: Seq<usize>, v: int)
    ensures
        occ(s, v) <= s.len(),
    decreases s.len(),
{
    if s.len() > 0 {
        lemma_occ_len(s.drop_last(), v);
    }
}

proof fn lemma_occ_witness(s: Seq<usize>, v: int)
    ensures
        occ(s, v) > 0 <==> exists|k: int| 0 <= k < s.len() && s[k] as int == v,
    decreases s.len(),
{
    if s.len() > 0 {
        lemma_occ_witness(s.drop_last(), v);
        if occ(s.drop_last(), v) > 0 {
            let k = choose|k: int| 0 <= k < s.drop_last().len() && s.drop_last()[k] as int == v;
            assert(s[k] as int == v);
        }
        if exists|k: int| 0 <= k < s.len() && s[k] as int == v {
            let k = choose|k: int| 0 <= k < s.len() && s[k] as int == v;
            if k < s.len() - 1 {
                assert(s.drop_last()[k] as int == v);
            }
        }
    }
}

proof fn lemma_pred_step(g: &Digraph, rem: Seq<bool>, v: int, m: int)
    requires
        m >= 0,
    ensures
        pred_count(g, rem, v, m + 1) == pred_count(g, rem, v, m) + if rem[m] { 0nat } else { occ(g.out@[m]@, v) },
{
}

proof fn lemma_pred_le_edges(g: &Digraph, rem: Seq<bool>, v: int, m: int)
    requires
        0 <= m <= g.n(),
    ensures
        pred_count(g, rem, v, m) <= edges_below(g, m),
    decreases m,
{
    if m > 0 {
        lemma_pred_le_edges(g, rem, v, m - 1);
        lemma_occ_len(g.out@[m - 1]@, v);
    }
}

proof fn lemma_edges_mono(g: &Digraph, a: int, b: int)
    requires
        0 <= a <= b,
    ensures
        edges_below(g, a) <= edges_below(g, b),
    decreases b - a,
{
    if a < b {
        lemma_edges_mono(g, a, b - 1);
    }
}

proof fn lemma_pred_contrib(g: &Digraph, rem: Seq<bool>, v: int, m: int, u: int)
    requires
        0 <= u < m,
        !rem[u],
    ensures
        pred_count(g, rem, v, m) >= occ(g.out@[u]@, v),
    decreases m,
{
    if m - 1 > u {
        lemma_pred_contrib(g, rem, v, m - 1, u);
    }
}

proof fn lemma_pred_remove(g: &Digraph, rem: Seq<bool>, v: int, m: int, u: int)
    requires
        0 <= u,
        u < rem.len(),
        !rem[u],
        0 <= m <= rem.len(),
    ensures
        pred_count(g, rem.update(u, true), v, m) == pred_count(g, rem, v, m) - if u < m { occ(g.out@[u]@, v) } else { 0nat },
    decreases m,
{
    if m > 0 {
        lemma_pred_remove(g, rem, v, m - 1, u);
        if u < m - 1 {
            lemma_pred_contrib(g, rem, v, m - 1, u);
        }
    }
}

proof fn lemma_pred_witness(g: &Digraph, rem: Seq<bool>, v: int, m: int)
    ensures
        pred_count(g, rem, v, m) > 0 <==> exists|u: int, k: int| 0 <= u < m && !rem[u] && 0 <= k < g.out@[u]@.len() && #[trigger] g.target(u, k) == v,
    decreases m,
{
    if m > 0 {
        lemma_pred_witness(g, rem, v, m - 1);
        lemma_occ_witness(g.out@[m - 1]@, v);
        if exists|u: int, k: int| 0 <= u < m && !rem[u] && 0 <= k < g.out@[u]@.len() && #[trigger] g.target(u, k) == v {
            let (u, k) = choose|u: int, k: int| 0 <= u < m && !rem[u] && 0 <= k < g.out@[u]@.len() && #[trigger] g.target(u, k) == v;
            if u == m - 1 {
                assert(g.out@[u]@[k] as int == v);
            }
        }
        if pred_count(g, rem, v, m - 1) > 0 {
            let (u, k) = choose|u: int, k: int| 0 <= u < m - 1 && !rem[u] && 0 <= k < g.out@[u]@.len() && #[trigger] g.target(u, k) == v;
            assert(g.target(u, k) == v);
        } else if !rem[m - 1] && occ(g.out@[m - 1]@, v) > 0 {
            let s = g.out@[m - 1]@;
            let k = choose|k: int| 0 <= k < s.len() && s[k] as int == v;
            assert(g.target(m - 1, k) == v);
        }
    }
}


/// No node removed.
pub open spec fn none_removed(n: int) -> Seq<bool> {
    Seq::new(n as nat, |i: int| false)
}

/// The number of edges into each node.
pub fn in_degrees(g: &Digraph) -> (r: Vec<usize>)
    requires
        g.wf(),
        edges_below(g, g.n()) <= usize::MAX,
    ensures
        r@.len() == g.n(),
        forall|v: int| 0 <= v < g.n() ==> #[trigger] r@[v] == pred_count(g, none_removed(g.n()), v, g.n()),
{
    let n = g.out.len();
    let ghost none = none_removed(n as int);
    let mut r: Vec<usize> = Vec::new();
    let mut i: usize = 0;
    while i < n
        invariant
            n == g.n(),
            i <= n,
            r@.len() == i,
            forall|v: int| 0 <= v < i ==> #[trigger] r@[v] == 0,
        decreases n - i,
    {
        r.push(0);
        i += 1;
    }
    let mut u: usize = 0;
    while u < n
        invariant
            g.wf(),
            n == g.n(),
            none == none_removed(n as int),
            edges_below(g, n as int) <= usize::MAX,
            u <= n,
            r@.len() == n,
            forall|v: int| 0 <= v < n ==> #[trigger] r@[v] == pred_count(g, none, v, u as int),
        decreases n - u,
    {
        let ghost r0 = r@;
        let mut k: usize = 0;
        let len = g.out[u].len();
        proof {
            assert forall|v: int| 0 <= v < n implies #[trigger] r@[v] == pred_count(g, none, v, u as int) + occ(g.out@[u as int]@.take(0), v) by {
                assert(g.out@[u as int]@.take(0).len() == 0);
            }
            lemma_edges_mono(g, u as int + 1, n as int);
        }
        while k < len
            invariant
                g.wf(),
                n == g.n(),
                u < n,
                len == g.out@[u as int]@.len(),
                none == none_removed(n as int),
                edges_below(g, u as int + 1) <= usize::MAX,
                k <= len,
                r@.len() == n,
                forall|v: int| 0 <= v < n ==> #[trigger] r@[v] == pred_count(g, none, v, u as int) + occ(g.out@[u as int]@.take(k as int), v),
            decreases len - k,
        {
            let v = g.out[u][k];
            assert(v as int == g.target(u as int, k as int));
            proof {
                lemma_pred_le_edges(g, none, v as int, u as int);
                lemma_occ_bounds(g.out@[u as int]@, v as int, k as int);
                lemma_occ_take(g.out@[u as int]@, v as int, k as int);
                lemma_occ_bounds(g.out@[u as int]@, v as int, k as int + 1);
                assert(g.out@[u as int]@.take(k as int).len() == k);
                lemma_occ_len(g.out@[u as int]@.take(k as int), v as int);
            }
            let c = r[v];
            r.set(v, c + 1);
            proof {
                assert forall|w: int| 0 <= w < n implies #[trigger] r@[w] == pred_count(g, none, w, u as int) + occ(g.out@[u as int]@.take(k + 1), w) by {
                    lemma_occ_take(g.out@[u as int]@, w, k as int);
                }
            }
            k += 1;
        }
        proof {
            assert(g.out@[u as int]@.take(len as int) =~= g.out@[u as int]@);
            assert forall|v: int| 0 <= v < n implies #[trigger] r@[v] == pred_count(g, none, v, u + 1) by {
                lemma_pred_step(g, none, v, u as int);
            }
        }
        u += 1;
    }
    r
}


/// No node occurs twice.
pub open spec fn distinct_nodes(q: Seq<usize>) -> bool {
    forall|i: int, j: int| 0 <= i < j < q.len() ==> q[i] != q[j]
}

/// Every edge into a node of `q` at a position below `upto` comes from a
/// node earlier in `q`.
pub open spec fn preds_first(g: &Digraph, q: Seq<usize>, upto: int) -> bool {
    forall|j: int, u: int, k: int|
        #![trigger g.target(u, k), q[j]]
        0 <= j < upto && 0 <= u < g.n() && 0 <= k < g.out@[u]@.len() && g.target(u, k) == q[j] as int
            ==> exists|i: int| 0 <= i < j && q[i] as int == u
}

/// Some edge into `v` comes from a node that `order` leaves out.
pub open spec fn pred_left_out(g: &Digraph, order: Seq<usize>, v: int) -> bool {
    exists|u: int, k: int| 0 <= u < g.n() && 0 <= k < g.out@[u]@.len() && #[trigger] g.target(u, k) == v
        && !order.contains(u as usize)
}

#[verifier::opaque]
spec fn kahn_inv(g: &Digraph, q: Seq<usize>, head: int, indeg: Seq<usize>, rem: Seq<bool>) -> bool {
    let n = g.n();
    &&& indeg.len() == n
    &&& rem.len() == n
    &&& 0 <= head <= q.len()
    &&& forall|i: int| 0 <= i < q.len() ==> #[trigger] q[i] < n
    &&& distinct_nodes(q)
    &&& forall|i: int| 0 <= i < head ==> rem[#[trigger] q[i] as int]
    &&& forall|w: int| 0 <= w < n && #[trigger] rem[w] ==> exists|i: int| 0 <= i < head && q[i] as int == w
    &&& forall|v: int| 0 <= v < n ==> #[trigger] indeg[v] == pred_count(g, rem, v, n as int)
    &&& forall|v: int| 0 <= v < n ==> (#[trigger] indeg[v] == 0 <==> q.contains(v as usize))
    &&& preds_first(g, q, head)
}

proof fn lemma_kahn_facts(g: &Digraph, q: Seq<usize>, head: int, indeg: Seq<usize>, rem: Seq<bool>)
    requires
        kahn_inv(g, q, head, indeg, rem),
    ensures
        indeg.len() == g.n(),
        rem.len() == g.n(),
        0 <= head <= q.len(),
        forall|i: int| 0 <= i < q.len() ==> #[trigger] q[i] < g.n(),
        distinct_nodes(q),
        forall|i: int| 0 <= i < head ==> rem[#[trigger] q[i] as int],
        forall|v: int| 0 <= v < g.n() ==> (#[trigger] indeg[v] == 0 <==> q.contains(v as usize)),
{
    reveal(kahn_inv);
}

/// Taking the node at `head` off the queue: it is removed, and every edge
/// into it comes from a node removed before.
proof fn lemma_kahn_pop(g: &Digraph, q: Seq<usize>, head: int, indeg: Seq<usize>, rem: Seq<bool>)
    requires
        kahn_inv(g, q, head, indeg, rem),
        head < q.len(),
    ensures
        !rem[q[head] as int],
        preds_first(g, q, head + 1),
        forall|v: int| 0 <= v < g.n() ==> #[trigger] indeg[v] == pred_count(g, rem.update(q[head] as int, true), v, g.n())
            + occ(g.out@[q[head] as int]@, v),
        forall|w: int| 0 <= w < g.n() && #[trigger] rem.update(q[head] as int, true)[w] ==> exists|i: int| 0 <= i < head + 1 && q[i] as int == w,
        forall|i: int| 0 <= i < head + 1 ==> rem.update(q[head] as int, true)[#[trigger] q[i] as int],
{
    reveal(kahn_inv);
    let n = g.n();
    let u = q[head] as int;
    if rem[u] {
        let i = choose|i: int| 0 <= i < head && q[i] as int == u;
        assert(q[i] == q[head]);
    }
    assert(q.contains(q[head]));
    assert(indeg[u] == 0);
    assert forall|j: int, uu: int, k: int|
        #![trigger g.target(uu, k), q[j]]
        0 <= j < head + 1 && 0 <= uu < n && 0 <= k < g.out@[uu]@.len() && g.target(uu, k) == q[j] as int
            implies exists|i: int| 0 <= i < j && q[i] as int == uu by {
        if j == head {
            if !rem[uu] {
                lemma_pred_witness(g, rem, u, n);
                assert(g.target(uu, k) == u);
            }
            let i = choose|i: int| 0 <= i < head && q[i] as int == uu;
        }
    }
    assert forall|v: int| 0 <= v < n implies #[trigger] indeg[v] == pred_count(g, rem.update(u, true), v, n) + occ(g.out@[u]@, v) by {
        lemma_pred_remove(g, rem, v, n, u);
        lemma_pred_contrib(g, rem, v, n, u);
    }
    assert forall|w: int| 0 <= w < n && #[trigger] rem.update(u, true)[w] implies exists|i: int| 0 <= i < head + 1 && q[i] as int == w by {
        if w != u {
            assert(rem[w]);
            let i = choose|i: int| 0 <= i < head && q[i] as int == w;
        }
    }
}

proof fn lemma_distinct_bounded(s: Seq<int>, n: int)
    requires
        n >= 0,
        forall|i: int| 0 <= i < s.len() ==> 0 <= #[trigger] s[i] < n,
        s.no_duplicates(),
    ensures
        s.len() <= n,
{
    s.unique_seq_to_set();
    vstd::set_lib::lemma_int_range(0, n);
    assert(s.to_set().subset_of(vstd::set_lib::set_int_range(0, n)));
    vstd::set_lib::lemma_len_subset(s.to_set(), vstd::set_lib::set_int_range(0, n));
}

/// Following edges backwards from `v`, `m` times, through nodes that
/// `order` leaves out.
spec fn back_chain(g: &Digraph, order: Seq<usize>, v: int, m: nat) -> Seq<int>
    decreases m,
{
    if m == 0 {
        seq![v]
    } else {
        let c = back_chain(g, order, v, (m - 1) as nat);
        let w = c.last();
        let (u, k) = choose|u: int, k: int| 0 <= u < g.n() && 0 <= k < g.out@[u]@.len() && #[trigger] g.target(u, k) == w
            && !order.contains(u as usize);
        c.push(u)
    }
}

proof fn lemma_back_chain(g: &Digraph, order: Seq<usize>, v: int, m: nat)
    requires
        g.wf(),
        0 <= v < g.n(),
        !order.contains(v as usize),
        forall|x: int| 0 <= x < g.n() && !order.contains(x as usize) ==> #[trigger] pred_left_out(g, order, x),
    ensures
        back_chain(g, order, v, m).len() == m + 1,
        back_chain(g, order, v, m)[0] == v,
        forall|i: int| 0 <= i <= m ==> 0 <= #[trigger] back_chain(g, order, v, m)[i] < g.n()
            && !order.contains(back_chain(g, order, v, m)[i] as usize),
        forall|i: int| 0 <= i < m ==> g.edge(back_chain(g, order, v, m)[i + 1], #[trigger] back_chain(g, order, v, m)[i]),
    decreases m,
{
    if m > 0 {
        lemma_back_chain(g, order, v, (m - 1) as nat);
        let c = back_chain(g, order, v, (m - 1) as nat);
        let w = c.last();
        assert(0 <= w < g.n() && !order.contains(w as usize)) by {
            assert(c[m - 1] == w);
        }
        assert(pred_left_out(g, order, w));
        let (u, k) = choose|u: int, k: int| 0 <= u < g.n() && 0 <= k < g.out@[u]@.len() && #[trigger] g.target(u, k) == w
            && !order.contains(u as usize);
        let d = back_chain(g, order, v, m);
        assert(d == c.push(u));
        assert forall|i: int| 0 <= i < m implies g.edge(d[i + 1], #[trigger] d[i]) by {
            if i < m - 1 {
                assert(d[i] == c[i] && d[i + 1] == c[i + 1]);
            } else {
                assert(d[i] == w && d[i + 1] == u);
            }
        }
        assert forall|i: int| 0 <= i <= m implies 0 <= #[trigger] d[i] < g.n() && !order.contains(d[i] as usize) by {
            if i < m {
                assert(d[i] == c[i]);
            }
        }
    }
}

/// If every node that `order` leaves out has an edge in from another node
/// left out, and one is left out, then the graph has a cycle.
proof fn lemma_left_out_cycle(g: &Digraph, order: Seq<usize>, v: int)
    requires
        g.wf(),
        0 <= v < g.n(),
        !order.contains(v as usize),
        forall|x: int| 0 <= x < g.n() && !order.contains(x as usize) ==> #[trigger] pred_left_out(g, order, x),
    ensures
        exists|c: Seq<usize>| #[trigger] is_cycle(g, c),
{
    let n = g.n();
    lemma_back_chain(g, order, v, n as nat);
    let ch = back_chain(g, order, v, n as nat);
    if ch.no_duplicates() {
        lemma_distinct_bounded(ch, n);
    }
    let (i, j) = choose|i: int, j: int| 0 <= i < ch.len() && 0 <= j < ch.len() && i != j && ch[i] == ch[j];
    let lo = if i < j { i } else { j };
    let hi = if i < j { j } else { i };
    let c = Seq::new((hi - lo) as nat, |t: int| ch[hi - t] as usize);
    assert forall|t: int| 0 <= t < c.len() implies #[trigger] c[t] < g.n() by {
        assert(0 <= ch[hi - t] < n);
    }
    assert forall|t: int| 0 <= t < c.len() - 1 implies g.edge(#[trigger] c[t] as int, c[t + 1] as int) by {
        let b = hi - t - 1;
        assert(g.edge(ch[b + 1], ch[b]));
        assert(0 <= ch[hi - t] < n && 0 <= ch[b] < n);
    }
    assert(g.edge(ch[lo + 1], ch[lo]));
    assert(0 <= ch[lo + 1] < n && 0 <= ch[hi] < n);
    assert(c.last() as int == ch[lo + 1]);
    assert(c[0] as int == ch[hi]);
    assert(is_cycle(g, c));
}

/// Sorts the nodes so that every edge goes forward, by Kahn's method:
/// nodes with no edge in are taken first, in increasing order, and a node
/// joins the queue once every edge into it comes from a node taken. Every
/// edge into a node of the result comes from a node earlier in the result;
/// a node is left out only when some edge into it comes from a node left
/// out, which happens exactly where cycles are.
pub fn topological_sort(g: &Digraph) -> (order: Vec<usize>)
    requires
        g.wf(),
        edges_below(g, g.n()) <= usize::MAX,
    ensures
        forall|i: int| 0 <= i < order@.len() ==> #[trigger] order@[i] < g.n(),
        distinct_nodes(order@),
        preds_first(g, order@, order@.len() as int),
        forall|v: int| 0 <= v < g.n() && !order@.contains(v as usize) ==> #[trigger] pred_left_out(g, order@, v),
        (forall|c: Seq<usize>| !(#[trigger] is_cycle(g, c))) ==> forall|v: int| 0 <= v < g.n() ==> #[trigger] order@.contains(v as usize),
{
    let n = g.out.len();
    let mut indeg = in_degrees(g);
    let ghost none = none_removed(n as int);
    let mut q: Vec<usize> = Vec::new();
    let mut i: usize = 0;
    while i < n
        invariant
            n == g.n(),
            i <= n,
            indeg@.len() == n,
            forall|a: int| 0 <= a < q@.len() ==> #[trigger] q@[a] < i,
            forall|a: int, b: int| 0 <= a < b < q@.len() ==> q@[a] < q@[b],
            forall|a: int| 0 <= a < q@.len() ==> indeg@[#[trigger] q@[a] as int] == 0,
            forall|v: int| 0 <= v < i && #[trigger] indeg@[v] == 0 ==> q@.contains(v as usize),
        decreases n - i,
    {
        if indeg[i] == 0 {
            let ghost q0 = q@;
            q.push(i);
            proof {
                assert forall|v: int| 0 <= v < i + 1 && #[trigger] indeg@[v] == 0 implies q@.contains(v as usize) by {
                    if v == i as int {
                        assert(q@[q0.len() as int] == i);
                    } else {
                        let a = choose|a: int| 0 <= a < q0.len() && q0[a] == v as usize;
                        assert(q@[a] == v as usize);
                    }
                }
            }
        }
        i += 1;
    }
    let ghost mut rem = none;
    proof {
        reveal(kahn_inv);
        assert forall|v: int| 0 <= v < n implies (#[trigger] indeg@[v] == 0 <==> q@.contains(v as usize)) by {
            if q@.contains(v as usize) {
                let a = choose|a: int| 0 <= a < q@.len() && q@[a] == v as usize;
            }
        }
        assert forall|a: int, b: int| 0 <= a < b < q@.len() implies q@[a] != q@[b] by {}
        assert(kahn_inv(g, q@, 0, indeg@, rem));
    }
    let mut head: usize = 0;
    while head < q.len()
        invariant
            g.wf(),
            n == g.n(),
            kahn_inv(g, q@, head as int, indeg@, rem),
        decreases count_false(rem),
    {
        let u = q[head];
        proof {
            lemma_kahn_facts(g, q@, head as int, indeg@, rem);
            lemma_kahn_pop(g, q@, head as int, indeg@, rem);
        }
        let ghost rem0 = rem;
        let ghost q0 = q@;
        proof {
            rem = rem.update(u as int, true);
            lemma_count_false_mono(rem0, rem, u as int);
        }
        let len = g.out[u].len();
        let mut k: usize = 0;
        proof {
            assert forall|v: int| 0 <= v < n implies #[trigger] indeg@[v] == pred_count(g, rem, v, n as int)
                + occ(g.out@[u as int]@, v) - occ(g.out@[u as int]@.take(0), v) by {
                assert(g.out@[u as int]@.take(0).len() == 0);
            }
        }
        while k < len
            invariant
                g.wf(),
                n == g.n(),
                u < n,
                len == g.out@[u as int]@.len(),
                k <= len,
                indeg@.len() == n,
                rem.len() == n,
                head < q0.len(),
                q@.len() >= q0.len(),
                forall|a: int| 0 <= a < q0.len() ==> #[trigger] q@[a] == q0[a],
                forall|a: int| 0 <= a < q@.len() ==> #[trigger] q@[a] < n,
                distinct_nodes(q@),
                forall|v: int| 0 <= v < n ==> #[trigger] indeg@[v] == pred_count(g, rem, v, n as int)
                    + occ(g.out@[u as int]@, v) - occ(g.out@[u as int]@.take(k as int), v),
                forall|v: int| 0 <= v < n ==> (#[trigger] indeg@[v] == 0 <==> q@.contains(v as usize)),
            decreases len - k,
        {
            let v = g.out[u][k];
            assert(v as int == g.target(u as int, k as int));
            proof {
                lemma_occ_take(g.out@[u as int]@, v as int, k as int);
                lemma_occ_bounds(g.out@[u as int]@, v as int, k as int + 1);
            }
            let c = indeg[v];
            indeg.set(v, c - 1);
            let ghost qb = q@;
            if c - 1 == 0 {
                q.push(v);
            }
            proof {
                assert forall|w: int| 0 <= w < n implies #[trigger] indeg@[w] == pred_count(g, rem, w, n as int)
                    + occ(g.out@[u as int]@, w) - occ(g.out@[u as int]@.take(k + 1), w) by {
                    lemma_occ_take(g.out@[u as int]@, w, k as int);
                }
                if c - 1 == 0 {
                    assert(!qb.contains(v));
                    assert forall|a: int, b: int| 0 <= a < b < q@.len() implies q@[a] != q@[b] by {
                        if b == qb.len() {
                            assert(qb[a] != v);
                        }
                    }
                    assert forall|w: int| 0 <= w < n implies (#[trigger] indeg@[w] == 0 <==> q@.contains(w as usize)) by {
                        if w == v as int {
                            assert(q@[qb.len() as int] == v);
                        } else if qb.contains(w as usize) {
                            let a = choose|a: int| 0 <= a < qb.len() && qb[a] == w as usize;
                            assert(q@[a] == w as usize);
                        } else if q@.contains(w as usize) {
                            let a = choose|a: int| 0 <= a < q@.len() && q@[a] == w as usize;
                            assert(a < qb.len());
                        }
                    }
                } else {
                    assert(q@ == qb);
                }
            }
            k += 1;
        }
        proof {
            assert(g.out@[u as int]@.take(len as int) =~= g.out@[u as int]@);
            reveal(kahn_inv);
            assert forall|a: int| 0 <= a < head + 1 implies rem[#[trigger] q@[a] as int] by {
                assert(q@[a] == q0[a]);
            }
            assert forall|w: int| 0 <= w < n && #[trigger] rem[w] implies exists|a: int| 0 <= a < head + 1 && q@[a] as int == w by {
                let a = choose|a: int| 0 <= a < head + 1 && q0[a] as int == w;
                assert(q@[a] == q0[a]);
            }
            assert forall|j: int, uu: int, kk: int|
                #![trigger g.target(uu, kk), q@[j]]
                0 <= j < head + 1 && 0 <= uu < n && 0 <= kk < g.out@[uu]@.len() && g.target(uu, kk) == q@[j] as int
                    implies exists|a: int| 0 <= a < j && q@[a] as int == uu by {
                assert(q@[j] == q0[j]);
                assert(g.target(uu, kk) == q0[j] as int);
                let a = choose|a: int| 0 <= a < j && q0[a] as int == uu;
                assert(q@[a] == q0[a]);
            }
        }
        head += 1;
    }
    proof {
        lemma_kahn_facts(g, q@, head as int, indeg@, rem);
        reveal(kahn_inv);
        assert forall|v: int| 0 <= v < g.n() && !q@.contains(v as usize) implies #[trigger] pred_left_out(g, q@, v) by {
            assert(indeg@[v] != 0);
            lemma_pred_witness(g, rem, v, g.n());
            let (u, k) = choose|u: int, k: int| 0 <= u < g.n() && !rem[u] && 0 <= k < g.out@[u]@.len() && #[trigger] g.target(u, k) == v;
            if q@.contains(u as usize) {
                let a = choose|a: int| 0 <= a < q@.len() && q@[a] == u as usize;
                assert(rem[q@[a] as int]);
            }
        }
        if forall|c: Seq<usize>| !(#[trigger] is_cycle(g, c)) {
            assert forall|v: int| 0 <= v < g.n() implies #[trigger] q@.contains(v as usize) by {
                if !q@.contains(v as usize) {
                    lemma_left_out_cycle(g, q@, v);
                }
            }
        }
    }
    q
}


/// When a search from every node finds no cycle, Kahn's order holds every
/// node: the cycle search decides which of the two ways a longest path is
/// looked for.
pub proof fn lemma_no_cycle_found_sorts_all(g: &Digraph, starts: Seq<usize>, order: Seq<usize>)
    requires
        g.wf(),
        forall|v: int| 0 <= v < g.n() ==> #[trigger] starts.contains(v as usize),
        forall|c: Seq<usize>| #[trigger] is_cycle(g, c) ==> !reaches(g, starts, c[0] as int),
        forall|v: int| 0 <= v < g.n() && !order.contains(v as usize) ==> #[trigger] pred_left_out(g, order, v),
    ensures
        forall|v: int| 0 <= v < g.n() ==> #[trigger] order.contains(v as usize),
{
    assert forall|v: int| 0 <= v < g.n() implies #[trigger] order.contains(v as usize) by {
        if !order.contains(v as usize) {
            lemma_left_out_cycle(g, order, v);
            let c = choose|c: Seq<usize>| #[trigger] is_cycle(g, c);
            let p = seq![c[0]];
            let v0 = c[0] as int;
            assert(0 <= v0 < g.n());
            assert(starts.contains(v0 as usize));
            assert(is_walk(g, p));
        }
    }
}

/// The nodes with an edge into `v`, by source node and then edge.
pub fn incoming(g: &Digraph, v: usize) -> (r: Vec<usize>)
    requires
        g.wf(),
    ensures
        forall|i: int| 0 <= i < r@.len() ==> #[trigger] r@[i] < g.n() && g.edge(r@[i] as int, v as int),
        forall|u: int| 0 <= u < g.n() && g.edge(u, v as int) ==> #[trigger] r@.contains(u as usize),
{
    let n = g.out.len();
    let mut r: Vec<usize> = Vec::new();
    let mut u: usize = 0;
    while u < n
        invariant
            n == g.n(),
            u <= n,
            forall|i: int| 0 <= i < r@.len() ==> #[trigger] r@[i] < g.n() && g.edge(r@[i] as int, v as int),
            forall|w: int| 0 <= w < u && g.edge(w, v as int) ==> #[trigger] r@.contains(w as usize),
        decreases n - u,
    {
        let len = g.out[u].len();
        let mut k: usize = 0;
        let ghost r0 = r@;
        while k < len
            invariant
                n == g.n(),
                u < n,
                len == g.out@[u as int]@.len(),
                k <= len,
                r@.len() >= r0.len(),
                forall|i: int| 0 <= i < r0.len() ==> #[trigger] r@[i] == r0[i],
                forall|i: int| 0 <= i < r@.len() ==> #[trigger] r@[i] < g.n() && g.edge(r@[i] as int, v as int),
                forall|j: int| 0 <= j < k && #[trigger] g.target(u as int, j) == v as int ==> r@.contains(u),
                forall|w: int| 0 <= w < u && g.edge(w, v as int) ==> #[trigger] r0.contains(w as usize),
            decreases len - k,
        {
            if g.out[u][k] == v {
                assert(g.target(u as int, k as int) == v as int);
                r.push(u);
                assert(r@[r@.len() - 1] == u);
            }
            k += 1;
        }
        proof {
            assert forall|w: int| 0 <= w < u + 1 && g.edge(w, v as int) implies #[trigger] r@.contains(w as usize) by {
                if w < u {
                    assert(r0.contains(w as usize));
                    let i = choose|i: int| 0 <= i < r0.len() && r0[i] == w as usize;
                    assert(r@[i] == w as usize);
                } else {
                    let k = choose|k: int| 0 <= k < g.out@[w]@.len() && #[trigger] g.target(w, k) == v as int;
                    assert(g.target(u as int, k) == v as int);
                    assert(r@.contains(u));
                }
            }
        }
        u += 1;
    }
    r
}


/// `p` is a walk from `a` to `b`.
pub open spec fn walk_between(g: &Digraph, p: Seq<usize>, a: int, b: int) -> bool {
    is_walk(g, p) && p[0] as int == a && p.last() as int == b
}

/// `p` runs backwards from `a` to `b`: each node has an edge to the one
/// before it.
pub open spec fn back_walk(g: &Digraph, p: Seq<usize>, a: int, b: int) -> bool {
    &&& p.len() > 0
    &&& forall|i: int| 0 <= i < p.len() ==> #[trigger] p[i] < g.n()
    &&& forall|i: int| 0 <= i < p.len() - 1 ==> g.edge(p[i + 1] as int, #[trigger] p[i] as int)
    &&& p[0] as int == a
    &&& p.last() as int == b
}

proof fn lemma_walk_push(g: &Digraph, p: Seq<usize>, a: int, b: int, x: usize)
    requires
        walk_between(g, p, a, b),
        x < g.n(),
        g.edge(b, x as int),
    ensures
        walk_between(g, p.push(x), a, x as int),
{
    let q = p.push(x);
    assert forall|i: int| 0 <= i < q.len() implies #[trigger] q[i] < g.n() by {
        if i < p.len() {
            assert(q[i] == p[i]);
        }
    }
    assert forall|i: int| 0 <= i < q.len() - 1 implies g.edge(#[trigger] q[i] as int, q[i + 1] as int) by {
        assert(q[i] == p[i]);
        if i < p.len() - 1 {
            assert(q[i + 1] == p[i + 1]);
        }
    }
}

proof fn lemma_back_push(g: &Digraph, p: Seq<usize>, a: int, b: int, x: usize)
    requires
        back_walk(g, p, a, b),
        x < g.n(),
        g.edge(x as int, b),
    ensures
        back_walk(g, p.push(x), a, x as int),
{
    let q = p.push(x);
    assert forall|i: int| 0 <= i < q.len() implies #[trigger] q[i] < g.n() by {
        if i < p.len() {
            assert(q[i] == p[i]);
        }
    }
    assert forall|i: int| 0 <= i < q.len() - 1 implies g.edge(q[i + 1] as int, #[trigger] q[i] as int) by {
        assert(q[i] == p[i]);
        if i < p.len() - 1 {
            assert(q[i + 1] == p[i + 1]);
        }
    }
}

proof fn lemma_count_false_set(s: Seq<bool>, i: int)
    requires
        0 <= i < s.len(),
        !s[i],
    ensures
        count_false(s.update(i, true)) + 1 == count_false(s),
    decreases s.len(),
{
    if i < s.len() - 1 {
        assert(s.update(i, true).drop_last() =~= s.drop_last().update(i, true));
        lemma_count_false_set(s.drop_last(), i);
    } else {
        assert(s.update(i, true).drop_last() =~= s.drop_last());
    }
}

/// A walk ending at a reached node starts at one, when every edge into a
/// reached node comes from a reached node.
proof fn lemma_walk_closed_back(g: &Digraph, vis: Seq<bool>, p: Seq<usize>)
    requires
        vis.len() == g.n(),
        forall|u: int, w: int| 0 <= u < g.n() && 0 <= w < g.n() && vis[w] && #[trigger] g.edge(u, w) ==> vis[u],
        is_walk(g, p),
        vis[p.last() as int],
    ensures
        vis[p[0] as int],
    decreases p.len(),
{
    if p.len() > 1 {
        let q = p.drop_last();
        assert forall|i: int| 0 <= i < q.len() - 1 implies g.edge(#[trigger] q[i] as int, q[i + 1] as int) by {
            assert(q[i] == p[i] && q[i + 1] == p[i + 1]);
        }
        assert forall|i: int| 0 <= i < q.len() implies #[trigger] q[i] < g.n() by {
            assert(q[i] == p[i]);
        }
        assert(g.edge(p[p.len() - 2] as int, p.last() as int));
        assert(vis[q.last() as int]);
        lemma_walk_closed_back(g, vis, q);
    }
}

/// The forward half of a two-sided search from `from` towards `to`.
#[verifier::opaque]
spec fn fwd_inv(g: &Digraph, from: usize, to: usize, vis: Seq<bool>, paths: Seq<Vec<usize>>, q: Seq<usize>, h: int) -> bool {
    let n = g.n();
    &&& g.wf()
    &&& vis.len() == n
    &&& paths.len() == n
    &&& 0 <= h <= q.len()
    &&& forall|i: int| 0 <= i < q.len() ==> #[trigger] q[i] < n && vis[q[i] as int]
    &&& forall|v: int| 0 <= v < n && #[trigger] vis[v] ==> q.contains(v as usize)
    &&& forall|v: int| 0 <= v < n && #[trigger] vis[v] ==> walk_between(g, paths[v]@, from as int, v)
    &&& from < n && vis[from as int]
    &&& forall|i: int, k: int| 0 <= i < h && 0 <= k < g.out@[q[i] as int]@.len() ==> vis[#[trigger] g.target(#[trigger] q[i] as int, k)]
    &&& forall|i: int| 0 <= i < h ==> #[trigger] q[i] != to
}

/// The backward half of a two-sided search from `from` towards `to`.
#[verifier::opaque]
spec fn bwd_inv(g: &Digraph, from: usize, to: usize, vis: Seq<bool>, paths: Seq<Vec<usize>>, q: Seq<usize>, h: int) -> bool {
    let n = g.n();
    &&& g.wf()
    &&& vis.len() == n
    &&& paths.len() == n
    &&& 0 <= h <= q.len()
    &&& forall|i: int| 0 <= i < q.len() ==> #[trigger] q[i] < n && vis[q[i] as int]
    &&& forall|v: int| 0 <= v < n && #[trigger] vis[v] ==> q.contains(v as usize)
    &&& forall|v: int| 0 <= v < n && #[trigger] vis[v] ==> back_walk(g, paths[v]@, to as int, v)
    &&& to < n && vis[to as int]
    &&& forall|i: int, u: int| 0 <= i < h && 0 <= u < n && g.edge(u, #[trigger] q[i] as int) ==> #[trigger] vis[u]
    &&& forall|i: int| 0 <= i < h ==> #[trigger] q[i] != from
}

proof fn lemma_fwd_facts(g: &Digraph, from: usize, to: usize, vis: Seq<bool>, paths: Seq<Vec<usize>>, q: Seq<usize>, h: int)
    requires
        fwd_inv(g, from, to, vis, paths, q, h),
    ensures
        vis.len() == g.n(),
        paths.len() == g.n(),
        0 <= h <= q.len(),
        forall|i: int| 0 <= i < q.len() ==> #[trigger] q[i] < g.n() && vis[q[i] as int],
        forall|v: int| 0 <= v < g.n() && #[trigger] vis[v] ==> walk_between(g, paths[v]@, from as int, v),
{
    reveal(fwd_inv);
}

proof fn lemma_bwd_facts(g: &Digraph, from: usize, to: usize, vis: Seq<bool>, paths: Seq<Vec<usize>>, q: Seq<usize>, h: int)
    requires
        bwd_inv(g, from, to, vis, paths, q, h),
    ensures
        vis.len() == g.n(),
        paths.len() == g.n(),
        0 <= h <= q.len(),
        forall|i: int| 0 <= i < q.len() ==> #[trigger] q[i] < g.n() && vis[q[i] as int],
        forall|v: int| 0 <= v < g.n() && #[trigger] vis[v] ==> back_walk(g, paths[v]@, to as int, v),
        vis[to as int],
{
    reveal(bwd_inv);
}

/// With every reached node expanded, `to` not among them, no walk leads
/// from `from` to `to`.
proof fn lemma_fwd_exhausted(g: &Digraph, from: usize, to: usize, vis: Seq<bool>, paths: Seq<Vec<usize>>, q: Seq<usize>, h: int)
    requires
        fwd_inv(g, from, to, vis, paths, q, h),
        h == q.len(),
    ensures
        !reaches(g, seq![from], to as int),
{
    reveal(fwd_inv);
    let n = g.n();
    if reaches(g, seq![from], to as int) {
        let p = choose|p: Seq<usize>| #[trigger] is_walk(g, p) && seq![from].contains(p[0]) && p.last() as int == to as int;
        assert(seq![from][0] == from);
        assert forall|u: int, k: int| 0 <= u < n && vis[u] && 0 <= k < g.out@[u]@.len() implies vis[#[trigger] g.target(u, k)] by {
            assert(q.contains(u as usize));
            let i = choose|i: int| 0 <= i < q.len() && q[i] == u as usize;
            assert(vis[g.target(q[i] as int, k)]);
        }
        lemma_walk_closed(g, vis, p);
        assert(vis[to as int]);
        assert(q.contains(to));
        let i = choose|i: int| 0 <= i < q.len() && q[i] == to;
        assert(q[i] != to);
    }
}

/// With every node reached backwards expanded, `from` not among them, no
/// walk leads from `from` to `to`.
proof fn lemma_bwd_exhausted(g: &Digraph, from: usize, to: usize, vis: Seq<bool>, paths: Seq<Vec<usize>>, q: Seq<usize>, h: int)
    requires
        bwd_inv(g, from, to, vis, paths, q, h),
        h == q.len(),
    ensures
        !reaches(g, seq![from], to as int),
{
    reveal(bwd_inv);
    let n = g.n();
    if reaches(g, seq![from], to as int) {
        let p = choose|p: Seq<usize>| #[trigger] is_walk(g, p) && seq![from].contains(p[0]) && p.last() as int == to as int;
        assert(seq![from][0] == from);
        assert forall|u: int, w: int| 0 <= u < n && 0 <= w < n && vis[w] && #[trigger] g.edge(u, w) implies vis[u] by {
            assert(q.contains(w as usize));
            let i = choose|i: int| 0 <= i < q.len() && q[i] == w as usize;
            assert(g.edge(u, q[i] as int));
        }
        lemma_walk_closed_back(g, vis, p);
        assert(p[0] == from);
        assert(q.contains(from));
        let i = choose|i: int| 0 <= i < q.len() && q[i] == from;
        assert(q[i] != from);
    }
}

/// A copy of a path.
fn copy_path(p: &Vec<usize>) -> (r: Vec<usize>)
    ensures
        r@ == p@,
{
    let mut r: Vec<usize> = Vec::new();
    let mut i: usize = 0;
    while i < p.len()
        invariant
            i <= p@.len(),
            r@ == p@.take(i as int),
        decreases p.len() - i,
    {
        r.push(p[i]);
        i += 1;
        assert(r@ =~= p@.take(i as int));
    }
    assert(p@.take(p@.len() as int) =~= p@);
    r
}


proof fn lemma_fwd_add(g: &Digraph, from: usize, to: usize, vis: Seq<bool>, paths: Seq<Vec<usize>>, q: Seq<usize>, h: int, cur: usize, v: usize, np: Vec<usize>)
    requires
        fwd_inv(g, from, to, vis, paths, q, h),
        cur < g.n(),
        vis[cur as int],
        v < g.n(),
        !vis[v as int],
        g.edge(cur as int, v as int),
        np@ == paths[cur as int]@.push(v),
    ensures
        fwd_inv(g, from, to, vis.update(v as int, true), paths.update(v as int, np), q.push(v), h),
        count_false(vis.update(v as int, true)) + 1 == count_false(vis),
{
    reveal(fwd_inv);
    let n = g.n();
    let vis2 = vis.update(v as int, true);
    let paths2 = paths.update(v as int, np);
    let q2 = q.push(v);
    lemma_count_false_set(vis, v as int);
    lemma_walk_push(g, paths[cur as int]@, from as int, cur as int, v);
    assert forall|i: int| 0 <= i < q2.len() implies #[trigger] q2[i] < n && vis2[q2[i] as int] by {
        if i < q.len() {
            assert(q2[i] == q[i]);
        }
    }
    assert forall|w: int| 0 <= w < n && #[trigger] vis2[w] implies q2.contains(w as usize) by {
        if w == v as int {
            assert(q2[q.len() as int] == v);
        } else {
            let i = choose|i: int| 0 <= i < q.len() && q[i] == w as usize;
            assert(q2[i] == w as usize);
        }
    }
    assert forall|w: int| 0 <= w < n && #[trigger] vis2[w] implies walk_between(g, paths2[w]@, from as int, w) by {
        if w != v as int {
            assert(paths2[w] == paths[w]);
        }
    }
    assert forall|i: int, k: int| 0 <= i < h && 0 <= k < g.out@[q2[i] as int]@.len() implies vis2[#[trigger] g.target(#[trigger] q2[i] as int, k)] by {
        assert(q2[i] == q[i]);
        assert(vis[g.target(q[i] as int, k)]);
    }
    assert forall|i: int| 0 <= i < h implies #[trigger] q2[i] != to by {
        assert(q2[i] == q[i]);
    }
}

proof fn lemma_fwd_close(g: &Digraph, from: usize, to: usize, vis: Seq<bool>, paths: Seq<Vec<usize>>, q: Seq<usize>, h: int)
    requires
        fwd_inv(g, from, to, vis, paths, q, h),
        h < q.len(),
        q[h] != to,
        forall|j: int| 0 <= j < g.out@[q[h] as int]@.len() ==> vis[#[trigger] g.target(q[h] as int, j)],
    ensures
        fwd_inv(g, from, to, vis, paths, q, h + 1),
{
    reveal(fwd_inv);
}

/// Follows every edge out of the node at `h` of the forward queue,
/// reaching each new target by the path to that node and one more edge.
fn expand_forward(g: &Digraph, from: usize, to: usize, vis: &mut Vec<bool>, paths: &mut Vec<Vec<usize>>, q: &mut Vec<usize>, h: usize)
    requires
        fwd_inv(g, from, to, old(vis)@, old(paths)@, old(q)@, h as int),
        h < old(q)@.len(),
        old(q)@[h as int] != to,
    ensures
        fwd_inv(g, from, to, final(vis)@, final(paths)@, final(q)@, h + 1),
        count_false(final(vis)@) + final(q)@.len() == count_false(old(vis)@) + old(q)@.len(),
{
    proof {
        lemma_fwd_facts(g, from, to, vis@, paths@, q@, h as int);
    }
    let cur = q[h];
    let len = g.out[cur].len();
    let mut k: usize = 0;
    while k < len
        invariant
            fwd_inv(g, from, to, vis@, paths@, q@, h as int),
            h < q@.len(),
            q@[h as int] == cur,
            cur != to,
            cur < g.n(),
            len == g.out@[cur as int]@.len(),
            k <= len,
            forall|j: int| 0 <= j < k ==> vis@[#[trigger] g.target(cur as int, j)],
            count_false(vis@) + q@.len() == count_false(old(vis)@) + old(q)@.len(),
        decreases len - k,
    {
        proof {
            lemma_fwd_facts(g, from, to, vis@, paths@, q@, h as int);
            reveal(fwd_inv);
        }
        let v = g.out[cur][k];
        assert(v as int == g.target(cur as int, k as int));
        assert(g.edge(cur as int, v as int));
        if !vis[v] {
            let mut np = copy_path(&paths[cur]);
            np.push(v);
            let ghost (vis0, paths0, q0) = (vis@, paths@, q@);
            proof {
                lemma_fwd_add(g, from, to, vis0, paths0, q0, h as int, cur, v, np);
            }
            paths.set(v, np);
            vis.set(v, true);
            q.push(v);
            proof {
                assert(vis@ == vis0.update(v as int, true));
                assert forall|j: int| 0 <= j < k + 1 implies vis@[#[trigger] g.target(cur as int, j)] by {
                    if j < k {
                        assert(vis0[g.target(cur as int, j)]);
                    }
                }
            }
        }
        k += 1;
    }
    proof {
        lemma_fwd_close(g, from, to, vis@, paths@, q@, h as int);
    }
}


proof fn lemma_bwd_add(g: &Digraph, from: usize, to: usize, vis: Seq<bool>, paths: Seq<Vec<usize>>, q: Seq<usize>, h: int, cur: usize, u: usize, np: Vec<usize>)
    requires
        bwd_inv(g, from, to, vis, paths, q, h),
        cur < g.n(),
        vis[cur as int],
        u < g.n(),
        !vis[u as int],
        g.edge(u as int, cur as int),
        np@ == paths[cur as int]@.push(u),
    ensures
        bwd_inv(g, from, to, vis.update(u as int, true), paths.update(u as int, np), q.push(u), h),
        count_false(vis.update(u as int, true)) + 1 == count_false(vis),
{
    reveal(bwd_inv);
    let n = g.n();
    let vis2 = vis.update(u as int, true);
    let paths2 = paths.update(u as int, np);
    let q2 = q.push(u);
    lemma_count_false_set(vis, u as int);
    lemma_back_push(g, paths[cur as int]@, to as int, cur as int, u);
    assert forall|i: int| 0 <= i < q2.len() implies #[trigger] q2[i] < n && vis2[q2[i] as int] by {
        if i < q.len() {
            assert(q2[i] == q[i]);
        }
    }
    assert forall|w: int| 0 <= w < n && #[trigger] vis2[w] implies q2.contains(w as usize) by {
        if w == u as int {
            assert(q2[q.len() as int] == u);
        } else {
            let i = choose|i: int| 0 <= i < q.len() && q[i] == w as usize;
            assert(q2[i] == w as usize);
        }
    }
    assert forall|w: int| 0 <= w < n && #[trigger] vis2[w] implies back_walk(g, paths2[w]@, to as int, w) by {
        if w != u as int {
            assert(paths2[w] == paths[w]);
        }
    }
    assert forall|i: int, x: int| 0 <= i < h && 0 <= x < n && g.edge(x, #[trigger] q2[i] as int) implies #[trigger] vis2[x] by {
        assert(q2[i] == q[i]);
        assert(vis[x]);
    }
    assert forall|i: int| 0 <= i < h implies #[trigger] q2[i] != from by {
        assert(q2[i] == q[i]);
    }
}

proof fn lemma_bwd_close(g: &Digraph, from: usize, to: usize, vis: Seq<bool>, paths: Seq<Vec<usize>>, q: Seq<usize>, h: int)
    requires
        bwd_inv(g, from, to, vis, paths, q, h),
        h < q.len(),
        q[h] != from,
        forall|x: int| 0 <= x < g.n() && g.edge(x, q[h] as int) ==> #[trigger] vis[x],
    ensures
        bwd_inv(g, from, to, vis, paths, q, h + 1),
{
    reveal(bwd_inv);
}

/// Follows every edge into the node at `h` of the backward queue, reaching
/// each new source by the backward path to that node and one more edge.
fn expand_backward(g: &Digraph, from: usize, to: usize, vis: &mut Vec<bool>, paths: &mut Vec<Vec<usize>>, q: &mut Vec<usize>, h: usize)
    requires
        bwd_inv(g, from, to, old(vis)@, old(paths)@, old(q)@, h as int),
        h < old(q)@.len(),
        old(q)@[h as int] != from,
    ensures
        bwd_inv(g, from, to, final(vis)@, final(paths)@, final(q)@, h + 1),
        count_false(final(vis)@) + final(q)@.len() == count_false(old(vis)@) + old(q)@.len(),
{
    proof {
        lemma_bwd_facts(g, from, to, vis@, paths@, q@, h as int);
        reveal(bwd_inv);
    }
    let cur = q[h];
    let n = g.out.len();
    let preds = incoming(g, cur);
    let len = preds.len();
    let mut k: usize = 0;
    while k < len
        invariant
            bwd_inv(g, from, to, vis@, paths@, q@, h as int),
            h < q@.len(),
            q@[h as int] == cur,
            cur != from,
            cur < g.n(),
            len == preds@.len(),
            forall|i: int| 0 <= i < preds@.len() ==> #[trigger] preds@[i] < g.n() && g.edge(preds@[i] as int, cur as int),
            forall|x: int| 0 <= x < g.n() && g.edge(x, cur as int) ==> #[trigger] preds@.contains(x as usize),
            k <= len,
            forall|j: int| 0 <= j < k ==> vis@[#[trigger] preds@[j] as int],
            count_false(vis@) + q@.len() == count_false(old(vis)@) + old(q)@.len(),
            n == g.n(),
        decreases len - k,
    {
        proof {
            lemma_bwd_facts(g, from, to, vis@, paths@, q@, h as int);
        }
        let u = preds[k];
        if !vis[u] {
            let mut np = copy_path(&paths[cur]);
            np.push(u);
            let ghost (vis0, paths0, q0) = (vis@, paths@, q@);
            proof {
                lemma_bwd_add(g, from, to, vis0, paths0, q0, h as int, cur, u, np);
            }
            paths.set(u, np);
            vis.set(u, true);
            q.push(u);
            proof {
                assert(vis@ == vis0.update(u as int, true));
                assert forall|j: int| 0 <= j < k + 1 implies vis@[#[trigger] preds@[j] as int] by {
                    if j < k {
                        assert(vis0[preds@[j] as int]);
                    }
                }
            }
        }
        k += 1;
    }
    proof {
        lemma_bwd_facts(g, from, to, vis@, paths@, q@, h as int);
        assert forall|x: int| 0 <= x < g.n() && g.edge(x, q@[h as int] as int) implies #[trigger] vis@[x] by {
            assert(x <= usize::MAX);
            assert(preds@.contains(x as usize));
            let j = choose|j: int| 0 <= j < preds@.len() && preds@[j] == x as usize;
            assert(vis@[preds@[j] as int]);
        }
        lemma_bwd_close(g, from, to, vis@, paths@, q@, h as int);
    }
}


/// A path found by a two-sided search, with the position of the node
/// where the two sides met.
pub struct MeetingPath {
    pub path: Vec<usize>,
    pub meet: usize,
}

/// One side of a two-sided search, started at `start`: `start` alone is
/// reached, by the path of just itself.
fn start_side(g: &Digraph, start: usize) -> (r: (Vec<bool>, Vec<Vec<usize>>, Vec<usize>))
    requires
        g.wf(),
        start < g.n(),
    ensures
        r.0@.len() == g.n(),
        r.1@.len() == g.n(),
        r.2@ == seq![start],
        forall|v: int| 0 <= v < g.n() ==> (#[trigger] r.0@[v] <==> v == start as int),
        r.1@[start as int]@ == seq![start],
{
    let n = g.out.len();
    let mut vis: Vec<bool> = Vec::new();
    let mut paths: Vec<Vec<usize>> = Vec::new();
    let mut i: usize = 0;
    while i < n
        invariant
            n == g.n(),
            i <= n,
            vis@.len() == i,
            paths@.len() == i,
            forall|v: int| 0 <= v < i ==> !(#[trigger] vis@[v]),
        decreases n - i,
    {
        vis.push(false);
        paths.push(Vec::new());
        i += 1;
    }
    vis.set(start, true);
    let mut p: Vec<usize> = Vec::new();
    p.push(start);
    paths.set(start, p);
    let mut q: Vec<usize> = Vec::new();
    q.push(start);
    (vis, paths, q)
}

/// Searches for a path from `from` to `to` from both ends in turn: breadth
/// first along edges from `from` and against edges from `to`, until one
/// side takes from its queue a node that the other side has reached, or a
/// queue runs empty. The path, when there is one, runs from `from` to `to`
/// through the meeting node; there is one exactly when some walk leads
/// from `from` to `to`.
pub fn bidirectional_search(g: &Digraph, from: usize, to: usize) -> (r: Option<MeetingPath>)
    requires
        g.wf(),
        from < g.n(),
        to < g.n(),
    ensures
        match r {
            Some(m) => walk_between(g, m.path@, from as int, to as int) && m.meet < m.path@.len(),
            None => true,
        },
        r is Some <==> reaches(g, seq![from], to as int),
{
    let (mut fvis, mut fpaths, mut fq) = start_side(g, from);
    let (mut bvis, mut bpaths, mut bq) = start_side(g, to);
    proof {
        reveal(fwd_inv);
        reveal(bwd_inv);
        assert(walk_between(g, fpaths@[from as int]@, from as int, from as int));
        assert(back_walk(g, bpaths@[to as int]@, to as int, to as int));
        assert(fq@[0] == from);
        assert(bq@[0] == to);
        assert(fwd_inv(g, from, to, fvis@, fpaths@, fq@, 0));
        assert(bwd_inv(g, from, to, bvis@, bpaths@, bq@, 0));
    }
    let mut fh: usize = 0;
    let mut bh: usize = 0;
    let mut meet: Option<usize> = None;
    while fh < fq.len() && bh < bq.len()
        invariant_except_break
            meet is None,
        invariant
            g.wf(),
            from < g.n(),
            to < g.n(),
            fwd_inv(g, from, to, fvis@, fpaths@, fq@, fh as int),
            bwd_inv(g, from, to, bvis@, bpaths@, bq@, bh as int),
        ensures
            match meet {
                Some(m) => m < g.n() && fvis@[m as int] && bvis@[m as int],
                None => fh >= fq@.len() || bh >= bq@.len(),
            },
        decreases count_false(fvis@) + count_false(bvis@) + (fq@.len() - fh) + (bq@.len() - bh),
    {
        proof {
            lemma_fwd_facts(g, from, to, fvis@, fpaths@, fq@, fh as int);
            lemma_bwd_facts(g, from, to, bvis@, bpaths@, bq@, bh as int);
        }
        let cur = fq[fh];
        if bvis[cur] {
            meet = Some(cur);
            break;
        }
        expand_forward(g, from, to, &mut fvis, &mut fpaths, &mut fq, fh);
        fh += 1;
        proof {
            lemma_fwd_facts(g, from, to, fvis@, fpaths@, fq@, fh as int);
            reveal(fwd_inv);
        }
        let cur2 = bq[bh];
        if fvis[cur2] {
            meet = Some(cur2);
            break;
        }
        proof {
            reveal(bwd_inv);
        }
        expand_backward(g, from, to, &mut bvis, &mut bpaths, &mut bq, bh);
        bh += 1;
    }
    match meet {
        Some(m) => {
            proof {
                lemma_fwd_facts(g, from, to, fvis@, fpaths@, fq@, fh as int);
                lemma_bwd_facts(g, from, to, bvis@, bpaths@, bq@, bh as int);
            }
            let mut path = copy_path(&fpaths[m]);
            let meet_at = path.len() - 1;
            let bp = &bpaths[m];
            let mut i: usize = bp.len() - 1;
            while i > 0
                invariant
                    g.wf(),
                    back_walk(g, bp@, to as int, m as int),
                    i < bp@.len(),
                    walk_between(g, path@, from as int, bp@[i as int] as int),
                    meet_at < path@.len(),
                decreases i,
            {
                i -= 1;
                proof {
                    assert(g.edge(bp@[i + 1] as int, bp@[i as int] as int));
                    lemma_walk_push(g, path@, from as int, bp@[i + 1] as int, bp@[i as int]);
                }
                path.push(bp[i]);
            }
            proof {
                let p = path@;
                assert(seq![from].contains(p[0]));
                assert(reaches(g, seq![from], to as int));
            }
            Some(MeetingPath { path, meet: meet_at })
        },
        None => {
            proof {
                lemma_fwd_facts(g, from, to, fvis@, fpaths@, fq@, fh as int);
                lemma_bwd_facts(g, from, to, bvis@, bpaths@, bq@, bh as int);
                if fh >= fq@.len() {
                    lemma_fwd_exhausted(g, from, to, fvis@, fpaths@, fq@, fh as int);
                } else {
                    lemma_bwd_exhausted(g, from, to, bvis@, bpaths@, bq@, bh as int);
                }
            }
            None
        },
    }
}


/// Searches `g` afresh from each node of `starts` in turn, nothing shared
/// between the searches, and gathers the cycles found in order (a cycle
/// may come back once per search that meets it). Every cycle is a cycle of
/// `g`; none is found only when no cycle passes through a node that
/// `starts` reach.
pub fn parallel_cycle_detection(g: &Digraph, starts: &Vec<usize>) -> (r: CycleDetectionResult)
    requires
        g.wf(),
        forall|i: int| 0 <= i < starts@.len() ==> #[trigger] starts@[i] < g.n(),
    ensures
        forall|k: int| 0 <= k < r.cycles@.len() ==> is_cycle(g, (#[trigger] r.cycles@[k])@),
        r.affected_nodes@.len() == 0,
        r.cycle_count == r.cycles@.len(),
        r.has_cycle == (r.cycles@.len() > 0),
        !r.has_cycle ==> forall|c: Seq<usize>| #[trigger] is_cycle(g, c) ==> !reaches(g, starts@, c[0] as int),
{
    let mut all: Vec<Vec<usize>> = Vec::new();
    let mut i: usize = 0;
    while i < starts.len()
        invariant
            g.wf(),
            forall|j: int| 0 <= j < starts@.len() ==> #[trigger] starts@[j] < g.n(),
            i <= starts@.len(),
            forall|k: int| 0 <= k < all@.len() ==> is_cycle(g, (#[trigger] all@[k])@),
            all@.len() == 0 ==> forall|j: int, c: Seq<usize>| 0 <= j < i && #[trigger] is_cycle(g, c)
                ==> !reaches(g, seq![#[trigger] starts@[j]], c[0] as int),
        decreases starts.len() - i,
    {
        let mut one: Vec<usize> = Vec::new();
        one.push(starts[i]);
        let found = detect_cycles(g, &one);
        let ghost before = all@;
        let mut cs = found.cycles;
        let mut k: usize = 0;
        while k < cs.len()
            invariant
                k <= cs@.len(),
                forall|a: int| 0 <= a < cs@.len() ==> is_cycle(g, (#[trigger] cs@[a])@),
                forall|a: int| 0 <= a < all@.len() ==> is_cycle(g, (#[trigger] all@[a])@),
                all@.len() == before.len() + k,
            decreases cs.len() - k,
        {
            all.push(copy_path(&cs[k]));
            k += 1;
        }
        proof {
            if all@.len() == 0 {
                assert(one@ =~= seq![starts@[i as int]]);
                assert forall|j: int, c: Seq<usize>| 0 <= j < i + 1 && #[trigger] is_cycle(g, c)
                    implies !reaches(g, seq![#[trigger] starts@[j]], c[0] as int) by {
                    if j == i {
                        assert(!found.has_cycle);
                    }
                }
            }
        }
        i += 1;
    }
    proof {
        if all@.len() == 0 {
            assert forall|c: Seq<usize>| #[trigger] is_cycle(g, c) implies !reaches(g, starts@, c[0] as int) by {
                if reaches(g, starts@, c[0] as int) {
                    let p = choose|p: Seq<usize>| #[trigger] is_walk(g, p) && starts@.contains(p[0]) && p.last() == c[0] as int;
                    let j = choose|j: int| 0 <= j < starts@.len() && starts@[j] == p[0];
                    assert(seq![starts@[j]][0] == p[0]);
                    assert(seq![starts@[j]].contains(p[0]));
                    assert(reaches(g, seq![starts@[j]], c[0] as int));
                }
            }
        }
    }
    let count = all.len();
    CycleDetectionResult { has_cycle: count > 0, cycles: all, cycle_count: count, affected_nodes: Vec::new() }
}

/// The position among the edges of `u` of the first edge to `v`, if any.
pub fn find_edge(g: &Digraph, u: usize, v: usize) -> (r: Option<usize>)
    requires
        u < g.n(),
    ensures
        match r {
            Some(k) => k < g.out@[u as int]@.len() && g.target(u as int, k as int) == v as int
                && forall|j: int| 0 <= j < k ==> #[trigger] g.target(u as int, j) != v as int,
            None => !g.edge(u as int, v as int),
        },
{
    let mut k: usize = 0;
    while k < g.out[u].len()
        invariant
            u < g.n(),
            k <= g.out@[u as int]@.len(),
            forall|j: int| 0 <= j < k ==> #[trigger] g.target(u as int, j) != v as int,
        decreases g.out@[u as int]@.len() - k,
    {
        if g.out[u][k] == v {
            return Some(k);
        }
        k += 1;
    }
    proof {
        if g.edge(u as int, v as int) {
            let j = choose|j: int| 0 <= j < g.out@[u as int]@.len() && #[trigger] g.target(u as int, j) == v as int;
        }
    }
    None
}

/// A graph given by node names, numbered: `ids` holds each name once, the
/// number of a name being its position; `queried` numbers the nodes asked
/// for, `ends` the two ends of each edge, and `graph` has the edges
/// between the numbers.
pub struct GraphNumbering {
    pub ids: Vec<String>,
    pub queried: Vec<usize>,
    pub ends: Vec<(usize, usize)>,
    pub graph: Digraph,
}

/// The names that a list of nodes and a list of edges (source, target)
/// mention.
pub open spec fn mentioned(nodes: Seq<String>, edges: Seq<(String, String)>, name: Seq<char>) -> bool {
    ||| exists|i: int| 0 <= i < nodes.len() && #[trigger] nodes[i]@ == name
    ||| exists|j: int| 0 <= j < edges.len() && (#[trigger] edges[j]).0@ == name
    ||| exists|j: int| 0 <= j < edges.len() && (#[trigger] edges[j]).1@ == name
}

/// The targets of the edges (by their ends) that leave `u`, in order.
pub open spec fn targets_from(ends: Seq<(usize, usize)>, u: int) -> Seq<usize>
    decreases ends.len(),
{
    if ends.len() == 0 {
        Seq::empty()
    } else if ends.last().0 == u {
        targets_from(ends.drop_last(), u).push(ends.last().1)
    } else {
        targets_from(ends.drop_last(), u)
    }
}

/// No name occurs twice.
pub open spec fn distinct_names(ids: Seq<String>) -> bool {
    forall|a: int, b: int| 0 <= a < b < ids.len() ==> (#[trigger] ids[a])@ != (#[trigger] ids[b])@
}

/// The number of `name`, adding it at the end if it has none yet.
fn number_of(ids: &mut Vec<String>, name: &String) -> (r: usize)
    requires
        distinct_names(old(ids)@),
        old(ids)@.len() < usize::MAX,
    ensures
        distinct_names(final(ids)@),
        r < final(ids)@.len(),
        final(ids)@[r as int]@ == name@,
        final(ids)@ == old(ids)@ || final(ids)@ == old(ids)@.push(*name),
        final(ids)@.len() <= old(ids)@.len() + 1,
        forall|k: int| 0 <= k < old(ids)@.len() ==> #[trigger] final(ids)@[k] == old(ids)@[k],
{
    let mut k: usize = 0;
    while k < ids.len()
        invariant
            ids@ == old(ids)@,
            distinct_names(ids@),
            k <= ids@.len(),
            forall|a: int| 0 <= a < k ==> (#[trigger] ids@[a])@ != name@,
        decreases ids@.len() - k,
    {
        if ids[k] == *name {
            return k;
        }
        k += 1;
    }
    let ghost before = ids@;
    ids.push(name.clone());
    proof {
        assert forall|a: int, b: int| 0 <= a < b < ids@.len() implies (#[trigger] ids@[a])@ != (#[trigger] ids@[b])@ by {
            if b < before.len() {
                assert(ids@[a] == before[a] && ids@[b] == before[b]);
            } else {
                assert(ids@[a] == before[a]);
            }
        }
    }
    ids.len() - 1
}

/// Numbers the named nodes and the ends of the named edges, each name once,
/// in order of first mention (the nodes first, then each edge's source and
/// target), and builds the graph of the edges between the numbers.
pub fn number_graph(nodes: &Vec<String>, edges: &Vec<(String, String)>) -> (r: GraphNumbering)
    requires
        nodes@.len() + 2 * edges@.len() < usize::MAX,
    ensures
        distinct_names(r.ids@),
        forall|k: int| 0 <= k < r.ids@.len() ==> mentioned(nodes@, edges@, #[trigger] r.ids@[k]@),
        r.queried@.len() == nodes@.len(),
        forall|i: int| 0 <= i < nodes@.len() ==> #[trigger] r.queried@[i] < r.ids@.len()
            && r.ids@[r.queried@[i] as int]@ == nodes@[i]@,
        r.ends@.len() == edges@.len(),
        forall|j: int| #![trigger r.ends@[j]] 0 <= j < edges@.len() ==> {
            &&& r.ends@[j].0 < r.ids@.len()
            &&& r.ends@[j].1 < r.ids@.len()
            &&& r.ids@[r.ends@[j].0 as int]@ == edges@[j].0@
            &&& r.ids@[r.ends@[j].1 as int]@ == edges@[j].1@
        },
        r.graph.out@.len() == r.ids@.len(),
        forall|u: int| 0 <= u < r.ids@.len() ==> (#[trigger] r.graph.out@[u])@ == targets_from(r.ends@, u),
{
    let mut ids: Vec<String> = Vec::new();
    let mut queried: Vec<usize> = Vec::new();
    let mut i: usize = 0;
    while i < nodes.len()
        invariant
            i <= nodes@.len(),
            nodes@.len() + 2 * edges@.len() < usize::MAX,
            ids@.len() <= i,
            distinct_names(ids@),
            forall|k: int| 0 <= k < ids@.len() ==> mentioned(nodes@, edges@, #[trigger] ids@[k]@),
            queried@.len() == i,
            forall|a: int| 0 <= a < i ==> #[trigger] queried@[a] < ids@.len() && ids@[queried@[a] as int]@ == nodes@[a]@,
        decreases nodes@.len() - i,
    {
        let ghost before = ids@;
        let q = number_of(&mut ids, &nodes[i]);
        proof {
            assert forall|k: int| 0 <= k < ids@.len() implies mentioned(nodes@, edges@, #[trigger] ids@[k]@) by {
                if k < before.len() {
                    assert(ids@[k] == before[k]);
                } else {
                    assert(ids@[k]@ == nodes@[i as int]@);
                }
            }
            assert forall|a: int| 0 <= a < i implies #[trigger] queried@[a] < ids@.len() && ids@[queried@[a] as int]@ == nodes@[a]@ by {
                assert(ids@[queried@[a] as int] == before[queried@[a] as int]);
            }
        }
        queried.push(q);
        i += 1;
    }
    let mut ends: Vec<(usize, usize)> = Vec::new();
    let mut j: usize = 0;
    while j < edges.len()
        invariant
            j <= edges@.len(),
            nodes@.len() + 2 * edges@.len() < usize::MAX,
            ids@.len() <= nodes@.len() + 2 * j,
            distinct_names(ids@),
            forall|k: int| 0 <= k < ids@.len() ==> mentioned(nodes@, edges@, #[trigger] ids@[k]@),
            queried@.len() == nodes@.len(),
            forall|a: int| 0 <= a < nodes@.len() ==> #[trigger] queried@[a] < ids@.len() && ids@[queried@[a] as int]@ == nodes@[a]@,
            ends@.len() == j,
            forall|b: int| #![trigger ends@[b]] 0 <= b < j ==> {
                &&& ends@[b].0 < ids@.len()
                &&& ends@[b].1 < ids@.len()
                &&& ids@[ends@[b].0 as int]@ == edges@[b].0@
                &&& ids@[ends@[b].1 as int]@ == edges@[b].1@
            },
        decreases edges@.len() - j,
    {
        let ghost before = ids@;
        let u = number_of(&mut ids, &edges[j].0);
        let ghost mid = ids@;
        let v = number_of(&mut ids, &edges[j].1);
        proof {
            assert forall|k: int| 0 <= k < ids@.len() implies mentioned(nodes@, edges@, #[trigger] ids@[k]@) by {
                if k < before.len() {
                    assert(ids@[k] == before[k]);
                } else if k < mid.len() {
                    assert(ids@[k] == mid[k]);
                    assert(mid[k]@ == edges@[j as int].0@);
                } else {
                    assert(ids@[k]@ == edges@[j as int].1@);
                }
            }
            assert forall|a: int| 0 <= a < nodes@.len() implies #[trigger] queried@[a] < ids@.len() && ids@[queried@[a] as int]@ == nodes@[a]@ by {
                assert(ids@[queried@[a] as int] == before[queried@[a] as int]);
            }
            assert(ids@[u as int] == mid[u as int]);
        }
        ends.push((u, v));
        proof {
            assert forall|b: int| #![trigger ends@[b]] 0 <= b < j + 1 implies {
                &&& ends@[b].0 < ids@.len()
                &&& ends@[b].1 < ids@.len()
                &&& ids@[ends@[b].0 as int]@ == edges@[b].0@
                &&& ids@[ends@[b].1 as int]@ == edges@[b].1@
            } by {
                if b < j {
                    assert(ids@[ends@[b].0 as int] == before[ends@[b].0 as int]);
                    assert(ids@[ends@[b].1 as int] == before[ends@[b].1 as int]);
                }
            }
        }
        j += 1;
    }
    let n = ids.len();
    let mut out: Vec<Vec<usize>> = Vec::new();
    let mut a: usize = 0;
    while a < n
        invariant
            a <= n,
            out@.len() == a,
            forall|u: int| 0 <= u < a ==> (#[trigger] out@[u])@ == Seq::<usize>::empty(),
        decreases n - a,
    {
        out.push(Vec::new());
        a += 1;
    }
    proof {
        assert forall|u: int| 0 <= u < n implies (#[trigger] out@[u])@ == targets_from(ends@.take(0), u) by {
            assert(ends@.take(0) =~= Seq::<(usize, usize)>::empty());
        }
    }
    let mut b: usize = 0;
    while b < ends.len()
        invariant
            b <= ends@.len(),
            n == ids@.len(),
            out@.len() == n,
            forall|c: int| #![trigger ends@[c]] 0 <= c < ends@.len() ==> ends@[c].0 < n && ends@[c].1 < n,
            forall|u: int| 0 <= u < n ==> (#[trigger] out@[u])@ == targets_from(ends@.take(b as int), u),
        decreases ends@.len() - b,
    {
        let (u, v) = ends[b];
        let ghost before = out@;
        assert(ends@.take(b + 1).drop_last() =~= ends@.take(b as int));
        out[u].push(v);
        proof {
            assert forall|w: int| 0 <= w < n implies (#[trigger] out@[w])@ == targets_from(ends@.take(b + 1), w) by {
                if w != u {
                    assert(out@[w] == before[w]);
                }
            }
        }
        b += 1;
    }
    assert(ends@.take(ends@.len() as int) =~= ends@);
    GraphNumbering { ids, queried, ends, graph: Digraph { out } }
}

/// A node of a stored graph.
pub struct GraphNode {
    pub id: String,
    pub node_type: String,
    pub properties: StrMap,
    pub timestamp: u64,
}

/// A node of a graph spread over shards, with the shard that keeps it.
pub struct DistributedGraphNode {
    pub id: String,
    pub node_type: String,
    pub properties: StrMap,
    pub shard_id: String,
    pub timestamp: u64,
    pub metadata: StrMap,
}

/// The part of a graph that one shard keeps: its node and edge counts and
/// the ids of its nodes.
pub struct GraphPartition {
    pub shard_id: String,
    pub node_count: usize,
    pub edge_count: usize,
    pub nodes: Vec<String>,
}

/// What a query of stored graphs asks for; every filter unset lets
/// everything through.
pub struct GraphQueryOptions {
    pub graph_id: Option<String>,
    pub node_type: Option<String>,
    pub edge_type: Option<String>,
    pub node_id: Option<String>,
    pub from_timestamp: Option<u64>,
    pub to_timestamp: Option<u64>,
    pub limit: Option<usize>,
}

impl GraphQueryOptions {
    /// No filter and no limit.
    pub fn default() -> (o: Self)
        ensures
            o.graph_id is None,
            o.node_type is None,
            o.edge_type is None,
            o.node_id is None,
            o.from_timestamp is None,
            o.to_timestamp is None,
            o.limit is None,
    {
        GraphQueryOptions {
            graph_id: None,
            node_type: None,
            edge_type: None,
            node_id: None,
            from_timestamp: None,
            to_timestamp: None,
            limit: None,
        }
    }
}

} // verus!
