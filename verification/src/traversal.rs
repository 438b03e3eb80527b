use vstd::prelude::*;

use crate::graph::{is_walk, Digraph};
use crate::keyed::{keyed_map, unique_keys};
use crate::vfs::{find_child, str_pairs};

verus! {

/// What the traversal reads of a stored node: its type and its properties.
pub struct NodeInfo {
    pub node_type: String,
    pub properties: Vec<(String, String)>,
}

/// A graph as the traversal sees it: the edges, the type of each edge (in
/// the same places as `graph.out`), and each node's data where the node is
/// stored.
pub struct TraversalGraph {
    pub graph: Digraph,
    pub edge_types: Vec<Vec<String>>,
    pub nodes: Vec<Option<NodeInfo>>,
}

/// What a traversal looks for: nodes of a type, nodes with given property
/// values, edges of a type, and how deep to go (three edges when not given).
pub struct DistributedGraphQuery {
    pub node_type: Option<String>,
    pub edge_type: Option<String>,
    pub properties: Option<Vec<(String, String)>>,
    pub limit: usize,
    pub offset: usize,
    pub traverse_depth: Option<usize>,
}

impl DistributedGraphQuery {
    /// No filter, one hundred results, no depth given.
    pub fn default() -> (q: Self)
        ensures
            q.node_type is None,
            q.edge_type is None,
            q.properties is None,
            q.limit == 100,
            q.offset == 0,
            q.traverse_depth is None,
    {
        DistributedGraphQuery { node_type: None, edge_type: None, properties: None, limit: 100, offset: 0, traverse_depth: None }
    }
}

impl TraversalGraph {
    /// The edge types sit where the edges do, and node properties have
    /// unique names.
    pub open spec fn wf(&self) -> bool {
        &&& self.graph.wf()
        &&& self.edge_types@.len() == self.graph.n()
        &&& forall|u: int| 0 <= u < self.graph.n() ==> (#[trigger] self.edge_types@[u])@.len() == self.graph.out@[u]@.len()
        &&& self.nodes@.len() == self.graph.n()
        &&& forall|u: int| 0 <= u < self.graph.n() && (#[trigger] self.nodes@[u]) is Some
            ==> unique_keys(str_pairs(self.nodes@[u]->0.properties@))
    }
}

/// The node has property `p.0` with value `p.1`.
pub open spec fn prop_ok(info: NodeInfo, p: (String, String)) -> bool {
    &&& keyed_map(str_pairs(info.properties@)).contains_key(p.0@)
    &&& keyed_map(str_pairs(info.properties@))[p.0@] == p.1@
}

/// A stored node passes the node filters of the query.
pub open spec fn node_ok(info: NodeInfo, q: &DistributedGraphQuery) -> bool {
    &&& match q.node_type {
        Some(t) => info.node_type@ == t@,
        None => true,
    }
    &&& match q.properties {
        Some(ps) => forall|i: int| 0 <= i < ps@.len() ==> #[trigger] prop_ok(info, ps@[i]),
        None => true,
    }
}

/// The `k`-th edge of `u` passes the edge filter of the query.
pub open spec fn edge_ok(tg: &TraversalGraph, q: &DistributedGraphQuery, u: int, k: int) -> bool {
    match q.edge_type {
        Some(t) => tg.edge_types@[u]@[k]@ == t@,
        None => true,
    }
}

/// How far below `path` the traversal may still go.
pub open spec fn room(path: Seq<usize>, max_depth: nat) -> nat {
    if path.len() <= max_depth { (max_depth + 1 - path.len()) as nat } else { 0 }
}

/// The paths the traversal reports on arriving at `cur` along `path`, in
/// the order it reports them: nothing when the path is already too long or
/// holds `cur`, or `cur` is not stored; else the path to `cur` when `cur`
/// passes the node filters and the path has an edge, then the paths found
/// along each edge of `cur` that passes the edge filter, in edge order.
pub open spec fn visit(tg: &TraversalGraph, q: &DistributedGraphQuery, path: Seq<usize>, cur: usize, max_depth: nat) -> Seq<Seq<usize>>
    decreases room(path, max_depth), 1nat, 0nat,
{
    if path.len() > max_depth || path.contains(cur) || !(cur < tg.graph.n()) {
        seq![]
    } else {
        match tg.nodes@[cur as int] {
            None => seq![],
            Some(info) => {
                let p = path.push(cur);
                let here = if node_ok(info, q) && p.len() > 1 { seq![p] } else { seq![] };
                here + visit_edges(tg, q, p, cur, 0, max_depth)
            },
        }
    }
}

/// The paths reported along the edges of `cur` from the `k`-th on, the
/// path so far being `p`.
pub open spec fn visit_edges(tg: &TraversalGraph, q: &DistributedGraphQuery, p: Seq<usize>, cur: usize, k: int, max_depth: nat) -> Seq<Seq<usize>>
    decreases room(p.drop_last(), max_depth), 0nat, tg.graph.out@[cur as int]@.len() - k,
    when 0 <= k <= tg.graph.out@[cur as int]@.len() && p.len() > 0 && p.drop_last().len() <= max_depth
{
    if k == tg.graph.out@[cur as int]@.len() {
        seq![]
    } else {
        let rest = visit_edges(tg, q, p, cur, k + 1, max_depth);
        if edge_ok(tg, q, cur as int, k) {
            visit(tg, q, p, tg.graph.out@[cur as int]@[k], max_depth) + rest
        } else {
            rest
        }
    }
}


/// The node lists of some paths.
pub open spec fn paths_view(v: Seq<Vec<usize>>) -> Seq<Seq<usize>> {
    v.map_values(|p: Vec<usize>| p@)
}

/// Whether a stored node passes the node filters of the query.
pub fn node_matches(info: &NodeInfo, q: &DistributedGraphQuery) -> (b: bool)
    requires
        unique_keys(str_pairs(info.properties@)),
    ensures
        b == node_ok(*info, q),
{
    match &q.node_type {
        Some(t) => {
            if !(info.node_type == *t) {
                return false;
            }
        },
        None => {},
    }
    match &q.properties {
        Some(ps) => {
            let mut i: usize = 0;
            while i < ps.len()
                invariant
                    i <= ps@.len(),
                    q.properties == Some(*ps),
                    match q.node_type {
                        Some(t) => info.node_type@ == t@,
                        None => true,
                    },
                    unique_keys(str_pairs(info.properties@)),
                    forall|j: int| 0 <= j < i ==> #[trigger] prop_ok(*info, ps@[j]),
                decreases ps.len() - i,
            {
                match find_child(&info.properties, &ps[i].0) {
                    Some(c) => {
                        if !(info.properties[c].1 == ps[i].1) {
                            assert(!prop_ok(*info, q.properties->0@[i as int]));
                            return false;
                        }
                    },
                    None => {
                        assert(!prop_ok(*info, q.properties->0@[i as int]));
                        return false;
                    },
                }
                i += 1;
            }
            true
        },
        None => true,
    }
}

/// A copy of a path.
fn copy_nodes(p: &Vec<usize>) -> (r: Vec<usize>)
    ensures
        r@ == p@,
{
    let mut r: Vec<usize> = Vec::new();
    let mut i: usize = 0;
    while i < p.len()
        invariant
            i <= p@.len(),
            r@ == p@.take(i as int),
        decreases p.len() - i,
    {
        r.push(p[i]);
        i += 1;
        assert(r@ =~= p@.take(i as int));
    }
    assert(p@.take(p@.len() as int) =~= p@);
    r
}

/// Walks the graph from `cur` along `path` as `visit` says, adding the
/// paths it reports to `results`.
fn traverse_rec(
    tg: &TraversalGraph,
    q: &DistributedGraphQuery,
    cur: usize,
    path: &mut Vec<usize>,
    on_path: &mut Vec<bool>,
    results: &mut Vec<Vec<usize>>,
    max_depth: usize,
)
    requires
        tg.wf(),
        cur < tg.graph.n(),
        old(on_path)@.len() == tg.graph.n(),
        forall|v: usize| (v as int) < tg.graph.n() ==> (#[trigger] old(on_path)@[v as int] <==> old(path)@.contains(v)),
    ensures
        final(path)@ == old(path)@,
        final(on_path)@ == old(on_path)@,
        paths_view(final(results)@) == paths_view(old(results)@) + visit(tg, q, old(path)@, cur, max_depth as nat),
    decreases room(old(path)@, max_depth as nat),
{
    let ghost path0 = path@;
    let ghost r0 = paths_view(results@);
    if path.len() > max_depth || on_path[cur] {
        proof {
            assert(paths_view(results@) + visit(tg, q, path0, cur, max_depth as nat) =~= paths_view(results@));
        }
        return;
    }
    match &tg.nodes[cur] {
        None => {
            proof {
                assert(paths_view(results@) + visit(tg, q, path0, cur, max_depth as nat) =~= paths_view(results@));
            }
        },
        Some(info) => {
            let ghost on0 = on_path@;
            on_path.set(cur, true);
            path.push(cur);
            let ghost p = path@;
            assert(p.drop_last() =~= path0);
            proof {
                assert forall|v: usize| (v as int) < tg.graph.n() implies (#[trigger] on_path@[v as int] <==> path@.contains(v)) by {
                    if v == cur {
                        assert(path@[path0.len() as int] == cur);
                    } else {
                        if path@.contains(v) {
                            let i = choose|i: int| 0 <= i < path@.len() && path@[i] == v;
                            assert(path0[i] == v);
                        }
                        if path0.contains(v) {
                            let i = choose|i: int| 0 <= i < path0.len() && path0[i] == v;
                            assert(path@[i] == v);
                        }
                    }
                }
            }
            let ok = node_matches(info, q);
            if ok && path.len() > 1 {
                let cp = copy_nodes(path);
                results.push(cp);
            }
            let ghost here = if node_ok(*info, q) && p.len() > 1 { seq![p] } else { seq![] };
            assert(paths_view(results@) =~= r0 + here);
            let len = tg.graph.out[cur].len();
            let mut k: usize = 0;
            while k < len
                invariant
                    tg.wf(),
                    cur < tg.graph.n(),
                    len == tg.graph.out@[cur as int]@.len(),
                    k <= len,
                    path@ == p,
                    p == path0.push(cur),
                    p.drop_last() == path0,
                    path0.len() <= max_depth,
                    room(p, max_depth as nat) < room(old(path)@, max_depth as nat),
                    on_path@ == on0.update(cur as int, true),
                    on_path@.len() == tg.graph.n(),
                    forall|v: usize| (v as int) < tg.graph.n() ==> (#[trigger] on_path@[v as int] <==> path@.contains(v)),
                    paths_view(results@) + visit_edges(tg, q, p, cur, k as int, max_depth as nat)
                        == r0 + here + visit_edges(tg, q, p, cur, 0, max_depth as nat),
                decreases len - k,
            {
                let v = tg.graph.out[cur][k];
                assert(v as int == tg.graph.target(cur as int, k as int));
                let pass = match &q.edge_type {
                    Some(t) => tg.edge_types[cur][k] == *t,
                    None => true,
                };
                let ghost before = paths_view(results@);
                if pass {
                    traverse_rec(tg, q, v, path, on_path, results, max_depth);
                    proof {
                        let vr = visit(tg, q, p, v, max_depth as nat);
                        let rest = visit_edges(tg, q, p, cur, k + 1, max_depth as nat);
                        assert(visit_edges(tg, q, p, cur, k as int, max_depth as nat) == vr + rest);
                        assert(before + (vr + rest) =~= (before + vr) + rest);
                    }
                } else {
                    proof {
                        assert(visit_edges(tg, q, p, cur, k as int, max_depth as nat)
                            == visit_edges(tg, q, p, cur, k + 1, max_depth as nat));
                    }
                }
                k += 1;
            }
            path.pop();
            on_path.set(cur, false);
            proof {
                assert(path@ =~= path0);
                assert(!path0.contains(cur));
                assert(on_path@ =~= on0);
                assert(visit_edges(tg, q, p, cur, len as int, max_depth as nat) == Seq::<Seq<usize>>::empty());
                assert(paths_view(results@) =~= paths_view(results@) + Seq::<Seq<usize>>::empty());
                assert(visit(tg, q, path0, cur, max_depth as nat) == here + visit_edges(tg, q, p, cur, 0, max_depth as nat));
                assert(r0 + here + visit_edges(tg, q, p, cur, 0, max_depth as nat)
                    =~= r0 + visit(tg, q, path0, cur, max_depth as nat));
            }
        },
    }
}


/// How many edges deep a traversal goes: as the query says, else three.
pub open spec fn depth_of(q: &DistributedGraphQuery) -> nat {
    match q.traverse_depth {
        Some(d) => d as nat,
        None => 3,
    }
}

/// Walks the graph from `start` as the traversal does, at most
/// `query.traverse_depth` edges deep (three when not given), and returns
/// the paths it reports, in the order it reports them.
pub fn traverse(tg: &TraversalGraph, start: usize, query: &DistributedGraphQuery) -> (r: Vec<Vec<usize>>)
    requires
        tg.wf(),
        start < tg.graph.n(),
    ensures
        paths_view(r@) == visit(tg, query, seq![], start, depth_of(query)),
        forall|j: int| 0 <= j < r@.len() ==> (#[trigger] r@[j])@[0] == start && reported(tg, query, r@[j]@, depth_of(query)),
{
    let max_depth: usize = match query.traverse_depth {
        Some(d) => d,
        None => 3,
    };
    let n = tg.graph.out.len();
    let mut on_path: Vec<bool> = Vec::new();
    let mut i: usize = 0;
    while i < n
        invariant
            n == tg.graph.n(),
            i <= n,
            on_path@.len() == i,
            forall|v: int| 0 <= v < i ==> !(#[trigger] on_path@[v]),
        decreases n - i,
    {
        on_path.push(false);
        i += 1;
    }
    let mut path: Vec<usize> = Vec::new();
    let mut results: Vec<Vec<usize>> = Vec::new();
    proof {
        assert forall|v: usize| (v as int) < tg.graph.n() implies (#[trigger] on_path@[v as int] <==> path@.contains(v)) by {}
    }
    traverse_rec(tg, query, start, &mut path, &mut on_path, &mut results, max_depth);
    assert(paths_view(Seq::<Vec<usize>>::empty()) =~= Seq::<Seq<usize>>::empty());
    assert(path@ =~= Seq::<usize>::empty());
    proof {
        assert(Seq::<Seq<usize>>::empty() + visit(tg, query, seq![], start, max_depth as nat)
            =~= visit(tg, query, seq![], start, max_depth as nat));
        lemma_visit_reports(tg, query, seq![], start, max_depth as nat);
        assert((max_depth as nat) == depth_of(query));
        assert forall|j: int| 0 <= j < results@.len() implies (#[trigger] results@[j])@[0] == start
            && reported(tg, query, results@[j]@, max_depth as nat) by {
            assert(results@[j]@ == paths_view(results@)[j]);
            assert(results@[j]@ == visit(tg, query, seq![], start, max_depth as nat)[j]);
        }
    }
    results
}

/// From `a` there is an edge to `b` that passes the edge filter.
pub open spec fn step_ok(tg: &TraversalGraph, q: &DistributedGraphQuery, a: int, b: int) -> bool {
    0 <= a < tg.graph.n() && exists|k: int| 0 <= k < tg.graph.out@[a]@.len() && #[trigger] tg.graph.target(a, k) == b && edge_ok(tg, q, a, k)
}

/// `r` runs through stored nodes, none twice, each step along an edge that
/// passes the edge filter.
pub open spec fn filtered_walk(tg: &TraversalGraph, q: &DistributedGraphQuery, r: Seq<usize>) -> bool {
    &&& r.len() > 0
    &&& forall|i: int| 0 <= i < r.len() ==> #[trigger] r[i] < tg.graph.n() && tg.nodes@[r[i] as int] is Some
    &&& forall|i: int, j: int| 0 <= i < j < r.len() ==> r[i] != r[j]
    &&& forall|i: int| 0 <= i < r.len() - 1 ==> step_ok(tg, q, #[trigger] r[i] as int, r[i + 1] as int)
}

/// A path the traversal may report: a filtered walk of at least one edge
/// and at most `max_depth` edges whose last node passes the node filters.
pub open spec fn reported(tg: &TraversalGraph, q: &DistributedGraphQuery, r: Seq<usize>, max_depth: nat) -> bool {
    &&& filtered_walk(tg, q, r)
    &&& 2 <= r.len() <= max_depth + 1
    &&& node_ok(tg.nodes@[r.last() as int]->0, q)
}

/// `r` extends `pre`.
pub open spec fn extends(r: Seq<usize>, pre: Seq<usize>) -> bool {
    r.len() > pre.len() && r.subrange(0, pre.len() as int) == pre
}

proof fn lemma_push_walk(tg: &TraversalGraph, q: &DistributedGraphQuery, path: Seq<usize>, cur: usize)
    requires
        tg.wf(),
        path.len() > 0 ==> filtered_walk(tg, q, path) && step_ok(tg, q, path.last() as int, cur as int),
        cur < tg.graph.n(),
        tg.nodes@[cur as int] is Some,
        !path.contains(cur),
    ensures
        filtered_walk(tg, q, path.push(cur)),
{
    let p = path.push(cur);
    assert forall|i: int| 0 <= i < p.len() implies #[trigger] p[i] < tg.graph.n() && tg.nodes@[p[i] as int] is Some by {
        if i < path.len() {
            assert(p[i] == path[i]);
        }
    }
    assert forall|i: int, j: int| 0 <= i < j < p.len() implies p[i] != p[j] by {
        assert(p[i] == path[i]);
        if j < path.len() {
            assert(p[j] == path[j]);
        } else {
            assert(path[i] != cur);
        }
    }
    assert forall|i: int| 0 <= i < p.len() - 1 implies step_ok(tg, q, #[trigger] p[i] as int, p[i + 1] as int) by {
        assert(p[i] == path[i]);
        if i < path.len() - 1 {
            assert(p[i + 1] == path[i + 1]);
        }
    }
}

/// Every path the traversal reports from `cur` along `path` is a path it
/// may report, and runs along `path` and then through `cur`.
pub proof fn lemma_visit_reports(tg: &TraversalGraph, q: &DistributedGraphQuery, path: Seq<usize>, cur: usize, max_depth: nat)
    requires
        tg.wf(),
        path.len() > 0 ==> filtered_walk(tg, q, path) && step_ok(tg, q, path.last() as int, cur as int),
    ensures
        forall|j: int| 0 <= j < visit(tg, q, path, cur, max_depth).len() ==> {
            let r = #[trigger] visit(tg, q, path, cur, max_depth)[j];
            &&& reported(tg, q, r, max_depth)
            &&& extends(r, path)
            &&& r[path.len() as int] == cur
        },
    decreases room(path, max_depth), 1nat, 0nat,
{
    if path.len() > max_depth || path.contains(cur) || !(cur < tg.graph.n()) {
    } else if tg.nodes@[cur as int] is Some {
        let info = tg.nodes@[cur as int]->0;
        let p = path.push(cur);
        lemma_push_walk(tg, q, path, cur);
        let here: Seq<Seq<usize>> = if node_ok(info, q) && p.len() > 1 { seq![p] } else { seq![] };
        assert(p.drop_last() =~= path);
        lemma_visit_edges_reports(tg, q, p, cur, 0, max_depth);
        let v = visit(tg, q, path, cur, max_depth);
        let e = visit_edges(tg, q, p, cur, 0, max_depth);
        assert(v == here + e);
        assert forall|j: int| 0 <= j < v.len() implies {
            let r = #[trigger] v[j];
            &&& reported(tg, q, r, max_depth)
            &&& extends(r, path)
            &&& r[path.len() as int] == cur
        } by {
            if j < here.len() {
                assert(v[j] == p);
                assert(p.subrange(0, path.len() as int) =~= path);
            } else {
                let r = e[j - here.len()];
                assert(v[j] == r);
                assert(extends(r, p));
                assert(r.subrange(0, path.len() as int) =~= r.subrange(0, p.len() as int).subrange(0, path.len() as int));
                assert(r[path.len() as int] == r.subrange(0, p.len() as int)[path.len() as int]);
            }
        }
    }
}

proof fn lemma_visit_edges_reports(tg: &TraversalGraph, q: &DistributedGraphQuery, p: Seq<usize>, cur: usize, k: int, max_depth: nat)
    requires
        tg.wf(),
        filtered_walk(tg, q, p),
        p.last() == cur,
        cur < tg.graph.n(),
        0 <= k <= tg.graph.out@[cur as int]@.len(),
        p.drop_last().len() <= max_depth,
    ensures
        forall|j: int| 0 <= j < visit_edges(tg, q, p, cur, k, max_depth).len() ==> {
            let r = #[trigger] visit_edges(tg, q, p, cur, k, max_depth)[j];
            &&& reported(tg, q, r, max_depth)
            &&& extends(r, p)
        },
    decreases room(p.drop_last(), max_depth), 0nat, tg.graph.out@[cur as int]@.len() - k,
{
    if k < tg.graph.out@[cur as int]@.len() {
        lemma_visit_edges_reports(tg, q, p, cur, k + 1, max_depth);
        let rest = visit_edges(tg, q, p, cur, k + 1, max_depth);
        let all = visit_edges(tg, q, p, cur, k, max_depth);
        if edge_ok(tg, q, cur as int, k) {
            let t = tg.graph.out@[cur as int]@[k];
            assert(tg.graph.target(cur as int, k) == t as int);
            assert(step_ok(tg, q, p.last() as int, t as int));
            assert(room(p, max_depth) < room(p.drop_last(), max_depth));
            lemma_visit_reports(tg, q, p, t, max_depth);
            let vr = visit(tg, q, p, t, max_depth);
            assert(all == vr + rest);
            assert forall|j: int| 0 <= j < all.len() implies {
                let r = #[trigger] all[j];
                &&& reported(tg, q, r, max_depth)
                &&& extends(r, p)
            } by {
                if j < vr.len() {
                    assert(all[j] == vr[j]);
                } else {
                    assert(all[j] == rest[j - vr.len()]);
                }
            }
        } else {
            assert(all == rest);
        }
    }
}

} // verus!
