use vstd::prelude::*;

use std::collections::HashMap;

use crate::graph_components::{Edge, GraphChange, GraphError, Id, Node};

verus! {

broadcast use vstd::std_specs::hash::group_hash_axioms;

/// Some edge of `edges` runs from `start` to `end`.
pub open spec fn has_pair(edges: Seq<Edge>, start: Id, end: Id) -> bool {
    exists|i: int| 0 <= i < edges.len() && #[trigger] edges[i].0 == start && edges[i].1 == end
}

/// `e` starts or ends at `id`.
pub open spec fn incident(e: Edge, id: Id) -> bool {
    e.0 == id || e.1 == id
}

/// The test that an edge neither starts nor ends at `id`.
pub open spec fn avoids(id: Id) -> spec_fn(Edge) -> bool {
    |e: Edge| !incident(e, id)
}

/// The test that an edge starts or ends at `id`.
pub open spec fn touches(id: Id) -> spec_fn(Edge) -> bool {
    |e: Edge| incident(e, id)
}

/// The edges of `edges` that start or end at `id`, in their order.
pub open spec fn incident_edges(edges: Seq<Edge>, id: Id) -> Seq<Edge> {
    edges.filter(touches(id))
}

/// The test that an edge ends at `id`.
pub open spec fn ends_at(id: Id) -> spec_fn(Edge) -> bool {
    |e: Edge| e.1 == id
}

/// The test that an edge starts at `id`.
pub open spec fn starts_at(id: Id) -> spec_fn(Edge) -> bool {
    |e: Edge| e.0 == id
}

/// The number of edges of `edges` that end at `id`.
pub open spec fn count_ending_at(edges: Seq<Edge>, id: Id) -> nat {
    edges.filter(ends_at(id)).len()
}

/// The number of edges of `edges` that start at `id`.
pub open spec fn count_starting_at(edges: Seq<Edge>, id: Id) -> nat {
    edges.filter(starts_at(id)).len()
}

/// The start ids of the edges of `edges` that end at `id`, in their order.
pub open spec fn preds_of(edges: Seq<Edge>, id: Id) -> Seq<Id> {
    edges.filter(ends_at(id)).map_values(|e: Edge| e.0)
}

/// The end ids of the edges of `edges` that start at `id`, in their order.
pub open spec fn succs_of(edges: Seq<Edge>, id: Id) -> Seq<Id> {
    edges.filter(starts_at(id)).map_values(|e: Edge| e.1)
}

/// The position of the first edge from `id_in` to `id_out`, if there is one.
pub fn edge_index(edges: &Vec<Edge>, id_in: Id, id_out: Id) -> (r: Option<usize>)
    ensures
        match r {
            Some(i) => i < edges.len() && edges@[i as int].0 == id_in && edges@[i as int].1
                == id_out && forall|j: int|
                0 <= j < i ==> !(#[trigger] edges@[j].0 == id_in && edges@[j].1 == id_out),
            None => !has_pair(edges@, id_in, id_out),
        },
{
    let mut i: usize = 0;
    while i < edges.len()
        invariant
            i <= edges.len(),
            forall|j: int| 0 <= j < i ==> !(#[trigger] edges@[j].0 == id_in && edges@[j].1 == id_out),
        decreases edges.len() - i,
    {
        if edges[i].0 == id_in && edges[i].1 == id_out {
            return Some(i);
        }
        i = i + 1;
    }
    None
}

/// Whether a node with this id is present.
pub fn node_id_present(nodes: &HashMap<Id, Node>, id: Id) -> (r: bool)
    ensures
        r == nodes@.contains_key(id),
{
    nodes.contains_key(&id)
}

/// Validates adding `new_node`: refused when its id is already in use.
pub fn check_add_node(nodes: &HashMap<Id, Node>, new_node: Node) -> (r: GraphChange)
    ensures
        r == if nodes@.contains_key(new_node.0) {
            GraphChange::Failure(GraphError::DuplicateId(new_node.0))
        } else {
            GraphChange::AddNode(new_node)
        },
{
    if node_id_present(nodes, new_node.0) {
        return GraphChange::Failure(GraphError::DuplicateId(new_node.0));
    }
    GraphChange::AddNode(new_node)
}

/// How many of the first `n` edges end at `id`, and how many start there.
pub(crate) fn prefix_degrees(edges: &Vec<Edge>, n: usize, id: Id) -> (r: (usize, usize))
    requires
        n <= edges.len(),
    ensures
        r.0 == count_ending_at(edges@.take(n as int), id),
        r.1 == count_starting_at(edges@.take(n as int), id),
{
    let mut degs: (usize, usize) = (0, 0);
    let mut i: usize = 0;
    while i < n
        invariant
            i <= n <= edges.len(),
            degs.0 == count_ending_at(edges@.take(i as int), id),
            degs.1 == count_starting_at(edges@.take(i as int), id),
            degs.0 <= i && degs.1 <= i,
        decreases n - i,
    {
        proof {
            let s = edges@.take(i as int);
            assert(edges@.take(i + 1) == s.push(edges@[i as int]));
            s.lemma_filter_push(edges@[i as int], ends_at(id));
            s.lemma_filter_push(edges@[i as int], starts_at(id));
        }
        if edges[i].1 == id {
            degs.0 = degs.0 + 1;
        }
        if edges[i].0 == id {
            degs.1 = degs.1 + 1;
        }
        i = i + 1;
    }
    degs
}

/// The in- and out-degree of `id` in `edges`: how many edges end at it and
/// how many start at it. An id that no edge names gets `(0, 0)`.
pub fn check_node_degrees(edges: &Vec<Edge>, id: Id) -> (r: (usize, usize))
    ensures
        r.0 == count_ending_at(edges@, id),
        r.1 == count_starting_at(edges@, id),
{
    assert(edges@.take(edges.len() as int) == edges@);
    prefix_degrees(edges, edges.len(), id)
}

/// Copies, in order, the edges of `edges` that start or end at `id`.
pub fn collect_incident_edges(edges: &Vec<Edge>, id: Id) -> (r: Vec<Edge>)
    ensures
        r@ == incident_edges(edges@, id),
{
    let mut out: Vec<Edge> = Vec::new();
    let mut i: usize = 0;
    while i < edges.len()
        invariant
            i <= edges.len(),
            out@ == incident_edges(edges@.subrange(0, i as int), id),
        decreases edges.len() - i,
    {
        proof {
            let s = edges@.subrange(0, i as int);
            assert(edges@.subrange(0, i + 1) == s.push(edges@[i as int]));
            s.lemma_filter_push(edges@[i as int], touches(id));
        }
        if edges[i].0 == id || edges[i].1 == id {
            out.push(edges[i].clone());
        }
        i = i + 1;
    }
    assert(edges@.subrange(0, edges.len() as int) == edges@);
    out
}

/// Validates removing node `id`: refused when it is absent; otherwise the
/// record holds the node and, in order, every edge that starts or ends there.
pub fn check_remove_node(nodes: &HashMap<Id, Node>, edges: &Vec<Edge>, id: Id) -> (r: GraphChange)
    ensures
        !nodes@.contains_key(id) ==> r == GraphChange::Failure(GraphError::NodeNotFound(id)),
        nodes@.contains_key(id) ==> match r {
            GraphChange::RemoveNode(n, ev) => n == nodes@[id] && ev@ == incident_edges(edges@, id),
            _ => false,
        },
{
    match nodes.get(&id) {
        None => GraphChange::Failure(GraphError::NodeNotFound(id)),
        Some(node) => GraphChange::RemoveNode(node.clone(), collect_incident_edges(edges, id)),
    }
}

/// Validates adding `new_edge`: refused when an edge with the same terminals
/// exists, or else when either terminal is not a node.
pub fn check_add_edge(nodes: &HashMap<Id, Node>, edges: &Vec<Edge>, new_edge: Edge) -> (r:
    GraphChange)
    ensures
        r == if has_pair(edges@, new_edge.0, new_edge.1) {
            GraphChange::Failure(GraphError::DuplicateEdge(new_edge.0, new_edge.1))
        } else if !nodes@.contains_key(new_edge.0) || !nodes@.contains_key(new_edge.1) {
            GraphChange::Failure(GraphError::MissingEndpoint(new_edge.0, new_edge.1))
        } else {
            GraphChange::AddEdge(new_edge)
        },
{
    let id_in = new_edge.0;
    let id_out = new_edge.1;
    if let Some(_index) = edge_index(edges, id_in, id_out) {
        return GraphChange::Failure(GraphError::DuplicateEdge(id_in, id_out));
    }
    if node_id_present(nodes, id_in) && node_id_present(nodes, id_out) {
        return GraphChange::AddEdge(new_edge);
    }
    GraphChange::Failure(GraphError::MissingEndpoint(id_in, id_out))
}

/// Validates adding a bare edge from `id_in` to `id_out`, creating whichever
/// terminal is not yet a node: refused when such an edge exists. The record
/// names each terminal that is not yet a node; a loop on a new id names it
/// as both start and end.
pub fn check_add_edge_with_nodes(
    nodes: &HashMap<Id, Node>,
    edges: &Vec<Edge>,
    id_in: Id,
    id_out: Id,
) -> (r: GraphChange)
    ensures
        r == if has_pair(edges@, id_in, id_out) {
            GraphChange::Failure(GraphError::DuplicateEdge(id_in, id_out))
        } else {
            GraphChange::AddEdgeWith(
                Edge(id_in, id_out, None),
                if nodes@.contains_key(id_in) {
                    None
                } else {
                    Some(id_in)
                },
                if nodes@.contains_key(id_out) {
                    None
                } else {
                    Some(id_out)
                },
            )
        },
{
    if let Some(_index) = edge_index(edges, id_in, id_out) {
        return GraphChange::Failure(GraphError::DuplicateEdge(id_in, id_out));
    }
    let new_in = if node_id_present(nodes, id_in) {
        None
    } else {
        Some(id_in)
    };
    let new_out = if node_id_present(nodes, id_out) {
        None
    } else {
        Some(id_out)
    };
    GraphChange::AddEdgeWith(Edge::bare(id_in, id_out), new_in, new_out)
}

/// Validates removing the edge from `id_in` to `id_out`: refused when there
/// is none; otherwise the record holds the first such edge.
pub fn check_remove_edge(edges: &Vec<Edge>, id_in: Id, id_out: Id) -> (r: GraphChange)
    ensures
        !has_pair(edges@, id_in, id_out) ==> r == GraphChange::Failure(
            GraphError::EdgeNotFound(id_in, id_out),
        ),
        has_pair(edges@, id_in, id_out) ==> exists|i: int|
            0 <= i < edges.len() && r == GraphChange::RemoveEdge(#[trigger] edges@[i])
                && edges@[i].0 == id_in && edges@[i].1 == id_out && forall|j: int|
                0 <= j < i ==> !(#[trigger] edges@[j].0 == id_in && edges@[j].1 == id_out),
{
    if let Some(index) = edge_index(edges, id_in, id_out) {
        let edge_to_drop = edges[index].clone();
        return GraphChange::RemoveEdge(edge_to_drop);
    }
    GraphChange::Failure(GraphError::EdgeNotFound(id_in, id_out))
}


/// `b` is listed among the successors of `a` in `after`.
pub open spec fn step(after: Map<Id, Vec<Id>>, a: Id, b: Id) -> bool {
    after.contains_key(a) && after[a]@.contains(b)
}

/// `p` is a non-empty walk along `after`: each id after the first is a
/// successor of the one before it.
pub open spec fn is_walk(after: Map<Id, Vec<Id>>, p: Seq<Id>) -> bool {
    &&& p.len() > 0
    &&& forall|j: int, k: int|
        #![trigger p[j], p[k]]
        0 <= j && k == j + 1 && k < p.len() ==> step(after, p[j], p[k])
}

/// Some walk along `after` leads from `from` to `to` and meets no id of
/// `avoid` on the way, its ends included.
pub open spec fn reaches_avoiding(after: Map<Id, Vec<Id>>, avoid: Seq<Id>, from: Id, to: Id) -> bool {
    exists|p: Seq<Id>|
        #![trigger is_walk(after, p), p.last()]
        is_walk(after, p) && p[0] == from && p.last() == to && forall|k: int|
            0 <= k < p.len() ==> !avoid.contains(#[trigger] p[k])
}

/// Whether `x` is listed in `v`.
pub fn id_listed(v: &Vec<Id>, x: Id) -> (r: bool)
    ensures
        r == v@.contains(x),
{
    let mut i: usize = 0;
    while i < v.len()
        invariant
            i <= v.len(),
            forall|j: int| 0 <= j < i ==> v@[j] != x,
        decreases v.len() - i,
    {
        if v[i] == x {
            return true;
        }
        i = i + 1;
    }
    false
}

/// A list of distinct ids has at most one entry per value of the id type.
proof fn lemma_distinct_ids_bounded(s: Seq<Id>)
    requires
        s.no_duplicates(),
    ensures
        s.len() <= 65536,
{
    let t = s.map_values(|x: Id| x as int);
    assert(t.no_duplicates()) by {
        assert forall|a: int, b: int| 0 <= a < t.len() && 0 <= b < t.len() && a != b implies t[a]
            != t[b] by {
            assert(s[a] != s[b]);
        }
    }
    t.unique_seq_to_set();
    let r = vstd::set_lib::set_int_range(0, 65536);
    vstd::set_lib::lemma_int_range(0, 65536);
    assert(t.to_set().subset_of(r));
    vstd::set_lib::lemma_len_subset(t.to_set(), r);
}

/// Once every listed id past position `n0` has had its successors listed,
/// whatever a walk that avoids the first `n0` ids reaches from a listed id is
/// listed too.
proof fn lemma_walk_stays_listed(
    after: Map<Id, Vec<Id>>,
    c: Seq<Id>,
    n0: int,
    p: Seq<Id>,
)
    requires
        0 <= n0 <= c.len(),
        is_walk(after, p),
        c.contains(p[0]),
        forall|k: int| 0 <= k < p.len() ==> !c.subrange(0, n0).contains(#[trigger] p[k]),
        forall|j: int, w: Id|
            n0 <= j < c.len() && #[trigger] step(after, c[j], w) ==> c.contains(w),
    ensures
        c.contains(p.last()),
    decreases p.len(),
{
    if p.len() > 1 {
        let q = p.drop_last();
        assert(is_walk(after, q)) by {
            assert forall|j: int, k: int| 0 <= j && k == j + 1 && k < q.len() implies step(
                after,
                q[j],
                q[k],
            ) by {
                assert(q[j] == p[j] && q[k] == p[k]);
            }
        }
        assert forall|k: int| 0 <= k < q.len() implies !c.subrange(0, n0).contains(
            #[trigger] q[k],
        ) by {
            assert(q[k] == p[k]);
        }
        lemma_walk_stays_listed(after, c, n0, q);
        let u = q.last();
        let j = choose|j: int| 0 <= j < c.len() && c[j] == u;
        if j < n0 {
            assert(c.subrange(0, n0)[j] == u);
            assert(!c.subrange(0, n0).contains(p[p.len() - 2]));
        }
        assert(step(after, p[p.len() - 2], p[p.len() - 1]));
        assert(step(after, c[j], p.last()));
    }
}

/// Lists in `census` every id reachable from `starting_point` along
/// `after_neighbor_map` without passing through an id that `census` already
/// lists. Nothing changes when `starting_point` is already listed; the ids
/// listed before keep their places, and each id is added once.
pub fn collect_reachable_neighbors(
    census: &mut Vec<Id>,
    starting_point: Id,
    after_neighbor_map: &HashMap<Id, Vec<Id>>,
)
    ensures
        old(census)@.contains(starting_point) ==> final(census)@ == old(census)@,
        final(census)@.len() >= old(census)@.len(),
        final(census)@.subrange(0, old(census)@.len() as int) == old(census)@,
        !old(census)@.contains(starting_point) ==> forall|v: Id|
            #[trigger] final(census)@.contains(v) <==> (old(census)@.contains(v)
                || reaches_avoiding(after_neighbor_map@, old(census)@, starting_point, v)),
        old(census)@.no_duplicates() ==> final(census)@.no_duplicates(),
{
    if id_listed(census, starting_point) {
        return;
    }
    let ghost old_c = census@;
    let ghost m = after_neighbor_map@;
    let n0 = census.len();
    census.push(starting_point);
    proof {
        let p = seq![starting_point];
        assert(p.last() == starting_point);
        assert(is_walk(m, p));
        assert(reaches_avoiding(m, old_c, starting_point, starting_point));
        assert(census@.subrange(0, n0 as int) == old_c);
    }
    let mut i: usize = n0;
    while i < census.len()
        invariant
            n0 == old_c.len(),
            n0 <= i <= census.len(),
            census.len() <= n0 + 65536,
            census@.subrange(0, n0 as int) == old_c,
            census@[n0 as int] == starting_point,
            census.len() > n0,
            forall|j: int| n0 <= j < census.len() ==> !old_c.contains(#[trigger] census@[j]),
            census@.subrange(n0 as int, census.len() as int).no_duplicates(),
            forall|j: int|
                n0 <= j < census.len() ==> reaches_avoiding(m, old_c, starting_point, #[trigger] census@[j]),
            forall|j: int, w: Id|
                n0 <= j < i && #[trigger] step(m, census@[j], w) ==> census@.contains(w),
            m == after_neighbor_map@,
        decreases n0 + 65536 - i,
    {
        let u = census[i];
        let ghost before = census@;
        if let Some(nbrs) = after_neighbor_map.get(&u) {
            let mut k: usize = 0;
            while k < nbrs.len()
                invariant
                    n0 == old_c.len(),
                    n0 <= i < census.len(),
                    census.len() <= n0 + 65536,
                    census@.subrange(0, n0 as int) == old_c,
                    census@[n0 as int] == starting_point,
                    census@[i as int] == u,
                    m.contains_key(u) && m[u] == *nbrs,
                    census.len() >= before.len(),
                    forall|j: int| 0 <= j < before.len() ==> census@[j] == before[j],
                    forall|j: int| n0 <= j < census.len() ==> !old_c.contains(#[trigger] census@[j]),
                    census@.subrange(n0 as int, census.len() as int).no_duplicates(),
                    forall|j: int|
                        n0 <= j < census.len() ==> reaches_avoiding(
                            m,
                            old_c,
                            starting_point,
                            #[trigger] census@[j],
                        ),
                    forall|j: int, w: Id|
                        n0 <= j < i && #[trigger] step(m, before[j], w) ==> before.contains(w),
                    forall|kk: int| 0 <= kk < k ==> census@.contains(#[trigger] nbrs@[kk]),
                    m == after_neighbor_map@,
                decreases nbrs.len() - k,
            {
                let w = nbrs[k];
                if !id_listed(census, w) {
                    proof {
                        let newpart = census@.subrange(n0 as int, census.len() as int);
                        assert(newpart.push(w).no_duplicates()) by {
                            assert forall|a: int| 0 <= a < newpart.len() implies newpart[a] != w by {
                                assert(census@[n0 + a] == newpart[a]);
                            }
                        }
                        lemma_distinct_ids_bounded(newpart.push(w));
                        assert(!old_c.contains(w)) by {
                            if old_c.contains(w) {
                                let a = choose|a: int| 0 <= a < old_c.len() && old_c[a] == w;
                                assert(census@.subrange(0, n0 as int)[a] == w);
                                assert(census@[a] == w);
                            }
                        }
                        let p = choose|p: Seq<Id>|
                            #![trigger is_walk(m, p), p.last()]
                            is_walk(m, p) && p[0] == starting_point && p.last() == u && forall|
                                kk: int,
                            | 0 <= kk < p.len() ==> !old_c.contains(#[trigger] p[kk]);
                        let p2 = p.push(w);
                        assert(m[u]@.contains(w)) by {
                            assert(m[u]@[k as int] == w);
                        }
                        assert(is_walk(m, p2)) by {
                            assert forall|j: int, kk: int|
                                0 <= j && kk == j + 1 && kk < p2.len() implies step(
                                m,
                                p2[j],
                                p2[kk],
                            ) by {
                                if kk < p.len() {
                                    assert(p2[j] == p[j] && p2[kk] == p[kk]);
                                } else {
                                    assert(p2[j] == p.last());
                                }
                            }
                        }
                        assert(forall|kk: int|
                            0 <= kk < p2.len() ==> !old_c.contains(#[trigger] p2[kk])) by {
                            assert forall|kk: int| 0 <= kk < p2.len() implies !old_c.contains(
                                #[trigger] p2[kk],
                            ) by {
                                if kk < p.len() {
                                    assert(p2[kk] == p[kk]);
                                }
                            }
                        }
                        assert(p2.last() == w);
                        assert(reaches_avoiding(m, old_c, starting_point, w));
                    }
                    let ghost prev = census@;
                    census.push(w);
                    proof {
                        assert(census@.subrange(n0 as int, census.len() as int) == prev.subrange(
                            n0 as int,
                            prev.len() as int,
                        ).push(w));
                        assert(census@.subrange(0, n0 as int) == prev.subrange(0, n0 as int));
                        assert forall|kk: int| 0 <= kk <= k implies census@.contains(
                            #[trigger] nbrs@[kk],
                        ) by {
                            if kk < k {
                                let a = choose|a: int| 0 <= a < prev.len() && prev[a] == nbrs@[kk];
                                assert(census@[a] == nbrs@[kk]);
                            } else {
                                assert(census@[prev.len() as int] == w);
                            }
                        }
                    }
                } else {
                    assert(census@.contains(nbrs@[k as int]));
                }
                k = k + 1;
            }
            proof {
                assert forall|j: int, w: Id|
                    n0 <= j < i + 1 && #[trigger] step(m, census@[j], w) implies census@.contains(
                    w,
                ) by {
                    assert(census@[j] == before[j]);
                    if j < i {
                        assert(step(m, before[j], w));
                        let a = choose|a: int| 0 <= a < before.len() && before[a] == w;
                        assert(census@[a] == w);
                    } else {
                        let kk = choose|kk: int| 0 <= kk < nbrs@.len() && nbrs@[kk] == w;
                        assert(census@.contains(nbrs@[kk]));
                    }
                }
            }
        } else {
            proof {
                assert forall|j: int, w: Id|
                    n0 <= j < i + 1 && #[trigger] step(m, census@[j], w) implies census@.contains(
                    w,
                ) by {
                    if j == i {
                        assert(!m.contains_key(u));
                    }
                }
            }
        }
        i = i + 1;
    }
    proof {
        let c = census@;
        assert(c.subrange(0, n0 as int) == old_c);
        if old_c.no_duplicates() {
            let np = c.subrange(n0 as int, c.len() as int);
            assert forall|a: int, b: int| 0 <= a < c.len() && 0 <= b < c.len() && a != b implies c[a]
                != c[b] by {
                if a < n0 && b < n0 {
                    assert(old_c[a] == c[a] && old_c[b] == c[b]);
                } else if a < n0 {
                    assert(old_c[a] == c[a]);
                    assert(!old_c.contains(c[b]));
                } else if b < n0 {
                    assert(old_c[b] == c[b]);
                    assert(!old_c.contains(c[a]));
                } else {
                    assert(np[a - n0] == c[a] && np[b - n0] == c[b]);
                }
            }
        }
        assert forall|v: Id| #[trigger] c.contains(v) <==> (old_c.contains(v) || reaches_avoiding(
            m,
            old_c,
            starting_point,
            v,
        )) by {
            if c.contains(v) {
                let a = choose|a: int| 0 <= a < c.len() && c[a] == v;
                if a < n0 {
                    assert(c.subrange(0, n0 as int)[a] == v);
                }
            }
            if old_c.contains(v) {
                let a = choose|a: int| 0 <= a < old_c.len() && old_c[a] == v;
                assert(c.subrange(0, n0 as int)[a] == v);
                assert(c[a] == v);
            }
            if reaches_avoiding(m, old_c, starting_point, v) {
                let p = choose|p: Seq<Id>|
                    #![trigger is_walk(m, p), p.last()]
                    is_walk(m, p) && p[0] == starting_point && p.last() == v && forall|kk: int|
                        0 <= kk < p.len() ==> !old_c.contains(#[trigger] p[kk]);
                assert(c[n0 as int] == starting_point);
                lemma_walk_stays_listed(m, c, n0 as int, p);
            }
        }
    }
}

} // verus!
