use vstd::prelude::*;

use std::collections::HashMap;

use crate::graph_components::{copy_payload, Edge, GraphChange, GraphError, Id, Node};
use crate::graph_ref::{
    avoids, incident_edges, check_add_edge, check_add_edge_with_nodes, check_add_node, check_remove_edge,
    check_remove_node, collect_reachable_neighbors, count_ending_at, count_starting_at, edge_index,
    ends_at, has_pair, id_listed, incident, is_walk, node_id_present, preds_of, prefix_degrees,
    reaches_avoiding, starts_at, step, succs_of, touches,
};
use crate::history::{HistoryDeque, UNDO_HISTORY_LIMIT};
use crate::seq_lemmas::{
    lemma_filter_no_duplicates, lemma_filter_none, lemma_filter_remove, lemma_to_set_filter,
    lemma_to_set_remove,
};
use crate::sorted::{insert_sorted_id, insert_sorted_pair, pairs_strictly_sorted, strictly_sorted};

verus! {

broadcast use vstd::std_specs::hash::group_hash_axioms;

/// A directed graph of nodes keyed by id and edges between them, with
/// predecessor and successor lists kept for each node and a bounded record of
/// the changes made, for undo.
pub struct DiGraph {
    pub name: Option<String>,
    nodes: HashMap<Id, Node>,
    edges: Vec<Edge>,
    neighbors_before: HashMap<Id, Vec<Id>>,
    neighbors_after: HashMap<Id, Vec<Id>>,
    undo_history: Option<HistoryDeque>,
    past: Ghost<Seq<GraphView>>,
}

/// What a graph holds, apart from order and indices: its nodes by id and its
/// set of edges.
pub struct GraphView {
    pub nodes: Map<Id, Node>,
    pub edges: Set<Edge>,
}

/// `e` runs from `start` to `end`.
pub open spec fn same_pair(e: Edge, start: Id, end: Id) -> bool {
    e.0 == start && e.1 == end
}

/// `e` starts or ends at the id in `id`, if there is one.
pub open spec fn incident_opt(e: Edge, id: Option<Id>) -> bool {
    match id {
        Some(k) => incident(e, k),
        None => false,
    }
}

/// `nodes` without the id in `id`, if there is one.
pub open spec fn remove_opt(nodes: Map<Id, Node>, id: Option<Id>) -> Map<Id, Node> {
    match id {
        Some(k) => nodes.remove(k),
        None => nodes,
    }
}

/// Each edge of `es` joins two ids of `nodes`, shares its terminals with no
/// edge of `edges`, and with no other edge of `es`.
pub open spec fn edges_insertable(nodes: Map<Id, Node>, edges: Set<Edge>, es: Seq<Edge>) -> bool {
    &&& forall|k: int|
        0 <= k < es.len() ==> nodes.contains_key(#[trigger] es[k].0) && nodes.contains_key(es[k].1)
    &&& forall|k: int, x: Edge|
        0 <= k < es.len() && #[trigger] edges.contains(x) ==> !same_pair(x, #[trigger] es[k].0, es[k].1)
    &&& forall|k: int, m: int|
        0 <= k < es.len() && 0 <= m < es.len() && k != m ==> !(#[trigger] es[k].0 == #[trigger] es[m].0
            && es[k].1 == es[m].1)
}

/// The inverse of `c` can be replayed on a graph that holds `v`, each step
/// finding what it needs.
pub open spec fn inverse_applies(c: GraphChange, v: GraphView) -> bool {
    match c {
        GraphChange::AddNode(_) => true,
        GraphChange::RemoveNode(n, es) => !v.nodes.contains_key(n.0) && edges_insertable(v.nodes.insert(n.0, n), v.edges, es@),
        GraphChange::AddEdge(_) => true,
        GraphChange::AddEdgeWith(_, _, _) => true,
        GraphChange::RemoveEdge(e) => edges_insertable(v.nodes, v.edges, seq![e]),
        GraphChange::InsertNodeAlongEdge(n, e) => edges_insertable(
            v.nodes.remove(n.0),
            v.edges.filter(avoids(n.0)),
            seq![e],
        ),
        GraphChange::Failure(_) => false,
    }
}

/// What a graph that holds `v` holds once the inverse of `c` is replayed.
pub open spec fn inverse_view(c: GraphChange, v: GraphView) -> GraphView {
    match c {
        GraphChange::AddNode(n) => GraphView {
            nodes: v.nodes.remove(n.0),
            edges: v.edges.filter(avoids(n.0)),
        },
        GraphChange::RemoveNode(n, es) => GraphView {
            nodes: v.nodes.insert(n.0, n),
            edges: v.edges + es@.to_set(),
        },
        GraphChange::AddEdge(e) => GraphView {
            nodes: v.nodes,
            edges: v.edges.filter(|x: Edge| !same_pair(x, e.0, e.1)),
        },
        GraphChange::AddEdgeWith(e, new_start, new_end) => GraphView {
            nodes: remove_opt(remove_opt(v.nodes, new_start), new_end),
            edges: v.edges.filter(
                |x: Edge|
                    !incident_opt(x, new_start) && !incident_opt(x, new_end) && !same_pair(
                        x,
                        e.0,
                        e.1,
                    ),
            ),
        },
        GraphChange::RemoveEdge(e) => GraphView { nodes: v.nodes, edges: v.edges.insert(e) },
        GraphChange::InsertNodeAlongEdge(n, e) => GraphView {
            nodes: v.nodes.remove(n.0),
            edges: v.edges.filter(avoids(n.0)).insert(e),
        },
        GraphChange::Failure(_) => v,
    }
}

/// `states` after the view `v` is recorded in a history that keeps `limit`
/// entries: nothing is kept when `limit` is zero, and a full history loses
/// its oldest entry.
pub open spec fn record(states: Seq<GraphView>, v: GraphView, limit: nat) -> Seq<GraphView> {
    if limit == 0 {
        states
    } else if states.len() < limit {
        states.push(v)
    } else {
        states.drop_first().push(v)
    }
}

/// `nodes` with a bare node under `id`, unless `id` is already taken.
pub open spec fn with_bare(nodes: Map<Id, Node>, id: Id) -> Map<Id, Node> {
    if nodes.contains_key(id) {
        nodes
    } else {
        nodes.insert(id, Node(id, None))
    }
}

/// `p` is a non-empty walk along `edges`: some edge runs from each id of `p`
/// to the next.
pub open spec fn edge_walk(edges: Seq<Edge>, p: Seq<Id>) -> bool {
    &&& p.len() > 0
    &&& forall|j: int, k: int|
        #![trigger p[j], p[k]]
        0 <= j && k == j + 1 && k < p.len() ==> has_pair(edges, p[j], p[k])
}

/// The bare nodes that loading the pairs of `pairs` in order creates.
pub open spec fn bare_nodes_of(pairs: Seq<(Id, Id)>) -> Map<Id, Node>
    decreases pairs.len(),
{
    if pairs.len() == 0 {
        Map::<Id, Node>::empty()
    } else {
        with_bare(with_bare(bare_nodes_of(pairs.drop_last()), pairs.last().0), pairs.last().1)
    }
}

/// The bare edges for the pairs of `pairs`, in order.
pub open spec fn bare_edges_of(pairs: Seq<(Id, Id)>) -> Seq<Edge> {
    pairs.map_values(|p: (Id, Id)| Edge(p.0, p.1, None))
}

/// The nodes of `nodes` by id, a later node replacing an earlier one with
/// the same id.
pub open spec fn node_map_of(nodes: Seq<Node>) -> Map<Id, Node>
    decreases nodes.len(),
{
    if nodes.len() == 0 {
        Map::<Id, Node>::empty()
    } else {
        node_map_of(nodes.drop_last()).insert(nodes.last().0, nodes.last())
    }
}

/// Some node of `nodes` has the id `id`.
pub open spec fn names_id(nodes: Seq<Node>, id: Id) -> bool {
    exists|i: int| 0 <= i < nodes.len() && #[trigger] nodes[i].0 == id
}

/// The first `i` nodes of `nodes` have distinct ids.
pub open spec fn ids_distinct_upto(nodes: Seq<Node>, i: int) -> bool {
    forall|a: int, b: int| 0 <= a < b < i ==> #[trigger] nodes[a].0 != #[trigger] nodes[b].0
}

/// No two of the first `k` edges of `edges` share their terminals, and each
/// of their terminals is the id of a node of `nodes`.
pub open spec fn edges_fit_upto(nodes: Seq<Node>, edges: Seq<Edge>, k: int) -> bool {
    &&& forall|a: int, b: int|
        0 <= a < b < k ==> !same_pair(#[trigger] edges[a], edges[b].0, #[trigger] edges[b].1)
    &&& forall|a: int|
        0 <= a < k ==> names_id(nodes, #[trigger] edges[a].0) && names_id(nodes, edges[a].1)
}

/// `nodes` and `edges` describe a graph: node ids are distinct, no two edges
/// share their terminals, and every terminal is the id of a node.
pub open spec fn parts_valid(nodes: Seq<Node>, edges: Seq<Edge>) -> bool {
    &&& ids_distinct_upto(nodes, nodes.len() as int)
    &&& edges_fit_upto(nodes, edges, edges.len() as int)
}

/// `e` is the first offence met when the nodes of `nodes` and then the edges
/// of `edges` are taken in order: a node whose id an earlier node has, or
/// else an edge whose terminals an earlier edge has, or else one with a
/// terminal that no node has.
pub open spec fn first_offence(nodes: Seq<Node>, edges: Seq<Edge>, e: GraphError) -> bool {
    ||| exists|i: int|
        0 <= i < nodes.len() && ids_distinct_upto(nodes, i) && names_id(
            nodes.take(i),
            #[trigger] nodes[i].0,
        ) && e == GraphError::DuplicateId(nodes[i].0)
    ||| ids_distinct_upto(nodes, nodes.len() as int) && exists|k: int|
        0 <= k < edges.len() && edges_fit_upto(nodes, edges, k) && {
            let x = #[trigger] edges[k];
            if has_pair(edges.take(k), x.0, x.1) {
                e == GraphError::DuplicateEdge(x.0, x.1)
            } else {
                !(names_id(nodes, x.0) && names_id(nodes, x.1)) && e == GraphError::MissingEndpoint(
                    x.0,
                    x.1,
                )
            }
        }
}

/// `after` is `before` with one more change recorded for undo.
pub open spec fn logged(before: DiGraph, after: DiGraph) -> bool {
    &&& after.graph_name() == before.graph_name()
    &&& after.history_limit() == before.history_limit()
    &&& after.undo_states() == record(before.undo_states(), before.view(), before.history_limit())
}

/// `after` is what undo makes of `before`: the most recent recorded view is
/// restored and leaves the record; with nothing recorded nothing changes.
pub open spec fn undone(before: DiGraph, after: DiGraph) -> bool {
    &&& after.graph_name() == before.graph_name()
    &&& after.history_limit() == before.history_limit()
    &&& if before.undo_states().len() == 0 {
        after.view() == before.view() && after.undo_states() == before.undo_states()
    } else {
        after.view() == before.undo_states().last() && after.undo_states()
            == before.undo_states().drop_last()
    }
}

impl DiGraph {
    /// The graph's name, if it has one.
    pub closed spec fn graph_name(&self) -> Option<String> {
        self.name
    }

    /// The nodes, by id.
    pub closed spec fn node_map(&self) -> Map<Id, Node> {
        self.nodes@
    }

    /// The edges, in the order in which they are stored.
    pub closed spec fn edge_seq(&self) -> Seq<Edge> {
        self.edges@
    }

    /// The recorded changes that `undo` can still invert, oldest first.
    pub closed spec fn history(&self) -> Seq<GraphChange> {
        match self.undo_history {
            Some(h) => h@,
            None => Seq::<GraphChange>::empty(),
        }
    }

    /// How many changes are kept for undo; zero when none are recorded.
    pub closed spec fn history_limit(&self) -> nat {
        match self.undo_history {
            Some(h) => h.limit(),
            None => 0,
        }
    }

    /// For each node, its in-degree and out-degree as the index holds them.
    pub closed spec fn degree_map(&self) -> Map<Id, (nat, nat)> {
        Map::new(
            |v: Id| self.neighbors_before@.contains_key(v),
            |v: Id|
                (self.neighbors_before@[v]@.len(), self.neighbors_after@[v]@.len()),
        )
    }

    /// The nodes and the set of edges.
    pub open spec fn view(&self) -> GraphView {
        GraphView { nodes: self.node_map(), edges: self.edge_set() }
    }

    /// The views that successive undos restore, the next one last.
    pub closed spec fn undo_states(&self) -> Seq<GraphView> {
        self.past@
    }

    /// Each recorded change, replayed backwards on the view after it, finds
    /// what it needs and yields the view before it; `cur` is the view after
    /// the most recent one.
    closed spec fn chain_ok_at(&self, cur: GraphView) -> bool {
        let hs = self.history();
        let ps = self.past@;
        &&& ps.len() == hs.len()
        &&& ps.len() <= self.history_limit()
        &&& forall|i: int|
            0 <= i < hs.len() ==> {
                let next = if i + 1 < ps.len() {
                    ps[i + 1]
                } else {
                    cur
                };
                &&& inverse_applies(#[trigger] hs[i], next)
                &&& inverse_view(hs[i], next) == ps[i]
            }
    }

    /// For each node, the ids its predecessor list holds.
    pub closed spec fn predecessor_index(&self) -> Map<Id, Seq<Id>> {
        self.neighbors_before@.map_values(|l: Vec<Id>| l@)
    }

    /// For each node, the ids its successor list holds.
    pub closed spec fn successor_index(&self) -> Map<Id, Seq<Id>> {
        self.neighbors_after@.map_values(|l: Vec<Id>| l@)
    }

    /// Some edge runs from `start` to `end`.
    pub open spec fn has_edge(&self, start: Id, end: Id) -> bool {
        has_pair(self.edge_seq(), start, end)
    }

    /// The edges, as a set.
    pub open spec fn edge_set(&self) -> Set<Edge> {
        self.edge_seq().to_set()
    }

    /// The ids of the nodes.
    pub open spec fn node_ids(&self) -> Set<Id> {
        self.node_map().dom()
    }

    /// The terminal pairs of the edges.
    pub open spec fn edge_pairs(&self) -> Set<(Id, Id)> {
        self.edge_seq().map_values(|e: Edge| (e.0, e.1)).to_set()
    }

    /// The ids of the nodes with in-degree zero.
    pub open spec fn source_ids(&self) -> Set<Id> {
        self.node_ids().filter(|v: Id| count_ending_at(self.edge_seq(), v) == 0)
    }

    /// The ids of the nodes with out-degree zero.
    pub open spec fn sink_ids(&self) -> Set<Id> {
        self.node_ids().filter(|v: Id| count_starting_at(self.edge_seq(), v) == 0)
    }

    /// Some walk along the edges leads from `from` to `to`; every id reaches
    /// itself, present or not.
    pub open spec fn reaches(&self, from: Id, to: Id) -> bool {
        exists|p: Seq<Id>|
            #![trigger edge_walk(self.edge_seq(), p), p.last()]
            edge_walk(self.edge_seq(), p) && p[0] == from && p.last() == to
    }

    /// The graph is consistent. In the store, each node sits under its own
    /// id; no two edges share their terminals; every edge joins two nodes;
    /// and each node's predecessor and successor lists are exactly the other
    /// terminals of the edges that end and start there, in edge order. In the
    /// undo record, which stays within its limit, each recorded change,
    /// replayed backwards on the graph as it was after the change, finds what
    /// it needs and gives back the recorded view from before it.
    pub closed spec fn wf(&self) -> bool {
        self.store_wf() && self.chain_ok_at(self.view())
    }

    closed spec fn store_wf(&self) -> bool {
        &&& forall|k: Id| #[trigger] self.nodes@.contains_key(k) ==> self.nodes@[k].0 == k
        &&& forall|i: int, j: int|
            0 <= i < self.edges@.len() && 0 <= j < self.edges@.len() && i != j ==> !(
            #[trigger] self.edges@[i].0 == #[trigger] self.edges@[j].0 && self.edges@[i].1
                == self.edges@[j].1)
        &&& forall|i: int|
            0 <= i < self.edges@.len() ==> self.nodes@.contains_key(#[trigger] self.edges@[i].0)
                && self.nodes@.contains_key(self.edges@[i].1)
        &&& self.neighbors_before@.dom() == self.nodes@.dom()
        &&& self.neighbors_after@.dom() == self.nodes@.dom()
        &&& forall|v: Id| #[trigger]
            self.neighbors_before@.contains_key(v) ==> self.neighbors_before@[v]@ == preds_of(
                self.edges@,
                v,
            )
        &&& forall|v: Id| #[trigger]
            self.neighbors_after@.contains_key(v) ==> self.neighbors_after@[v]@ == succs_of(
                self.edges@,
                v,
            )
        &&& match self.undo_history {
            Some(h) => h.limit() > 0 && h@.len() <= h.limit(),
            None => true,
        }
    }

    /// Adds a node whose id is unused, with empty neighbor lists.
    fn insert_node_unregistered(&mut self, node: Node)
        requires
            old(self).store_wf(),
            !old(self).nodes@.contains_key(node.0),
        ensures
            final(self).store_wf(),
            final(self).nodes@ == old(self).nodes@.insert(node.0, node),
            final(self).edges@ == old(self).edges@,
            final(self).undo_history == old(self).undo_history,
            final(self).past == old(self).past,
            final(self).name == old(self).name,
    {
        let node_id = node.0;
        proof {
            let es = self.edges@;
            assert forall|i: int| 0 <= i < es.len() implies !ends_at(node_id)(#[trigger] es[i])
                && !starts_at(node_id)(es[i]) by {
                assert(self.nodes@.contains_key(self.edges@[i].0));
            }
            lemma_filter_none(es, ends_at(node_id));
            lemma_filter_none(es, starts_at(node_id));
            assert(preds_of(es, node_id) == Seq::<Id>::empty());
            assert(succs_of(es, node_id) == Seq::<Id>::empty());
        }
        self.nodes.insert(node_id, node);
        self.neighbors_before.insert(node_id, Vec::new());
        self.neighbors_after.insert(node_id, Vec::new());
        proof {
            assert(self.neighbors_before@.dom() == self.nodes@.dom());
            assert(self.neighbors_after@.dom() == self.nodes@.dom());
        }
    }

    /// Appends an edge between two nodes whose terminals no edge has yet.
    fn insert_edge_unregistered(&mut self, edge: Edge)
        requires
            old(self).store_wf(),
            old(self).nodes@.contains_key(edge.0),
            old(self).nodes@.contains_key(edge.1),
            !has_pair(old(self).edges@, edge.0, edge.1),
        ensures
            final(self).store_wf(),
            final(self).nodes@ == old(self).nodes@,
            final(self).edges@ == old(self).edges@.push(edge),
            final(self).undo_history == old(self).undo_history,
            final(self).past == old(self).past,
            final(self).name == old(self).name,
    {
        let start_id = edge.0;
        let end_id = edge.1;
        let ghost old_edges = self.edges@;
        self.edges.push(edge);
        let mut after = self.neighbors_after.remove(&start_id).unwrap();
        after.push(end_id);
        self.neighbors_after.insert(start_id, after);
        let mut before = self.neighbors_before.remove(&end_id).unwrap();
        before.push(start_id);
        self.neighbors_before.insert(end_id, before);
        proof {
            let es = self.edges@;
            assert(self.neighbors_before@.dom() == self.nodes@.dom());
            assert(self.neighbors_after@.dom() == self.nodes@.dom());
            assert forall|v: Id| #[trigger]
                self.neighbors_before@.contains_key(v) implies self.neighbors_before@[v]@
                == preds_of(es, v) by {
                old_edges.lemma_filter_push(edge, ends_at(v));
                if v == end_id {
                    assert(old_edges.filter(ends_at(v)).push(edge).map_values(|e: Edge| e.0)
                        == old_edges.filter(ends_at(v)).map_values(|e: Edge| e.0).push(start_id));
                }
            }
            assert forall|v: Id| #[trigger]
                self.neighbors_after@.contains_key(v) implies self.neighbors_after@[v]@
                == succs_of(es, v) by {
                old_edges.lemma_filter_push(edge, starts_at(v));
                if v == start_id {
                    assert(old_edges.filter(starts_at(v)).push(edge).map_values(|e: Edge| e.1)
                        == old_edges.filter(starts_at(v)).map_values(|e: Edge| e.1).push(end_id));
                }
            }
            assert forall|i: int, j: int|
                0 <= i < es.len() && 0 <= j < es.len() && i != j implies !(
                #[trigger] es[i].0 == #[trigger] es[j].0 && es[i].1 == es[j].1) by {
                if i == old_edges.len() as int {
                    assert(es[j] == old_edges[j]);
                } else if j == old_edges.len() as int {
                    assert(es[i] == old_edges[i]);
                } else {
                    assert(es[i] == old_edges[i] && es[j] == old_edges[j]);
                }
            }
            assert forall|i: int| 0 <= i < es.len() implies self.nodes@.contains_key(
                #[trigger] es[i].0,
            ) && self.nodes@.contains_key(es[i].1) by {
                if i < old_edges.len() {
                    assert(es[i] == old_edges[i]);
                }
            }
        }
    }
}

impl DiGraph {
    /// Removes the edge at position `i`, keeping the order of the others.
    fn remove_edge_at(&mut self, i: usize) -> (r: Edge)
        requires
            old(self).store_wf(),
            i < old(self).edges@.len(),
        ensures
            final(self).store_wf(),
            final(self).nodes@ == old(self).nodes@,
            final(self).edges@ == old(self).edges@.remove(i as int),
            r == old(self).edges@[i as int],
            final(self).undo_history == old(self).undo_history,
            final(self).past == old(self).past,
            final(self).name == old(self).name,
    {
        let ghost old_edges = self.edges@;
        let start_id = self.edges[i].0;
        let end_id = self.edges[i].1;
        let (k_before, _) = prefix_degrees(&self.edges, i, end_id);
        let (_, k_after) = prefix_degrees(&self.edges, i, start_id);
        proof {
            assert(self.nodes@.contains_key(self.edges@[i as int].0));
            lemma_filter_remove(old_edges, i as int, ends_at(end_id));
            lemma_filter_remove(old_edges, i as int, starts_at(start_id));
        }
        let dropped = self.edges.remove(i);
        let mut after = self.neighbors_after.remove(&start_id).unwrap();
        after.remove(k_after);
        self.neighbors_after.insert(start_id, after);
        let mut before = self.neighbors_before.remove(&end_id).unwrap();
        before.remove(k_before);
        self.neighbors_before.insert(end_id, before);
        proof {
            let es = self.edges@;
            assert(self.neighbors_before@.dom() == self.nodes@.dom());
            assert(self.neighbors_after@.dom() == self.nodes@.dom());
            assert forall|v: Id| #[trigger]
                self.neighbors_before@.contains_key(v) implies self.neighbors_before@[v]@
                == preds_of(es, v) by {
                lemma_filter_remove(old_edges, i as int, ends_at(v));
                if v == end_id {
                    let f = old_edges.filter(ends_at(v));
                    assert(f.remove(k_before as int).map_values(|e: Edge| e.0) == f.map_values(
                        |e: Edge| e.0,
                    ).remove(k_before as int));
                }
            }
            assert forall|v: Id| #[trigger]
                self.neighbors_after@.contains_key(v) implies self.neighbors_after@[v]@
                == succs_of(es, v) by {
                lemma_filter_remove(old_edges, i as int, starts_at(v));
                if v == start_id {
                    let f = old_edges.filter(starts_at(v));
                    assert(f.remove(k_after as int).map_values(|e: Edge| e.1) == f.map_values(
                        |e: Edge| e.1,
                    ).remove(k_after as int));
                }
            }
            assert forall|a: int, b: int|
                0 <= a < es.len() && 0 <= b < es.len() && a != b implies !(
                #[trigger] es[a].0 == #[trigger] es[b].0 && es[a].1 == es[b].1) by {
                let a2 = if a < i { a } else { a + 1 };
                let b2 = if b < i { b } else { b + 1 };
                assert(es[a] == old_edges[a2] && es[b] == old_edges[b2]);
            }
            assert forall|a: int| 0 <= a < es.len() implies self.nodes@.contains_key(
                #[trigger] es[a].0,
            ) && self.nodes@.contains_key(es[a].1) by {
                let a2 = if a < i { a } else { a + 1 };
                assert(es[a] == old_edges[a2]);
                assert(self.nodes@.contains_key(old(self).edges@[a2].0));
            }
        }
        dropped
    }

    /// Removes a node and every edge that starts or ends there; the other
    /// edges keep their order.
    fn remove_node_unregistered(&mut self, node_id: Id) -> (r: Node)
        requires
            old(self).store_wf(),
            old(self).nodes@.contains_key(node_id),
        ensures
            final(self).store_wf(),
            final(self).nodes@ == old(self).nodes@.remove(node_id),
            final(self).edges@ == old(self).edges@.filter(avoids(node_id)),
            r == old(self).nodes@[node_id],
            final(self).undo_history == old(self).undo_history,
            final(self).past == old(self).past,
            final(self).name == old(self).name,
    {
        let ghost old_edges = self.edges@;
        let ghost old_nodes = self.nodes@;
        let ghost mut p: int = 0;
        let mut j: usize = 0;
        while j < self.edges.len()
            invariant
                self.store_wf(),
                self.past == old(self).past,
                self.name == old(self).name,
                self.nodes@ == old_nodes,
                old_nodes.contains_key(node_id),
                self.undo_history == old(self).undo_history,
                0 <= p <= old_edges.len(),
                self.edges@ == old_edges.take(p).filter(avoids(node_id)) + old_edges.skip(p),
                j == old_edges.take(p).filter(avoids(node_id)).len(),
            decreases self.edges.len() - j,
        {
            proof {
                assert(old_edges.take(p + 1) == old_edges.take(p).push(old_edges[p]));
                old_edges.take(p).lemma_filter_push(old_edges[p], avoids(node_id));
                assert(self.edges@[j as int] == old_edges[p]);
            }
            if self.edges[j].0 == node_id || self.edges[j].1 == node_id {
                self.remove_edge_at(j);
                proof {
                    let f = old_edges.take(p).filter(avoids(node_id));
                    assert((f + old_edges.skip(p)).remove(j as int) == f + old_edges.skip(p + 1));
                }
            } else {
                proof {
                    let f = old_edges.take(p).filter(avoids(node_id));
                    assert(f + old_edges.skip(p) == f.push(old_edges[p]) + old_edges.skip(p + 1));
                }
                j = j + 1;
            }
            proof {
                p = p + 1;
            }
        }
        proof {
            assert(old_edges.take(p) == old_edges) by {
                assert(old_edges.skip(p).len() == 0);
            }
            assert(self.edges@ == old_edges.filter(avoids(node_id)));
        }
        let ghost kept = self.edges@;
        proof {
            broadcast use vstd::seq_lib::group_filter_ensures;

            assert forall|i: int| 0 <= i < kept.len() implies !ends_at(node_id)(#[trigger] kept[i])
                && !starts_at(node_id)(kept[i]) by {
                assert(avoids(node_id)(old_edges.filter(avoids(node_id))[i]));
            }
            lemma_filter_none(kept, ends_at(node_id));
            lemma_filter_none(kept, starts_at(node_id));
        }
        let removed = self.nodes.remove(&node_id).unwrap();
        self.neighbors_before.remove(&node_id);
        self.neighbors_after.remove(&node_id);
        proof {
            broadcast use vstd::seq_lib::group_filter_ensures;

            assert(self.neighbors_before@.dom() == self.nodes@.dom());
            assert(self.neighbors_after@.dom() == self.nodes@.dom());
            assert forall|i: int| 0 <= i < kept.len() implies self.nodes@.contains_key(
                #[trigger] kept[i].0,
            ) && self.nodes@.contains_key(kept[i].1) by {
                assert(avoids(node_id)(old_edges.filter(avoids(node_id))[i]));
                assert(old_nodes.contains_key(self.edges@[i].0));
            }
        }
        removed
    }
}

impl DiGraph {
    /// Records `change`, made on a graph that held `prev`, for undo; a full
    /// history loses its oldest entry.
    fn register_change(&mut self, change: GraphChange, Ghost(prev): Ghost<GraphView>)
        requires
            old(self).store_wf(),
            old(self).chain_ok_at(prev),
            inverse_applies(change, old(self).view()),
            inverse_view(change, old(self).view()) == prev,
        ensures
            final(self).wf(),
            final(self).nodes@ == old(self).nodes@,
            final(self).edges@ == old(self).edges@,
            final(self).name == old(self).name,
            final(self).history_limit() == old(self).history_limit(),
            final(self).undo_states() == record(
                old(self).undo_states(),
                prev,
                old(self).history_limit(),
            ),
            old(self).history_limit() > 0 ==> final(self).history().len() > 0
                && final(self).history().last() == change,
    {
        let ghost cur = self.view();
        let ghost hs = self.history();
        let ghost ps = self.past@;
        if let Some(h) = &mut self.undo_history {
            h.register_change(change);
        }
        let ghost new_ps = record(ps, prev, self.history_limit());
        self.past = Ghost(new_ps);
        proof {
            let hs2 = self.history();
            assert(self.view() == cur);
            if self.history_limit() > 0 {
                if ps.len() < self.history_limit() {
                    assert(hs2 == hs.push(change));
                    assert forall|i: int| 0 <= i < hs2.len() implies {
                        let next = if i + 1 < new_ps.len() {
                            new_ps[i + 1]
                        } else {
                            cur
                        };
                        &&& inverse_applies(#[trigger] hs2[i], next)
                        &&& inverse_view(hs2[i], next) == new_ps[i]
                    } by {
                        if i < hs.len() {
                            assert(hs2[i] == hs[i]);
                            assert(inverse_applies(hs[i], if i + 1 < ps.len() {
                                ps[i + 1]
                            } else {
                                prev
                            }));
                        }
                    }
                } else {
                    assert(hs2 == hs.drop_first().push(change));
                    assert forall|i: int| 0 <= i < hs2.len() implies {
                        let next = if i + 1 < new_ps.len() {
                            new_ps[i + 1]
                        } else {
                            cur
                        };
                        &&& inverse_applies(#[trigger] hs2[i], next)
                        &&& inverse_view(hs2[i], next) == new_ps[i]
                    } by {
                        if i + 1 < hs2.len() {
                            assert(hs2[i] == hs[i + 1]);
                            assert(inverse_applies(hs[i + 1], if i + 2 < ps.len() {
                                ps[i + 2]
                            } else {
                                prev
                            }));
                        }
                    }
                }
            }
        }
    }

    /// An empty graph that keeps the last `limit` changes for undo, or
    /// records none when `limit` is zero.
    pub fn with_history_limit(limit: usize) -> (r: Self)
        ensures
            r.wf(),
            r.node_map() == Map::<Id, Node>::empty(),
            r.edge_seq() == Seq::<Edge>::empty(),
            r.history_limit() == limit,
            r.undo_states() == Seq::<GraphView>::empty(),
            r.graph_name() is None,
    {
        let undo_history = if limit == 0 {
            None
        } else {
            Some(HistoryDeque::new(limit))
        };
        DiGraph {
            name: None,
            nodes: HashMap::new(),
            edges: Vec::new(),
            neighbors_before: HashMap::new(),
            neighbors_after: HashMap::new(),
            undo_history,
            past: Ghost(Seq::empty()),
        }
    }

    /// An empty graph that keeps the default number of changes for undo.
    pub fn new() -> (r: Self)
        ensures
            r.wf(),
            r.node_map() == Map::<Id, Node>::empty(),
            r.edge_seq() == Seq::<Edge>::empty(),
            r.history_limit() == UNDO_HISTORY_LIMIT,
            r.undo_states() == Seq::<GraphView>::empty(),
            r.graph_name() is None,
    {
        Self::with_history_limit(UNDO_HISTORY_LIMIT)
    }

    /// Inserts `node`, with no edges. Refused when its id is in use.
    pub fn insert_node(&mut self, node: Node) -> (r: Result<(), GraphError>)
        requires
            old(self).wf(),
        ensures
            final(self).wf(),
            old(self).node_ids().contains(node.0) ==> r == Err::<(), GraphError>(
                GraphError::DuplicateId(node.0),
            ) && *final(self) == *old(self),
            !old(self).node_ids().contains(node.0) ==> r is Ok && final(self).node_map() == old(
                self,
            ).node_map().insert(node.0, node) && final(self).edge_seq() == old(self).edge_seq()
                && logged(*old(self), *final(self)),
    {
        let change = check_add_node(&self.nodes, node);
        let new_node = match change.try_get_node() {
            Ok(n) => n,
            Err(e) => return Err(e),
        };
        let ghost prev = self.view();
        self.insert_node_unregistered(new_node);
        proof {
            let n = new_node;
            assert(self.nodes@.remove(n.0) == prev.nodes);
            assert(self.edge_set().filter(avoids(n.0)) == prev.edges) by {
                assert forall|x: Edge| prev.edges.contains(x) implies !incident(x, n.0) by {
                    let i = choose|i: int| 0 <= i < self.edges@.len() && self.edges@[i] == x;
                    assert(prev.nodes.contains_key(old(self).edges@[i].0));
                }
            }
        }
        self.register_change(change, Ghost(prev));
        Ok(())
    }
}

impl DiGraph {
    /// Inserts `edge`. Refused when an edge with the same terminals exists,
    /// or else when either terminal is not a node.
    pub fn insert_edge(&mut self, edge: Edge) -> (r: Result<(), GraphError>)
        requires
            old(self).wf(),
        ensures
            final(self).wf(),
            old(self).has_edge(edge.0, edge.1) ==> r == Err::<(), GraphError>(
                GraphError::DuplicateEdge(edge.0, edge.1),
            ) && *final(self) == *old(self),
            !old(self).has_edge(edge.0, edge.1) && !(old(self).node_ids().contains(edge.0) && old(
                self,
            ).node_ids().contains(edge.1)) ==> r == Err::<(), GraphError>(
                GraphError::MissingEndpoint(edge.0, edge.1),
            ) && *final(self) == *old(self),
            !old(self).has_edge(edge.0, edge.1) && old(self).node_ids().contains(edge.0) && old(
                self,
            ).node_ids().contains(edge.1) ==> r is Ok && final(self).node_map() == old(
                self,
            ).node_map() && final(self).edge_seq() == old(self).edge_seq().push(edge) && logged(
                *old(self),
                *final(self),
            ),
    {
        let change = check_add_edge(&self.nodes, &self.edges, edge);
        let new_edge = match change.try_get_edge() {
            Ok(e) => e,
            Err(e) => return Err(e),
        };
        let ghost prev = self.view();
        let ghost old_edges = self.edges@;
        self.insert_edge_unregistered(new_edge);
        proof {
            let e = new_edge;
            old_edges.lemma_push_to_set_commute(e);
            assert(self.edge_set().filter(|x: Edge| !same_pair(x, e.0, e.1)) =~= prev.edges) by {
                assert forall|x: Edge| prev.edges.contains(x) implies !same_pair(x, e.0, e.1) by {
                    let i = choose|i: int| 0 <= i < old_edges.len() && old_edges[i] == x;
                    if same_pair(x, e.0, e.1) {
                        assert(has_pair(old_edges, e.0, e.1));
                    }
                }
            }
        }
        self.register_change(change, Ghost(prev));
        Ok(())
    }

    /// Removes the edge from `start_id` to `end_id`. Refused when there is
    /// none.
    pub fn remove_edge(&mut self, start_id: Id, end_id: Id) -> (r: Result<(), GraphError>)
        requires
            old(self).wf(),
        ensures
            final(self).wf(),
            !old(self).has_edge(start_id, end_id) ==> r == Err::<(), GraphError>(
                GraphError::EdgeNotFound(start_id, end_id),
            ) && *final(self) == *old(self),
            old(self).has_edge(start_id, end_id) ==> r is Ok && final(self).node_map() == old(
                self,
            ).node_map() && (exists|i: int|
                0 <= i < old(self).edge_seq().len() && same_pair(
                    #[trigger] old(self).edge_seq()[i],
                    start_id,
                    end_id,
                ) && final(self).edge_seq() == old(self).edge_seq().remove(i)) && logged(
                *old(self),
                *final(self),
            ),
    {
        let change = check_remove_edge(&self.edges, start_id, end_id);
        let old_edge = match change.try_get_edge() {
            Ok(e) => e,
            Err(e) => return Err(e),
        };
        let ghost prev = self.view();
        let ghost old_edges = self.edges@;
        let index = edge_index(&self.edges, start_id, end_id).unwrap();
        proof {
            let j = choose|j: int|
                0 <= j < old_edges.len() && change == GraphChange::RemoveEdge(#[trigger] old_edges[j])
                    && old_edges[j].0 == start_id && old_edges[j].1 == end_id;
            if j != index {
                assert(old_edges[j].0 == old_edges[index as int].0);
            }
        }
        self.remove_edge_at(index);
        proof {
            let e = old_edge;
            lemma_to_set_remove(old_edges, index as int);
            let es = self.edges@;
            assert(edges_insertable(self.nodes@, self.edge_set(), seq![e])) by {
                assert(self.nodes@.contains_key(old(self).edges@[index as int].0));
                assert forall|k: int, x: Edge|
                    0 <= k < 1 && #[trigger] self.edge_set().contains(x) implies !same_pair(
                    x,
                    #[trigger] seq![e][k].0,
                    seq![e][k].1,
                ) by {
                    let a = choose|a: int| 0 <= a < es.len() && es[a] == x;
                    let a2 = if a < index {
                        a
                    } else {
                        a + 1
                    };
                    assert(es[a] == old_edges[a2]);
                    if same_pair(x, e.0, e.1) {
                        assert(old_edges[a2].0 == old_edges[index as int].0);
                    }
                }
            }
        }
        self.register_change(change, Ghost(prev));
        Ok(())
    }
}

impl DiGraph {
    /// The stored edges are distinct values, as no two share their terminals.
    proof fn lemma_edges_distinct(&self)
        requires
            self.store_wf(),
        ensures
            self.edges@.no_duplicates(),
    {
        assert forall|i: int, j: int|
            0 <= i < self.edges@.len() && 0 <= j < self.edges@.len() && i != j implies self.edges@[i]
            != self.edges@[j] by {
            assert(!(self.edges@[i].0 == self.edges@[j].0 && self.edges@[i].1 == self.edges@[j].1));
        }
    }

    /// Removes and returns the node `node_id`, with every edge that starts
    /// or ends there, as one change. Refused when there is no such node.
    pub fn remove_node(&mut self, node_id: Id) -> (r: Result<Node, GraphError>)
        requires
            old(self).wf(),
        ensures
            final(self).wf(),
            !old(self).node_ids().contains(node_id) ==> r == Err::<Node, GraphError>(
                GraphError::NodeNotFound(node_id),
            ) && *final(self) == *old(self),
            old(self).node_ids().contains(node_id) ==> r == Ok::<Node, GraphError>(
                old(self).node_map()[node_id],
            ) && final(self).node_map() == old(self).node_map().remove(node_id)
                && final(self).edge_seq() == old(self).edge_seq().filter(avoids(node_id)) && logged(
                *old(self),
                *final(self),
            ),
            old(self).node_ids().contains(node_id) && old(self).history_limit() > 0 ==> (
            final(self).history().len() > 0 && (final(self).history().last() matches GraphChange::RemoveNode(
                n,
                ev,
            ) && n == old(self).node_map()[node_id] && ev@ == incident_edges(
                old(self).edge_seq(),
                node_id,
            ))),
    {
        let change = check_remove_node(&self.nodes, &self.edges, node_id);
        let out_node_id = match change.try_get_node() {
            Ok(n) => n.0,
            Err(e) => return Err(e),
        };
        let ghost prev = self.view();
        let ghost old_edges = self.edges@;
        let ghost old_nodes = self.nodes@;
        proof {
            self.lemma_edges_distinct();
        }
        let removed_node = self.remove_node_unregistered(out_node_id);
        proof {
            broadcast use vstd::seq_lib::group_filter_ensures;

            let es = change->RemoveNode_1@;
            assert(es == old_edges.filter(touches(node_id)));
            let nodes2 = self.nodes@.insert(node_id, removed_node);
            assert(nodes2 == old_nodes);
            let kept = self.edge_set();
            assert(edges_insertable(nodes2, kept, es)) by {
                assert forall|k: int| 0 <= k < es.len() implies nodes2.contains_key(
                    #[trigger] es[k].0,
                ) && nodes2.contains_key(es[k].1) by {
                    assert(es.contains(es[k]));
                    old_edges.lemma_filter_contains_rev(touches(node_id), es[k]);
                    let a = choose|a: int| 0 <= a < old_edges.len() && old_edges[a] == es[k];
                    assert(old_nodes.contains_key(old(self).edges@[a].0));
                }
                assert forall|k: int, x: Edge|
                    0 <= k < es.len() && #[trigger] kept.contains(x) implies !same_pair(
                    x,
                    #[trigger] es[k].0,
                    es[k].1,
                ) by {
                    assert(touches(node_id)(es[k]));
                    let a = choose|a: int| 0 <= a < self.edges@.len() && self.edges@[a] == x;
                    assert(avoids(node_id)(old_edges.filter(avoids(node_id))[a]));
                }
                assert forall|k: int, m: int|
                    0 <= k < es.len() && 0 <= m < es.len() && k != m implies !(
                    #[trigger] es[k].0 == #[trigger] es[m].0 && es[k].1 == es[m].1) by {
                    lemma_filter_no_duplicates(old_edges, touches(node_id));
                    assert(es[k] != es[m]);
                    assert(es.contains(es[k]));
                    assert(es.contains(es[m]));
                    old_edges.lemma_filter_contains_rev(touches(node_id), es[k]);
                    old_edges.lemma_filter_contains_rev(touches(node_id), es[m]);
                    let a = choose|a: int| 0 <= a < old_edges.len() && old_edges[a] == es[k];
                    let b = choose|b: int| 0 <= b < old_edges.len() && old_edges[b] == es[m];
                    assert(old(self).edges@[a].0 == old(self).edges@[b].0 ==> old_edges[a].1
                        != old_edges[b].1 || a == b);
                }
            }
            lemma_to_set_filter(old_edges, avoids(node_id));
            lemma_to_set_filter(old_edges, touches(node_id));
            assert(kept + es.to_set() =~= prev.edges);
        }
        self.register_change(change, Ghost(prev));
        Ok(removed_node)
    }
}

impl DiGraph {
    /// Inserts a bare edge from `id_in` to `id_out`, first creating a bare
    /// node for each terminal that is not a node yet, as one change. Refused
    /// when such an edge exists.
    pub fn insert_edge_with_nodes(&mut self, id_in: Id, id_out: Id) -> (r: Result<(), GraphError>)
        requires
            old(self).wf(),
        ensures
            final(self).wf(),
            old(self).has_edge(id_in, id_out) ==> r == Err::<(), GraphError>(
                GraphError::DuplicateEdge(id_in, id_out),
            ) && *final(self) == *old(self),
            !old(self).has_edge(id_in, id_out) ==> r is Ok && final(self).node_map() == with_bare(
                with_bare(old(self).node_map(), id_in),
                id_out,
            ) && final(self).edge_seq() == old(self).edge_seq().push(Edge(id_in, id_out, None))
                && logged(*old(self), *final(self)),
    {
        let change = check_add_edge_with_nodes(&self.nodes, &self.edges, id_in, id_out);
        let (new_edge, new_in, new_out) = match change.try_get_edge_with_nodes() {
            Ok(t) => t,
            Err(e) => return Err(e),
        };
        let ghost prev = self.view();
        let ghost old_edges = self.edges@;
        if let Some(new_id) = new_in {
            self.insert_node_unregistered(Node::bare(new_id));
        }
        if let Some(new_id) = new_out {
            if !node_id_present(&self.nodes, new_id) {
                self.insert_node_unregistered(Node::bare(new_id));
            }
        }
        self.insert_edge_unregistered(new_edge);
        proof {
            let e = new_edge;
            old_edges.lemma_push_to_set_commute(e);
            assert(remove_opt(remove_opt(self.nodes@, new_in), new_out) =~= prev.nodes);
            let f = |x: Edge|
                !incident_opt(x, new_in) && !incident_opt(x, new_out) && !same_pair(x, e.0, e.1);
            assert(self.edge_set().filter(f) =~= prev.edges) by {
                assert forall|x: Edge| prev.edges.contains(x) implies f(x) by {
                    let i = choose|i: int| 0 <= i < old_edges.len() && old_edges[i] == x;
                    assert(prev.nodes.contains_key(old(self).edges@[i].0));
                    if same_pair(x, e.0, e.1) {
                        assert(has_pair(old_edges, e.0, e.1));
                    }
                }
            }
        }
        self.register_change(change, Ghost(prev));
        Ok(())
    }

    /// Inserts a bare node `new_id` along the edge from `id_before` to
    /// `id_after`: that edge gives way to one from `id_before` to `new_id`,
    /// which takes over its payload, and a bare one from `new_id` to
    /// `id_after`. Refused when `new_id` is in use, or else when there is no
    /// such edge.
    pub fn insert_node_along(&mut self, new_id: Id, id_before: Id, id_after: Id) -> (r: Result<
        (),
        GraphError,
    >)
        requires
            old(self).wf(),
        ensures
            final(self).wf(),
            old(self).node_ids().contains(new_id) ==> r == Err::<(), GraphError>(
                GraphError::DuplicateId(new_id),
            ) && *final(self) == *old(self),
            !old(self).node_ids().contains(new_id) && !old(self).has_edge(id_before, id_after) ==> r
                == Err::<(), GraphError>(GraphError::EdgeNotFound(id_before, id_after))
                && *final(self) == *old(self),
            !old(self).node_ids().contains(new_id) && old(self).has_edge(id_before, id_after) ==> r
                is Ok && final(self).node_map() == old(self).node_map().insert(
                new_id,
                Node(new_id, None),
            ) && (exists|i: int|
                0 <= i < old(self).edge_seq().len() && same_pair(
                    #[trigger] old(self).edge_seq()[i],
                    id_before,
                    id_after,
                ) && final(self).edge_seq() == old(self).edge_seq().remove(i).push(
                    Edge(id_before, new_id, old(self).edge_seq()[i].2),
                ).push(Edge(new_id, id_after, None))) && logged(*old(self), *final(self)),
    {
        let new_node = match check_add_node(&self.nodes, Node::bare(new_id)).try_get_node() {
            Ok(n) => n,
            Err(e) => return Err(e),
        };
        let old_edge = match check_remove_edge(&self.edges, id_before, id_after).try_get_edge() {
            Ok(e) => e,
            Err(e) => return Err(e),
        };
        let ghost prev = self.view();
        let ghost old_edges = self.edges@;
        let ghost old_nodes = self.nodes@;
        let edge_index = edge_index(&self.edges, id_before, id_after).unwrap();
        proof {
            let j = choose|j: int|
                0 <= j < old_edges.len() && GraphChange::RemoveEdge(old_edge) == GraphChange::RemoveEdge(
                    #[trigger] old_edges[j],
                ) && old_edges[j].0 == id_before && old_edges[j].1 == id_after;
            if j != edge_index {
                assert(old_edges[j].0 == old_edges[edge_index as int].0);
            }
            assert(old_nodes.contains_key(old(self).edges@[edge_index as int].0));
        }
        let edge_before = Edge::new(old_edge.0, new_id, copy_payload(&old_edge.2));
        let edge_after = Edge::bare(new_id, id_after);
        self.insert_node_unregistered(new_node.clone());
        self.remove_edge_at(edge_index);
        let ghost mid_edges = self.edges@;
        proof {
            assert forall|a: int| 0 <= a < mid_edges.len() implies !incident(
                #[trigger] mid_edges[a],
                new_id,
            ) by {
                let a2 = if a < edge_index {
                    a
                } else {
                    a + 1
                };
                assert(mid_edges[a] == old_edges[a2]);
                assert(old_nodes.contains_key(old(self).edges@[a2].0));
            }
            if has_pair(mid_edges, id_before, new_id) {
                let a = choose|a: int|
                    0 <= a < mid_edges.len() && #[trigger] mid_edges[a].0 == id_before
                        && mid_edges[a].1 == new_id;
                assert(!incident(mid_edges[a], new_id));
            }
        }
        self.insert_edge_unregistered(edge_before);
        proof {
            if has_pair(self.edges@, new_id, id_after) {
                let a = choose|a: int|
                    0 <= a < self.edges@.len() && #[trigger] self.edges@[a].0 == new_id
                        && self.edges@[a].1 == id_after;
                if a < mid_edges.len() {
                    assert(self.edges@[a] == mid_edges[a]);
                    assert(!incident(mid_edges[a], new_id));
                }
            }
        }
        self.insert_edge_unregistered(edge_after);
        proof {
            let e = old_edge;
            let es = self.edges@;
            let nodes2 = self.nodes@.remove(new_id);
            assert(nodes2 =~= old_nodes);
            mid_edges.lemma_push_to_set_commute(edge_before);
            mid_edges.push(edge_before).lemma_push_to_set_commute(edge_after);
            lemma_to_set_remove(old_edges, edge_index as int);
            let kept = self.edge_set().filter(avoids(new_id));
            assert(kept =~= mid_edges.to_set()) by {
                assert forall|x: Edge| mid_edges.to_set().contains(x) implies !incident(x, new_id) by {
                    let a = choose|a: int| 0 <= a < mid_edges.len() && mid_edges[a] == x;
                    assert(!incident(mid_edges[a], new_id));
                }
            }
            assert(edges_insertable(nodes2, kept, seq![e])) by {
                assert forall|k: int, x: Edge|
                    0 <= k < 1 && #[trigger] kept.contains(x) implies !same_pair(
                    x,
                    #[trigger] seq![e][k].0,
                    seq![e][k].1,
                ) by {
                    let a = choose|a: int| 0 <= a < mid_edges.len() && mid_edges[a] == x;
                    let a2 = if a < edge_index {
                        a
                    } else {
                        a + 1
                    };
                    assert(mid_edges[a] == old_edges[a2]);
                    if same_pair(x, e.0, e.1) {
                        assert(old_edges[a2].0 == old_edges[edge_index as int].0);
                    }
                }
            }
            assert(es == old_edges.remove(edge_index as int).push(
                Edge(id_before, new_id, old_edges[edge_index as int].2),
            ).push(Edge(new_id, id_after, None)));
        }
        self.register_change(GraphChange::InsertNodeAlongEdge(new_node, old_edge), Ghost(prev));
        Ok(())
    }
}

impl DiGraph {
    /// Every stored edge joins two present nodes, so filtering out the edges
    /// at an absent id keeps them all.
    proof fn lemma_absent_id_untouched(&self, id: Id)
        requires
            self.store_wf(),
            !self.nodes@.contains_key(id),
        ensures
            self.edge_set().filter(avoids(id)) == self.edge_set(),
    {
        assert forall|x: Edge| self.edge_set().contains(x) implies avoids(id)(x) by {
            let i = choose|i: int| 0 <= i < self.edges@.len() && self.edges@[i] == x;
            assert(self.nodes@.contains_key(self.edges@[i].0));
        }
        assert(self.edge_set().filter(avoids(id)) =~= self.edge_set());
    }

    /// Removing the edge at `i` removes from the set exactly the edges with
    /// its terminals.
    proof fn lemma_remove_at_set(&self, i: int)
        requires
            self.store_wf(),
            0 <= i < self.edges@.len(),
        ensures
            self.edges@.remove(i).to_set() == self.edge_set().filter(
                |x: Edge| !same_pair(x, self.edges@[i].0, self.edges@[i].1),
            ),
    {
        let es = self.edges@;
        let r = es.remove(i);
        let f = |x: Edge| !same_pair(x, es[i].0, es[i].1);
        assert forall|x: Edge| r.to_set().contains(x) implies self.edge_set().filter(f).contains(x) by {
            let a = choose|a: int| 0 <= a < r.len() && r[a] == x;
            let a2 = if a < i {
                a
            } else {
                a + 1
            };
            assert(r[a] == es[a2]);
            assert(!(self.edges@[a2].0 == self.edges@[i].0 && es[a2].1 == es[i].1));
        }
        assert forall|x: Edge| self.edge_set().filter(f).contains(x) implies r.to_set().contains(x) by {
            let a = choose|a: int| 0 <= a < es.len() && es[a] == x;
            if a < i {
                assert(r[a] == x);
            } else {
                assert(a != i);
                assert(r[a - 1] == x);
            }
        }
        assert(r.to_set() =~= self.edge_set().filter(f));
    }

    /// With no edge from `start` to `end`, filtering them out keeps the set.
    proof fn lemma_absent_pair_untouched(&self, start: Id, end: Id)
        requires
            self.store_wf(),
            !has_pair(self.edges@, start, end),
        ensures
            self.edge_set().filter(|x: Edge| !same_pair(x, start, end)) == self.edge_set(),
    {
        assert forall|x: Edge| self.edge_set().contains(x) implies !same_pair(x, start, end) by {
            let i = choose|i: int| 0 <= i < self.edges@.len() && self.edges@[i] == x;
            if same_pair(x, start, end) {
                assert(self.edges@[i].0 == start);
            }
        }
        assert(self.edge_set().filter(|x: Edge| !same_pair(x, start, end)) =~= self.edge_set());
    }

    /// Removes the node `id` with its edges when it is present.
    fn remove_node_if_present(&mut self, id: Id)
        requires
            old(self).store_wf(),
        ensures
            final(self).store_wf(),
            final(self).undo_history == old(self).undo_history,
            final(self).past == old(self).past,
            final(self).name == old(self).name,
            final(self).nodes@ == old(self).nodes@.remove(id),
            final(self).edge_set() == old(self).edge_set().filter(avoids(id)),
    {
        if node_id_present(&self.nodes, id) {
            let ghost old_edges = self.edges@;
            self.remove_node_unregistered(id);
            proof {
                lemma_to_set_filter(old_edges, avoids(id));
            }
        } else {
            proof {
                self.lemma_absent_id_untouched(id);
                assert(self.nodes@.remove(id) =~= self.nodes@);
            }
        }
    }

    /// Removes the edge from `start` to `end` when there is one.
    fn remove_edge_if_present(&mut self, start: Id, end: Id)
        requires
            old(self).store_wf(),
        ensures
            final(self).store_wf(),
            final(self).undo_history == old(self).undo_history,
            final(self).past == old(self).past,
            final(self).name == old(self).name,
            final(self).nodes@ == old(self).nodes@,
            final(self).edge_set() == old(self).edge_set().filter(
                |x: Edge| !same_pair(x, start, end),
            ),
    {
        match edge_index(&self.edges, start, end) {
            Some(i) => {
                proof {
                    self.lemma_remove_at_set(i as int);
                }
                self.remove_edge_at(i);
            },
            None => {
                proof {
                    self.lemma_absent_pair_untouched(start, end);
                }
            },
        }
    }

    /// Appends `edge` when both its terminals are nodes and no edge has them
    /// yet; says whether it did.
    fn insert_edge_if_insertable(&mut self, edge: Edge) -> (r: bool)
        requires
            old(self).store_wf(),
        ensures
            final(self).store_wf(),
            final(self).undo_history == old(self).undo_history,
            final(self).past == old(self).past,
            final(self).name == old(self).name,
            final(self).nodes@ == old(self).nodes@,
            r == (old(self).nodes@.contains_key(edge.0) && old(self).nodes@.contains_key(edge.1)
                && !has_pair(old(self).edges@, edge.0, edge.1)),
            r ==> final(self).edges@ == old(self).edges@.push(edge),
            !r ==> final(self).edges@ == old(self).edges@,
    {
        if node_id_present(&self.nodes, edge.0) && node_id_present(&self.nodes, edge.1)
            && edge_index(&self.edges, edge.0, edge.1).is_none() {
            self.insert_edge_unregistered(edge);
            true
        } else {
            false
        }
    }

    /// Replays the inverse of `change`, step by step, skipping any step that
    /// would break the store.
    fn apply_inverse(&mut self, change: GraphChange) -> (r: Result<(), GraphError>)
        requires
            old(self).store_wf(),
        ensures
            final(self).store_wf(),
            final(self).undo_history == old(self).undo_history,
            final(self).past == old(self).past,
            final(self).name == old(self).name,
            inverse_applies(change, old(self).view()) ==> r is Ok && final(self).view()
                == inverse_view(change, old(self).view()),
            inverse_applies(change, old(self).view()) ==> (change matches GraphChange::RemoveNode(
                _,
                ev,
            ) ==> final(self).edges@ == old(self).edges@ + ev@),
    {
        let ghost v = self.view();
        match change {
            GraphChange::AddNode(node) => {
                self.remove_node_if_present(node.0);
            },
            GraphChange::RemoveNode(node, edges) => {
                let ghost es = edges@;
                let ghost applies = inverse_applies(GraphChange::RemoveNode(node, edges), v);
                let ghost base = self.edges@;
                if !node_id_present(&self.nodes, node.0) {
                    self.insert_node_unregistered(node);
                }
                let mut k: usize = 0;
                while k < edges.len()
                    invariant
                        self.store_wf(),
                        self.undo_history == old(self).undo_history,
                        self.past == old(self).past,
                self.name == old(self).name,
                        k <= edges.len(),
                        es == edges@,
                        applies ==> edges_insertable(v.nodes.insert(node.0, node), v.edges, es),
                        applies ==> self.nodes@ == v.nodes.insert(node.0, node),
                        applies ==> self.edges@ == base + es.take(k as int),
                        base.to_set() == v.edges,
                    decreases edges.len() - k,
                {
                    let ghost before = self.edges@;
                    proof {
                        if applies {
                            if has_pair(before, es[k as int].0, es[k as int].1) {
                                let a = choose|a: int|
                                    0 <= a < before.len() && #[trigger] before[a].0 == es[k as int].0
                                        && before[a].1 == es[k as int].1;
                                if a < base.len() {
                                    assert(before[a] == base[a]);
                                    assert(v.edges.contains(base[a]));
                                } else {
                                    assert(before[a] == es[a - base.len()]);
                                    assert(es[a - base.len()].0 == es[k as int].0);
                                }
                            }
                        }
                    }
                    let done = self.insert_edge_if_insertable(edges[k].clone());
                    proof {
                        if applies {
                            assert(done);
                            assert(es.take(k + 1) == es.take(k as int).push(es[k as int]));
                        }
                    }
                    k = k + 1;
                }
                proof {
                    if applies {
                        assert(es.take(es.len() as int) == es);
                        assert(base == old(self).edges@);
                        assert((base + es).to_set() =~= base.to_set() + es.to_set()) by {
                            assert forall|x: Edge| (base + es).to_set().contains(x) implies (
                            base.to_set() + es.to_set()).contains(x) by {
                                let a = choose|a: int| 0 <= a < (base + es).len() && (base + es)[a] == x;
                                if a < base.len() {
                                    assert(base[a] == x);
                                } else {
                                    assert(es[a - base.len()] == x);
                                }
                            }
                            assert forall|x: Edge| (base.to_set() + es.to_set()).contains(
                                x,
                            ) implies (base + es).to_set().contains(x) by {
                                if base.to_set().contains(x) {
                                    let a = choose|a: int| 0 <= a < base.len() && base[a] == x;
                                    assert((base + es)[a] == x);
                                } else {
                                    let a = choose|a: int| 0 <= a < es.len() && es[a] == x;
                                    assert((base + es)[base.len() + a] == x);
                                }
                            }
                        }
                    }
                }
            },
            GraphChange::AddEdge(edge) => {
                self.remove_edge_if_present(edge.0, edge.1);
            },
            GraphChange::AddEdgeWith(edge, new_start, new_end) => {
                if let Some(id) = new_start {
                    self.remove_node_if_present(id);
                }
                let ghost v1 = self.view();
                if let Some(id) = new_end {
                    self.remove_node_if_present(id);
                }
                let ghost v2 = self.view();
                self.remove_edge_if_present(edge.0, edge.1);
                proof {
                    let f = |x: Edge|
                        !incident_opt(x, new_start) && !incident_opt(x, new_end) && !same_pair(
                            x,
                            edge.0,
                            edge.1,
                        );
                    assert(v1.edges == v.edges.filter(|x: Edge| !incident_opt(x, new_start))) by {
                        if new_start is None {
                            assert(v.edges.filter(|x: Edge| !incident_opt(x, new_start)) =~= v.edges);
                        } else {
                            assert(v.edges.filter(|x: Edge| !incident_opt(x, new_start))
                                =~= v.edges.filter(avoids(new_start->Some_0)));
                        }
                    }
                    assert(v2.edges == v1.edges.filter(|x: Edge| !incident_opt(x, new_end))) by {
                        if new_end is None {
                            assert(v1.edges.filter(|x: Edge| !incident_opt(x, new_end)) =~= v1.edges);
                        } else {
                            assert(v1.edges.filter(|x: Edge| !incident_opt(x, new_end))
                                =~= v1.edges.filter(avoids(new_end->Some_0)));
                        }
                    }
                    assert(self.edge_set() =~= v.edges.filter(f));
                    assert(v1.nodes == remove_opt(v.nodes, new_start));
                    assert(v2.nodes == remove_opt(v1.nodes, new_end));
                }
            },
            GraphChange::RemoveEdge(edge) => {
                let ghost e = edge;
                let done = self.insert_edge_if_insertable(edge);
                proof {
                    if inverse_applies(GraphChange::RemoveEdge(e), v) {
                        assert(seq![e][0] == e);
                        if has_pair(old(self).edges@, e.0, e.1) {
                            let a = choose|a: int|
                                0 <= a < old(self).edges@.len() && #[trigger] old(self).edges@[a].0
                                    == e.0 && old(self).edges@[a].1 == e.1;
                            assert(v.edges.contains(old(self).edges@[a]));
                        }
                        assert(done);
                        old(self).edges@.lemma_push_to_set_commute(e);
                    }
                }
            },
            GraphChange::InsertNodeAlongEdge(node, edge) => {
                let ghost e = edge;
                self.remove_node_if_present(node.0);
                let ghost mid = self.edges@;
                let done = self.insert_edge_if_insertable(edge);
                proof {
                    if inverse_applies(GraphChange::InsertNodeAlongEdge(node, e), v) {
                        assert(seq![e][0] == e);
                        if has_pair(mid, e.0, e.1) {
                            let a = choose|a: int|
                                0 <= a < mid.len() && #[trigger] mid[a].0 == e.0 && mid[a].1 == e.1;
                            assert(v.edges.filter(avoids(node.0)).contains(mid[a]));
                        }
                        assert(done);
                        mid.lemma_push_to_set_commute(e);
                    }
                }
            },
            GraphChange::Failure(reason) => {
                return Err(reason);
            },
        }
        Ok(())
    }

    /// Reverts the most recent recorded change; does nothing when none is
    /// recorded.
    pub fn undo(&mut self) -> (r: Result<(), GraphError>)
        requires
            old(self).wf(),
        ensures
            final(self).wf(),
            r is Ok,
            undone(*old(self), *final(self)),
            old(self).undo_states().len() == 0 ==> *final(self) == *old(self),
            old(self).history().len() > 0 ==> (old(self).history().last() matches GraphChange::RemoveNode(
                _,
                ev,
            ) ==> final(self).edge_seq() == old(self).edge_seq() + ev@),
    {
        let ghost cur = self.view();
        let ghost hs = self.history();
        let ghost ps = self.past@;
        let recorded: usize = match &self.undo_history {
            Some(h) => h.len(),
            None => 0,
        };
        if recorded == 0 {
            return Ok(());
        }
        let popped = match &mut self.undo_history {
            Some(h) => h.pop_change(),
            None => None,
        };
        match popped {
            None => {
                proof {
                    assert(hs.len() == 0);
                }
                Ok(())
            },
            Some(change) => {
                proof {
                    assert(hs.len() > 0);
                    assert(change == hs[hs.len() - 1]);
                    assert(inverse_applies(hs[hs.len() - 1], cur));
                }
                self.past = Ghost(ps.drop_last());
                let r = self.apply_inverse(change);
                proof {
                    assert(self.view() == ps.last());
                    assert(self.history() == hs.drop_last());
                    let hs2 = self.history();
                    let ps2 = self.past@;
                    assert forall|i: int| 0 <= i < hs2.len() implies {
                        let next = if i + 1 < ps2.len() {
                            ps2[i + 1]
                        } else {
                            self.view()
                        };
                        &&& inverse_applies(#[trigger] hs2[i], next)
                        &&& inverse_view(hs2[i], next) == ps2[i]
                    } by {
                        assert(hs2[i] == hs[i]);
                        assert(inverse_applies(hs[i], if i + 1 < ps.len() {
                            ps[i + 1]
                        } else {
                            cur
                        }));
                    }
                }
                r
            },
        }
    }
}

impl DiGraph {
    /// The ids of the nodes, in increasing order.
    pub fn all_node_ids(&self) -> (r: Vec<Id>)
        ensures
            strictly_sorted(r@),
            r@.to_set() == self.node_ids(),
    {
        let mut out: Vec<Id> = Vec::new();
        for k in it: self.nodes.keys()
            invariant
                strictly_sorted(out@),
                out@.to_set() == it.seq().unref().take(it.index() as int).to_set(),
                it.seq().unref().to_set() == self.nodes@.dom(),
                it.seq().unref().no_duplicates(),
        {
            let ghost u = it.seq().unref();
            let ghost i = it.index();
            proof {
                assert(u.take(i + 1) == u.take(i).push(u[i]));
                u.take(i).lemma_push_to_set_commute(u[i]);
                if out@.contains(*k) {
                    assert(out@.to_set().contains(*k));
                    let j = choose|j: int| 0 <= j < u.take(i).len() && u.take(i)[j] == *k;
                    assert(u[j] == u[i]);
                }
            }
            insert_sorted_id(&mut out, *k);
        }
        proof {
            broadcast use vstd::seq::Seq::lemma_take_len;

        }
        out
    }

    /// The terminal pairs of the edges, in increasing order.
    pub fn all_edge_pairs(&self) -> (r: Vec<(Id, Id)>)
        requires
            self.wf(),
        ensures
            pairs_strictly_sorted(r@),
            r@.to_set() == self.edge_pairs(),
    {
        let mut edge_pairs: Vec<(Id, Id)> = Vec::new();
        let ghost ps = self.edges@.map_values(|e: Edge| (e.0, e.1));
        let mut i: usize = 0;
        while i < self.edges.len()
            invariant
                i <= self.edges.len(),
                self.wf(),
                ps == self.edges@.map_values(|e: Edge| (e.0, e.1)),
                pairs_strictly_sorted(edge_pairs@),
                edge_pairs@.to_set() == ps.take(i as int).to_set(),
            decreases self.edges.len() - i,
        {
            let pair = (self.edges[i].0, self.edges[i].1);
            proof {
                assert(ps.take(i + 1) == ps.take(i as int).push(pair));
                ps.take(i as int).lemma_push_to_set_commute(pair);
                if edge_pairs@.contains(pair) {
                    assert(edge_pairs@.to_set().contains(pair));
                    let j = choose|j: int| 0 <= j < ps.take(i as int).len() && ps.take(i as int)[j] == pair;
                    assert(self.edges@[j].0 == self.edges@[i as int].0);
                }
            }
            insert_sorted_pair(&mut edge_pairs, pair);
            i = i + 1;
        }
        proof {
            assert(ps.take(self.edges@.len() as int) == ps);
        }
        edge_pairs
    }

    /// The node with id `node_id`, if there is one.
    pub fn get_node(&self, node_id: Id) -> (r: Option<&Node>)
        ensures
            match r {
                Some(n) => self.node_ids().contains(node_id) && *n == self.node_map()[node_id],
                None => !self.node_ids().contains(node_id),
            },
    {
        self.nodes.get(&node_id)
    }

    /// The edge from `start_id` to `end_id`, if there is one.
    pub fn get_edge(&self, start_id: Id, end_id: Id) -> (r: Option<&Edge>)
        ensures
            match r {
                Some(e) => same_pair(*e, start_id, end_id) && self.edge_set().contains(*e),
                None => !self.has_edge(start_id, end_id),
            },
    {
        match edge_index(&self.edges, start_id, end_id) {
            Some(index) => {
                proof {
                    assert(self.edges@.contains(self.edges@[index as int]));
                }
                Some(&self.edges[index])
            },
            None => None,
        }
    }

    /// The number of edges that end at `node_id`, when it is a node.
    pub fn in_degree(&self, node_id: Id) -> (r: Option<usize>)
        requires
            self.wf(),
        ensures
            r == if self.node_ids().contains(node_id) {
                Some(count_ending_at(self.edge_seq(), node_id) as usize)
            } else {
                None::<usize>
            },
    {
        match self.neighbors_before.get(&node_id) {
            Some(ids_before) => Some(ids_before.len()),
            None => None,
        }
    }

    /// The number of edges that start at `node_id`, when it is a node.
    pub fn out_degree(&self, node_id: Id) -> (r: Option<usize>)
        requires
            self.wf(),
        ensures
            r == if self.node_ids().contains(node_id) {
                Some(count_starting_at(self.edge_seq(), node_id) as usize)
            } else {
                None::<usize>
            },
    {
        match self.neighbors_after.get(&node_id) {
            Some(ids_after) => Some(ids_after.len()),
            None => None,
        }
    }
}

impl DiGraph {
    /// The successor lists name exactly the edges.
    proof fn lemma_step_iff_edge(&self, a: Id, b: Id)
        requires
            self.store_wf(),
        ensures
            step(self.neighbors_after@, a, b) <==> has_pair(self.edges@, a, b),
    {
        broadcast use vstd::seq_lib::group_filter_ensures;

        let es = self.edges@;
        let f = es.filter(starts_at(a));
        if step(self.neighbors_after@, a, b) {
            assert(self.neighbors_after@[a]@ == succs_of(es, a));
            let g = f.map_values(|e: Edge| e.1);
            assert(g.contains(b));
            let j = choose|j: int| 0 <= j < g.len() && #[trigger] g[j] == b;
            assert(f.contains(f[j]));
            es.lemma_filter_contains_rev(starts_at(a), f[j]);
            let i = choose|i: int| 0 <= i < es.len() && es[i] == f[j];
            assert(starts_at(a)(f[j]));
            assert(es[i].0 == a && es[i].1 == b);
        }
        if has_pair(es, a, b) {
            let i = choose|i: int| 0 <= i < es.len() && #[trigger] es[i].0 == a && es[i].1 == b;
            assert(self.nodes@.contains_key(self.edges@[i].0));
            assert(f.contains(es[i]));
            let j = choose|j: int| 0 <= j < f.len() && f[j] == es[i];
            assert(f.map_values(|e: Edge| e.1)[j] == b);
            assert(self.neighbors_after@[a]@ == succs_of(es, a));
        }
    }

    /// The predecessor lists name exactly the edges.
    proof fn lemma_pred_iff_edge(&self, a: Id, b: Id)
        requires
            self.store_wf(),
            self.nodes@.contains_key(b),
        ensures
            self.neighbors_before@[b]@.contains(a) <==> has_pair(self.edges@, a, b),
    {
        broadcast use vstd::seq_lib::group_filter_ensures;

        let es = self.edges@;
        let f = es.filter(ends_at(b));
        assert(self.neighbors_before@[b]@ == preds_of(es, b));
        if self.neighbors_before@[b]@.contains(a) {
            let g = f.map_values(|e: Edge| e.0);
            assert(g.contains(a));
            let j = choose|j: int| 0 <= j < g.len() && #[trigger] g[j] == a;
            assert(f.contains(f[j]));
            es.lemma_filter_contains_rev(ends_at(b), f[j]);
            let i = choose|i: int| 0 <= i < es.len() && es[i] == f[j];
            assert(ends_at(b)(f[j]));
            assert(es[i].0 == a && es[i].1 == b);
        }
        if has_pair(es, a, b) {
            let i = choose|i: int| 0 <= i < es.len() && #[trigger] es[i].0 == a && es[i].1 == b;
            assert(f.contains(es[i]));
            let j = choose|j: int| 0 <= j < f.len() && f[j] == es[i];
            assert(f.map_values(|e: Edge| e.0)[j] == a);
        }
    }

    /// Walks along the successor lists are walks along the edges.
    proof fn lemma_reach_iff(&self, from: Id, to: Id)
        requires
            self.store_wf(),
        ensures
            reaches_avoiding(self.neighbors_after@, Seq::<Id>::empty(), from, to) <==> self.reaches(
                from,
                to,
            ),
    {
        let m = self.neighbors_after@;
        let es = self.edges@;
        if reaches_avoiding(m, Seq::<Id>::empty(), from, to) {
            let p = choose|p: Seq<Id>|
                #![trigger is_walk(m, p), p.last()]
                is_walk(m, p) && p[0] == from && p.last() == to && forall|k: int|
                    0 <= k < p.len() ==> !Seq::<Id>::empty().contains(#[trigger] p[k]);
            assert forall|j: int, k: int| 0 <= j && k == j + 1 && k < p.len() implies has_pair(
                es,
                p[j],
                p[k],
            ) by {
                assert(step(m, p[j], p[k]));
                self.lemma_step_iff_edge(p[j], p[k]);
            }
            assert(edge_walk(self.edge_seq(), p));
            assert(p.last() == to);
        }
        if self.reaches(from, to) {
            let p = choose|p: Seq<Id>|
                #![trigger edge_walk(es, p), p.last()]
                edge_walk(es, p) && p[0] == from && p.last() == to;
            assert forall|j: int, k: int| 0 <= j && k == j + 1 && k < p.len() implies step(
                m,
                p[j],
                p[k],
            ) by {
                assert(has_pair(es, p[j], p[k]));
                self.lemma_step_iff_edge(p[j], p[k]);
            }
            assert(is_walk(m, p));
            assert(reaches_avoiding(m, Seq::<Id>::empty(), from, to));
        }
    }

    /// The ids of `ids` whose in-degree (when `incoming`) or out-degree is
    /// zero, in their order.
    fn ids_with_zero_degree(&self, ids: &Vec<Id>, incoming: bool) -> (r: Vec<Id>)
        requires
            self.wf(),
            strictly_sorted(ids@),
            ids@.to_set() == self.node_ids(),
        ensures
            strictly_sorted(r@),
            r@.to_set() == (if incoming {
                self.source_ids()
            } else {
                self.sink_ids()
            }),
    {
        broadcast use vstd::seq_lib::group_filter_ensures;

        let ghost target = if incoming {
            self.source_ids()
        } else {
            self.sink_ids()
        };
        let mut out: Vec<Id> = Vec::new();
        let mut i: usize = 0;
        while i < ids.len()
            invariant
                self.wf(),
                i <= ids.len(),
                strictly_sorted(ids@),
                ids@.to_set() == self.node_ids(),
                target == (if incoming {
                    self.source_ids()
                } else {
                    self.sink_ids()
                }),
                strictly_sorted(out@),
                forall|k: int, j: int| 0 <= k < out@.len() && i <= j < ids@.len() ==> out@[k] < ids@[j],
                out@.to_set() == ids@.take(i as int).to_set().filter(|v: Id| target.contains(v)),
            decreases ids.len() - i,
        {
            let id = ids[i];
            proof {
                assert(ids@.to_set().contains(id));
                assert(ids@.take(i + 1) == ids@.take(i as int).push(id));
                ids@.take(i as int).lemma_push_to_set_commute(id);
                self.edges@.lemma_filter_len(ends_at(id));
                self.edges@.lemma_filter_len(starts_at(id));
            }
            let n_edges: usize = self.edges.len();
            let degree = if incoming {
                self.in_degree(id)
            } else {
                self.out_degree(id)
            };
            proof {
                assert(self.node_ids().contains(id));
                if incoming {
                    assert(self.source_ids().contains(id) == (count_ending_at(self.edges@, id) == 0));
                } else {
                    assert(self.sink_ids().contains(id) == (count_starting_at(self.edges@, id) == 0));
                }
                assert(target.contains(id) == (degree == Some(0usize)));
            }
            if degree == Some(0usize) {
                let ghost out0 = out@;
                out.push(id);
                proof {
                    out0.lemma_push_to_set_commute(id);
                }
            }
            proof {
                let prev = ids@.take(i as int);
                assert forall|v: Id| out@.to_set().contains(v) <==> (ids@.take(i + 1).to_set().contains(v) && target.contains(v)) by {
                    assert(prev.push(id).to_set() == prev.to_set().insert(id)) by {
                        prev.lemma_push_to_set_commute(id);
                    }
                }
                assert(out@.to_set() =~= ids@.take(i + 1).to_set().filter(|v: Id| target.contains(v)));
            }
            i = i + 1;
        }
        proof {
            assert(ids@.take(ids@.len() as int) == ids@);
            assert(out@.to_set() =~= target);
        }
        out
    }

    /// The ids of the nodes with in-degree zero, in increasing order.
    pub fn source_node_ids(&self) -> (r: Vec<Id>)
        requires
            self.wf(),
        ensures
            strictly_sorted(r@),
            r@.to_set() == self.source_ids(),
    {
        let ids = self.all_node_ids();
        self.ids_with_zero_degree(&ids, true)
    }

    /// The ids of the nodes with out-degree zero, in increasing order.
    pub fn sink_node_ids(&self) -> (r: Vec<Id>)
        requires
            self.wf(),
        ensures
            strictly_sorted(r@),
            r@.to_set() == self.sink_ids(),
    {
        let ids = self.all_node_ids();
        self.ids_with_zero_degree(&ids, false)
    }

    /// A strictly increasing list holds as many entries as its set.
    proof fn lemma_sorted_len(s: Seq<Id>)
        requires
            strictly_sorted(s),
        ensures
            s.len() == s.to_set().len(),
            s.len() == 1 ==> s.to_set() == set![s[0]],
    {
        assert(s.no_duplicates()) by {
            assert forall|i: int, j: int| 0 <= i < s.len() && 0 <= j < s.len() && i != j implies s[i]
                != s[j] by {
                if i < j {
                    assert(s[i] < s[j]);
                } else {
                    assert(s[j] < s[i]);
                }
            }
        }
        s.unique_seq_to_set();
        if s.len() == 1 {
            assert(s.to_set() =~= set![s[0]]);
        }
    }

    /// The single node with in-degree zero. Refused when there is none, or
    /// more than one.
    pub fn get_source(&self) -> (r: Result<&Node, GraphError>)
        requires
            self.wf(),
        ensures
            self.source_ids().len() == 0 <==> r == Err::<&Node, GraphError>(GraphError::NoSource),
            self.source_ids().len() > 1 <==> r == Err::<&Node, GraphError>(
                GraphError::MultipleSources,
            ),
            self.source_ids().len() == 1 <==> r is Ok,
            r matches Ok(n) ==> self.source_ids() == set![n.0] && *n == self.node_map()[n.0],
    {
        let mut source_ids = self.source_node_ids();
        proof {
            Self::lemma_sorted_len(source_ids@);
        }
        match source_ids.len() {
            1 => {
                let index = source_ids.pop().unwrap();
                proof {
                    assert(self.source_ids().contains(index));
                }
                let source_node = self.nodes.get(&index).unwrap();
                Ok(source_node)
            },
            0 => Err(GraphError::NoSource),
            _ => Err(GraphError::MultipleSources),
        }
    }

    /// The ids of the nodes that no walk from `starting_point` reaches, in
    /// increasing order. `starting_point` need not be a node: it reaches only
    /// itself then.
    pub fn nodes_unreachable_from(&self, starting_point: Id) -> (r: Vec<Id>)
        requires
            self.wf(),
        ensures
            strictly_sorted(r@),
            r@.to_set() == self.node_ids().filter(|v: Id| !self.reaches(starting_point, v)),
    {
        let lost_nodes = self.all_node_ids();
        let mut census: Vec<Id> = Vec::new();
        collect_reachable_neighbors(&mut census, starting_point, &self.neighbors_after);
        let ghost target = self.node_ids().filter(|v: Id| !self.reaches(starting_point, v));
        proof {
            assert forall|v: Id| census@.contains(v) <==> self.reaches(starting_point, v) by {
                self.lemma_reach_iff(starting_point, v);
            }
        }
        let mut out: Vec<Id> = Vec::new();
        let mut i: usize = 0;
        while i < lost_nodes.len()
            invariant
                i <= lost_nodes.len(),
                strictly_sorted(lost_nodes@),
                lost_nodes@.to_set() == self.node_ids(),
                target == self.node_ids().filter(|v: Id| !self.reaches(starting_point, v)),
                forall|v: Id| census@.contains(v) <==> self.reaches(starting_point, v),
                strictly_sorted(out@),
                forall|k: int, j: int|
                    0 <= k < out@.len() && i <= j < lost_nodes@.len() ==> out@[k] < lost_nodes@[j],
                out@.to_set() == lost_nodes@.take(i as int).to_set().filter(
                    |v: Id| target.contains(v),
                ),
            decreases lost_nodes.len() - i,
        {
            let id = lost_nodes[i];
            proof {
                assert(lost_nodes@.to_set().contains(id));
                assert(lost_nodes@.take(i + 1) == lost_nodes@.take(i as int).push(id));
                lost_nodes@.take(i as int).lemma_push_to_set_commute(id);
            }
            proof {
                assert(self.node_ids().contains(id));
                assert(target.contains(id) == !census@.contains(id));
            }
            if !id_listed(&census, id) {
                let ghost out0 = out@;
                out.push(id);
                proof {
                    out0.lemma_push_to_set_commute(id);
                }
            }
            proof {
                let prev = lost_nodes@.take(i as int);
                assert forall|v: Id| out@.to_set().contains(v) <==> (lost_nodes@.take(i + 1).to_set().contains(v) && target.contains(v)) by {
                    assert(prev.push(id).to_set() == prev.to_set().insert(id)) by {
                        prev.lemma_push_to_set_commute(id);
                    }
                }
                assert(out@.to_set() =~= lost_nodes@.take(i + 1).to_set().filter(|v: Id| target.contains(v)));
            }
            i = i + 1;
        }
        proof {
            assert(lost_nodes@.take(lost_nodes@.len() as int) == lost_nodes@);
            assert(out@.to_set() =~= target);
        }
        out
    }

    /// There is exactly one node with in-degree zero, and every node is
    /// reachable from it.
    pub fn is_connected(&self) -> (r: bool)
        requires
            self.wf(),
        ensures
            r <==> exists|s: Id|
                self.source_ids() == set![s] && forall|v: Id|
                    self.node_ids().contains(v) ==> #[trigger] self.reaches(s, v),
    {
        let mut source_ids = self.source_node_ids();
        proof {
            Self::lemma_sorted_len(source_ids@);
        }
        if source_ids.len() != 1 {
            proof {
                if exists|s: Id|
                    self.source_ids() == set![s] && forall|v: Id|
                        self.node_ids().contains(v) ==> #[trigger] self.reaches(s, v) {
                    let s = choose|s: Id|
                        self.source_ids() == set![s] && forall|v: Id|
                            self.node_ids().contains(v) ==> #[trigger] self.reaches(s, v);
                    assert(set![s].len() == 1);
                }
            }
            return false;
        }
        let starting_point = source_ids.pop().unwrap();
        let unreachable = self.nodes_unreachable_from(starting_point);
        proof {
            let t = self.node_ids().filter(|v: Id| !self.reaches(starting_point, v));
            if unreachable.len() == 0 {
                assert forall|v: Id| self.node_ids().contains(v) implies #[trigger] self.reaches(
                    starting_point,
                    v,
                ) by {
                    if !self.reaches(starting_point, v) {
                        assert(t.contains(v));
                        assert(unreachable@.to_set().contains(v));
                    }
                }
            } else {
                assert(unreachable@.to_set().contains(unreachable@[0]));
                if exists|s: Id|
                    self.source_ids() == set![s] && forall|v: Id|
                        self.node_ids().contains(v) ==> #[trigger] self.reaches(s, v) {
                    let s = choose|s: Id|
                        self.source_ids() == set![s] && forall|v: Id|
                            self.node_ids().contains(v) ==> #[trigger] self.reaches(s, v);
                    assert(self.source_ids().contains(starting_point));
                    assert(s == starting_point);
                    assert(self.reaches(s, unreachable@[0]));
                }
            }
        }
        unreachable.len() == 0
    }
}

impl DiGraph {
    /// Forgets every recorded change, keeping the limit.
    pub fn clear_history(&mut self)
        requires
            old(self).wf(),
        ensures
            final(self).wf(),
            final(self).node_map() == old(self).node_map(),
            final(self).edge_seq() == old(self).edge_seq(),
            final(self).history_limit() == old(self).history_limit(),
            final(self).undo_states() == Seq::<GraphView>::empty(),
            final(self).graph_name() == old(self).graph_name(),
    {
        match self.undo_history.take() {
            Some(mut h) => {
                h.clear_history();
                self.undo_history = Some(h);
            },
            None => {},
        }
        self.past = Ghost(Seq::empty());
        proof {
            lemma_store_wf_same_store(old(self), self);
        }
    }

    /// A graph of bare nodes and bare edges, one edge per pair, in order,
    /// with a node for each id the pairs name; nothing of it is recorded for
    /// undo.
    pub fn from_terminal_pairs(terminal_pairs: Vec<(Id, Id)>) -> (r: Self)
        requires
            terminal_pairs@.no_duplicates(),
        ensures
            r.wf(),
            r.node_map() == bare_nodes_of(terminal_pairs@),
            r.edge_seq() == bare_edges_of(terminal_pairs@),
            r.history_limit() == UNDO_HISTORY_LIMIT,
            r.undo_states() == Seq::<GraphView>::empty(),
            r.graph_name() is None,
    {
        let mut instance = Self::new();
        let ghost pairs = terminal_pairs@;
        let mut k: usize = 0;
        while k < terminal_pairs.len()
            invariant
                instance.wf(),
                k <= terminal_pairs.len(),
                pairs == terminal_pairs@,
                pairs.no_duplicates(),
                instance.node_map() == bare_nodes_of(pairs.take(k as int)),
                instance.edge_seq() == bare_edges_of(pairs.take(k as int)),
                instance.history_limit() == UNDO_HISTORY_LIMIT,
                instance.graph_name() is None,
            decreases terminal_pairs.len() - k,
        {
            let (start, end) = terminal_pairs[k];
            proof {
                let es = instance.edge_seq();
                if has_pair(es, start, end) {
                    let a = choose|a: int| 0 <= a < es.len() && #[trigger] es[a].0 == start && es[a].1 == end;
                    assert(es[a] == Edge(pairs[a].0, pairs[a].1, None));
                    assert(pairs[a] == pairs[k as int]);
                }
                assert(pairs.take(k + 1).drop_last() == pairs.take(k as int));
                assert(bare_edges_of(pairs.take(k + 1)) == bare_edges_of(pairs.take(k as int)).push(
                    Edge(start, end, None),
                ));
            }
            let _ = instance.insert_edge_with_nodes(start, end);
            k = k + 1;
        }
        proof {
            assert(pairs.take(terminal_pairs.len() as int) == pairs);
        }
        instance.clear_history();
        instance
    }
}

impl Default for DiGraph {
    fn default() -> (r: Self)
        ensures
            r.wf(),
            r.node_map() == Map::<Id, Node>::empty(),
            r.edge_seq() == Seq::<Edge>::empty(),
            r.history_limit() == UNDO_HISTORY_LIMIT,
            r.undo_states() == Seq::<GraphView>::empty(),
            r.graph_name() is None,
    {
        Self::new()
    }
}

/// The ids that `node_map_of` keeps are the ids that the list names, each
/// under its last node.
proof fn lemma_node_map_of(nodes: Seq<Node>)
    ensures
        forall|id: Id| #[trigger] node_map_of(nodes).contains_key(id) <==> names_id(nodes, id),
        forall|id: Id| #[trigger] node_map_of(nodes).contains_key(id) ==> node_map_of(nodes)[id].0 == id,
    decreases nodes.len(),
{
    if nodes.len() > 0 {
        let t = nodes.drop_last();
        lemma_node_map_of(t);
        assert forall|id: Id| #[trigger] node_map_of(nodes).contains_key(id) <==> names_id(nodes, id) by {
            if names_id(nodes, id) {
                let i = choose|i: int| 0 <= i < nodes.len() && #[trigger] nodes[i].0 == id;
                if i < t.len() {
                    assert(t[i].0 == id);
                }
            }
            if names_id(t, id) {
                let i = choose|i: int| 0 <= i < t.len() && #[trigger] t[i].0 == id;
                assert(nodes[i].0 == id);
            }
        }
    }
}

impl DiGraph {
    /// The edges, in the order in which they are stored.
    pub fn edge_list(&self) -> (r: &Vec<Edge>)
        ensures
            r@ == self.edge_seq(),
    {
        &self.edges
    }

    /// A graph that holds `nodes` and then `edges`, with fresh indices and
    /// nothing recorded for undo. Refused, with the first offence met, when
    /// the parts do not describe a graph.
    pub fn from_parts(nodes: Vec<Node>, edges: Vec<Edge>) -> (r: Result<DiGraph, GraphError>)
        ensures
            r is Ok <==> parts_valid(nodes@, edges@),
            r matches Err(e) ==> first_offence(nodes@, edges@, e),
            r matches Ok(g) ==> {
                &&& g.wf()
                &&& g.node_map() == node_map_of(nodes@)
                &&& g.edge_seq() == edges@
                &&& g.history_limit() == UNDO_HISTORY_LIMIT
                &&& g.undo_states() == Seq::<GraphView>::empty()
                &&& g.graph_name() is None
            },
    {
        let mut g = DiGraph::new();
        let mut i: usize = 0;
        while i < nodes.len()
            invariant
                g.wf(),
                i <= nodes.len(),
                g.node_map() == node_map_of(nodes@.take(i as int)),
                g.edge_seq() == Seq::<Edge>::empty(),
                g.history_limit() == UNDO_HISTORY_LIMIT,
                g.graph_name() is None,
                ids_distinct_upto(nodes@, i as int),
            decreases nodes.len() - i,
        {
            let ghost t = nodes@.take(i as int);
            proof {
                lemma_node_map_of(t);
                assert(nodes@.take(i + 1).drop_last() == t);
            }
            match g.insert_node(nodes[i].clone()) {
                Ok(()) => {},
                Err(e) => {
                    proof {
                        let a = choose|a: int| 0 <= a < t.len() && #[trigger] t[a].0 == nodes@[i as int].0;
                        assert(nodes@[a].0 == nodes@[i as int].0);
                        assert(first_offence(nodes@, edges@, e));
                    }
                    return Err(e);
                },
            }
            proof {
                assert forall|a: int, b: int| 0 <= a < b < i + 1 implies #[trigger] nodes@[a].0
                    != #[trigger] nodes@[b].0 by {
                    if b == i {
                        assert(t[a].0 == nodes@[a].0);
                        assert(names_id(t, nodes@[a].0));
                    }
                }
            }
            i = i + 1;
        }
        proof {
            assert(nodes@.take(nodes.len() as int) == nodes@);
            lemma_node_map_of(nodes@);
        }
        let mut k: usize = 0;
        while k < edges.len()
            invariant
                g.wf(),
                k <= edges.len(),
                g.node_map() == node_map_of(nodes@),
                forall|id: Id| #[trigger] g.node_map().contains_key(id) <==> names_id(nodes@, id),
                ids_distinct_upto(nodes@, nodes@.len() as int),
                g.edge_seq() == edges@.take(k as int),
                g.history_limit() == UNDO_HISTORY_LIMIT,
                g.graph_name() is None,
                edges_fit_upto(nodes@, edges@, k as int),
            decreases edges.len() - k,
        {
            let ghost t = edges@.take(k as int);
            proof {
                assert(edges@.take(k + 1) == t.push(edges@[k as int]));
            }
            match g.insert_edge(edges[k].clone()) {
                Ok(()) => {},
                Err(e) => {
                    proof {
                        let x = edges@[k as int];
                        if has_pair(t, x.0, x.1) {
                            let a = choose|a: int| 0 <= a < t.len() && #[trigger] t[a].0 == x.0 && t[a].1 == x.1;
                            assert(edges@[a] == t[a]);
                            assert(!parts_valid(nodes@, edges@)) by {
                                assert(same_pair(edges@[a], edges@[k as int].0, edges@[k as int].1));
                            }
                            assert(first_offence(nodes@, edges@, e));
                        } else {
                            assert(!(names_id(nodes@, edges@[k as int].0) && names_id(nodes@, edges@[k as int].1)));
                            assert(!parts_valid(nodes@, edges@));
                            assert(first_offence(nodes@, edges@, e));
                        }
                    }
                    return Err(e);
                },
            }
            proof {
                let x = edges@[k as int];
                assert(!has_pair(t, x.0, x.1));
                assert(g.node_map().contains_key(x.0) && g.node_map().contains_key(x.1));
                assert(names_id(nodes@, x.0) && names_id(nodes@, x.1));
                assert(names_id(nodes@, edges@[k as int].0) && names_id(nodes@, edges@[k as int].1));
                assert forall|a: int| 0 <= a < k + 1 implies names_id(nodes@, #[trigger] edges@[a].0)
                    && names_id(nodes@, edges@[a].1) by {
                    if a < k {
                        assert(names_id(nodes@, edges@[a].0));
                    }
                }
                assert forall|a: int, b: int|
                    0 <= a < b < k + 1 implies !same_pair(#[trigger] edges@[a], edges@[b].0, #[trigger] edges@[b].1) by {
                    if b == k {
                        assert(t[a] == edges@[a]);
                        if same_pair(edges@[a], x.0, x.1) {
                            assert(t[a].0 == x.0);
                        }
                    }
                }
            }
            k = k + 1;
        }
        proof {
            assert(edges@.take(edges.len() as int) == edges@);
        }
        g.clear_history();
        Ok(g)
    }
}

/// Consistency of the store does not depend on what the history holds, as
/// long as it stays within its limit.
proof fn lemma_store_wf_same_store(a: &DiGraph, b: &DiGraph)
    requires
        a.store_wf(),
        b.nodes@ == a.nodes@,
        b.edges@ == a.edges@,
        b.neighbors_before@ == a.neighbors_before@,
        b.neighbors_after@ == a.neighbors_after@,
        match b.undo_history {
            Some(h) => h.limit() > 0 && h@.len() <= h.limit(),
            None => true,
        },
    ensures
        b.store_wf(),
{
}

/// Two sequences free of repeats with the same items have as many items
/// passing any test.
proof fn lemma_same_items_same_count<A>(s1: Seq<A>, s2: Seq<A>, pred: spec_fn(A) -> bool)
    requires
        s1.no_duplicates(),
        s2.no_duplicates(),
        s1.to_set() == s2.to_set(),
    ensures
        s1.filter(pred).len() == s2.filter(pred).len(),
{
    lemma_filter_no_duplicates(s1, pred);
    lemma_filter_no_duplicates(s2, pred);
    lemma_to_set_filter(s1, pred);
    lemma_to_set_filter(s2, pred);
    s1.filter(pred).unique_seq_to_set();
    s2.filter(pred).unique_seq_to_set();
}

/// In every graph that the operations of this library produce, each edge
/// joins two nodes of the graph, and no two edges share their start and end.
pub proof fn lemma_no_dangling_edges(g: &DiGraph)
    requires
        g.wf(),
    ensures
        forall|e: Edge|
            #[trigger] g.edge_set().contains(e) ==> g.node_ids().contains(e.0) && g.node_ids().contains(
                e.1,
            ),
        forall|i: int, j: int|
            0 <= i < g.edge_seq().len() && 0 <= j < g.edge_seq().len() && i != j ==> !same_pair(
                #[trigger] g.edge_seq()[i],
                g.edge_seq()[j].0,
                #[trigger] g.edge_seq()[j].1,
            ),
{
    assert forall|e: Edge| #[trigger] g.edge_set().contains(e) implies g.node_ids().contains(e.0)
        && g.node_ids().contains(e.1) by {
        let i = choose|i: int| 0 <= i < g.edges@.len() && g.edges@[i] == e;
        assert(g.nodes@.contains_key(g.edges@[i].0));
    }
    assert forall|i: int, j: int|
        0 <= i < g.edge_seq().len() && 0 <= j < g.edge_seq().len() && i != j implies !same_pair(
        #[trigger] g.edge_seq()[i],
        g.edge_seq()[j].0,
        #[trigger] g.edge_seq()[j].1,
    ) by {
        assert(!(g.edges@[i].0 == g.edges@[j].0 && g.edges@[i].1 == g.edges@[j].1));
    }
}

/// In every graph that the operations of this library produce, the degree
/// index has one entry per node, holding the number of edges that end there
/// and the number that start there.
pub proof fn lemma_degree_map_counts(g: &DiGraph)
    requires
        g.wf(),
    ensures
        g.degree_map().dom() == g.node_ids(),
        forall|v: Id|
            #[trigger] g.node_ids().contains(v) ==> g.degree_map()[v] == (
                count_ending_at(g.edge_seq(), v),
                count_starting_at(g.edge_seq(), v),
            ),
{
    assert(g.degree_map().dom() =~= g.node_ids());
    assert forall|v: Id| #[trigger] g.node_ids().contains(v) implies g.degree_map()[v] == (
        count_ending_at(g.edge_seq(), v),
        count_starting_at(g.edge_seq(), v),
    ) by {
        assert(g.neighbors_before@.contains_key(v));
        assert(g.neighbors_after@.contains_key(v));
    }
}

/// While changes are recorded (a history limit above zero), undo right after
/// a successful change restores the graph as it was before the change: the same nodes, the same edges, the same degrees, and
/// neighbor lists that hold the same ids (their order may differ, as
/// restored edges are stored last).
pub proof fn lemma_undo_restores(g0: DiGraph, g1: DiGraph, g2: DiGraph)
    requires
        g0.wf(),
        g2.wf(),
        g0.history_limit() > 0,
        logged(g0, g1),
        undone(g1, g2),
    ensures
        g2.view() == g0.view(),
        g2.node_map() == g0.node_map(),
        g2.edge_set() == g0.edge_set(),
        g2.degree_map() == g0.degree_map(),
        forall|a: Id, b: Id| #[trigger] g2.has_edge(a, b) == g0.has_edge(a, b),
        g2.successor_index().dom() == g0.successor_index().dom(),
        g2.predecessor_index().dom() == g0.predecessor_index().dom(),
        forall|v: Id|
            #[trigger] g0.node_ids().contains(v) ==> g2.successor_index()[v].to_set()
                == g0.successor_index()[v].to_set() && g2.predecessor_index()[v].to_set()
                == g0.predecessor_index()[v].to_set(),
{
    assert(g2.view() == g0.view());
    g0.lemma_edges_distinct();
    g2.lemma_edges_distinct();
    lemma_degree_map_counts(&g0);
    lemma_degree_map_counts(&g2);
    assert forall|v: Id| #[trigger] g0.node_ids().contains(v) implies g2.degree_map()[v]
        == g0.degree_map()[v] by {
        lemma_same_items_same_count(g0.edges@, g2.edges@, ends_at(v));
        lemma_same_items_same_count(g0.edges@, g2.edges@, starts_at(v));
    }
    assert(g2.degree_map() =~= g0.degree_map());
    assert forall|a: Id, b: Id| #[trigger] g2.has_edge(a, b) == g0.has_edge(a, b) by {
        if g2.has_edge(a, b) {
            let i = choose|i: int|
                0 <= i < g2.edges@.len() && #[trigger] g2.edges@[i].0 == a && g2.edges@[i].1 == b;
            assert(g2.edge_set().contains(g2.edges@[i]));
            let j = choose|j: int| 0 <= j < g0.edges@.len() && g0.edges@[j] == g2.edges@[i];
            assert(g0.edges@[j].0 == a);
        }
        if g0.has_edge(a, b) {
            let i = choose|i: int|
                0 <= i < g0.edges@.len() && #[trigger] g0.edges@[i].0 == a && g0.edges@[i].1 == b;
            assert(g0.edge_set().contains(g0.edges@[i]));
            let j = choose|j: int| 0 <= j < g2.edges@.len() && g2.edges@[j] == g0.edges@[i];
            assert(g2.edges@[j].0 == a);
        }
    }
    assert(g2.successor_index().dom() =~= g0.successor_index().dom());
    assert(g2.predecessor_index().dom() =~= g0.predecessor_index().dom());
    assert forall|v: Id| #[trigger] g0.node_ids().contains(v) implies g2.successor_index()[v].to_set()
        == g0.successor_index()[v].to_set() && g2.predecessor_index()[v].to_set()
        == g0.predecessor_index()[v].to_set() by {
        assert forall|u: Id| g2.successor_index()[v].to_set().contains(u)
            == g0.successor_index()[v].to_set().contains(u) by {
            g0.lemma_step_iff_edge(v, u);
            g2.lemma_step_iff_edge(v, u);
            assert(g2.has_edge(v, u) == g0.has_edge(v, u));
        }
        assert forall|u: Id| g2.predecessor_index()[v].to_set().contains(u)
            == g0.predecessor_index()[v].to_set().contains(u) by {
            g0.lemma_pred_iff_edge(u, v);
            g2.lemma_pred_iff_edge(u, v);
            assert(g2.has_edge(u, v) == g0.has_edge(u, v));
        }
        assert(g2.successor_index()[v].to_set() =~= g0.successor_index()[v].to_set());
        assert(g2.predecessor_index()[v].to_set() =~= g0.predecessor_index()[v].to_set());
    }
}

/// With a history that keeps `c` changes and starts empty, `c + 1` changes
/// followed by `c` undos leave the graph as the first change made it, with
/// nothing left to undo: a further undo changes nothing.
pub proof fn lemma_bounded_history(gs: Seq<DiGraph>, us: Seq<DiGraph>)
    requires
        gs.len() >= 2,
        gs[0].history_limit() > 0,
        gs.len() == gs[0].history_limit() + 2,
        gs[0].undo_states().len() == 0,
        forall|i: int| 0 <= i < gs.len() - 1 ==> logged(#[trigger] gs[i], gs[i + 1]),
        us.len() == gs[0].history_limit() + 1,
        us[0] == gs[gs.len() - 1],
        forall|j: int| 0 <= j < us.len() - 1 ==> undone(#[trigger] us[j], us[j + 1]),
    ensures
        us[us.len() - 1].view() == gs[1].view(),
        us[us.len() - 1].undo_states().len() == 0,
        forall|g: DiGraph| #[trigger] undone(us[us.len() - 1], g) ==> g.view() == gs[1].view(),
{
    let c = gs[0].history_limit() as int;
    assert forall|i: int| 0 <= i <= c implies {
        &&& #[trigger] gs[i].history_limit() == c
        &&& gs[i].undo_states() == Seq::new(i as nat, |k: int| gs[k].view())
    } by {
        lemma_history_prefix(gs, c, i);
    }
    let last = gs[c + 1];
    assert(logged(gs[c], gs[c + 1]));
    assert(last.undo_states() =~= Seq::new(c as nat, |k: int| gs[k + 1].view()));
    assert forall|j: int| 0 <= j <= c implies {
        &&& #[trigger] us[j].undo_states() == Seq::new((c - j) as nat, |k: int| gs[k + 1].view())
        &&& (j > 0 ==> us[j].view() == gs[c + 1 - j].view())
    } by {
        lemma_undo_steps(gs, us, c, j);
    }
}

/// Within the first `c` changes nothing is lost: after `i` of them the
/// record holds the views before each, in order.
proof fn lemma_history_prefix(gs: Seq<DiGraph>, c: int, i: int)
    requires
        0 <= i <= c,
        gs.len() == c + 2,
        gs[0].history_limit() == c,
        c > 0,
        gs[0].undo_states().len() == 0,
        forall|k: int| 0 <= k < gs.len() - 1 ==> logged(#[trigger] gs[k], gs[k + 1]),
    ensures
        gs[i].history_limit() == c,
        gs[i].undo_states() == Seq::new(i as nat, |k: int| gs[k].view()),
    decreases i,
{
    if i == 0 {
        assert(gs[0].undo_states() =~= Seq::new(0, |k: int| gs[k].view()));
    } else {
        lemma_history_prefix(gs, c, i - 1);
        assert(logged(gs[i - 1], gs[i]));
        assert(gs[i].undo_states() =~= Seq::new(i as nat, |k: int| gs[k].view()));
    }
}

/// Each undo restores the next most recent view and drops it from the
/// record.
proof fn lemma_undo_steps(gs: Seq<DiGraph>, us: Seq<DiGraph>, c: int, j: int)
    requires
        0 <= j <= c,
        gs.len() == c + 2,
        us.len() == c + 1,
        us[0].undo_states() == Seq::new(c as nat, |k: int| gs[k + 1].view()),
        forall|m: int| 0 <= m < us.len() - 1 ==> undone(#[trigger] us[m], us[m + 1]),
    ensures
        us[j].undo_states() == Seq::new((c - j) as nat, |k: int| gs[k + 1].view()),
        j > 0 ==> us[j].view() == gs[c + 1 - j].view(),
    decreases j,
{
    if j > 0 {
        lemma_undo_steps(gs, us, c, j - 1);
        assert(undone(us[j - 1], us[j]));
        assert(us[j].undo_states() =~= Seq::new((c - j) as nat, |k: int| gs[k + 1].view()));
    }
}

} // verus!
