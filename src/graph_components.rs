use vstd::prelude::*;

verus! {

/// Identifier of a node; edges name their terminals by it.
pub type Id = u16;

/// A node: its id and an optional payload.
#[derive(Debug, PartialEq, Eq)]
pub struct Node(pub Id, pub Option<String>);

/// A directed edge: start id, end id and an optional payload.
#[derive(Debug, PartialEq, Eq)]
pub struct Edge(pub Id, pub Id, pub Option<String>);

/// Copies an optional payload.
pub fn copy_payload(data: &Option<String>) -> (r: Option<String>)
    ensures
        r == *data,
{
    match data {
        Some(s) => Some(s.clone()),
        None => None,
    }
}

impl Clone for Node {
    fn clone(&self) -> (r: Self)
        ensures
            r == *self,
    {
        Node(self.0, copy_payload(&self.1))
    }
}

impl Clone for Edge {
    fn clone(&self) -> (r: Self)
        ensures
            r == *self,
    {
        Edge(self.0, self.1, copy_payload(&self.2))
    }
}

impl Node {
    pub fn new(id: Id, data: Option<String>) -> (r: Self)
        ensures
            r == Node(id, data),
    {
        Node(id, data)
    }

    /// A node with no payload.
    pub fn bare(id: Id) -> (r: Self)
        ensures
            r == Node(id, None),
    {
        Node(id, None)
    }

    /// Drops the payload, keeping the id.
    pub fn empty(&mut self)
        ensures
            *final(self) == Node(old(self).0, None),
    {
        self.1 = None;
    }
}

impl Edge {
    pub fn new(id_in: Id, id_out: Id, data: Option<String>) -> (r: Self)
        ensures
            r == Edge(id_in, id_out, data),
    {
        Edge(id_in, id_out, data)
    }

    /// An edge with no payload.
    pub fn bare(id_in: Id, id_out: Id) -> (r: Self)
        ensures
            r == Edge(id_in, id_out, None),
    {
        Edge(id_in, id_out, None)
    }

    /// Drops the payload, keeping the terminals.
    pub fn empty(&mut self)
        ensures
            *final(self) == Edge(old(self).0, old(self).1, None),
    {
        self.2 = None;
    }

    /// Swaps start and end, keeping the payload.
    pub fn reverse(&mut self)
        ensures
            *final(self) == Edge(old(self).1, old(self).0, old(self).2),
    {
        let prev_out = self.1;
        self.1 = self.0;
        self.0 = prev_out;
    }
}


/// What a type must offer to be stored as a node: a bare value built from an
/// id, and the id read back.
pub trait Nodal: Sized {
    spec fn spec_node_id(&self) -> Id;

    fn bare(id: Id) -> (r: Self)
        ensures
            r.spec_node_id() == id,
    ;

    fn node_id(&self) -> (r: Id)
        ensures
            r == self.spec_node_id(),
    ;
}

/// What a type must offer to be stored as a directed edge: a bare value built
/// from its terminals, the terminals read back, and each terminal rewritten on
/// its own.
pub trait DirEdge: Sized {
    spec fn spec_terminals(&self) -> (Id, Id);

    fn bare(start: Id, end: Id) -> (r: Self)
        ensures
            r.spec_terminals() == (start, end),
    ;

    fn terminal_ids(&self) -> (r: (Id, Id))
        ensures
            r == self.spec_terminals(),
    ;

    fn change_start(&mut self, new_start: Id)
        ensures
            final(self).spec_terminals() == (new_start, old(self).spec_terminals().1),
    ;

    fn change_end(&mut self, new_end: Id)
        ensures
            final(self).spec_terminals() == (old(self).spec_terminals().0, new_end),
    ;

    fn start_id(&self) -> (r: Id)
        ensures
            r == self.spec_terminals().0,
    {
        self.terminal_ids().0
    }

    fn end_id(&self) -> (r: Id)
        ensures
            r == self.spec_terminals().1,
    {
        self.terminal_ids().1
    }
}

impl Nodal for Node {
    open spec fn spec_node_id(&self) -> Id {
        self.0
    }

    fn bare(id: Id) -> (r: Self) {
        Node(id, None)
    }

    fn node_id(&self) -> (r: Id) {
        self.0
    }
}

impl DirEdge for Edge {
    open spec fn spec_terminals(&self) -> (Id, Id) {
        (self.0, self.1)
    }

    fn bare(start: Id, end: Id) -> (r: Self) {
        Edge(start, end, None)
    }

    fn terminal_ids(&self) -> (r: (Id, Id)) {
        (self.0, self.1)
    }

    fn change_start(&mut self, new_start: Id) {
        self.0 = new_start;
    }

    fn change_end(&mut self, new_end: Id) {
        self.1 = new_end;
    }
}

/// Why an operation on a graph was refused.
#[derive(Clone, Copy, Debug, PartialEq, Eq, Structural)]
pub enum GraphError {
    /// A node with this id is already present.
    DuplicateId(Id),
    /// An edge with these terminals is already present.
    DuplicateEdge(Id, Id),
    /// No node with this id is present.
    NodeNotFound(Id),
    /// No edge with these terminals is present.
    EdgeNotFound(Id, Id),
    /// An edge was offered whose start or end is not a node of the graph.
    MissingEndpoint(Id, Id),
    /// No node has in-degree zero.
    NoSource,
    /// More than one node has in-degree zero.
    MultipleSources,
    /// A change record was asked for a part that its kind does not carry.
    WrongChangeKind,
}

/// One committed mutation, with what it takes to invert it, or the reason a
/// proposed mutation was refused.
#[derive(Debug, PartialEq, Eq)]
pub enum GraphChange {
    AddNode(Node),
    /// The node removed and every edge that went with it.
    RemoveNode(Node, Vec<Edge>),
    AddEdge(Edge),
    /// The edge added and the ids of the start and end nodes created for it,
    /// where they were created.
    AddEdgeWith(Edge, Option<Id>, Option<Id>),
    RemoveEdge(Edge),
    /// The node inserted and the edge it replaced.
    InsertNodeAlongEdge(Node, Edge),
    Failure(GraphError),
}

/// Copies a list of edges.
pub fn copy_edges(edges: &Vec<Edge>) -> (r: Vec<Edge>)
    ensures
        r@ == edges@,
{
    let mut r: Vec<Edge> = Vec::new();
    let mut i: usize = 0;
    while i < edges.len()
        invariant
            i <= edges.len(),
            r@ == edges@.subrange(0, i as int),
        decreases edges.len() - i,
    {
        r.push(edges[i].clone());
        i = i + 1;
    }
    assert(edges@.subrange(0, edges.len() as int) == edges@);
    r
}

impl GraphChange {
    /// The edge that the change carries.
    pub fn try_get_edge(&self) -> (r: Result<Edge, GraphError>)
        ensures
            r == match *self {
                GraphChange::AddEdge(e) => Ok(e),
                GraphChange::AddEdgeWith(e, _, _) => Ok(e),
                GraphChange::RemoveEdge(e) => Ok(e),
                GraphChange::InsertNodeAlongEdge(_, e) => Ok(e),
                GraphChange::Failure(reason) => Err(reason),
                _ => Err(GraphError::WrongChangeKind),
            },
    {
        match self {
            GraphChange::AddEdge(e) => Ok(e.clone()),
            GraphChange::AddEdgeWith(e, _, _) => Ok(e.clone()),
            GraphChange::RemoveEdge(e) => Ok(e.clone()),
            GraphChange::InsertNodeAlongEdge(_, e) => Ok(e.clone()),
            GraphChange::Failure(reason) => Err(*reason),
            _ => Err(GraphError::WrongChangeKind),
        }
    }

    /// The node that the change carries.
    pub fn try_get_node(&self) -> (r: Result<Node, GraphError>)
        ensures
            r == match *self {
                GraphChange::AddNode(n) => Ok(n),
                GraphChange::RemoveNode(n, _) => Ok(n),
                GraphChange::InsertNodeAlongEdge(n, _) => Ok(n),
                GraphChange::Failure(reason) => Err(reason),
                _ => Err(GraphError::WrongChangeKind),
            },
    {
        match self {
            GraphChange::AddNode(n) => Ok(n.clone()),
            GraphChange::RemoveNode(n, _) => Ok(n.clone()),
            GraphChange::InsertNodeAlongEdge(n, _) => Ok(n.clone()),
            GraphChange::Failure(reason) => Err(*reason),
            _ => Err(GraphError::WrongChangeKind),
        }
    }

    /// The edges removed together with a node.
    pub fn try_get_edge_vec(&self) -> (r: Result<Vec<Edge>, GraphError>)
        ensures
            match *self {
                GraphChange::RemoveNode(_, ev) => r is Ok && r->Ok_0@ == ev@,
                GraphChange::Failure(reason) => r == Err::<Vec<Edge>, GraphError>(reason),
                _ => r == Err::<Vec<Edge>, GraphError>(GraphError::WrongChangeKind),
            },
    {
        match self {
            GraphChange::RemoveNode(_, ev) => Ok(copy_edges(ev)),
            GraphChange::Failure(reason) => Err(*reason),
            _ => Err(GraphError::WrongChangeKind),
        }
    }

    /// The edge added with implicit nodes, and which of its terminals were
    /// created for it.
    pub fn try_get_edge_with_nodes(&self) -> (r: Result<(Edge, Option<Id>, Option<Id>), GraphError>)
        ensures
            r == match *self {
                GraphChange::AddEdgeWith(e, n_in, n_out) => Ok((e, n_in, n_out)),
                GraphChange::Failure(reason) => Err(reason),
                _ => Err(GraphError::WrongChangeKind),
            },
    {
        match self {
            GraphChange::AddEdgeWith(e, n_in, n_out) => Ok((e.clone(), *n_in, *n_out)),
            GraphChange::Failure(reason) => Err(*reason),
            _ => Err(GraphError::WrongChangeKind),
        }
    }
}

} // verus!
