//! A directed graph with weighted edges whose nodes are points of a grid.
//!
//! The graph owns one vector of nodes, in the order of their registration, and
//! one list of outgoing edges per node. Edges name their endpoints by index
//! into the node vector. A node is identified by its coordinates: the handle
//! of a node is the index of the first registered node at the same place.

use vstd::prelude::*;

verus! {

/// A point of the grid together with its position in the flat pixel buffer.
#[derive(Clone, Copy, Debug)]
pub struct Node {
    pub x: u32,
    pub y: u32,
    pub vec_coord: usize,
}

impl Node {
    /// Two nodes are the same node when they lie at the same coordinates.
    pub open spec fn same_place(self, other: Node) -> bool {
        self.x == other.x && self.y == other.y
    }

    /// The node at the origin.
    pub fn new() -> (node: Node)
        ensures
            node == (Node { x: 0, y: 0, vec_coord: 0 }),
    {
        Node { x: 0, y: 0, vec_coord: 0 }
    }

    /// The node at `(x, y)` with buffer position `vec_coord`.
    pub fn from(x: u32, y: u32, vec_coord: usize) -> (node: Node)
        ensures
            node == (Node { x, y, vec_coord }),
    {
        Node { x, y, vec_coord }
    }
}

impl PartialEq for Node {
    fn eq(&self, other: &Self) -> (same: bool) {
        self.x == other.x && self.y == other.y
    }
}

impl Eq for Node {

}

impl vstd::std_specs::cmp::PartialEqSpecImpl for Node {
    open spec fn obeys_eq_spec() -> bool {
        true
    }

    open spec fn eq_spec(&self, other: &Self) -> bool {
        self.x == other.x && self.y == other.y
    }
}

/// A directed edge between two registered nodes, named by their indices.
#[derive(Clone, Copy, Debug, PartialEq, Eq, Structural)]
pub struct Edge {
    pub weight: u32,
    pub from: usize,
    pub to: usize,
}

impl Edge {
    /// The edge from node `from` to node `to` with the given weight.
    pub fn from(from: usize, to: usize, weight: u32) -> (edge: Edge)
        ensures
            edge == (Edge { weight, from, to }),
    {
        Edge { from, to, weight }
    }
}

/// Why an edge could not be added by index.
#[derive(Clone, Copy, Debug, PartialEq, Eq, Structural)]
pub enum GraphError {
    /// An endpoint index does not name a registered node.
    NoSuchNode,
}

/// The mathematical content of a graph: its nodes in registration order and,
/// for each node index, the outgoing edges in insertion order.
pub struct GraphModel {
    pub nodes: Seq<Node>,
    pub links: Seq<Seq<Edge>>,
}

impl GraphModel {
    /// Some registered node lies where `node` lies.
    pub open spec fn registered(self, node: Node) -> bool {
        exists|i: int| 0 <= i < self.nodes.len() && #[trigger] self.nodes[i].same_place(node)
    }

    /// `i` is the handle of `node`: the first index registered at its place.
    pub open spec fn is_handle(self, i: int, node: Node) -> bool {
        &&& 0 <= i < self.nodes.len()
        &&& self.nodes[i].same_place(node)
        &&& forall|j: int| 0 <= j < i ==> !(#[trigger] self.nodes[j]).same_place(node)
    }

    /// The handle of `node`, meaningful when `node` is registered.
    pub open spec fn handle(self, node: Node) -> int {
        choose|i: int| self.is_handle(i, node)
    }

    /// `i` is the handle of the node registered at `i`.
    pub open spec fn canonical(self, i: int) -> bool {
        &&& 0 <= i < self.nodes.len()
        &&& self.is_handle(i, self.nodes[i])
    }

    /// The position in the edge list of `from` of the edge that leads to `to`.
    pub open spec fn is_slot(self, from: int, to: int, k: int) -> bool {
        0 <= k < self.links[from].len() && self.links[from][k].to == to
    }

    /// Whether an edge leads from `from` to `to`.
    pub open spec fn linked(self, from: int, to: int) -> bool {
        exists|k: int| #[trigger] self.is_slot(from, to, k)
    }

    /// The position of the edge from `from` to `to`, meaningful when linked.
    pub open spec fn slot(self, from: int, to: int) -> int {
        choose|k: int| #[trigger] self.is_slot(from, to, k)
    }

    /// The invariant of a graph: one edge list per node, of a number that a
    /// machine can hold; each edge lies in the list of its source and joins
    /// two handles; no two edges of one list share a target.
    pub open spec fn wf(self) -> bool {
        &&& self.links.len() == self.nodes.len() <= usize::MAX
        &&& forall|i: int, k: int|
            0 <= i < self.links.len() && 0 <= k < self.links[i].len() ==> {
                &&& (#[trigger] self.links[i][k]).from == i
                &&& self.canonical(i)
                &&& self.canonical(self.links[i][k].to as int)
            }
        &&& forall|i: int, k: int, l: int|
            0 <= i < self.links.len() && 0 <= k < l < self.links[i].len() ==> (
            #[trigger] self.links[i][k]).to != (#[trigger] self.links[i][l]).to
    }

    /// The graph with `node` registered last, without edges.
    pub open spec fn with_node(self, node: Node) -> GraphModel {
        GraphModel { nodes: self.nodes.push(node), links: self.links.push(Seq::empty()) }
    }

    /// The graph in which the edge from `from` to `to` weighs `weight`: an
    /// edge between the two keeps its position and takes the weight, a new
    /// edge comes last in the list of `from`.
    pub open spec fn with_edge(self, from: int, to: int, weight: u32) -> GraphModel {
        let edge = Edge { weight, from: from as usize, to: to as usize };
        let list = self.links[from];
        let list = if self.linked(from, to) {
            list.update(self.slot(from, to), edge)
        } else {
            list.push(edge)
        };
        GraphModel { nodes: self.nodes, links: self.links.update(from, list) }
    }

    /// The graph after the edge between two nodes is set: the graph itself
    /// unless both nodes are registered, else the edge between their handles
    /// is set.
    pub open spec fn with_edge_between(self, from: Node, to: Node, weight: u32) -> GraphModel {
        if self.registered(from) && self.registered(to) {
            self.with_edge(self.handle(from), self.handle(to), weight)
        } else {
            self
        }
    }

    /// The targets of the edges that leave `from`, in insertion order.
    pub open spec fn targets(self, from: int) -> Seq<usize> {
        self.links[from].map_values(|e: Edge| e.to)
    }
}

/// A node has at most one handle.
pub proof fn lemma_handle_unique(g: GraphModel, node: Node, i: int, j: int)
    requires
        g.is_handle(i, node),
        g.is_handle(j, node),
    ensures
        i == j,
        g.handle(node) == i,
{
    if i < j {
        assert(g.nodes[i].same_place(node));
    }
    if j < i {
        assert(g.nodes[j].same_place(node));
    }
    let h = g.handle(node);
    assert(g.is_handle(h, node));
    if i < h {
        assert(g.nodes[i].same_place(node));
    }
    if h < i {
        assert(g.nodes[h].same_place(node));
    }
}

/// A graph: the nodes in the order of their registration and, for each
/// node, the edges that leave it in the order of their insertion.
pub struct Graph {
    pub nodes: Vec<Node>,
    pub edges: Vec<Vec<Edge>>,
}

impl View for Graph {
    type V = GraphModel;

    open spec fn view(&self) -> GraphModel {
        GraphModel {
            nodes: self.nodes@,
            links: Seq::new(self.edges@.len(), |i: int| self.edges@[i]@),
        }
    }
}

impl Graph {
    /// The invariant that every operation keeps.
    pub open spec fn wf(&self) -> bool {
        self@.wf()
    }

    /// The graph without nodes.
    pub fn new() -> (graph: Graph)
        ensures
            graph.wf(),
            graph@.nodes == Seq::<Node>::empty(),
            graph@.links == Seq::<Seq<Edge>>::empty(),
    {
        let graph = Graph { nodes: Vec::new(), edges: Vec::new() };
        assert(graph@.links =~= Seq::<Seq<Edge>>::empty());
        graph
    }

    /// Registers a new node at `(x, y)` and returns it. A node may be
    /// registered at a place that already holds one: the handle of the place
    /// stays the earlier node.
    pub fn add_node(&mut self, x: u32, y: u32, vec_coord: usize) -> (node: Node)
        requires
            old(self).wf(),
        ensures
            final(self).wf(),
            node == (Node { x, y, vec_coord }),
            final(self)@ == old(self)@.with_node(node),
    {
        let node = Node::from(x, y, vec_coord);
        self.nodes.push(node);
        self.edges.push(Vec::new());
        proof {
            let before = old(self)@;
            let after = self@;
            assert(self.nodes.len() <= usize::MAX);
            assert(after.links =~= before.links.push(Seq::empty()));
            assert forall|i: int| before.canonical(i) implies after.canonical(i) by {
                assert(after.nodes[i] == before.nodes[i]);
                assert forall|j: int| 0 <= j < i implies !(#[trigger] after.nodes[j]).same_place(
                    after.nodes[i],
                ) by {
                    assert(after.nodes[j] == before.nodes[j]);
                }
            }
            assert forall|i: int, k: int|
                0 <= i < after.links.len() && 0 <= k < after.links[i].len() implies {
                &&& (#[trigger] after.links[i][k]).from == i
                &&& after.canonical(i)
                &&& after.canonical(after.links[i][k].to as int)
            } by {
                assert(after.links[i][k] == before.links[i][k]);
            }
        }
        node
    }

    /// The handle of `node`, if a node is registered at its place.
    pub fn index_of(&self, node: &Node) -> (found: Option<usize>)
        ensures
            match found {
                Some(i) => self@.is_handle(i as int, *node),
                None => !self@.registered(*node),
            },
    {
        let mut i: usize = 0;
        while i < self.nodes.len()
            invariant
                i <= self.nodes.len(),
                forall|j: int| 0 <= j < i ==> !(#[trigger] self@.nodes[j]).same_place(*node),
            decreases self.nodes.len() - i,
        {
            if self.nodes[i].x == node.x && self.nodes[i].y == node.y {
                return Some(i);
            }
            i += 1;
        }
        None
    }

    /// The first registered node at `(x, y)`.
    pub fn find_node_xy(&self, x: u32, y: u32) -> (found: Option<Node>)
        ensures
            match found {
                Some(node) => {
                    let probe = Node { x, y, vec_coord: 0 };
                    self@.registered(probe) && node == self@.nodes[self@.handle(probe)]
                },
                None => !self@.registered(Node { x, y, vec_coord: 0 }),
            },
    {
        let probe = Node { x, y, vec_coord: 0 };
        match self.index_of(&probe) {
            Some(i) => {
                proof {
                    lemma_handle_unique(self@, probe, i as int, i as int);
                }
                Some(self.nodes[i])
            },
            None => None,
        }
    }

    /// Whether a node is registered where `node` lies.
    pub fn check_if_node_exist(&self, node: &Node) -> (exists: bool)
        ensures
            exists == self@.registered(*node),
    {
        self.index_of(node).is_some()
    }

    /// Sets the edge between two handles.
    #[verifier::loop_isolation(false)]
    pub(crate) fn link(&mut self, from: usize, to: usize, weight: u32)
        requires
            old(self).wf(),
            old(self)@.canonical(from as int),
            old(self)@.canonical(to as int),
        ensures
            final(self).wf(),
            final(self)@ == old(self)@.with_edge(from as int, to as int, weight),
    {
        let ghost before = self@;
        let edge = Edge::from(from, to, weight);
        let mut k: usize = 0;
        let n = self.edges[from].len();
        while k < n
            invariant
                k <= n,
                n == self.edges[from as int].len(),
                from < self.edges.len(),
                self@ == before,
                forall|l: int| 0 <= l < k ==> !before.is_slot(from as int, to as int, l),
            decreases n - k,
        {
            if self.edges[from][k].to == to {
                self.edges[from].set(k, edge);
                proof {
                    let after = self@;
                    assert(before.is_slot(from as int, to as int, k as int));
                    let s = before.slot(from as int, to as int);
                    assert(before.is_slot(from as int, to as int, s));
                    if s < k {
                        assert(before.links[from as int][s].to != before.links[from as int][k as int].to);
                    }
                    if k < s {
                        assert(before.links[from as int][k as int].to != before.links[from as int][s].to);
                    }
                    assert(after.links =~= before.links.update(
                        from as int,
                        before.links[from as int].update(k as int, edge),
                    ));
                    lemma_with_edge_wf(before, from as int, to as int, weight);
                }
                return ;
            }
            k += 1;
        }
        self.edges[from].push(edge);
        proof {
            let after = self@;
            assert(!before.linked(from as int, to as int));
            assert(after.links =~= before.links.update(
                from as int,
                before.links[from as int].push(edge),
            ));
            lemma_with_edge_wf(before, from as int, to as int, weight);
        }
    }

    /// Sets the weight of the edge from `from` to `to`. Nothing happens unless
    /// both nodes are registered. An edge between the two keeps its place and
    /// takes the new weight; otherwise a new edge is appended.
    pub fn add_edge(&mut self, from: &Node, to: &Node, weight: u32)
        requires
            old(self).wf(),
        ensures
            final(self).wf(),
            final(self)@ == old(self)@.with_edge_between(*from, *to, weight),
    {
        match (self.index_of(from), self.index_of(to)) {
            (Some(f), Some(t)) => {
                proof {
                    lemma_handle_unique(self@, *from, f as int, f as int);
                    lemma_handle_unique(self@, *to, t as int, t as int);
                    lemma_handle_canonical(self@, *from, f as int);
                    lemma_handle_canonical(self@, *to, t as int);
                }
                self.link(f, t, weight);
            },
            _ => {},
        }
    }

    /// Sets the weight of the edge between the nodes registered at the two
    /// indices, as `add_edge` does for the nodes themselves.
    pub fn add_edge_by_index(&mut self, from: usize, to: usize, weight: u32) -> (done: Result<
        (),
        GraphError,
    >)
        requires
            old(self).wf(),
        ensures
            final(self).wf(),
            done is Ok <==> from < old(self)@.nodes.len() && to < old(self)@.nodes.len(),
            done is Err ==> done == Err::<(), GraphError>(GraphError::NoSuchNode) && final(self)@
                == old(self)@,
            done is Ok ==> final(self)@ == old(self)@.with_edge_between(
                old(self)@.nodes[from as int],
                old(self)@.nodes[to as int],
                weight,
            ),
    {
        if from >= self.nodes.len() || to >= self.nodes.len() {
            return Err(GraphError::NoSuchNode);
        }
        let from_node = self.nodes[from];
        let to_node = self.nodes[to];
        assert(self@.nodes[from as int].same_place(from_node));
        assert(self@.nodes[to as int].same_place(to_node));
        self.add_edge(&from_node, &to_node, weight);
        Ok(())
    }
}

/// A registered node has a handle.
pub proof fn lemma_registered_has_handle(g: GraphModel, node: Node)
    requires
        g.registered(node),
    ensures
        g.is_handle(g.handle(node), node),
{
    let i = choose|i: int| 0 <= i < g.nodes.len() && #[trigger] g.nodes[i].same_place(node);
    let first = lemma_first_at_place(g, node, i);
    lemma_handle_unique(g, node, first, first);
}

/// The first index registered where `node` lies, given one such index.
proof fn lemma_first_at_place(g: GraphModel, node: Node, i: int) -> (first: int)
    requires
        0 <= i < g.nodes.len(),
        g.nodes[i].same_place(node),
    ensures
        g.is_handle(first, node),
    decreases i,
{
    if exists|j: int| 0 <= j < i && #[trigger] g.nodes[j].same_place(node) {
        let j = choose|j: int| 0 <= j < i && #[trigger] g.nodes[j].same_place(node);
        lemma_first_at_place(g, node, j)
    } else {
        i
    }
}

/// Setting the edge between two registered nodes twice leaves exactly one
/// edge between them, with the weight that was given last; the graph is the
/// one that the second setting alone would have given.
pub proof fn lemma_edge_set_twice(g: GraphModel, from: Node, to: Node, first: u32, second: u32)
    requires
        g.wf(),
        g.registered(from),
        g.registered(to),
    ensures
        ({
            let twice = g.with_edge_between(from, to, first).with_edge_between(from, to, second);
            let source = g.handle(from);
            let target = g.handle(to);
            &&& twice.wf()
            &&& twice == g.with_edge_between(from, to, second)
            &&& twice.linked(source, target)
            &&& forall|k: int, l: int|
                twice.is_slot(source, target, k) && twice.is_slot(source, target, l) ==> k == l
            &&& twice.links[source][twice.slot(source, target)].weight == second
        }),
{
    let source = g.handle(from);
    let target = g.handle(to);
    lemma_registered_has_handle(g, from);
    lemma_registered_has_handle(g, to);
    lemma_handle_canonical(g, from, source);
    lemma_handle_canonical(g, to, target);
    let once = g.with_edge(source, target, first);
    lemma_with_edge_wf(g, source, target, first);
    assert(once.nodes == g.nodes);
    assert(once.registered(from)) by {
        assert(once.nodes[source].same_place(from));
    }
    assert(once.registered(to)) by {
        assert(once.nodes[target].same_place(to));
    }
    assert(once.is_handle(source, from));
    assert(once.is_handle(target, to));
    lemma_handle_unique(once, from, source, source);
    lemma_handle_unique(once, to, target, target);
    assert(once.canonical(source) && once.canonical(target));
    let twice = once.with_edge(source, target, second);
    lemma_with_edge_wf(once, source, target, second);
    let edge = Edge { weight: second, from: source as usize, to: target as usize };
    let at = if g.linked(source, target) {
        g.slot(source, target)
    } else {
        g.links[source].len() as int
    };
    if g.linked(source, target) {
        assert(g.is_slot(source, target, at));
    }
    assert(once.is_slot(source, target, at));
    let again = once.slot(source, target);
    assert(once.is_slot(source, target, again));
    if again < at {
        assert(once.links[source][again].to != once.links[source][at].to);
    }
    if at < again {
        assert(once.links[source][at].to != once.links[source][again].to);
    }
    assert(twice.links[source] =~= once.links[source].update(at, edge));
    let direct = g.with_edge(source, target, second);
    if g.linked(source, target) {
        assert(direct.links[source] =~= g.links[source].update(at, edge));
        assert(once.links[source] =~= g.links[source].update(
            at,
            Edge { weight: first, from: source as usize, to: target as usize },
        ));
    } else {
        assert(direct.links[source] =~= g.links[source].push(edge));
        assert(once.links[source] =~= g.links[source].push(
            Edge { weight: first, from: source as usize, to: target as usize },
        ));
    }
    assert(twice.links[source] =~= direct.links[source]);
    assert(twice.links =~= direct.links);
    assert(twice.is_slot(source, target, at));
    assert forall|k: int, l: int|
        twice.is_slot(source, target, k) && twice.is_slot(source, target, l) implies k == l by {
        if k < l {
            assert(twice.links[source][k].to != twice.links[source][l].to);
        }
        if l < k {
            assert(twice.links[source][l].to != twice.links[source][k].to);
        }
    }
    let found = twice.slot(source, target);
    assert(twice.is_slot(source, target, found));
}

/// The handle of a node is the handle of the node registered there.
pub proof fn lemma_handle_canonical(g: GraphModel, node: Node, i: int)
    requires
        g.is_handle(i, node),
    ensures
        g.canonical(i),
{
    assert forall|j: int| 0 <= j < i implies !(#[trigger] g.nodes[j]).same_place(g.nodes[i]) by {
        assert(!g.nodes[j].same_place(node));
    }
}

/// Setting an edge between two handles keeps the invariant.
pub proof fn lemma_with_edge_wf(g: GraphModel, from: int, to: int, weight: u32)
    requires
        g.wf(),
        g.canonical(from),
        g.canonical(to),
    ensures
        g.with_edge(from, to, weight).wf(),
{
    let h = g.with_edge(from, to, weight);
    let edge = Edge { weight, from: from as usize, to: to as usize };
    assert(h.nodes == g.nodes);
    assert forall|i: int| g.canonical(i) implies h.canonical(i) by {}
    if g.linked(from, to) {
        let s = g.slot(from, to);
        assert(g.is_slot(from, to, s));
        assert(h.links[from] == g.links[from].update(s, edge));
        assert forall|i: int, k: int|
            0 <= i < h.links.len() && 0 <= k < h.links[i].len() implies {
            &&& (#[trigger] h.links[i][k]).from == i
            &&& h.canonical(i)
            &&& h.canonical(h.links[i][k].to as int)
        } by {
            if i == from && k == s {
            } else {
                assert(h.links[i][k] == g.links[i][k]);
            }
        }
        assert forall|i: int, k: int, l: int|
            0 <= i < h.links.len() && 0 <= k < l < h.links[i].len() implies (
        #[trigger] h.links[i][k]).to != (#[trigger] h.links[i][l]).to by {
            assert(h.links[i][k].to == g.links[i][k].to);
            assert(h.links[i][l].to == g.links[i][l].to);
        }
    } else {
        assert(h.links[from] == g.links[from].push(edge));
        assert forall|i: int, k: int|
            0 <= i < h.links.len() && 0 <= k < h.links[i].len() implies {
            &&& (#[trigger] h.links[i][k]).from == i
            &&& h.canonical(i)
            &&& h.canonical(h.links[i][k].to as int)
        } by {
            if i == from && k == g.links[from].len() {
            } else {
                assert(h.links[i][k] == g.links[i][k]);
            }
        }
        assert forall|i: int, k: int, l: int|
            0 <= i < h.links.len() && 0 <= k < l < h.links[i].len() implies (
        #[trigger] h.links[i][k]).to != (#[trigger] h.links[i][l]).to by {
            if i == from && l == g.links[from].len() {
                assert(h.links[i][k] == g.links[i][k]);
                assert(!g.is_slot(from, to, k));
            } else {
                assert(h.links[i][k] == g.links[i][k]);
                assert(h.links[i][l] == g.links[i][l]);
            }
        }
    }
}

} // verus!
