//! The graph: its nodes, their neighbour lists per layer, and the entry point.
use vstd::prelude::*;

verus! {

/// A node of the graph: its identifier and one neighbour list per layer it lives on.
#[derive(Clone, Debug)]
pub struct Node {
    pub id: usize,
    pub neighbors: Vec<Vec<usize>>,
}

impl Node {
    /// The node's identifier (its position in the index).
    pub open spec fn node_id(&self) -> usize {
        self.id
    }

    /// The number of layers the node lives on.
    pub open spec fn layer_count(&self) -> nat {
        self.neighbors@.len()
    }

    /// The neighbour list of the node on layer `l`.
    pub open spec fn layer_links(&self, l: int) -> Seq<usize> {
        self.neighbors@[l]@
    }
}

/// The graph of the index: its nodes, the entry point and the construction parameters.
pub struct Index {
    pub dim: usize,
    pub nodes: Vec<Option<Node>>,
    pub start_point: Option<usize>,
    pub max_height: u32,
    pub m: usize,
    pub ef_construction: usize,
}

impl Index {
    /// Number of nodes in the index.
    pub open spec fn node_count(&self) -> nat {
        self.nodes@.len()
    }

    /// The node at position `i`.
    pub open spec fn node(&self, i: int) -> Node {
        self.nodes@[i].unwrap()
    }

    /// Number of layers node `i` lives on.
    pub open spec fn levels(&self, i: int) -> nat {
        self.node(i).layer_count()
    }

    /// Neighbour list of node `i` on layer `l`.
    pub open spec fn links(&self, i: int, l: int) -> Seq<usize> {
        self.node(i).layer_links(l)
    }

    /// The entry point of every search.
    pub open spec fn entry(&self) -> Option<usize> {
        self.start_point
    }

    /// The highest layer of the graph.
    pub open spec fn top_layer(&self) -> u32 {
        self.max_height
    }

    /// Maximum number of neighbours chosen for a node on a layer.
    pub open spec fn spec_m(&self) -> usize {
        self.m
    }

    /// Search breadth used while inserting.
    pub open spec fn spec_ef_construction(&self) -> usize {
        self.ef_construction
    }

    /// Dimension of the vectors the index is built for.
    pub open spec fn spec_dim(&self) -> usize {
        self.dim
    }

    /// How many neighbours a node may keep on layer `l`: twice `m` on the bottom layer.
    pub open spec fn capacity(&self, l: int) -> int {
        if l == 0 {
            2 * self.m
        } else {
            self.m as int
        }
    }

    /// Every edge leads to a node that exists and lives on the edge's layer.
    pub open spec fn edges_valid(&self) -> bool {
        forall|i: int, l: int, j: int|
            0 <= i < self.node_count() && 0 <= l < self.levels(i) && 0 <= j < self.links(i, l).len()
                ==> {
                let t = #[trigger] self.links(i, l)[j];
                &&& t < self.node_count()
                &&& l < self.levels(t as int)
            }
    }

    /// Every position holds a node and every edge is valid.
    pub open spec fn graph_ok(&self) -> bool {
        &&& forall|i: int| 0 <= i < self.node_count() ==> (#[trigger] self.nodes@[i]) is Some
        &&& self.edges_valid()
    }

    /// The structural invariant of the index.
    pub open spec fn well_formed(&self) -> bool {
        &&& self.graph_ok()
        &&& forall|i: int|
            0 <= i < self.node_count() ==> (#[trigger] self.node(i)).id == i && 1
                <= self.node(i).layer_count() <= self.max_height + 1
        &&& self.edges_valid()
        &&& match self.start_point {
            None => self.node_count() == 0 && self.max_height == 0,
            Some(s) => s < self.node_count() && self.levels(s as int) == self.max_height + 1,
        }
    }

    /// Once the index holds two nodes, every node has a neighbour on the bottom layer.
    pub open spec fn bottom_linked(&self) -> bool {
        self.node_count() >= 2 ==> forall|i: int| 0 <= i < self.node_count() ==> #[trigger] self.links(i, 0).len() >= 1
    }

    /// No node is its own neighbour.
    pub open spec fn no_self_loops(&self) -> bool {
        forall|i: int, l: int, j: int|
            0 <= i < self.node_count() && 0 <= l < self.levels(i) && 0 <= j < self.links(i, l).len()
                ==> #[trigger] self.links(i, l)[j] != i
    }

    /// No neighbour list names a node twice.
    pub open spec fn no_duplicate_links(&self) -> bool {
        forall|i: int, l: int, a: int, b: int|
            0 <= i < self.node_count() && 0 <= l < self.levels(i) && 0 <= a < b < self.links(
                i,
                l,
            ).len() ==> #[trigger] self.links(i, l)[a] != #[trigger] self.links(i, l)[b]
    }

    /// Every neighbour list respects its layer's capacity.
    pub open spec fn degree_bounded(&self) -> bool {
        forall|i: int, l: int|
            0 <= i < self.node_count() && 0 <= l < self.levels(i) ==> (#[trigger] self.links(
                i,
                l,
            )).len() <= self.capacity(l)
    }

    /// An empty index for vectors of dimension `dim`, keeping `m` neighbours per node and
    /// layer and searching `ef_construction` candidates while inserting.
    pub fn new(m: usize, ef_construction: usize, dim: usize) -> (res: Self)
        ensures
            res.node_count() == 0,
            res.entry() is None,
            res.top_layer() == 0,
            res.spec_m() == m,
            res.spec_ef_construction() == ef_construction,
            res.spec_dim() == dim,
            res.well_formed(),
            res.no_self_loops(),
            res.no_duplicate_links(),
            res.degree_bounded(),
    {
        Index { dim, nodes: Vec::new(), start_point: None, max_height: 0, m, ef_construction }
    }

    /// Number of nodes in the index.
    pub fn len(&self) -> (r: usize)
        ensures
            r == self.node_count(),
    {
        self.nodes.len()
    }

    /// The entry point of every search, if the index holds a node.
    pub fn start_point(&self) -> (r: Option<usize>)
        ensures
            r == self.entry(),
    {
        self.start_point
    }

    /// The highest layer of the graph.
    pub fn max_height(&self) -> (r: u32)
        ensures
            r == self.top_layer(),
    {
        self.max_height
    }

    /// Maximum number of neighbours chosen for a node on a layer.
    pub fn m(&self) -> (r: usize)
        ensures
            r == self.spec_m(),
    {
        self.m
    }

    /// Search breadth used while inserting.
    pub fn ef_construction(&self) -> (r: usize)
        ensures
            r == self.spec_ef_construction(),
    {
        self.ef_construction
    }

    /// Dimension of the vectors the index is built for.
    pub fn dim(&self) -> (r: usize)
        ensures
            r == self.spec_dim(),
    {
        self.dim
    }

    /// Number of layers node `node` lives on.
    pub fn layer_count(&self, node: usize) -> (r: usize)
        requires
            self.well_formed(),
            node < self.node_count(),
        ensures
            r == self.levels(node as int),
    {
        self.nodes[node].as_ref().unwrap().neighbors.len()
    }

    /// A copy of the neighbour list of node `node` on layer `layer`.
    pub fn neighbors(&self, node: usize, layer: usize) -> (r: Vec<usize>)
        requires
            self.well_formed(),
            node < self.node_count(),
            layer < self.levels(node as int),
        ensures
            r@ == self.links(node as int, layer as int),
    {
        let list = &self.nodes[node].as_ref().unwrap().neighbors[layer];
        let mut r: Vec<usize> = Vec::new();
        let mut i: usize = 0;
        while i < list.len()
            invariant
                i <= list@.len(),
                r@ == list@.take(i as int),
            decreases list@.len() - i,
        {
            r.push(list[i]);
            i = i + 1;
            assert(r@ =~= list@.take(i as int));
        }
        assert(list@.take(list@.len() as int) =~= list@);
        r
    }
}

} // verus!
