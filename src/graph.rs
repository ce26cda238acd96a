use vstd::prelude::*;
use crate::matrix::{
    lemma_side_of_square, cells_without, densified, filled, grid_i32, grid_u8, is_rect, set_cell, sparse_cells, I32Matrix,
    SparseI32Matrix, U8Matrix,
};
use crate::triples::{render_triple, Triple, TripleModel};

verus! {

/// The values of a sequence of triples.
pub open spec fn triple_views(ts: Seq<Triple>) -> Seq<TripleModel> {
    ts.map_values(|t: Triple| t@)
}

/// The values of a sequence of label triples.
pub open spec fn label_views(ts: Seq<(&str, &str, &str)>) -> Seq<TripleModel> {
    ts.map_values(|t: (&str, &str, &str)| (t.0@, t.1@, t.2@))
}

/// The label sequence that a registry of strings holds.
pub open spec fn labels(v: Seq<String>) -> Seq<Seq<char>> {
    v.map_values(|s: String| s@)
}

/// `reg` with `label` appended, unless it is already there.
pub open spec fn register(reg: Seq<Seq<char>>, label: Seq<char>) -> Seq<Seq<char>> {
    if reg.contains(label) {
        reg
    } else {
        reg.push(label)
    }
}

/// The node registry after the triples `ts`, added in order: each subject,
/// then each object, in the order of its first mention.
pub open spec fn nodes_of(ts: Seq<TripleModel>) -> Seq<Seq<char>>
    decreases ts.len(),
{
    if ts.len() == 0 {
        Seq::empty()
    } else {
        let t = ts.last();
        register(register(nodes_of(ts.drop_last()), t.0), t.2)
    }
}

/// The edge registry after the triples `ts`: every relation, in order,
/// kept once each only when the graph is directed.
pub open spec fn edges_of(ts: Seq<TripleModel>, directed: bool) -> Seq<Seq<char>>
    decreases ts.len(),
{
    if ts.len() == 0 {
        Seq::empty()
    } else {
        let prev = edges_of(ts.drop_last(), directed);
        if directed {
            register(prev, ts.last().1)
        } else {
            prev.push(ts.last().1)
        }
    }
}

/// The first index at which `label` stands in `reg`, or -1 when it is absent.
#[verifier::opaque]
pub open spec fn position(reg: Seq<Seq<char>>, label: Seq<char>) -> int {
    if reg.contains(label) {
        choose|i: int|
            0 <= i < reg.len() && reg[i] == label && forall|j: int| 0 <= j < i ==> reg[j] != label
    } else {
        -1
    }
}

/// Some triple of `ts` has `label` as its subject or its object.
pub open spec fn mentions_node(ts: Seq<TripleModel>, label: Seq<char>) -> bool {
    exists|k: int| 0 <= k < ts.len() && (ts[k].0 == label || ts[k].2 == label)
}

/// Some triple of `ts` has `label` as its relation.
pub open spec fn mentions_relation(ts: Seq<TripleModel>, label: Seq<char>) -> bool {
    exists|k: int| 0 <= k < ts.len() && ts[k].1 == label
}

/// The distinct subject and object labels of `ts`.
pub open spec fn node_labels(ts: Seq<TripleModel>) -> Set<Seq<char>> {
    Set::new(|l: Seq<char>| mentions_node(ts, l))
}

/// The distinct relation labels of `ts`.
pub open spec fn relation_labels(ts: Seq<TripleModel>) -> Set<Seq<char>> {
    Set::new(|l: Seq<char>| mentions_relation(ts, l))
}

/// What a graph is: its triples in insertion order, and whether each relation
/// label is kept once (directed) or once per triple (undirected).
pub struct GraphView {
    pub triples: Seq<TripleModel>,
    pub directed: bool,
}

impl GraphView {
    /// The node labels, in the order of their first mention.
    pub open spec fn nodes(self) -> Seq<Seq<char>> {
        nodes_of(self.triples)
    }

    /// The edge labels that the graph's mode keeps, in order.
    pub open spec fn edges(self) -> Seq<Seq<char>> {
        edges_of(self.triples, self.directed)
    }

    /// The index of a node label, or -1 when it is no node.
    pub open spec fn node_idx(self, label: Seq<char>) -> int {
        position(self.nodes(), label)
    }

    /// The index of the first edge entry with a label, or -1.
    pub open spec fn edge_idx(self, label: Seq<char>) -> int {
        position(self.edges(), label)
    }

    /// One of the first `k` triples leads from node `i` to node `j`.
    pub open spec fn linked_before(self, k: int, i: int, j: int) -> bool {
        exists|m: int|
            0 <= m < k && #[trigger] self.node_idx(self.triples[m].0) == i && self.node_idx(
                self.triples[m].2,
            ) == j
    }

    /// Some triple leads from node `i` to node `j`.
    pub open spec fn linked(self, i: int, j: int) -> bool {
        self.linked_before(self.triples.len() as int, i, j)
    }

    /// The adjacency grid of the first `k` triples.
    #[verifier::opaque]
    pub open spec fn adjacency_before(self, k: int) -> Seq<Seq<u8>> {
        let n = self.nodes().len();
        Seq::new(n, |i: int| Seq::new(n, |j: int| if self.linked_before(k, i, j) { 1u8 } else { 0u8 }))
    }

    /// The `n_nodes x n_nodes` grid with a one where some triple leads from
    /// the row's node to the column's node, and zeros elsewhere.
    pub open spec fn adjacency(self) -> Seq<Seq<u8>> {
        self.adjacency_before(self.triples.len() as int)
    }

    /// The relation index that the last of the first `k` triples from node
    /// `i` to node `j` carries, if there is one.
    pub open spec fn last_relation(self, k: int, i: int, j: int) -> Option<int>
        decreases k,
    {
        if k <= 0 {
            None
        } else {
            let t = self.triples[k - 1];
            if self.node_idx(t.0) == i && self.node_idx(t.2) == j {
                Some(self.edge_idx(t.1))
            } else {
                self.last_relation(k - 1, i, j)
            }
        }
    }

    /// The `n_edges x n_edges` grid of the first `k` triples: each cell
    /// indexed by a subject and an object holds the relation index of the
    /// last triple between them, every other cell -1.
    #[verifier::opaque]
    pub open spec fn relation_grid_before(self, k: int) -> Seq<Seq<i32>> {
        let n = self.edges().len();
        Seq::new(
            n,
            |i: int|
                Seq::new(
                    n,
                    |j: int|
                        match self.last_relation(k, i, j) {
                            Some(r) => r as i32,
                            None => -1i32,
                        },
                ),
        )
    }

    /// The `n_edges x n_edges` relation cells of all the triples: at each
    /// subject and object pair that some triple joins, the relation index of
    /// the last such triple; no value elsewhere.
    pub open spec fn relation_cells(self) -> Seq<Seq<Option<i32>>> {
        let n = self.edges().len();
        Seq::new(
            n,
            |i: int|
                Seq::new(
                    n,
                    |j: int|
                        match self.last_relation(self.triples.len() as int, i, j) {
                            Some(r) => Some(r as i32),
                            None => None,
                        },
                ),
        )
    }

    /// The dense relation grid of all the triples: the relation cells, with
    /// zero where there is no value.
    pub open spec fn relations(self) -> Seq<Seq<i32>> {
        densified(self.relation_cells())
    }
}

/// Registering a label keeps what was there, in place, and adds the label.
pub proof fn lemma_register(reg: Seq<Seq<char>>, label: Seq<char>)
    ensures
        register(reg, label).contains(label),
        register(reg, label).len() >= reg.len(),
        forall|i: int| 0 <= i < reg.len() ==> register(reg, label)[i] == reg[i],
        register(reg, label).to_set() == reg.to_set().insert(label),
        reg.no_duplicates() ==> register(reg, label).no_duplicates(),
{
    if reg.contains(label) {
        assert(reg.to_set() =~= reg.to_set().insert(label));
    } else {
        let r = reg.push(label);
        assert(r[reg.len() as int] == label);
        assert(r.to_set() =~= reg.to_set().insert(label)) by {
            assert forall|x: Seq<char>| r.to_set().contains(x) implies reg.to_set().insert(label).contains(x) by {
                let i = choose|i: int| 0 <= i < r.len() && r[i] == x;
                if i < reg.len() {
                    assert(reg[i] == x);
                }
            }
            assert forall|x: Seq<char>| reg.to_set().insert(label).contains(x) implies r.to_set().contains(x) by {
                if x != label {
                    let i = choose|i: int| 0 <= i < reg.len() && reg[i] == x;
                    assert(r[i] == x);
                }
            }
        }
    }
}

/// Where `i` is the first index of `label`, it is the position of `label`.
pub proof fn lemma_position_first(reg: Seq<Seq<char>>, label: Seq<char>, i: int)
    requires
        0 <= i < reg.len(),
        reg[i] == label,
        forall|j: int| 0 <= j < i ==> reg[j] != label,
    ensures
        position(reg, label) == i,
{
    reveal(position);
    assert(reg.contains(label));
    let p = position(reg, label);
    assert(0 <= p < reg.len() && reg[p] == label && forall|j: int| 0 <= j < p ==> reg[j] != label);
    if p < i {
        assert(reg[p] != label);
    }
    if i < p {
        assert(reg[i] != label);
    }
}

/// A label that `reg` holds stands at its position, and nowhere before it.
pub proof fn lemma_position_in(reg: Seq<Seq<char>>, label: Seq<char>)
    requires
        reg.contains(label),
    ensures
        0 <= position(reg, label) < reg.len(),
        reg[position(reg, label)] == label,
        forall|j: int| 0 <= j < position(reg, label) ==> reg[j] != label,
    decreases reg.len(),
{
    let prev = reg.drop_last();
    if prev.contains(label) {
        lemma_position_in(prev, label);
        let p = position(prev, label);
        assert forall|j: int| 0 <= j < p implies reg[j] != label by {
            assert(prev[j] == reg[j]);
        }
        assert(reg[p] == prev[p]);
        lemma_position_first(reg, label, p);
    } else {
        let i = reg.len() - 1;
        assert forall|j: int| 0 <= j < i implies reg[j] != label by {
            assert(prev[j] == reg[j]);
        }
        lemma_position_first(reg, label, i);
    }
}

/// A label that `reg` does not hold has no position.
pub proof fn lemma_position_absent(reg: Seq<Seq<char>>, label: Seq<char>)
    requires
        !reg.contains(label),
    ensures
        position(reg, label) == -1,
{
    reveal(position);
}

/// In a registry without repeats, each label stands at its position.
pub proof fn lemma_position_unique(reg: Seq<Seq<char>>, i: int)
    requires
        reg.no_duplicates(),
        0 <= i < reg.len(),
    ensures
        position(reg, reg[i]) == i,
{
    lemma_position_first(reg, reg[i], i);
}

/// The node registry holds each subject and object once, and nothing else.
pub proof fn lemma_nodes_of(ts: Seq<TripleModel>)
    ensures
        nodes_of(ts).no_duplicates(),
        nodes_of(ts).to_set() == node_labels(ts),
        forall|k: int| 0 <= k < ts.len() ==> nodes_of(ts).contains(#[trigger] ts[k].0) && nodes_of(ts).contains(ts[k].2),
    decreases ts.len(),
{
    if ts.len() == 0 {
        assert(nodes_of(ts).to_set() =~= node_labels(ts));
    } else {
        let prev = ts.drop_last();
        let t = ts.last();
        lemma_nodes_of(prev);
        let a = register(nodes_of(prev), t.0);
        lemma_register(nodes_of(prev), t.0);
        lemma_register(a, t.2);
        assert(node_labels(ts) =~= node_labels(prev).insert(t.0).insert(t.2)) by {
            assert forall|l: Seq<char>| node_labels(ts).contains(l) implies node_labels(prev).insert(t.0).insert(t.2).contains(l) by {
                let k = choose|k: int| 0 <= k < ts.len() && (ts[k].0 == l || ts[k].2 == l);
                if k < prev.len() {
                    assert(prev[k] == ts[k]);
                }
            }
            assert forall|l: Seq<char>| node_labels(prev).contains(l) implies node_labels(ts).contains(l) by {
                let k = choose|k: int| 0 <= k < prev.len() && (prev[k].0 == l || prev[k].2 == l);
                assert(prev[k] == ts[k]);
            }
            assert(ts[ts.len() - 1] == t);
        }
        let b = register(a, t.2);
        assert(nodes_of(ts) == b);
        assert forall|x: Seq<char>| nodes_of(prev).contains(x) implies b.contains(x) by {
            let p = choose|p: int| 0 <= p < nodes_of(prev).len() && nodes_of(prev)[p] == x;
            assert(a[p] == x);
            assert(b[p] == x);
        }
        assert(b.contains(t.0)) by {
            let p = choose|p: int| 0 <= p < a.len() && a[p] == t.0;
            assert(b[p] == t.0);
        }
        assert forall|k: int| 0 <= k < ts.len() implies nodes_of(ts).contains(#[trigger] ts[k].0) && nodes_of(ts).contains(ts[k].2) by {
            if k < prev.len() {
                assert(prev[k] == ts[k]);
                assert(nodes_of(prev).contains(prev[k].0));
                assert(nodes_of(prev).contains(prev[k].2));
            } else {
                assert(ts[k] == t);
            }
        }
    }
}

/// The edge registry holds each triple's relation; undirected it has one
/// entry per triple, directed each relation once and nothing else.
pub proof fn lemma_edges_of(ts: Seq<TripleModel>, directed: bool)
    ensures
        forall|k: int| 0 <= k < ts.len() ==> edges_of(ts, directed).contains(#[trigger] ts[k].1),
        !directed ==> edges_of(ts, directed).len() == ts.len(),
        directed ==> edges_of(ts, directed).no_duplicates(),
        directed ==> edges_of(ts, directed).to_set() == relation_labels(ts),
    decreases ts.len(),
{
    if ts.len() == 0 {
        assert(edges_of(ts, directed).to_set() =~= relation_labels(ts));
    } else {
        let prev = ts.drop_last();
        let t = ts.last();
        lemma_edges_of(prev, directed);
        let e = edges_of(prev, directed);
        lemma_register(e, t.1);
        assert(ts[ts.len() - 1] == t);
        assert forall|k: int| 0 <= k < ts.len() implies edges_of(ts, directed).contains(#[trigger] ts[k].1) by {
            if k < prev.len() {
                assert(prev[k] == ts[k]);
                assert(e.contains(prev[k].1));
                let i = choose|i: int| 0 <= i < e.len() && e[i] == prev[k].1;
                assert(edges_of(ts, directed)[i] == e[i]);
            } else if !directed {
                assert(edges_of(ts, directed)[e.len() as int] == t.1);
            }
        }
        if directed {
            assert(relation_labels(ts) =~= relation_labels(prev).insert(t.1)) by {
                assert forall|l: Seq<char>| relation_labels(ts).contains(l) implies relation_labels(prev).insert(t.1).contains(l) by {
                    let k = choose|k: int| 0 <= k < ts.len() && ts[k].1 == l;
                    if k < prev.len() {
                        assert(prev[k] == ts[k]);
                    }
                }
                assert forall|l: Seq<char>| relation_labels(prev).contains(l) implies relation_labels(ts).contains(l) by {
                    let k = choose|k: int| 0 <= k < prev.len() && prev[k].1 == l;
                    assert(prev[k] == ts[k]);
                }
            }
        }
    }
}

/// Later triples only append to the node registry: what it held stays in place.
pub proof fn lemma_nodes_prefix(ts: Seq<TripleModel>, more: Seq<TripleModel>)
    ensures
        nodes_of(ts).len() <= nodes_of(ts + more).len(),
        forall|i: int| 0 <= i < nodes_of(ts).len() ==> nodes_of(ts + more)[i] == nodes_of(ts)[i],
    decreases more.len(),
{
    if more.len() > 0 {
        let all = ts + more;
        lemma_nodes_prefix(ts, more.drop_last());
        assert(all.drop_last() =~= ts + more.drop_last());
        let t = all.last();
        let p = nodes_of(all.drop_last());
        lemma_register(p, t.0);
        lemma_register(register(p, t.0), t.2);
    } else {
        assert(ts + more =~= ts);
    }
}

/// The index of the first entry of `reg` equal to `label`.
fn find(reg: &Vec<String>, label: &String) -> (r: Option<usize>)
    ensures
        match r {
            Some(i) => i < reg@.len() && labels(reg@)[i as int] == label@ && position(labels(reg@), label@)
                == i,
            None => !labels(reg@).contains(label@) && position(labels(reg@), label@) == -1,
        },
{
    let mut i: usize = 0;
    while i < reg.len()
        invariant
            i <= reg@.len(),
            forall|j: int| 0 <= j < i ==> labels(reg@)[j] != label@,
        decreases reg@.len() - i,
    {
        if reg[i].eq(label) {
            proof {
                lemma_position_first(labels(reg@), label@, i as int);
            }
            return Some(i);
        }
        i += 1;
    }
    proof {
        lemma_position_absent(labels(reg@), label@);
    }
    None
}

/// A knowledge graph: the triples added so far, the registry of node labels
/// and the registry of edge labels.
#[derive(Clone, Debug, PartialEq, Eq, Hash)]
pub struct Graph {
    triples: Vec<Triple>,
    nodes: Vec<String>,
    edges: Vec<String>,
    directed: bool,
}

impl View for Graph {
    type V = GraphView;

    closed spec fn view(&self) -> GraphView {
        GraphView { triples: self.triples@.map_values(|t: Triple| t@), directed: self.directed }
    }
}

impl Graph {
    /// The registries are those that the triples, added in order, give.
    pub closed spec fn wf(&self) -> bool {
        &&& labels(self.nodes@) == self@.nodes()
        &&& labels(self.edges@) == self@.edges()
    }

    /// Create a new empty, undirected graph.
    pub fn new() -> (g: Graph)
        ensures
            g.wf(),
            g@.triples == Seq::<TripleModel>::empty(),
            !g@.directed,
    {
        let g = Graph { triples: Vec::new(), nodes: Vec::new(), edges: Vec::new(), directed: false };
        assert(g@.triples =~= Seq::<TripleModel>::empty());
        assert(labels(g.nodes@) =~= Seq::<Seq<char>>::empty());
        assert(labels(g.edges@) =~= Seq::<Seq<char>>::empty());
        g
    }

    /// Add a triple to the graph: its subject and object join the nodes,
    /// its relation the edges, and it is appended to the triples.
    pub fn add_triple(&mut self, triple: Triple)
        requires
            old(self).wf(),
        ensures
            final(self).wf(),
            final(self)@.triples == old(self)@.triples.push(triple@),
            final(self)@.directed == old(self)@.directed,
    {
        let ghost before = self@;
        self.add_node(triple.subject().to_owned());
        self.add_node(triple.object().to_owned());
        self.add_edge(triple.relation().to_owned());
        self.triples.push(triple);
        proof {
            assert(self@.triples =~= before.triples.push(triple@));
            assert(self@.triples.drop_last() =~= before.triples);
        }
    }

    /// Add a node label unless it is already registered.
    fn add_node(&mut self, node: String)
        ensures
            labels(final(self).nodes@) == register(labels(old(self).nodes@), node@),
            final(self).triples == old(self).triples,
            final(self).edges == old(self).edges,
            final(self).directed == old(self).directed,
    {
        match find(&self.nodes, &node) {
            Some(_) => {},
            None => {
                let ghost prev = labels(self.nodes@);
                self.nodes.push(node);
                assert(labels(self.nodes@) =~= prev.push(node@));
            },
        }
    }

    /// Add an edge label: once each if the graph is directed, else every time.
    fn add_edge(&mut self, edge: String)
        ensures
            labels(final(self).edges@) == if old(self).directed {
                register(labels(old(self).edges@), edge@)
            } else {
                labels(old(self).edges@).push(edge@)
            },
            final(self).triples == old(self).triples,
            final(self).nodes == old(self).nodes,
            final(self).directed == old(self).directed,
    {
        let ghost prev = labels(self.edges@);
        if self.directed {
            if find(&self.edges, &edge).is_none() {
                self.edges.push(edge);
                assert(labels(self.edges@) =~= prev.push(edge@));
            }
        } else {
            self.edges.push(edge);
            assert(labels(self.edges@) =~= prev.push(edge@));
        }
    }

    /// The index of a node label, if it is the subject or object of some triple.
    pub fn get_node_idx(&self, node: &str) -> (r: Option<usize>)
        requires
            self.wf(),
        ensures
            r is None <==> !mentions_node(self@.triples, node@),
            r matches Some(i) ==> i == self@.node_idx(node@) && i < self@.nodes().len()
                && self@.nodes()[i as int] == node@,
    {
        proof {
            lemma_nodes_of(self@.triples);
            assert(self@.nodes().to_set().contains(node@) <==> node_labels(self@.triples).contains(node@));
        }
        let key = node.to_owned();
        let r = find(&self.nodes, &key);
        r
    }

    /// The index of the first edge entry with a relation label, if some triple carries it.
    pub fn get_edge_idx(&self, edge: &str) -> (r: Option<usize>)
        requires
            self.wf(),
        ensures
            r is None <==> !mentions_relation(self@.triples, edge@),
            r matches Some(i) ==> i == self@.edge_idx(edge@) && i < self@.edges().len()
                && self@.edges()[i as int] == edge@,
    {
        proof {
            lemma_edges_of(self@.triples, self@.directed);
            if mentions_relation(self@.triples, edge@) {
                let k = choose|k: int| 0 <= k < self@.triples.len() && self@.triples[k].1 == edge@;
                assert(self@.edges().contains(self@.triples[k].1));
            }
            if self@.edges().contains(edge@) {
                if !self@.directed {
                    let i = choose|i: int| 0 <= i < self@.edges().len() && self@.edges()[i] == edge@;
                    lemma_undirected_edges(self@.triples, i);
                } else {
                    assert(self@.edges().to_set().contains(edge@));
                }
            }
        }
        let key = edge.to_owned();
        let r = find(&self.edges, &key);
        r
    }

    /// Whether the graph keeps each relation label once.
    pub fn is_directed(&self) -> (r: bool)
        ensures
            r == self@.directed,
    {
        self.directed
    }

    /// Whether the graph keeps one relation label per triple.
    pub fn is_undirected(&self) -> (r: bool)
        ensures
            r == !self@.directed,
    {
        !self.directed
    }

    /// The number of triples in the graph.
    pub fn len(&self) -> (r: usize)
        ensures
            r == self@.triples.len(),
    {
        self.triples.len()
    }

    /// Whether the graph holds no triple.
    pub fn is_empty(&self) -> (r: bool)
        ensures
            r == (self@.triples.len() == 0),
    {
        self.triples.is_empty()
    }

    /// The number of distinct node labels.
    pub fn n_nodes(&self) -> (r: usize)
        requires
            self.wf(),
        ensures
            r == self@.nodes().len(),
    {
        self.nodes.len()
    }

    /// The number of edge labels.
    pub fn n_edges(&self) -> (r: usize)
        requires
            self.wf(),
        ensures
            r == self@.edges().len(),
    {
        self.edges.len()
    }

    /// The number of triples in the graph.
    pub fn n_triples(&self) -> (r: usize)
        ensures
            r == self@.triples.len(),
    {
        self.triples.len()
    }

    /// The triples, in the order in which they were added.
    pub fn triples(&self) -> (r: &[Triple])
        ensures
            r@.map_values(|t: Triple| t@) == self@.triples,
    {
        self.triples.as_slice()
    }

    /// The node labels, in the order of their first mention.
    pub fn nodes(&self) -> (r: &[String])
        requires
            self.wf(),
        ensures
            labels(r@) == self@.nodes(),
    {
        self.nodes.as_slice()
    }

    /// The edge labels, in the order of the triples that brought them.
    pub fn edges(&self) -> (r: &[String])
        requires
            self.wf(),
        ensures
            labels(r@) == self@.edges(),
    {
        self.edges.as_slice()
    }

    /// The `n_nodes x n_nodes` adjacency matrix: a one at `[s, o]` where some
    /// triple has the subject of index `s` and the object of index `o`.
    pub fn adj_matrix(&self) -> (m: U8Matrix)
        requires
            self.wf(),
            self@.nodes().len() * self@.nodes().len() <= isize::MAX,
        ensures
            grid_u8(m) == self@.adjacency(),
    {
        let ghost v = self@;
        let n = self.n_nodes();
        proof {
            lemma_side_of_square(n as int, isize::MAX as int);
        }
        let mut matrix = U8Matrix::zeros(n, n);
        proof {
            lemma_grids_start(v);
        }
        let mut k: usize = 0;
        while k < self.triples.len()
            invariant
                self.wf(),
                v == self@,
                n == v.nodes().len(),
                k <= v.triples.len(),
                grid_u8(matrix) == v.adjacency_before(k as int),
                grid_u8(matrix).len() == n,
                is_rect(grid_u8(matrix), n as nat),
            decreases v.triples.len() - k,
        {
            let triple = &self.triples[k];
            assert(triple@ == v.triples[k as int]);
            assert(mentions_node(v.triples, triple@.0));
            assert(mentions_node(v.triples, triple@.2));
            let s = self.get_node_idx(triple.subject()).unwrap();
            let o = self.get_node_idx(triple.object()).unwrap();
            matrix.set(s, o, 1);
            proof {
                lemma_adjacency_step(v, k as int);
                lemma_adjacency_step_shape(v, k as int);
            }
            k += 1;
        }
        matrix
    }

    /// The sparse `n_edges x n_edges` relation matrix: at `[s, o]` it stores
    /// the index of the relation of the last triple from the node of index
    /// `s` to the node of index `o`, relation 0 included; a cell that no
    /// triple wrote holds nothing, which the dense grid it is made from marks
    /// with -1. Rows and columns are counted by edges but indexed by nodes,
    /// so there must be no more nodes than edges.
    pub fn edge_features(&self) -> (m: SparseI32Matrix)
        requires
            self.wf(),
            self@.nodes().len() <= self@.edges().len(),
            self@.edges().len() * self@.edges().len() <= isize::MAX,
            self@.edges().len() <= i32::MAX,
        ensures
            sparse_cells(m) == self@.relation_cells(),
            densified(sparse_cells(m)) == self@.relations(),
    {
        let ghost v = self@;
        let n = self.n_edges();
        proof {
            lemma_side_of_square(n as int, isize::MAX as int);
        }
        let mut matrix = I32Matrix::from_elem(n, n, -1);
        proof {
            lemma_grids_start(v);
        }
        let mut k: usize = 0;
        while k < self.triples.len()
            invariant
                self.wf(),
                v == self@,
                n == v.edges().len(),
                v.nodes().len() <= n,
                n <= i32::MAX,
                k <= v.triples.len(),
                grid_i32(matrix) == v.relation_grid_before(k as int),
                grid_i32(matrix).len() == n,
                is_rect(grid_i32(matrix), n as nat),
                n * n <= isize::MAX,
            decreases v.triples.len() - k,
        {
            let triple = &self.triples[k];
            assert(triple@ == v.triples[k as int]);
            assert(mentions_node(v.triples, triple@.0));
            assert(mentions_node(v.triples, triple@.2));
            assert(mentions_relation(v.triples, triple@.1));
            let s = self.get_node_idx(triple.subject()).unwrap();
            let o = self.get_node_idx(triple.object()).unwrap();
            let r = self.get_edge_idx(triple.relation()).unwrap();
            matrix.set(s, o, r as i32);
            proof {
                lemma_relations_step(v, k as int);
                lemma_relations_step_shape(v, k as int);
            }
            k += 1;
        }
        proof {
            lemma_relation_cells(v);
        }
        matrix.compress(-1)
    }

    /// A graph built from `triples`, each added in order as by `add_triple`.
    pub fn from_triples(triples: Vec<Triple>) -> (g: Graph)
        ensures
            g.wf(),
            g@.triples == triple_views(triples@),
            !g@.directed,
    {
        let ghost all = triple_views(triples@);
        let mut rest = triples;
        let mut graph = Graph::new();
        while rest.len() > 0
            invariant
                graph.wf(),
                !graph@.directed,
                graph@.triples.len() + rest@.len() == all.len(),
                graph@.triples == all.take(graph@.triples.len() as int),
                triple_views(rest@) == all.skip(graph@.triples.len() as int),
            decreases rest@.len(),
        {
            let ghost done = graph@.triples.len() as int;
            let ghost before = rest@;
            let triple = rest.remove(0);
            assert(triple@ == all[done]) by {
                assert(triple_views(before)[0] == all.skip(done)[0]);
            }
            graph.add_triple(triple);
            assert(graph@.triples =~= all.take(done + 1));
            assert(triple_views(rest@) =~= all.skip(done + 1)) by {
                assert forall|j: int| 0 <= j < rest@.len() implies #[trigger] triple_views(rest@)[j]
                    == all.skip(done + 1)[j] by {
                    assert(rest@[j] == before[j + 1]);
                    assert(triple_views(before)[j + 1] == all.skip(done)[j + 1]);
                }
            }
        }
        assert(all.take(all.len() as int) =~= all);
        graph
    }

    /// A graph built from `(subject, relation, object)` labels, each added
    /// in order as by `add_triple`.
    pub fn from_labels(triples: &[(&str, &str, &str)]) -> (g: Graph)
        ensures
            g.wf(),
            g@.triples == label_views(triples@),
            !g@.directed,
    {
        let ghost all = label_views(triples@);
        let mut graph = Graph::new();
        let mut i: usize = 0;
        while i < triples.len()
            invariant
                graph.wf(),
                !graph@.directed,
                i <= triples@.len(),
                all == label_views(triples@),
                graph@.triples == all.take(i as int),
            decreases triples@.len() - i,
        {
            let labels: (&str, &str, &str) = triples[i];
            assert(all[i as int] == (labels.0@, labels.1@, labels.2@));
            let triple = Triple::new(labels.0.to_owned(), labels.1.to_owned(), labels.2.to_owned());
            assert(triple@ == all[i as int]);
            graph.add_triple(triple);
            assert(graph@.triples =~= all.take(i + 1));
            i += 1;
        }
        assert(all.take(i as int) =~= all);
        graph
    }

    /// The readable form of the graph: each triple as
    /// `(subject -- relation -- object)` on a line of its own.
    pub fn render(&self) -> (r: String)
        ensures
            r@ == render_lines(self@.triples),
    {
        let mut out = String::new();
        let mut k: usize = 0;
        while k < self.triples.len()
            invariant
                k <= self@.triples.len(),
                out@ == render_lines(self@.triples.take(k as int)),
            decreases self@.triples.len() - k,
        {
            let line = self.triples[k].render();
            out.append(line.as_str());
            out.append("\n");
            proof {
                reveal_strlit("\n");
                assert(self@.triples.take(k as int + 1).drop_last() =~= self@.triples.take(k as int));
            }
            k += 1;
        }
        assert(self@.triples.take(k as int) =~= self@.triples);
        out
    }
}

/// Before any triple, the adjacency grid is all zeros; the relation grid too.
pub proof fn lemma_grids_start(v: GraphView)
    ensures
        v.adjacency_before(0) == filled(v.nodes().len(), v.nodes().len(), 0u8),
        v.relation_grid_before(0) == filled(v.edges().len(), v.edges().len(), -1i32),
{
    reveal(GraphView::adjacency_before);
    reveal(GraphView::relation_grid_before);
    assert(v.adjacency_before(0) =~~= filled(v.nodes().len(), v.nodes().len(), 0u8));
    assert(v.relation_grid_before(0) =~~= filled(v.edges().len(), v.edges().len(), -1i32));
}

/// Triple `k` names registered nodes and a registered relation.
pub proof fn lemma_indices_in_range(v: GraphView, k: int)
    requires
        0 <= k < v.triples.len(),
    ensures
        0 <= v.node_idx(v.triples[k].0) < v.nodes().len(),
        0 <= v.node_idx(v.triples[k].2) < v.nodes().len(),
        0 <= v.edge_idx(v.triples[k].1) < v.edges().len(),
{
    lemma_nodes_of(v.triples);
    lemma_edges_of(v.triples, v.directed);
    let t = v.triples[k];
    assert(v.nodes().contains(t.0));
    assert(v.nodes().contains(t.2));
    assert(v.edges().contains(t.1));
    lemma_position_in(v.nodes(), t.0);
    lemma_position_in(v.nodes(), t.2);
    lemma_position_in(v.edges(), t.1);
}

/// Adding triple `k` to the adjacency grid of the triples before it sets one
/// cell to one.
pub proof fn lemma_adjacency_step(v: GraphView, k: int)
    requires
        0 <= k < v.triples.len(),
    ensures
        v.adjacency_before(k).len() == v.nodes().len(),
        is_rect(v.adjacency_before(k), v.nodes().len()),
        set_cell(
            v.adjacency_before(k),
            v.node_idx(v.triples[k].0),
            v.node_idx(v.triples[k].2),
            1u8,
        ) == v.adjacency_before(k + 1),
{
    reveal(GraphView::adjacency_before);
    lemma_indices_in_range(v, k);
    let n = v.nodes().len();
    let s = v.node_idx(v.triples[k].0);
    let o = v.node_idx(v.triples[k].2);
    let lhs = set_cell(v.adjacency_before(k), s, o, 1u8);
    let rhs = v.adjacency_before(k + 1);
    assert forall|i: int| 0 <= i < n implies lhs[i] =~= rhs[i] by {
        assert forall|j: int| 0 <= j < n implies lhs[i][j] == rhs[i][j] by {
            if v.linked_before(k + 1, i, j) && !(i == s && j == o) {
                let m = choose|m: int|
                    0 <= m < k + 1 && #[trigger] v.node_idx(v.triples[m].0) == i && v.node_idx(
                        v.triples[m].2,
                    ) == j;
                assert(m != k);
                assert(v.linked_before(k, i, j));
            }
            if v.linked_before(k, i, j) {
                let m = choose|m: int|
                    0 <= m < k && #[trigger] v.node_idx(v.triples[m].0) == i && v.node_idx(v.triples[m].2)
                        == j;
                assert(v.node_idx(v.triples[m].0) == i);
            }
            if i == s && j == o {
                assert(v.node_idx(v.triples[k].0) == i);
            }
        }
    }
    assert(lhs =~= rhs);
}

/// Adding triple `k` to the relation grid of the triples before it writes
/// its relation index into one cell.
pub proof fn lemma_relations_step(v: GraphView, k: int)
    requires
        0 <= k < v.triples.len(),
        v.nodes().len() <= v.edges().len(),
        v.edges().len() <= i32::MAX,
    ensures
        v.relation_grid_before(k).len() == v.edges().len(),
        is_rect(v.relation_grid_before(k), v.edges().len()),
        set_cell(
            v.relation_grid_before(k),
            v.node_idx(v.triples[k].0),
            v.node_idx(v.triples[k].2),
            v.edge_idx(v.triples[k].1) as i32,
        ) == v.relation_grid_before(k + 1),
{
    reveal(GraphView::relation_grid_before);
    lemma_indices_in_range(v, k);
    let n = v.edges().len();
    let s = v.node_idx(v.triples[k].0);
    let o = v.node_idx(v.triples[k].2);
    let r = v.edge_idx(v.triples[k].1);
    let g = v.relation_grid_before(k);
    let lhs = set_cell(g, s, o, r as i32);
    let rhs = v.relation_grid_before(k + 1);
    assert(0 <= s < n && 0 <= o < n);
    assert(lhs == g.update(s, g[s].update(o, r as i32)));
    assert(g.len() == n && rhs.len() == n && lhs.len() == n);
    assert forall|i: int| 0 <= i < n implies lhs[i] =~= rhs[i] by {
        assert(g[i].len() == n && rhs[i].len() == n);
        if i == s {
            assert(lhs[i] == g[s].update(o, r as i32));
        } else {
            assert(lhs[i] == g[i]);
        }
        assert forall|j: int| 0 <= j < n implies lhs[i][j] == rhs[i][j] by {
            assert(rhs[i][j] == match v.last_relation(k + 1, i, j) {
                Some(x) => x as i32,
                None => -1i32,
            });
            assert(g[i][j] == match v.last_relation(k, i, j) {
                Some(x) => x as i32,
                None => -1i32,
            });
            assert(v.last_relation(k + 1, i, j) == if i == s && j == o {
                Some(r)
            } else {
                v.last_relation(k, i, j)
            });
        }
    }
    assert(lhs =~= rhs);
}

/// The adjacency grid is `n_nodes x n_nodes` after any number of triples.
pub proof fn lemma_adjacency_step_shape(v: GraphView, k: int)
    ensures
        v.adjacency_before(k + 1).len() == v.nodes().len(),
        is_rect(v.adjacency_before(k + 1), v.nodes().len()),
{
    reveal(GraphView::adjacency_before);
}

/// The relation grid is `n_edges x n_edges` after any number of triples.
pub proof fn lemma_relations_step_shape(v: GraphView, k: int)
    ensures
        v.relation_grid_before(k + 1).len() == v.edges().len(),
        is_rect(v.relation_grid_before(k + 1), v.edges().len()),
{
    reveal(GraphView::relation_grid_before);

}

impl Default for Graph {
    fn default() -> (g: Graph)
        ensures
            g.wf(),
            g@.triples == Seq::<TripleModel>::empty(),
            !g@.directed,
    {
        Graph::new()
    }
}

impl From<Vec<Triple>> for Graph {
    /// A graph built from `triples`, each added in order as by `add_triple`.
    fn from(triples: Vec<Triple>) -> (g: Graph)
        ensures
            g.wf(),
            g@.triples == triple_views(triples@),
            !g@.directed,
    {
        Graph::from_triples(triples)
    }
}

impl vstd::std_specs::convert::FromSpecImpl<Vec<Triple>> for Graph {
    open spec fn obeys_from_spec() -> bool {
        false
    }

    open spec fn from_spec(v: Vec<Triple>) -> Graph {
        arbitrary()
    }
}

impl<'a, 'b> From<&'a [(&'b str, &'b str, &'b str)]> for Graph {
    /// A graph built from `(subject, relation, object)` labels, each added
    /// in order as by `add_triple`.
    fn from(triples: &'a [(&'b str, &'b str, &'b str)]) -> (g: Graph)
        ensures
            g.wf(),
            g@.triples == label_views(triples@),
            !g@.directed,
    {
        Graph::from_labels(triples)
    }
}

impl<'a, 'b> vstd::std_specs::convert::FromSpecImpl<&'a [(&'b str, &'b str, &'b str)]> for Graph {
    open spec fn obeys_from_spec() -> bool {
        false
    }

    open spec fn from_spec(v: &'a [(&'b str, &'b str, &'b str)]) -> Graph {
        arbitrary()
    }
}

/// The lines of `ts`, each the readable form of a triple and a line break.
pub open spec fn render_lines(ts: Seq<TripleModel>) -> Seq<char>
    decreases ts.len(),
{
    if ts.len() == 0 {
        Seq::empty()
    } else {
        render_lines(ts.drop_last()) + render_triple(ts.last()) + seq!['\n']
    }
}

/// The last relation between two nodes is a registered edge.
pub proof fn lemma_last_relation_range(v: GraphView, k: int, i: int, j: int)
    requires
        0 <= k <= v.triples.len(),
    ensures
        v.last_relation(k, i, j) matches Some(r) ==> 0 <= r < v.edges().len(),
    decreases k,
{
    if k > 0 {
        lemma_indices_in_range(v, k - 1);
        lemma_last_relation_range(v, k - 1, i, j);
    }
}

/// The relation cells are the cells of the full relation grid that are not
/// -1, and their dense form is the grid with zero in place of -1.
pub proof fn lemma_relation_cells(v: GraphView)
    requires
        v.edges().len() <= i32::MAX,
    ensures
        cells_without(v.relation_grid_before(v.triples.len() as int), -1i32) == v.relation_cells(),
{
    reveal(GraphView::relation_grid_before);
    let n = v.edges().len();
    let g = v.relation_grid_before(v.triples.len() as int);
    let lhs = cells_without(g, -1i32);
    let rhs = v.relation_cells();
    assert(g.len() == n && lhs.len() == n && rhs.len() == n);
    assert forall|i: int| 0 <= i < n implies lhs[i] =~= rhs[i] by {
        assert(g[i].len() == n && lhs[i].len() == n && rhs[i].len() == n);
        assert forall|j: int| 0 <= j < n implies lhs[i][j] == rhs[i][j] by {
            let k = v.triples.len() as int;
            lemma_last_relation_range(v, k, i, j);
            assert(g[i][j] == match v.last_relation(k, i, j) {
                Some(r) => r as i32,
                None => -1i32,
            });
            assert(rhs[i][j] == match v.last_relation(k, i, j) {
                Some(r) => Some(r as i32),
                None => None,
            });
            assert(lhs[i][j] == if g[i][j] != -1i32 { Some(g[i][j]) } else { None });
        }
    }
    assert(lhs =~= rhs);
}

/// Undirected, edge entry `i` is the relation of triple `i`.
pub proof fn lemma_undirected_edges(ts: Seq<TripleModel>, i: int)
    requires
        0 <= i < edges_of(ts, false).len(),
    ensures
        edges_of(ts, false)[i] == ts[i].1,
    decreases ts.len(),
{
    lemma_edges_of(ts, false);
    let prev = ts.drop_last();
    lemma_edges_of(prev, false);
    if i < prev.len() {
        lemma_undirected_edges(prev, i);
    }
}

/// Adding triples one by one leaves as many nodes as there are distinct
/// labels among the subjects and objects.
pub proof fn lemma_node_count(ts: Seq<TripleModel>)
    ensures
        node_labels(ts).finite(),
        nodes_of(ts).len() == node_labels(ts).len(),
{
    lemma_nodes_of(ts);
    nodes_of(ts).unique_seq_to_set();
}

/// Undirected, there is one edge entry per triple; directed, one per
/// distinct relation label.
pub proof fn lemma_edge_count(ts: Seq<TripleModel>, directed: bool)
    ensures
        !directed ==> edges_of(ts, directed).len() == ts.len(),
        directed ==> relation_labels(ts).finite() && edges_of(ts, directed).len() == relation_labels(ts).len(),
{
    lemma_edges_of(ts, directed);
    if directed {
        edges_of(ts, directed).unique_seq_to_set();
    }
}

/// A label is a node exactly when some triple names it as subject or object;
/// its index is fixed when it is first seen, and no later triple moves it.
pub proof fn lemma_node_index_stable(ts: Seq<TripleModel>, more: Seq<TripleModel>, label: Seq<char>)
    ensures
        nodes_of(ts).contains(label) <==> mentions_node(ts, label),
        mentions_node(ts, label) ==> position(nodes_of(ts + more), label) == position(nodes_of(ts), label)
            && 0 <= position(nodes_of(ts), label) < nodes_of(ts).len(),
{
    lemma_nodes_of(ts);
    assert(nodes_of(ts).to_set().contains(label) <==> node_labels(ts).contains(label));
    if mentions_node(ts, label) {
        lemma_position_in(nodes_of(ts), label);
        lemma_nodes_prefix(ts, more);
        lemma_nodes_of(ts + more);
        let p = position(nodes_of(ts), label);
        assert(nodes_of(ts + more)[p] == label);
        lemma_position_unique(nodes_of(ts + more), p);
    }
}


/// Later triples only append to the edge registry: what it held stays in place.
pub proof fn lemma_edges_prefix(ts: Seq<TripleModel>, more: Seq<TripleModel>, directed: bool)
    ensures
        edges_of(ts, directed).len() <= edges_of(ts + more, directed).len(),
        forall|i: int| 0 <= i < edges_of(ts, directed).len() ==> edges_of(ts + more, directed)[i] == edges_of(ts, directed)[i],
    decreases more.len(),
{
    if more.len() > 0 {
        let all = ts + more;
        lemma_edges_prefix(ts, more.drop_last(), directed);
        assert(all.drop_last() =~= ts + more.drop_last());
        lemma_register(edges_of(all.drop_last(), directed), all.last().1);
    } else {
        assert(ts + more =~= ts);
    }
}

/// A label keeps its first index when the registry only grows at the end.
pub proof fn lemma_position_prefix(reg: Seq<Seq<char>>, big: Seq<Seq<char>>, label: Seq<char>)
    requires
        reg.contains(label),
        reg.len() <= big.len(),
        forall|i: int| 0 <= i < reg.len() ==> big[i] == reg[i],
    ensures
        position(big, label) == position(reg, label),
{
    lemma_position_in(reg, label);
    let p = position(reg, label);
    assert forall|j: int| 0 <= j < p implies big[j] != label by {
        assert(big[j] == reg[j]);
    }
    lemma_position_first(big, label, p);
}

/// Over the triples before it, a graph with one more triple finds the same
/// last relations as the graph without it.
pub proof fn lemma_last_relation_extend(v: GraphView, t: TripleModel, k: int, i: int, j: int)
    requires
        0 <= k <= v.triples.len(),
    ensures
        (GraphView { triples: v.triples.push(t), directed: v.directed }).last_relation(k, i, j) == v.last_relation(k, i, j),
    decreases k,
{
    let w = GraphView { triples: v.triples.push(t), directed: v.directed };
    if k > 0 {
        lemma_last_relation_extend(v, t, k - 1, i, j);
        let m = k - 1;
        let u = v.triples[m];
        assert(w.triples[m] == u);
        assert(v.triples + seq![t] =~= w.triples);
        lemma_nodes_of(v.triples);
        lemma_edges_of(v.triples, v.directed);
        assert(v.nodes().contains(u.0));
        assert(v.nodes().contains(u.2));
        assert(v.edges().contains(u.1));
        lemma_nodes_prefix(v.triples, seq![t]);
        lemma_edges_prefix(v.triples, seq![t], v.directed);
        lemma_position_prefix(v.nodes(), w.nodes(), u.0);
        lemma_position_prefix(v.nodes(), w.nodes(), u.2);
        lemma_position_prefix(v.edges(), w.edges(), u.1);
    }
}

/// Adding a triple writes the index of its relation into the relation cell
/// of its subject and object, whatever that cell held, and leaves every
/// other cell of the earlier grid as it was.
pub proof fn lemma_relation_overwrite(v: GraphView, t: TripleModel, i: int, j: int)
    requires
        0 <= i < v.edges().len(),
        0 <= j < v.edges().len(),
        v.edges().len() <= i32::MAX,
    ensures
        ({
            let w = GraphView { triples: v.triples.push(t), directed: v.directed };
            w.relation_cells()[i][j] == if i == w.node_idx(t.0) && j == w.node_idx(t.2) {
                Some(w.edge_idx(t.1) as i32)
            } else {
                v.relation_cells()[i][j]
            }
        }),
{
    let w = GraphView { triples: v.triples.push(t), directed: v.directed };
    assert(v.triples + seq![t] =~= w.triples);
    lemma_edges_prefix(v.triples, seq![t], v.directed);
    assert(w.triples[v.triples.len() as int] == t);
    lemma_last_relation_extend(v, t, v.triples.len() as int, i, j);
}


/// The adjacency grid is `n_nodes x n_nodes`, and each cell is one exactly
/// when some triple leads from the row's node to the column's node, zero
/// otherwise.
pub proof fn lemma_adjacency_cells(v: GraphView)
    ensures
        v.adjacency().len() == v.nodes().len(),
        forall|i: int| 0 <= i < v.nodes().len() ==> #[trigger] v.adjacency()[i].len() == v.nodes().len(),
        forall|i: int, j: int|
            0 <= i < v.nodes().len() && 0 <= j < v.nodes().len() ==> (#[trigger] v.adjacency()[i][j] == 1u8
                <==> v.linked(i, j)) && (v.adjacency()[i][j] == 0u8 <==> !v.linked(i, j)),
{
    reveal(GraphView::adjacency_before);
}

} // verus!
