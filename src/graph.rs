use petgraph::graphmap::{DiGraphMap, GraphMap};
use vstd::prelude::*;

use crate::{first_occurrences, lemma_first_occurrences, position_of, Item};

verus! {

#[verifier::external_type_specification]
#[verifier::external_body]
#[verifier::reject_recursive_types(N)]
#[verifier::reject_recursive_types(E)]
#[verifier::reject_recursive_types(Ty)]
#[verifier::reject_recursive_types(S)]
pub struct ExGraphMap<N, E, Ty, S: std::hash::BuildHasher>(GraphMap<N, E, Ty, S>);

#[verifier::external_type_specification]
#[verifier::external_body]
pub struct ExDirected(petgraph::Directed);

/// The nodes of a petgraph `DiGraphMap`, in the order they were added.
pub uninterp spec fn graph_nodes(g: DiGraphMap<usize, ()>) -> Seq<usize>;

/// The directed edges of a petgraph `DiGraphMap`, as (source, target) pairs.
pub uninterp spec fn graph_edges(g: DiGraphMap<usize, ()>) -> Set<(usize, usize)>;

/// Relies on `GraphMap::new`: a graph with no nodes and no edges.
#[verifier::external_body]
fn new_graph() -> (g: DiGraphMap<usize, ()>)
    ensures
        graph_nodes(g) == Seq::<usize>::empty(),
        graph_edges(g) == Set::<(usize, usize)>::empty(),
{
    DiGraphMap::new()
}

/// Relies on `GraphMap::add_node`: a node not yet present is appended to the
/// node order; a present one leaves the graph as it was.
#[verifier::external_body]
fn add_graph_node(g: &mut DiGraphMap<usize, ()>, n: usize)
    ensures
        graph_nodes(*final(g)) == if graph_nodes(*old(g)).contains(n) {
            graph_nodes(*old(g))
        } else {
            graph_nodes(*old(g)).push(n)
        },
        graph_edges(*final(g)) == graph_edges(*old(g)),
{
    g.add_node(n);
}

/// Relies on `GraphMap::add_edge`: between two present nodes, the edge
/// (a, b) is added to the edge set, a no-op where it is already there.
#[verifier::external_body]
fn add_graph_edge(g: &mut DiGraphMap<usize, ()>, a: usize, b: usize)
    requires
        graph_nodes(*old(g)).contains(a),
        graph_nodes(*old(g)).contains(b),
    ensures
        graph_nodes(*final(g)) == graph_nodes(*old(g)),
        graph_edges(*final(g)) == graph_edges(*old(g)).insert((a, b)),
{
    g.add_edge(a, b, ());
}

/// Relies on `GraphMap::node_count`: the number of nodes.
#[verifier::external_body]
fn graph_node_count(g: &DiGraphMap<usize, ()>) -> (r: usize)
    ensures
        r == graph_nodes(*g).len(),
{
    g.node_count()
}

/// Relies on `GraphMap::edge_count`: the number of edges.
#[verifier::external_body]
fn graph_edge_count(g: &DiGraphMap<usize, ()>) -> (r: usize)
    ensures
        r == graph_edges(*g).len(),
{
    g.edge_count()
}

/// Relies on `GraphMap::contains_edge`: whether (a, b) is an edge.
#[verifier::external_body]
fn graph_contains_edge(g: &DiGraphMap<usize, ()>, a: usize, b: usize) -> (r: bool)
    ensures
        r == graph_edges(*g).contains((a, b)),
{
    g.contains_edge(a, b)
}

/// Relies on `GraphMap::neighbors`: on a directed graph it yields each
/// target of an edge leaving `a` once, as `add_edge` records a new edge once.
#[verifier::external_body]
fn graph_out_degree(g: &DiGraphMap<usize, ()>, a: usize) -> (r: usize)
    ensures
        r == successors(graph_edges(*g), a).len(),
{
    g.neighbors(a).count()
}

/// The targets of the edges that leave `a`.
pub open spec fn successors(edges: Set<(usize, usize)>, a: usize) -> Set<usize> {
    Set::new(|v: usize| edges.contains((a, v)))
}

/// The node ids 0, 1, ..., n - 1 in order.
pub open spec fn ids_upto(n: nat) -> Seq<usize> {
    Seq::new(n, |i: int| i as usize)
}

/// The identifiers of a list of records, in order.
pub open spec fn item_ids(items: Seq<Item>) -> Seq<Seq<char>> {
    items.map_values(|it: Item| it.item_purchased@)
}

/// Whether records `i` and `j` are bought under one category and are
/// different items: the condition for an edge between their nodes.
pub open spec fn linked(items: Seq<Item>, i: int, j: int) -> bool {
    &&& items[i].category@ == items[j].category@
    &&& items[i].item_purchased@ != items[j].item_purchased@
}

/// Whether the nodes `u` and `v` of `ids` are items of two records that
/// share a category, `u` and `v` being different nodes.
pub open spec fn co_purchased(items: Seq<Item>, ids: Seq<Seq<char>>, u: int, v: int) -> bool {
    &&& 0 <= u < ids.len()
    &&& 0 <= v < ids.len()
    &&& u != v
    &&& exists|i: int, j: int|
        #![trigger items[i], items[j]]
        0 <= i < items.len() && 0 <= j < items.len() && items[i].category@ == items[j].category@
            && items[i].item_purchased@ == ids[u] && items[j].item_purchased@ == ids[v]
}

/// Whether some linked pair of records (a, b), taken in row-major order
/// before position (`row`, `col`), has nodes `u` and `v`.
spec fn linked_before(
    items: Seq<Item>,
    nodes: Seq<usize>,
    row: int,
    col: int,
    u: usize,
    v: usize,
) -> bool {
    exists|a: int, b: int|
        #![trigger linked(items, a, b)]
        0 <= a <= row && 0 <= b < items.len() && (a < row || b < col) && linked(items, a, b)
            && nodes[a] == u && nodes[b] == v
}

/// The one-to-one correspondence between item identifiers and node ids:
/// the identifier of node `k` stands at position `k`.
pub struct NodeMapping {
    pub ids: Vec<String>,
}

impl NodeMapping {
    pub open spec fn view(&self) -> Seq<Seq<char>> {
        self.ids@.map_values(|s: String| s@)
    }

    /// No identifier has two node ids.
    pub open spec fn wf(&self) -> bool {
        self@.no_duplicates()
    }

    /// The node id of `id`, if it has one.
    pub fn node_of(&self, id: &String) -> (r: Option<usize>)
        ensures
            match r {
                Some(k) => k < self@.len() && self@[k as int] == id@,
                None => !self@.contains(id@),
            },
    {
        let r = position_of(&self.ids, id);
        proof {
            if r.is_none() {
                assert forall|k: int| 0 <= k < self@.len() implies self@[k] != id@ by {
                    assert(self@[k] == self.ids@[k]@);
                }
            }
        }
        r
    }

    /// The node id of `id`, if it has one.
    pub fn get(&self, id: &str) -> (r: Option<usize>)
        ensures
            match r {
                Some(k) => k < self@.len() && self@[k as int] == id@,
                None => !self@.contains(id@),
            },
    {
        let key = id.to_owned();
        self.node_of(&key)
    }

    /// Whether `id` has a node id.
    pub fn contains_key(&self, id: &str) -> (r: bool)
        ensures
            r == self@.contains(id@),
    {
        self.get(id).is_some()
    }

    /// The number of identifiers.
    pub fn len(&self) -> (r: usize)
        ensures
            r == self@.len(),
    {
        self.ids.len()
    }

    /// The identifier of node `k`, if there is such a node.
    pub fn item_of(&self, k: usize) -> (r: Option<String>)
        ensures
            match r {
                Some(s) => k < self@.len() && s@ == self@[k as int],
                None => k >= self@.len(),
            },
    {
        if k < self.ids.len() {
            Some(self.ids[k].clone())
        } else {
            None
        }
    }
}

/// The graph of co-purchases: node `k` stands for the item that the
/// mapping gives node id `k`.
pub struct CoPurchaseGraph {
    pub graph: DiGraphMap<usize, ()>,
}

impl CoPurchaseGraph {
    pub open spec fn nodes(&self) -> Seq<usize> {
        graph_nodes(self.graph)
    }

    pub open spec fn edges(&self) -> Set<(usize, usize)> {
        graph_edges(self.graph)
    }

    /// Its nodes are 0, 1, ..., n - 1 in order, and each edge joins two of them.
    pub open spec fn wf(&self) -> bool {
        &&& self.nodes() == ids_upto(self.nodes().len())
        &&& self.edges().finite()
        &&& forall|u: usize, v: usize| #[trigger]
            self.edges().contains((u, v)) ==> u < self.nodes().len() && v < self.nodes().len()
    }

    /// The number of nodes.
    pub fn node_count(&self) -> (r: usize)
        ensures
            r == self.nodes().len(),
    {
        graph_node_count(&self.graph)
    }

    /// The number of edges.
    pub fn edge_count(&self) -> (r: usize)
        ensures
            r == self.edges().len(),
    {
        graph_edge_count(&self.graph)
    }

    /// Whether there is an edge from `u` to `v`.
    pub fn contains_edge(&self, u: usize, v: usize) -> (r: bool)
        ensures
            r == self.edges().contains((u, v)),
    {
        graph_contains_edge(&self.graph, u, v)
    }

    /// The number of distinct targets of the edges that leave `u`.
    pub fn out_degree(&self, u: usize) -> (r: usize)
        ensures
            r == successors(self.edges(), u).len(),
    {
        graph_out_degree(&self.graph, u)
    }
}

/// Gives each distinct identifier of `items` a node, numbered from 0 in the
/// order of first occurrence, and returns the mapping.
pub fn create_nodes(graph: &mut CoPurchaseGraph, items: &[Item]) -> (r: NodeMapping)
    requires
        old(graph).nodes() == Seq::<usize>::empty(),
        old(graph).edges() == Set::<(usize, usize)>::empty(),
    ensures
        r@ == first_occurrences(item_ids(items@)),
        r.wf(),
        final(graph).nodes() == ids_upto(r@.len()),
        final(graph).edges() == Set::<(usize, usize)>::empty(),
{
    let mut mapping = NodeMapping { ids: Vec::new() };
    let mut i: usize = 0;
    while i < items.len()
        invariant
            i <= items.len(),
            mapping@ == first_occurrences(item_ids(items@.subrange(0, i as int))),
            graph.nodes() == ids_upto(mapping@.len()),
            graph.edges() == Set::<(usize, usize)>::empty(),
        decreases items.len() - i,
    {
        let ghost before = items@.subrange(0, i as int);
        let ghost after = items@.subrange(0, i + 1);
        proof {
            assert(item_ids(after).drop_last() =~= item_ids(before));
            assert(item_ids(after).last() == items@[i as int].item_purchased@);
            lemma_first_occurrences(item_ids(before));
        }
        let id = &items[i].item_purchased;
        match mapping.node_of(id) {
            Some(_) => {},
            None => {
                let n = mapping.ids.len();
                proof {
                    assert(!graph.nodes().contains(n)) by {
                        if graph.nodes().contains(n) {
                            let k = choose|k: int| 0 <= k < graph.nodes().len() && graph.nodes()[k] == n;
                            assert(graph.nodes()[k] == k as usize);
                        }
                    }
                }
                add_graph_node(&mut graph.graph, n);
                mapping.ids.push(id.clone());
                proof {
                    assert(mapping@ =~= first_occurrences(item_ids(before)).push(id@));
                    assert(graph.nodes() =~= ids_upto(mapping@.len()));
                }
            },
        }
        i = i + 1;
    }
    proof {
        assert(items@.subrange(0, items@.len() as int) =~= items@);
        lemma_first_occurrences(item_ids(items@));
    }
    mapping
}

/// Adds an edge from the node of record `a` to the node of record `b` for
/// every ordered pair of records bought under one category whose items differ.
pub fn create_edges(graph: &mut CoPurchaseGraph, items: &[Item], mapping: &NodeMapping)
    requires
        old(graph).nodes() == ids_upto(mapping@.len()),
        old(graph).edges().finite(),
        mapping.wf(),
        forall|i: int| 0 <= i < items@.len() ==> mapping@.contains(#[trigger] items@[i].item_purchased@),
    ensures
        final(graph).nodes() == old(graph).nodes(),
        final(graph).edges().finite(),
        forall|u: usize, v: usize|
            #[trigger] final(graph).edges().contains((u, v)) <==> old(graph).edges().contains((u, v))
                || co_purchased(items@, mapping@, u as int, v as int),
{
    let n = items.len();
    let mut nodes: Vec<usize> = Vec::new();
    let mut i: usize = 0;
    while i < n
        invariant
            n == items@.len(),
            i <= n,
            nodes@.len() == i,
            forall|k: int|
                0 <= k < i ==> #[trigger] nodes@[k] < mapping@.len() && mapping@[nodes@[k] as int]
                    == items@[k].item_purchased@,
            forall|k: int| 0 <= k < items@.len() ==> mapping@.contains(#[trigger] items@[k].item_purchased@),
        decreases n - i,
    {
        match mapping.node_of(&items[i].item_purchased) {
            Some(k) => nodes.push(k),
            None => {
                proof {
                    assert(mapping@.contains(items@[i as int].item_purchased@));
                    assert(false);
                }
            },
        }
        i = i + 1;
    }
    let ghost start = graph.edges();
    let mut a: usize = 0;
    while a < n
        invariant
            n == items@.len(),
            a <= n,
            nodes@.len() == n,
            graph.nodes() == ids_upto(mapping@.len()),
            graph.edges().finite(),
            forall|k: int|
                0 <= k < n ==> #[trigger] nodes@[k] < mapping@.len() && mapping@[nodes@[k] as int]
                    == items@[k].item_purchased@,
            forall|u: usize, v: usize|
                #[trigger] graph.edges().contains((u, v)) <==> start.contains((u, v))
                    || linked_before(items@, nodes@, a as int, 0, u, v),
        decreases n - a,
    {
        let mut b: usize = 0;
        while b < n
            invariant
                n == items@.len(),
                a < n,
                b <= n,
                nodes@.len() == n,
                graph.nodes() == ids_upto(mapping@.len()),
                graph.edges().finite(),
                forall|k: int|
                    0 <= k < n ==> #[trigger] nodes@[k] < mapping@.len() && mapping@[nodes@[k] as int]
                        == items@[k].item_purchased@,
                forall|u: usize, v: usize|
                    #[trigger] graph.edges().contains((u, v)) <==> start.contains((u, v))
                        || linked_before(items@, nodes@, a as int, b as int, u, v),
            decreases n - b,
        {
            let ghost prev = graph.edges();
            let is_link = items[a].category == items[b].category && !(items[a].item_purchased
                == items[b].item_purchased);
            if is_link {
                let (x, y) = (nodes[a], nodes[b]);
                proof {
                    assert(graph.nodes()[x as int] == x);
                    assert(graph.nodes()[y as int] == y);
                }
                add_graph_edge(&mut graph.graph, x, y);
            }
            proof {
                assert forall|u: usize, v: usize|
                    #[trigger] graph.edges().contains((u, v)) <==> start.contains((u, v))
                        || linked_before(items@, nodes@, a as int, b + 1, u, v) by {
                    if linked_before(items@, nodes@, a as int, b + 1, u, v) {
                        let (p, q) = choose|p: int, q: int|
                            #![trigger linked(items@, p, q)]
                            0 <= p <= a && 0 <= q < items@.len() && (p < a || q < b + 1) && linked(
                                items@,
                                p,
                                q,
                            ) && nodes@[p] == u && nodes@[q] == v;
                        if !(p == a && q == b) {
                            assert(linked_before(items@, nodes@, a as int, b as int, u, v));
                        }
                    }
                    if linked_before(items@, nodes@, a as int, b as int, u, v) {
                        let (p, q) = choose|p: int, q: int|
                            #![trigger linked(items@, p, q)]
                            0 <= p <= a && 0 <= q < items@.len() && (p < a || q < b) && linked(
                                items@,
                                p,
                                q,
                            ) && nodes@[p] == u && nodes@[q] == v;
                        assert(linked_before(items@, nodes@, a as int, b + 1, u, v));
                    }
                    if is_link && u == nodes@[a as int] && v == nodes@[b as int] {
                        assert(linked(items@, a as int, b as int));
                        assert(linked_before(items@, nodes@, a as int, b + 1, u, v));
                    }
                }
            }
            b = b + 1;
        }
        proof {
            assert forall|u: usize, v: usize|
                linked_before(items@, nodes@, a as int, n as int, u, v) <==> linked_before(
                    items@,
                    nodes@,
                    a + 1,
                    0,
                    u,
                    v,
                ) by {
                if linked_before(items@, nodes@, a + 1, 0, u, v) {
                    let (p, q) = choose|p: int, q: int|
                        #![trigger linked(items@, p, q)]
                        0 <= p <= a + 1 && 0 <= q < items@.len() && (p < a + 1 || q < 0) && linked(
                            items@,
                            p,
                            q,
                        ) && nodes@[p] == u && nodes@[q] == v;
                    assert(linked_before(items@, nodes@, a as int, n as int, u, v));
                }
                if linked_before(items@, nodes@, a as int, n as int, u, v) {
                    let (p, q) = choose|p: int, q: int|
                        #![trigger linked(items@, p, q)]
                        0 <= p <= a && 0 <= q < items@.len() && (p < a || q < n) && linked(
                            items@,
                            p,
                            q,
                        ) && nodes@[p] == u && nodes@[q] == v;
                    assert(linked_before(items@, nodes@, a + 1, 0, u, v));
                }
            }
        }
        a = a + 1;
    }
    proof {
        assert forall|u: usize, v: usize|
            linked_before(items@, nodes@, n as int, 0, u, v) <==> co_purchased(
                items@,
                mapping@,
                u as int,
                v as int,
            ) by {
            if linked_before(items@, nodes@, n as int, 0, u, v) {
                let (p, q) = choose|p: int, q: int|
                    #![trigger linked(items@, p, q)]
                    0 <= p <= n && 0 <= q < items@.len() && (p < n || q < 0) && linked(items@, p, q)
                        && nodes@[p] == u && nodes@[q] == v;
                assert(items@[p] == items@[p] && items@[q] == items@[q]);
            }
            if co_purchased(items@, mapping@, u as int, v as int) {
                let (p, q) = choose|p: int, q: int|
                    #![trigger items@[p], items@[q]]
                    0 <= p < items@.len() && 0 <= q < items@.len() && items@[p].category@
                        == items@[q].category@ && items@[p].item_purchased@ == mapping@[u as int]
                        && items@[q].item_purchased@ == mapping@[v as int];
                assert(nodes@[p] < mapping@.len());
                assert(nodes@[q] < mapping@.len());
                assert(mapping@[v as int] != mapping@[u as int]);
                assert(linked(items@, p, q));
                assert(linked_before(items@, nodes@, n as int, 0, u, v));
            }
        }
    }
}

/// Co-purchase is symmetric: where records of one category put `u` before
/// `v`, they also put `v` before `u`.
pub proof fn lemma_co_purchased_symmetric(items: Seq<Item>, ids: Seq<Seq<char>>, u: int, v: int)
    requires
        co_purchased(items, ids, u, v),
    ensures
        co_purchased(items, ids, v, u),
{
    let (i, j) = choose|i: int, j: int|
        #![trigger items[i], items[j]]
        0 <= i < items.len() && 0 <= j < items.len() && items[i].category@ == items[j].category@
            && items[i].item_purchased@ == ids[u] && items[j].item_purchased@ == ids[v];
    assert(items[j] == items[j] && items[i] == items[i]);
}

/// There are as many first occurrences as there are distinct values.
pub proof fn lemma_distinct_count(s: Seq<Seq<char>>)
    ensures
        first_occurrences(s).len() == s.to_set().len(),
{
    lemma_first_occurrences(s);
    first_occurrences(s).unique_seq_to_set();
    assert(first_occurrences(s).to_set() =~= s.to_set());
}

/// Builds the co-purchase graph of `items` and the mapping from item
/// identifiers to its nodes.
pub fn build_graph(items: &[Item]) -> (r: (CoPurchaseGraph, NodeMapping))
    ensures
        r.1@ == first_occurrences(item_ids(items@)),
        r.1.wf(),
        r.0.wf(),
        r.0.nodes() == ids_upto(r.1@.len()),
        forall|u: usize, v: usize|
            #[trigger] r.0.edges().contains((u, v)) <==> co_purchased(items@, r.1@, u as int, v as int),
        r.0.nodes().len() == item_ids(items@).to_set().len(),
        forall|u: usize| !(#[trigger] r.0.edges().contains((u, u))),
        forall|u: usize, v: usize| #[trigger] r.0.edges().contains((u, v)) ==> r.0.edges().contains((v, u)),
        items@.len() == 0 ==> r.1@.len() == 0 && r.0.nodes().len() == 0 && r.0.edges().is_empty(),
{
    let mut graph = CoPurchaseGraph { graph: new_graph() };
    let mapping = create_nodes(&mut graph, items);
    proof {
        lemma_first_occurrences(item_ids(items@));
        assert forall|i: int| 0 <= i < items@.len() implies mapping@.contains(
            #[trigger] items@[i].item_purchased@,
        ) by {
            assert(item_ids(items@)[i] == items@[i].item_purchased@);
            assert(item_ids(items@).contains(items@[i].item_purchased@));
        }
    }
    create_edges(&mut graph, items, &mapping);
    proof {
        lemma_distinct_count(item_ids(items@));
        assert forall|u: usize, v: usize| #[trigger]
            graph.edges().contains((u, v)) implies graph.edges().contains((v, u)) by {
            lemma_co_purchased_symmetric(items@, mapping@, u as int, v as int);
        }
        if items@.len() == 0 {
            assert forall|e: (usize, usize)| !graph.edges().contains(e) by {
                assert(graph.edges().contains((e.0, e.1)) ==> co_purchased(items@, mapping@, e.0 as int, e.1 as int));
            }
            assert(graph.edges() =~= Set::<(usize, usize)>::empty());
        }
    }
    (graph, mapping)
}

} // verus!
