use vstd::prelude::*;

use crate::graph::{co_purchased, item_ids, successors, CoPurchaseGraph, NodeMapping};
use crate::{first_occurrences, lemma_first_occurrences, position_of, Item};

verus! {

/// A degree centrality score held exactly: `degree / others`, where
/// `degree` is the number of distinct out-neighbours of `node` and `others`
/// is the count of the population it is measured against, less one. The
/// quotient is left to the caller, so a zero `others` stays visible.
#[derive(Clone, Copy, Debug, PartialEq, Eq)]
pub struct Score {
    pub node: usize,
    pub degree: usize,
    pub others: usize,
}

/// The segment labels of a list of records, in order.
pub open spec fn seasons(items: Seq<Item>) -> Seq<Seq<char>> {
    items.map_values(|it: Item| it.season@)
}

/// The records of segment `label`, in their order, repeats included.
pub open spec fn in_segment(items: Seq<Item>, label: Seq<char>) -> Seq<Item>
    decreases items.len(),
{
    if items.len() == 0 {
        Seq::empty()
    } else {
        let prev = in_segment(items.drop_last(), label);
        if items.last().season@ == label {
            prev.push(items.last())
        } else {
            prev
        }
    }
}

/// Whether `scores` holds, for each record of `entries` in order, the
/// out-degree of its node in `graph` over the count of `entries` less one.
pub open spec fn scores_of(
    scores: Seq<Score>,
    entries: Seq<Item>,
    graph: CoPurchaseGraph,
    mapping: Seq<Seq<char>>,
) -> bool {
    &&& scores.len() == entries.len()
    &&& forall|t: int|
        #![trigger scores[t]]
        0 <= t < scores.len() ==> {
            &&& scores[t].node < mapping.len()
            &&& mapping[scores[t].node as int] == entries[t].item_purchased@
            &&& scores[t].degree == successors(graph.edges(), scores[t].node).len()
            &&& scores[t].others == entries.len() - 1
        }
}

/// Degree centrality by segment: for each distinct segment label, in the
/// order of first occurrence, the scores of its records.
pub struct SegmentCentrality {
    pub labels: Vec<String>,
    pub scores: Vec<Vec<Score>>,
}

impl SegmentCentrality {
    pub open spec fn labels_view(&self) -> Seq<Seq<char>> {
        self.labels@.map_values(|s: String| s@)
    }

    /// The number of segments.
    pub fn len(&self) -> (r: usize)
        ensures
            r == self.labels@.len(),
    {
        self.labels.len()
    }

    /// The scores of segment `label`, if it occurs.
    pub fn get(&self, label: &str) -> (r: Option<&Vec<Score>>)
        requires
            self.scores@.len() == self.labels@.len(),
        ensures
            match r {
                Some(v) => exists|k: int|
                    0 <= k < self.labels@.len() && self.labels_view()[k] == label@ && *v
                        == self.scores@[k],
                None => !self.labels_view().contains(label@),
            },
    {
        let key = label.to_owned();
        match position_of(&self.labels, &key) {
            Some(k) => {
                proof {
                    assert(self.labels_view()[k as int] == self.labels@[k as int]@);
                }
                Some(&self.scores[k])
            },
            None => {
                proof {
                    assert forall|k: int| 0 <= k < self.labels@.len() implies self.labels_view()[k]
                        != label@ by {
                        assert(self.labels_view()[k] == self.labels@[k]@);
                    }
                }
                None
            },
        }
    }

    /// Whether segment `label` occurs.
    pub fn contains_key(&self, label: &str) -> (r: bool)
        requires
            self.scores@.len() == self.labels@.len(),
        ensures
            r == self.labels_view().contains(label@),
    {
        self.get(label).is_some()
    }
}

/// The degree centrality of every node of `graph`, indexed by node id: its
/// number of distinct out-neighbours over the node count less one.
pub fn calculate_degree_centrality(graph: &CoPurchaseGraph) -> (r: Vec<Score>)
    requires
        graph.wf(),
    ensures
        r@.len() == graph.nodes().len(),
        forall|i: int|
            #![trigger r@[i]]
            0 <= i < r@.len() ==> r@[i].node == i && r@[i].degree == successors(
                graph.edges(),
                i as usize,
            ).len() && r@[i].others == graph.nodes().len() - 1,
{
    let count = graph.node_count();
    let mut r: Vec<Score> = Vec::new();
    let mut i: usize = 0;
    while i < count
        invariant
            count == graph.nodes().len(),
            i <= count,
            r@.len() == i,
            forall|k: int|
                #![trigger r@[k]]
                0 <= k < i ==> r@[k].node == k && r@[k].degree == successors(
                    graph.edges(),
                    k as usize,
                ).len() && r@[k].others == count - 1,
        decreases count - i,
    {
        let degree = graph.out_degree(i);
        r.push(Score { node: i, degree, others: count - 1 });
        i = i + 1;
    }
    r
}

/// The node ids below `k`.
pub open spec fn ids_below(k: nat) -> Set<usize> {
    Set::new(|v: usize| v < k)
}

proof fn lemma_ids_below_len(k: nat)
    requires
        k <= usize::MAX,
    ensures
        ids_below(k).finite(),
        ids_below(k).len() == k,
    decreases k,
{
    if k == 0 {
        assert(ids_below(0) =~= Set::<usize>::empty());
    } else {
        lemma_ids_below_len((k - 1) as nat);
        assert(ids_below(k) =~= ids_below((k - 1) as nat).insert((k - 1) as usize));
    }
}

/// Where all records share one category, every node has an edge to every
/// other node, so its out-degree is the node count less one and its degree
/// centrality is one.
pub proof fn lemma_one_category_complete(
    items: Seq<Item>,
    graph: CoPurchaseGraph,
    mapping: NodeMapping,
)
    requires
        mapping@ == first_occurrences(item_ids(items)),
        mapping@.len() <= usize::MAX,
        forall|u: usize, v: usize|
            #[trigger] graph.edges().contains((u, v)) <==> co_purchased(
                items,
                mapping@,
                u as int,
                v as int,
            ),
        forall|i: int, j: int|
            0 <= i < items.len() && 0 <= j < items.len() ==> #[trigger] items[i].category@
                == #[trigger] items[j].category@,
    ensures
        forall|u: usize|
            u < mapping@.len() ==> #[trigger] successors(graph.edges(), u).len() == mapping@.len()
                - 1,
{
    let k = mapping@.len();
    lemma_first_occurrences(item_ids(items));
    lemma_ids_below_len(k);
    assert forall|u: usize| u < k implies #[trigger] successors(graph.edges(), u).len() == k - 1 by {
        assert forall|v: usize| successors(graph.edges(), u).contains(v) <==> ids_below(k).remove(
            u,
        ).contains(v) by {
            if v < k && v != u {
                assert(item_ids(items).contains(mapping@[u as int]));
                assert(item_ids(items).contains(mapping@[v as int]));
                let i = choose|i: int| 0 <= i < items.len() && item_ids(items)[i] == mapping@[u as int];
                let j = choose|j: int| 0 <= j < items.len() && item_ids(items)[j] == mapping@[v as int];
                assert(items[i].category@ == items[j].category@);
                assert(co_purchased(items, mapping@, u as int, v as int));
                assert(graph.edges().contains((u, v)));
            }
        }
        assert(successors(graph.edges(), u) =~= ids_below(k).remove(u));
        assert(ids_below(k).contains(u));
    }
}

/// The nodes of the records of segment `label`, in order, repeats included.
fn segment_nodes(items: &[Item], mapping: &NodeMapping, label: &String) -> (r: Vec<usize>)
    requires
        forall|i: int| 0 <= i < items@.len() ==> mapping@.contains(#[trigger] items@[i].item_purchased@),
    ensures
        r@.len() == in_segment(items@, label@).len(),
        forall|t: int|
            #![trigger r@[t]]
            0 <= t < r@.len() ==> r@[t] < mapping@.len() && mapping@[r@[t] as int]
                == in_segment(items@, label@)[t].item_purchased@,
{
    let mut r: Vec<usize> = Vec::new();
    let mut i: usize = 0;
    while i < items.len()
        invariant
            i <= items@.len(),
            forall|k: int| 0 <= k < items@.len() ==> mapping@.contains(#[trigger] items@[k].item_purchased@),
            r@.len() == in_segment(items@.subrange(0, i as int), label@).len(),
            forall|t: int|
                #![trigger r@[t]]
                0 <= t < r@.len() ==> r@[t] < mapping@.len() && mapping@[r@[t] as int]
                    == in_segment(items@.subrange(0, i as int), label@)[t].item_purchased@,
        decreases items@.len() - i,
    {
        let ghost before = items@.subrange(0, i as int);
        let ghost after = items@.subrange(0, i + 1);
        proof {
            assert(after.drop_last() =~= before);
        }
        if items[i].season == *label {
            match mapping.node_of(&items[i].item_purchased) {
                Some(k) => r.push(k),
                None => {
                    proof {
                        assert(mapping@.contains(items@[i as int].item_purchased@));
                        assert(false);
                    }
                },
            }
        }
        i = i + 1;
    }
    proof {
        assert(items@.subrange(0, items@.len() as int) =~= items@);
    }
    r
}

/// Degree centrality by segment. For each distinct segment label, in the
/// order of first occurrence, each record of that segment (repeats included)
/// scores the out-degree of its item's node in the whole graph over the
/// number of the segment's records less one.
pub fn calculate_seasonal_degree_centrality(
    graph: &CoPurchaseGraph,
    items: &[Item],
    item_node_mapping: &NodeMapping,
) -> (r: SegmentCentrality)
    requires
        forall|i: int|
            0 <= i < items@.len() ==> item_node_mapping@.contains(#[trigger] items@[i].item_purchased@),
    ensures
        r.labels_view() == first_occurrences(seasons(items@)),
        r.labels_view().no_duplicates(),
        r.scores@.len() == r.labels@.len(),
        items@.len() == 0 ==> r.labels@.len() == 0,
        forall|s: int|
            #![trigger r.scores@[s]]
            0 <= s < r.scores@.len() ==> scores_of(
                r.scores@[s]@,
                in_segment(items@, r.labels_view()[s]),
                *graph,
                item_node_mapping@,
            ),
{
    let mut labels: Vec<String> = Vec::new();
    let mut i: usize = 0;
    while i < items.len()
        invariant
            i <= items@.len(),
            labels@.map_values(|s: String| s@) == first_occurrences(
                seasons(items@.subrange(0, i as int)),
            ),
        decreases items@.len() - i,
    {
        let ghost before = items@.subrange(0, i as int);
        let ghost after = items@.subrange(0, i + 1);
        proof {
            assert(seasons(after).drop_last() =~= seasons(before));
            assert(seasons(after).last() == items@[i as int].season@);
        }
        let label = &items[i].season;
        match position_of(&labels, label) {
            Some(k) => {
                proof {
                    let ghost lv = labels@.map_values(|s: String| s@);
                    assert(lv[k as int] == label@);
                    assert(lv.contains(label@));
                    assert(seasons(after).drop_last() == seasons(before));
                }
            },
            None => {
                proof {
                    let ghost lv = labels@.map_values(|s: String| s@);
                    assert forall|k: int| 0 <= k < labels@.len() implies #[trigger] lv[k]
                        != label@ by {
                        assert(lv[k] == labels@[k]@);
                    }
                }
                labels.push(label.clone());
                proof {
                    assert(labels@.map_values(|s: String| s@) =~= first_occurrences(
                        seasons(before),
                    ).push(label@));
                }
            },
        }
        i = i + 1;
    }
    proof {
        assert(items@.subrange(0, items@.len() as int) =~= items@);
        lemma_first_occurrences(seasons(items@));
    }
    let mut scores: Vec<Vec<Score>> = Vec::new();
    let mut s: usize = 0;
    while s < labels.len()
        invariant
            s <= labels@.len(),
            scores@.len() == s,
            forall|k: int|
                0 <= k < items@.len() ==> item_node_mapping@.contains(
                    #[trigger] items@[k].item_purchased@,
                ),
            forall|q: int|
                #![trigger scores@[q]]
                0 <= q < s ==> scores_of(
                    scores@[q]@,
                    in_segment(items@, labels@[q]@),
                    *graph,
                    item_node_mapping@,
                ),
        decreases labels@.len() - s,
    {
        let nodes = segment_nodes(items, item_node_mapping, &labels[s]);
        let count = nodes.len();
        let ghost entries = in_segment(items@, labels@[s as int]@);
        let mut row: Vec<Score> = Vec::new();
        let mut t: usize = 0;
        while t < count
            invariant
                count == nodes@.len(),
                count == entries.len(),
                t <= count,
                row@.len() == t,
                forall|u: int|
                    #![trigger nodes@[u]]
                    0 <= u < nodes@.len() ==> nodes@[u] < item_node_mapping@.len()
                        && item_node_mapping@[nodes@[u] as int] == entries[u].item_purchased@,
                forall|u: int|
                    #![trigger row@[u]]
                    0 <= u < t ==> {
                        &&& row@[u].node == nodes@[u]
                        &&& row@[u].degree == successors(graph.edges(), row@[u].node).len()
                        &&& row@[u].others == count - 1
                    },
            decreases count - t,
        {
            let node = nodes[t];
            let degree = graph.out_degree(node);
            row.push(Score { node, degree, others: count - 1 });
            t = t + 1;
        }
        proof {
            assert forall|u: int| #![trigger row@[u]] 0 <= u < row@.len() implies {
                &&& row@[u].node < item_node_mapping@.len()
                &&& item_node_mapping@[row@[u].node as int] == entries[u].item_purchased@
            } by {
                assert(nodes@[u] == nodes@[u]);
            }
        }
        scores.push(row);
        proof {
            assert(scores@[s as int] == row);
        }
        s = s + 1;
    }
    SegmentCentrality { labels, scores }
}

} // verus!
