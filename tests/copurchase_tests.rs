use copurchase::centrality;
use copurchase::centrality::Score;
use copurchase::graph;
use copurchase::Item;

fn item(id: &str, category: &str, season: &str) -> Item {
    Item {
        item_purchased: id.to_string(),
        category: category.to_string(),
        season: season.to_string(),
        ..Default::default()
    }
}

fn value(s: &Score) -> f64 {
    s.degree as f64 / s.others as f64
}

fn sample_items() -> Vec<Item> {
    vec![
        Item {
            customer_id: 1,
            item_purchased: "T-shirt".to_string(),
            category: "Clothing".to_string(),
            season: "Summer".to_string(),
            ..Default::default()
        },
        Item {
            customer_id: 2,
            item_purchased: "Jeans".to_string(),
            category: "Clothing".to_string(),
            season: "Winter".to_string(),
            ..Default::default()
        },
        Item {
            customer_id: 3,
            item_purchased: "Sunglasses".to_string(),
            category: "Accessories".to_string(),
            season: "Summer".to_string(),
            ..Default::default()
        },
    ]
}

#[test]
fn test_seasonal_centrality() {
    let items = sample_items();
    let (graph, item_mapping) = graph::build_graph(&items);

    let seasonal_centrality =
        centrality::calculate_seasonal_degree_centrality(&graph, &items, &item_mapping);

    assert!(seasonal_centrality.contains_key("Summer"));
    assert!(seasonal_centrality.contains_key("Winter"));

    let summer_scores = seasonal_centrality.get("Summer").unwrap();
    assert_eq!(summer_scores.len(), 2);

    let winter_scores = seasonal_centrality.get("Winter").unwrap();
    assert_eq!(winter_scores.len(), 1);
}

#[test]
fn test_duplicate_items_handling() {
    let mut items = sample_items();
    items.push(Item {
        customer_id: 4,
        item_purchased: "T-shirt".to_string(),
        category: "Clothing".to_string(),
        season: "Summer".to_string(),
        ..Default::default()
    });

    let (graph, item_mapping) = graph::build_graph(&items);

    assert_eq!(graph.node_count(), 3);
    assert!(item_mapping.contains_key("T-shirt"));
    assert!(item_mapping.contains_key("Jeans"));
}

#[test]
fn test_no_edges_with_different_categories() {
    let items = vec![
        Item {
            item_purchased: "T-shirt".to_string(),
            category: "Clothing".to_string(),
            ..Default::default()
        },
        Item {
            item_purchased: "Shoes".to_string(),
            category: "Footwear".to_string(),
            ..Default::default()
        },
    ];

    let (graph, _) = graph::build_graph(&items);

    assert_eq!(graph.node_count(), 2);
    assert_eq!(graph.edge_count(), 0);
}

#[test]
fn two_items_of_one_category_are_linked_both_ways() {
    let items = vec![item("T-shirt", "Clothing", ""), item("Jeans", "Clothing", "")];
    let (graph, mapping) = graph::build_graph(&items);
    assert_eq!(graph.node_count(), 2);
    let t = mapping.get("T-shirt").unwrap();
    let j = mapping.get("Jeans").unwrap();
    assert!(graph.contains_edge(t, j));
    assert!(graph.contains_edge(j, t));
    let scores = centrality::calculate_degree_centrality(&graph);
    assert_eq!(scores.len(), 2);
    assert_eq!(value(&scores[t]), 1.0);
    assert_eq!(value(&scores[j]), 1.0);
}

#[test]
fn unrelated_item_is_isolated() {
    let items = vec![
        item("T-shirt", "Clothing", ""),
        item("Jeans", "Clothing", ""),
        item("Sunglasses", "Accessories", ""),
    ];
    let (graph, mapping) = graph::build_graph(&items);
    let t = mapping.get("T-shirt").unwrap();
    let j = mapping.get("Jeans").unwrap();
    let s = mapping.get("Sunglasses").unwrap();
    assert!(graph.contains_edge(t, j));
    assert!(graph.contains_edge(j, t));
    assert!(!graph.contains_edge(s, t));
    assert!(!graph.contains_edge(t, s));
    assert_eq!(graph.out_degree(s), 0);
    assert_eq!(graph.edge_count(), 2);
    let scores = centrality::calculate_degree_centrality(&graph);
    assert_eq!(value(&scores[t]), 0.5);
    assert_eq!(value(&scores[j]), 0.5);
    assert_eq!(value(&scores[s]), 0.0);
    assert_eq!(scores[s], Score { node: s, degree: 0, others: 2 });
}

#[test]
fn different_categories_score_zero() {
    let items = vec![item("T-shirt", "Clothing", ""), item("Shoes", "Footwear", "")];
    let (graph, _) = graph::build_graph(&items);
    assert_eq!(graph.edge_count(), 0);
    let scores = centrality::calculate_degree_centrality(&graph);
    assert_eq!(value(&scores[0]), 0.0);
    assert_eq!(value(&scores[1]), 0.0);
}

#[test]
fn nodes_are_numbered_by_first_occurrence() {
    let items = vec![
        item("B", "x", ""),
        item("A", "y", ""),
        item("B", "y", ""),
        item("C", "x", ""),
    ];
    let (graph, mapping) = graph::build_graph(&items);
    assert_eq!(graph.node_count(), 3);
    assert_eq!(mapping.len(), 3);
    assert_eq!(mapping.get("B"), Some(0));
    assert_eq!(mapping.get("A"), Some(1));
    assert_eq!(mapping.get("C"), Some(2));
    assert_eq!(mapping.get("D"), None);
    assert_eq!(mapping.item_of(2), Some("C".to_string()));
    assert_eq!(mapping.item_of(3), None);
    // B and C share "x"; A and B share "y".
    assert!(graph.contains_edge(0, 2) && graph.contains_edge(2, 0));
    assert!(graph.contains_edge(0, 1) && graph.contains_edge(1, 0));
    assert!(!graph.contains_edge(1, 2));
    assert_eq!(graph.edge_count(), 4);
}

#[test]
fn repeated_item_makes_no_self_loop() {
    let items = vec![
        item("T-shirt", "Clothing", ""),
        item("T-shirt", "Clothing", ""),
        item("Jeans", "Clothing", ""),
    ];
    let (graph, _) = graph::build_graph(&items);
    assert_eq!(graph.node_count(), 2);
    assert!(!graph.contains_edge(0, 0));
    assert!(!graph.contains_edge(1, 1));
    assert_eq!(graph.edge_count(), 2);
}

#[test]
fn one_category_gives_complete_graph() {
    let items = vec![
        item("a", "c", ""),
        item("b", "c", ""),
        item("c", "c", ""),
        item("a", "c", ""),
        item("d", "c", ""),
    ];
    let (graph, _) = graph::build_graph(&items);
    assert_eq!(graph.node_count(), 4);
    assert_eq!(graph.edge_count(), 12);
    let scores = centrality::calculate_degree_centrality(&graph);
    for s in &scores {
        assert_eq!(value(s), 1.0);
    }
}

#[test]
fn segment_scores_use_whole_graph_degree() {
    let items = sample_items();
    let (graph, mapping) = graph::build_graph(&items);
    let seasonal = centrality::calculate_seasonal_degree_centrality(&graph, &items, &mapping);
    assert_eq!(seasonal.len(), 2);
    assert_eq!(seasonal.labels, vec!["Summer".to_string(), "Winter".to_string()]);
    let summer = seasonal.get("Summer").unwrap();
    let t = mapping.get("T-shirt").unwrap();
    let s = mapping.get("Sunglasses").unwrap();
    assert_eq!(summer[0], Score { node: t, degree: 1, others: 1 });
    assert_eq!(summer[1], Score { node: s, degree: 0, others: 1 });
    assert_eq!(value(&summer[0]), 1.0);
    let winter = seasonal.get("Winter").unwrap();
    let j = mapping.get("Jeans").unwrap();
    assert_eq!(winter[0], Score { node: j, degree: 1, others: 0 });
    assert!(value(&winter[0]).is_infinite());
    assert!(seasonal.get("Autumn").is_none());
    assert!(!seasonal.contains_key("Autumn"));
}

#[test]
fn repeated_purchase_counts_in_segment_denominator() {
    let mut items = sample_items();
    items.push(item("T-shirt", "Clothing", "Summer"));
    let (graph, mapping) = graph::build_graph(&items);
    let seasonal = centrality::calculate_seasonal_degree_centrality(&graph, &items, &mapping);
    let summer = seasonal.get("Summer").unwrap();
    assert_eq!(summer.len(), 3);
    assert_eq!(summer[0].others, 2);
    assert_eq!(value(&summer[0]), 0.5);
    assert_eq!(summer[2].node, mapping.get("T-shirt").unwrap());
}

#[test]
fn single_node_score_is_not_a_number() {
    let items = vec![item("T-shirt", "Clothing", "Summer")];
    let (graph, _) = graph::build_graph(&items);
    let scores = centrality::calculate_degree_centrality(&graph);
    assert_eq!(scores.len(), 1);
    assert_eq!(scores[0], Score { node: 0, degree: 0, others: 0 });
    assert!(value(&scores[0]).is_nan());
}

#[test]
fn empty_input_gives_empty_results() {
    let items: Vec<Item> = Vec::new();
    let (graph, mapping) = graph::build_graph(&items);
    assert_eq!(graph.node_count(), 0);
    assert_eq!(graph.edge_count(), 0);
    assert_eq!(mapping.len(), 0);
    assert!(centrality::calculate_degree_centrality(&graph).is_empty());
    let seasonal = centrality::calculate_seasonal_degree_centrality(&graph, &items, &mapping);
    assert_eq!(seasonal.len(), 0);
}
