use genre_centrality::centrality::calculate_betweenness_centrality;
use genre_centrality::centrality::calculate_degree_centrality;
use genre_centrality::graph::create_genre_graph;
use genre_centrality::graph::GenreGraph;
use genre_centrality::labels::split_genre_labels;

fn degree_of(centrality: &Vec<(String, usize)>, name: &str) -> usize {
    for (label, d) in centrality {
        if label == name {
            return *d;
        }
    }
    panic!("no entry for {}", name);
}

fn betweenness_of(scores: &Vec<(String, genre_centrality::centrality::Score)>, name: &str) -> f64 {
    for (label, s) in scores {
        if label == name {
            return s.num as f64 / s.den as f64;
        }
    }
    panic!("no entry for {}", name);
}

// A record whose genre field is blank contributes nothing.
#[test]
fn test_empty_genre() {
    let movies = vec![String::from("")];
    let graph = create_genre_graph(&movies);
    assert_eq!(
        graph.node_count(),
        0,
        "Graph should have no nodes when there is no genres provided"
    );
    assert_eq!(
        graph.edge_count(),
        0,
        "Graph should have no edges when there is no genres provided"
    )
}

fn create_test_graph() -> GenreGraph {
    let mut graph = GenreGraph::new();
    let action = graph.add_node("Action".to_string());
    let comedy = graph.add_node("Comedy".to_string());
    let drama = graph.add_node("Drama".to_string());
    let romance = graph.add_node("Romance".to_string());

    graph.add_edge(action, comedy);
    graph.add_edge(comedy, drama);
    graph.add_edge(drama, action);
    graph.add_edge(romance, drama);

    graph
}

#[test]
fn test_cal_degree_centrality() {
    let graph = create_test_graph();
    let centrality = calculate_degree_centrality(&graph);

    // Distinct incident edges per node: Drama additionally touches
    // Romance, Romance touches only Drama.
    assert_eq!(degree_of(&centrality, "Action"), 2);
    assert_eq!(degree_of(&centrality, "Comedy"), 2);
    assert_eq!(degree_of(&centrality, "Drama"), 3);
    assert_eq!(degree_of(&centrality, "Romance"), 1);
}

#[test]
fn test_betweenness() {
    let graph = create_test_graph();
    let centrality = calculate_betweenness_centrality(&graph);

    // Drama is the only cut vertex: the unique shortest paths from
    // Romance to Action and to Comedy run through it.
    let expected = vec![
        ("Comedy".to_string(), 0.0),
        ("Drama".to_string(), 0.3333),
        ("Action".to_string(), 0.0),
        ("Romance".to_string(), 0.0),
    ];

    for (genre, expected_centrality) in expected.iter() {
        assert!(
            (betweenness_of(&centrality, genre) - expected_centrality).abs() < 0.01,
            "Centrality for {} should be close to {}",
            genre,
            expected_centrality
        );
    }
}

// Building from records whose label lists are all blank yields an
// empty graph.
#[test]
fn all_blank_records_yield_empty_graph() {
    let movies = vec![
        String::from(""),
        String::from("   "),
        String::from(" , ,, "),
        String::from("\t,\t"),
    ];
    let graph = create_genre_graph(&movies);
    assert_eq!(graph.node_count(), 0);
    assert_eq!(graph.edge_count(), 0);
}

// Two labels co-occurring in k records get an edge of weight exactly k.
#[test]
fn edge_weight_accumulates_per_record() {
    let movies = vec![
        String::from("Action, Comedy"),
        String::from("Action, Comedy"),
        String::from("Comedy , Action"),
    ];
    let graph = create_genre_graph(&movies);
    assert_eq!(graph.node_count(), 2);
    assert_eq!(graph.edge_count(), 1);
    assert_eq!(graph.edges[0].weight, 3);
}

// The degrees of all nodes sum to twice the number of distinct edges.
#[test]
fn degree_sum_is_twice_edge_count() {
    let graph = create_test_graph();
    let centrality = calculate_degree_centrality(&graph);
    let total: usize = centrality.iter().map(|(_, d)| *d).sum();
    assert_eq!(total, 2 * graph.edge_count());
}

// With fewer than three nodes every betweenness score is zero; with
// three or more every score stays within [0, 1].
#[test]
fn betweenness_range() {
    let mut two = GenreGraph::new();
    let a = two.add_node("Action".to_string());
    let b = two.add_node("Comedy".to_string());
    two.add_edge(a, b);
    for (_, s) in calculate_betweenness_centrality(&two) {
        assert_eq!(s.num, 0);
    }

    let mut path = GenreGraph::new();
    let a = path.add_node("Action".to_string());
    let b = path.add_node("Comedy".to_string());
    let c = path.add_node("Drama".to_string());
    path.add_edge(a, b);
    path.add_edge(b, c);
    let scores = calculate_betweenness_centrality(&path);
    for (_, s) in &scores {
        let v = s.num as f64 / s.den as f64;
        assert!(0.0 <= v && v <= 1.0);
    }
    // The middle of a three-node path carries both ordered pairs of its
    // ends: 2 of the (n-1)(n-2) = 2 pair slots, halved for direction.
    assert!((betweenness_of(&scores, "Comedy") - 0.5).abs() < 1e-9);
    assert!((betweenness_of(&scores, "Action") - 0.0).abs() < 1e-9);
}

// A node with no edges has degree 0 and betweenness 0.
#[test]
fn isolated_node_scores_zero() {
    let movies = vec![String::from("Action, Comedy"), String::from("Drama")];
    let graph = create_genre_graph(&movies);
    assert_eq!(graph.node_count(), 3);
    assert_eq!(graph.edge_count(), 1);
    let degrees = calculate_degree_centrality(&graph);
    assert_eq!(degree_of(&degrees, "Drama"), 0);
    let scores = calculate_betweenness_centrality(&graph);
    assert_eq!(betweenness_of(&scores, "Drama"), 0.0);
}

// Scenario: four records build the diamond with Drama as cut vertex.
#[test]
fn scenario_records_build_expected_graph() {
    let movies = vec![
        String::from("Action, Comedy"),
        String::from("Comedy, Drama"),
        String::from("Drama, Action"),
        String::from("Romance, Drama"),
    ];
    let graph = create_genre_graph(&movies);
    assert_eq!(graph.node_count(), 4);
    assert_eq!(graph.edge_count(), 4);
    for e in &graph.edges {
        assert_eq!(e.weight, 1);
    }
    let degrees = calculate_degree_centrality(&graph);
    assert_eq!(degree_of(&degrees, "Drama"), 3);
    let scores = calculate_betweenness_centrality(&graph);
    assert!((betweenness_of(&scores, "Drama") - 0.3333).abs() < 0.01);
    assert!((betweenness_of(&scores, "Action") - 0.0).abs() < 1e-9);
    assert!((betweenness_of(&scores, "Comedy") - 0.0).abs() < 1e-9);
    assert!((betweenness_of(&scores, "Romance") - 0.0).abs() < 1e-9);
}

// Scenario: one blank record gives an empty graph and empty mappings.
#[test]
fn scenario_blank_record_empty_mappings() {
    let movies = vec![String::from("")];
    let graph = create_genre_graph(&movies);
    assert_eq!(graph.node_count(), 0);
    assert_eq!(graph.edge_count(), 0);
    assert_eq!(calculate_degree_centrality(&graph).len(), 0);
    assert_eq!(calculate_betweenness_centrality(&graph).len(), 0);
}

// Surrounding whitespace is trimmed from each label.
#[test]
fn labels_are_trimmed() {
    let labels = split_genre_labels("  Action ,\tComedy  ");
    assert_eq!(labels, vec!["Action".to_string(), "Comedy".to_string()]);
    let graph = create_genre_graph(&vec![String::from("  Action ,\tComedy  ")]);
    assert_eq!(graph.labels, vec!["Action".to_string(), "Comedy".to_string()]);
    assert_eq!(graph.edge_count(), 1);
}

// A label repeated within one record pairs a node with itself; the
// self-pair is skipped.
#[test]
fn duplicate_label_in_record_adds_no_edge() {
    let graph = create_genre_graph(&vec![String::from("Action, Action")]);
    assert_eq!(graph.node_count(), 1);
    assert_eq!(graph.edge_count(), 0);
}

// Splitting keeps only the nonempty trimmed pieces, in order.
#[test]
fn split_drops_blank_pieces() {
    assert_eq!(split_genre_labels(""), Vec::<String>::new());
    assert_eq!(split_genre_labels(" , ,"), Vec::<String>::new());
    assert_eq!(
        split_genre_labels("a,, b ,c"),
        vec!["a".to_string(), "b".to_string(), "c".to_string()]
    );
}

// Edge weights never influence betweenness: repeating records raises
// weights but leaves the topology, and so every score, unchanged.
#[test]
fn betweenness_ignores_edge_weights() {
    let once = vec![
        String::from("Action, Comedy"),
        String::from("Comedy, Drama"),
        String::from("Drama, Action"),
        String::from("Romance, Drama"),
    ];
    let mut thrice = Vec::new();
    for _ in 0..3 {
        for r in &once {
            thrice.push(r.clone());
        }
    }
    let g1 = create_genre_graph(&once);
    let g2 = create_genre_graph(&thrice);
    assert_eq!(g1.labels, g2.labels);
    assert_eq!(g1.edge_count(), g2.edge_count());
    assert_eq!(g2.edges[0].weight, 3);
    let s1 = calculate_betweenness_centrality(&g1);
    let s2 = calculate_betweenness_centrality(&g2);
    assert_eq!(s1.len(), s2.len());
    for (a, b) in s1.iter().zip(s2.iter()) {
        assert_eq!(a.0, b.0);
        assert_eq!(a.1.num, b.1.num);
        assert_eq!(a.1.den, b.1.den);
    }
}

// An isolated node never blocks traversal of the others: adding one
// changes only the normalization divisor, not the accumulated totals.
#[test]
fn isolated_node_does_not_block_others() {
    let raw = |scores: &Vec<(String, genre_centrality::centrality::Score)>,
               name: &str,
               n: usize|
     -> f64 {
        let mut v = 0.0;
        for (label, s) in scores {
            if label == name {
                v = s.num as f64 / s.den as f64;
            }
        }
        v * (2 * (n - 1) * (n - 2)) as f64
    };
    let path = vec![String::from("Action, Comedy"), String::from("Comedy, Drama")];
    let mut with_isolated = path.clone();
    with_isolated.push(String::from("Romance"));
    let g1 = create_genre_graph(&path);
    let g2 = create_genre_graph(&with_isolated);
    let s1 = calculate_betweenness_centrality(&g1);
    let s2 = calculate_betweenness_centrality(&g2);
    for name in ["Action", "Comedy", "Drama"] {
        assert!((raw(&s1, name, 3) - raw(&s2, name, 4)).abs() < 1e-9);
    }
    assert!((raw(&s1, "Comedy", 3) - 2.0).abs() < 1e-9);
}

// Trimming removes the full Unicode whitespace set, as str::trim does.
#[test]
fn labels_are_trimmed_of_unicode_whitespace() {
    let labels = split_genre_labels("\u{A0}Action\u{2003}, \u{3000}Comedy\u{85}\u{200A}");
    assert_eq!(labels, vec!["Action".to_string(), "Comedy".to_string()]);
    let blanks = split_genre_labels("\u{2028}\u{202F}, \u{1680}\u{205F}");
    assert_eq!(blanks, Vec::<String>::new());
}

// Disconnected components are scored independently; nodes of a
// component never sit on shortest paths of another.
#[test]
fn disconnected_components_are_handled() {
    let movies = vec![
        String::from("Action, Comedy"),
        String::from("Comedy, Drama"),
        String::from("Romance, Thriller"),
    ];
    let graph = create_genre_graph(&movies);
    assert_eq!(graph.node_count(), 5);
    assert_eq!(graph.edge_count(), 3);
    let scores = calculate_betweenness_centrality(&graph);
    // Comedy joins Action and Drama: one unordered pair of the
    // (n-1)(n-2) = 12 slots, halved for direction: 1/12.
    assert!((betweenness_of(&scores, "Comedy") - 1.0 / 12.0).abs() < 1e-9);
    assert!((betweenness_of(&scores, "Romance") - 0.0).abs() < 1e-9);
    assert!((betweenness_of(&scores, "Thriller") - 0.0).abs() < 1e-9);
}
