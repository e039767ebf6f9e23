use kneissler_graphs::adjacency::graph_from_adjacency;
use kneissler_graphs::codec::is_g6;
use kneissler_graphs::enumerate::{
    contraction_candidates, cross_join_candidates, is_feasible, partitions, plan_family,
    self_join_candidates, targets, FamilyStep,
};
use kneissler_graphs::graph::Graph;
use rand::Rng;

fn graphs_equal(g1: &Graph, g2: &Graph) -> bool {
    if g1.num_vertices != g2.num_vertices {
        return false;
    }
    let mut e1 = g1.edges.clone();
    let mut e2 = g2.edges.clone();
    e1.sort();
    e2.sort();
    e1 == e2
}

fn path(n: u8) -> Graph {
    let mut g = Graph::new(n);
    for i in 1..n {
        g.add_edge(i - 1, i);
    }
    g
}

#[test]
fn test_random_graphs_g6_roundtrip() {
    let mut rng = rand::rng();
    for _ in 0..10 {
        let n = rng.random_range(1..=20); // keep n small for test speed
        let mut g = Graph::new(n);
        // Randomly add edges
        for u in 0..n {
            for v in (u + 1)..n {
                if rng.random_bool(0.5) {
                    g.add_edge(u, v);
                }
            }
        }
        let g6 = g.to_g6();
        let g2 = Graph::from_g6(&g6);
        let g6_2 = g2.to_g6();
        assert!(
            g6 == g6_2,
            "G6 roundtrip failed: g6={}, back={:?}",
            g6,
            g6_2
        );
        assert!(
            graphs_equal(&g, &g2),
            "Graph roundtrip failed: orig={:?}, g6={}, back={:?}",
            g.edges,
            g6,
            g2.edges
        );
    }
}

#[test]
fn add_edge_puts_smaller_endpoint_first() {
    let mut g = Graph::new(5);
    g.add_edge(3, 1);
    g.add_edge(0, 4);
    assert_eq!(g.edges, vec![(1, 3), (0, 4)]);
    assert_eq!(g.num_vertices(), 5);
    assert_eq!(g.edges().len(), 2);
}

#[test]
fn encode_known_graphs() {
    assert_eq!(Graph::tetrahedron_graph().to_g6(), "C~");
    assert_eq!(path(2).to_g6(), "A_");
    assert_eq!(Graph::new(4).to_g6(), "C?");
    assert_eq!(Graph::new(0).to_g6(), "?");
    assert_eq!(Graph::new(1).to_g6(), "@");
}

#[test]
fn encode_ignores_edge_order() {
    let mut a = Graph::new(4);
    a.add_edge(0, 1);
    a.add_edge(2, 3);
    let mut b = Graph::new(4);
    b.add_edge(3, 2);
    b.add_edge(1, 0);
    assert_eq!(a.to_g6(), b.to_g6());
}

#[test]
fn decode_known_texts() {
    let g = Graph::from_g6("D??");
    assert_eq!(g.num_vertices, 5);
    assert!(g.edges.is_empty());
    let g = Graph::from_g6("D_@");
    assert_eq!(g.edges, vec![(0, 1)]);
    let g = Graph::from_g6("D`?");
    assert_eq!(g.edges, vec![(0, 1), (2, 3)]);
    let g = Graph::from_g6("C~");
    assert_eq!(g.edges, vec![(0, 1), (0, 2), (1, 2), (0, 3), (1, 3), (2, 3)]);
}

#[test]
fn round_trip_of_the_largest_complete_graph() {
    let mut g = Graph::new(62);
    for v in 0..62u8 {
        for u in 0..v {
            g.add_edge(u, v);
        }
    }
    let text = g.to_g6();
    assert_eq!(text.len(), 1 + (62 * 61 / 2 + 5) / 6);
    let back = Graph::from_g6(&text);
    assert!(graphs_equal(&g, &back));
    assert_eq!(back.to_g6(), text);
}

#[test]
fn validity_of_texts() {
    assert!(is_g6("C~"));
    assert!(is_g6("?"));
    assert!(is_g6("D_@"));
    assert!(!is_g6(""));
    assert!(!is_g6(">"));
    assert!(!is_g6("~"));
    assert!(!is_g6("D?"));
    assert!(!is_g6("D?>"));
}

#[test]
fn union_relabels_second_graph() {
    let a = path(3);
    let b = Graph::tetrahedron_graph();
    let u = a.union(&b);
    assert_eq!(u.num_vertices, 7);
    assert_eq!(u.edges.len(), 2 + 6);
    assert_eq!(
        u.edges,
        vec![(0, 1), (1, 2), (3, 4), (3, 5), (3, 6), (4, 5), (4, 6), (5, 6)]
    );
}

#[test]
fn add_edge_across_subdivides_and_sorts() {
    let g = path(3);
    let h = g.add_edge_across(0, 1);
    assert_eq!(h.num_vertices, 5);
    assert_eq!(h.edges.len(), 5);
    assert_eq!(h.edges, vec![(0, 3), (1, 3), (1, 4), (2, 4), (3, 4)]);
    let k = Graph::tetrahedron_graph().add_edge_across(5, 0);
    assert_eq!(k.num_vertices, 6);
    assert_eq!(k.edges.len(), 9);
    assert_eq!(
        k.edges,
        vec![(0, 2), (0, 3), (0, 5), (1, 2), (1, 3), (1, 5), (2, 4), (3, 4), (4, 5)]
    );
}

#[test]
fn contract_edge_merges_parallel_edges() {
    let g = Graph::tetrahedron_graph();
    let mut h = g.contract_edge(0);
    assert_eq!(h.num_vertices, 3);
    h.edges.sort();
    assert_eq!(h.edges, vec![(0, 1), (0, 2), (1, 2)]);
    assert!(g.contract_edge_opt(0).is_none());
}

#[test]
fn contract_edge_opt_on_a_path() {
    let g = path(4);
    let h = g.contract_edge_opt(1).unwrap();
    assert_eq!(h.num_vertices, 3);
    let mut e = h.edges.clone();
    e.sort();
    assert_eq!(e, vec![(0, 1), (1, 2)]);
}

#[test]
fn contract_edge_opt_rejects_a_triangle_collapse() {
    let mut g = Graph::new(4);
    g.add_edge(0, 1);
    g.add_edge(1, 2);
    g.add_edge(0, 2);
    g.add_edge(2, 3);
    assert!(g.contract_edge_opt(0).is_none());
    let h = g.contract_edge_opt(3).unwrap();
    assert_eq!(h.num_vertices, 3);
    assert_eq!(h.edges.len(), 3);
}

#[test]
fn tetrahedron_is_complete() {
    let g = Graph::tetrahedron_graph();
    assert_eq!(g.num_vertices, 4);
    assert_eq!(g.edges, vec![(0, 1), (0, 2), (0, 3), (1, 2), (1, 3), (2, 3)]);
}

#[test]
fn tetrastring_blocks_in_a_cycle() {
    let g = Graph::tetrastring_graph(2);
    assert_eq!(g.num_vertices, 8);
    assert_eq!(
        g.edges,
        vec![
            (0, 1), (0, 2), (1, 2), (1, 3), (2, 3), (0, 4),
            (4, 5), (4, 6), (5, 6), (5, 7), (6, 7), (4, 0),
        ]
    );
    let one = Graph::tetrastring_graph(1);
    assert_eq!(one.edges[5], (0, 0));
}

#[test]
fn feasibility_gate() {
    assert!(!is_feasible(2, 0));
    assert!(!is_feasible(0, 0));
    assert!(!is_feasible(4, 1));
    assert!(is_feasible(4, 0));
    assert!(is_feasible(5, 2));
    assert!(!is_feasible(5, 3));
}

#[test]
fn target_counts() {
    assert_eq!(targets(4, 0), (9, 6));
    assert_eq!(targets(5, 2), (10, 6));
}

#[test]
fn genus_splits() {
    assert_eq!(partitions(10), vec![(5, 5), (6, 4)]);
    assert_eq!(partitions(9), vec![(5, 4)]);
    assert!(partitions(6).is_empty());
    assert!(partitions(3).is_empty());
}

#[test]
fn plan_skips_infeasible_parameters() {
    assert!(matches!(plan_family(2, 0), FamilyStep::Skip));
    assert!(matches!(plan_family(4, 1), FamilyStep::Skip));
    assert!(matches!(plan_family(0, 0), FamilyStep::Skip));
}

#[test]
fn plan_contracts_for_positive_defect() {
    assert!(matches!(plan_family(5, 2), FamilyStep::Contract { last: 6 }));
    assert!(matches!(plan_family(6, 1), FamilyStep::Contract { last: 9 }));
}

#[test]
fn plan_base_layer() {
    match plan_family(9, 0) {
        FamilyStep::Base { seed_blocks, splits, self_join_limit } => {
            assert_eq!(seed_blocks, Some(4));
            assert_eq!(splits, vec![(5, 4)]);
            assert_eq!(self_join_limit, Some(13));
        }
        _ => panic!("expected the base layer"),
    }
    match plan_family(4, 0) {
        FamilyStep::Base { seed_blocks, splits, self_join_limit } => {
            assert_eq!(seed_blocks, None);
            assert!(splits.is_empty());
            assert_eq!(self_join_limit, Some(3));
        }
        _ => panic!("expected the base layer"),
    }
    match plan_family(5, 0) {
        FamilyStep::Base { seed_blocks, splits, self_join_limit } => {
            assert_eq!(seed_blocks, Some(2));
            assert!(splits.is_empty());
            assert_eq!(self_join_limit, Some(5));
        }
        _ => panic!("expected the base layer"),
    }
    assert!(matches!(plan_family(3, 0), FamilyStep::Skip));
}

#[test]
fn base_layer_for_genus_four() {
    let family3 = vec![Graph::from_g6(&Graph::tetrahedron_graph().to_g6())];
    let (_, e) = targets(4, 0);
    let codes = self_join_candidates(&family3, e - 3);
    assert_eq!(codes.len(), 3);
    for c in codes.iter() {
        let g = Graph::from_g6(c);
        assert_eq!(g.num_vertices, 6);
        assert_eq!(g.edges.len(), 9);
    }
    assert!(partitions(4).is_empty());
}

#[test]
fn cross_join_of_two_tetrahedra() {
    let k4 = vec![Graph::tetrahedron_graph()];
    let codes = cross_join_candidates(&k4, &k4);
    assert_eq!(codes.len(), 36);
    for c in codes.iter() {
        let g = Graph::from_g6(c);
        assert_eq!(g.num_vertices, 10);
        assert_eq!(g.edges.len(), 15);
    }
}

#[test]
fn contraction_step_keeps_safe_contractions() {
    let family = vec![path(4), Graph::tetrahedron_graph()];
    let codes = contraction_candidates(&family, 5);
    assert_eq!(codes.len(), 3);
    for c in codes.iter() {
        assert_eq!(c.as_str(), "Bg");
    }
    let limited = contraction_candidates(&family, 0);
    assert_eq!(limited.len(), 1);
}

#[test]
fn decode_through_graph6_rs() {
    let g = Graph::from_g6_ref("A_").unwrap();
    assert_eq!(g.num_vertices, 2);
    assert_eq!(g.edges, vec![(0, 1)]);
    let k = Graph::from_g6_ref("C~").unwrap();
    assert_eq!(k.edges, vec![(0, 1), (0, 2), (0, 3), (1, 2), (1, 3), (2, 3)]);
    assert!(Graph::from_g6_ref(">").is_none());
}

#[test]
fn adjacency_matrix_upper_triangle() {
    let g = graph_from_adjacency(3, &vec![0, 1, 0, 1, 0, 1, 0, 1, 0]);
    assert_eq!(g.num_vertices, 3);
    assert_eq!(g.edges, vec![(0, 1), (1, 2)]);
}

#[test]
fn oracle_example_inputs_fall_in_three_classes() {
    let texts = ["D??", "D_@", "D`?", "D?@"];
    let counts: Vec<usize> = texts
        .iter()
        .map(|t| Graph::from_g6(t).edges.len())
        .collect();
    assert_eq!(counts, vec![0, 1, 2, 0]);
    // the last text only differs from the first in a padding bit
    assert_eq!(Graph::from_g6("D?@").to_g6(), "D??");
}
