use coro_engine::rand_graph::{
    generate_random_dag, generate_random_simply_connected_dag, DAGGenerator, Ratio,
};
use coro_engine::toposort::AdjacencyGraph;
use rand::rngs::SmallRng;
use rand::{Rng, SeedableRng};

#[test]
fn g() {
    let mut g = AdjacencyGraph::default();
    let a = g.add_vertex();
    let b = g.add_vertex();
    let c = g.add_vertex();
    let d = g.add_vertex();
    let e = g.add_vertex();
    let f = g.add_vertex();

    g.add_edge(a, b);
    g.add_edge(b, c);
    g.add_edge(c, d);
    g.add_edge(d, e);
    g.add_edge(e, f);

    g.toposort();
}

#[test]
fn g2() {
    let mut rng = SmallRng::seed_from_u64(3565);
    for i in 0..500 {
        println!("{}", i);
        let a = rng.random_range(1..1000);
        let g: AdjacencyGraph = AdjacencyGraph::from_generator(
            &generate_random_simply_connected_dag(
                &mut rng,
                a,
                None,
                Ratio { numerator: 2, denominator: 3 },
            ),
        );

        let t = g.toposort();

        let g2 = g.reverse();

        let mut visited = vec![false; g.len()];
        for t in t {
            assert!(g2.edges_from(t.index()).iter().all(|v| visited[v.index()]));
            visited[t.index()] = true;
        }
    }
}

#[test]
fn test_generate_random_graph() {
    let mut rng = SmallRng::seed_from_u64(54542475);
    generate_random_dag(&mut rng, 5, None);
}

#[test]
fn chain_is_sorted_in_order() {
    let mut g = AdjacencyGraph::default();
    let a = g.add_vertex();
    let b = g.add_vertex();
    let c = g.add_vertex();
    g.add_edge(a, b);
    g.add_edge(b, c);
    let order = g.toposort();
    let idx: Vec<usize> = order.iter().map(|v| v.index()).collect();
    assert_eq!(idx, vec![0, 1, 2]);
}

#[test]
fn a_cycle_is_never_fully_emitted() {
    let mut g = AdjacencyGraph::default();
    let a = g.add_vertex();
    let b = g.add_vertex();
    let c = g.add_vertex();
    g.add_edge(a, b);
    g.add_edge(b, a);
    g.add_edge(a, c);
    let order = g.toposort();
    // only the vertex outside the cycle can appear, and it cannot: it hangs
    // off the cycle
    assert!(order.len() < 3);
}

#[test]
fn reverse_turns_edges_around() {
    let mut g = AdjacencyGraph::default();
    let a = g.add_vertex();
    let b = g.add_vertex();
    g.add_edge(a, b);
    let r = g.reverse();
    assert_eq!(r.len(), 2);
    let back = r.edges_from(b.index());
    assert_eq!(back.len(), 1);
    assert_eq!(back[0].index(), a.index());
    assert!(r.edges_from(a.index()).is_empty());
}

#[test]
fn generator_edges_and_cycle_rejection() {
    let mut g = DAGGenerator::new_empty(3);
    assert_eq!(g.vertex_count(), 3);
    assert_eq!(g.edge_count(), 0);
    assert_eq!(g.try_insert_edge((0, 1)), Some(()));
    assert_eq!(g.try_insert_edge((1, 2)), Some(()));
    assert_eq!(g.edge_count(), 2);
    assert!(g.has_edge((0, 1)));
    // closing the cycle 2 -> 0 is refused
    assert_eq!(g.try_insert_edge((2, 0)), None);
    assert!(!g.has_edge((2, 0)));
    // but the chord 0 -> 2 is fine
    assert_eq!(g.try_insert_edge((0, 2)), Some(()));
    assert_eq!(g.edge_count(), 3);
    assert!(g.connected(0, 2));
    assert!(!g.connected(2, 0));
    g.remove_edge((0, 1));
    assert!(!g.has_edge((0, 1)));
    assert_eq!(g.edge_count(), 2);
    let listed = g.iter_edges();
    assert_eq!(listed, vec![(0, 2), (1, 2)]);
}

#[test]
fn dot_output_is_exact() {
    let mut g = DAGGenerator::new_empty(12);
    assert_eq!(g.try_insert_edge((10, 11)), Some(()));
    assert_eq!(g.try_insert_edge((0, 11)), Some(()));
    let dot = g.to_dot();
    assert_eq!(String::from_utf8(dot).unwrap(), "digraph {\n\t0 -> 11\n\t10 -> 11\n}");
}
