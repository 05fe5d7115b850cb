use graph_builder::gen;
use graph_builder::GenerateError;
use graph_builder::GenerateSettings;

fn big() -> GenerateSettings {
    GenerateSettings { max_nodes: 1000, max_edges: 1000 }
}

#[test]
fn seed_passes_through_untouched() {
    let nodes: Vec<u64> = vec![10, 20];
    let edges: Vec<([usize; 2], u64)> = vec![([0, 1], 5)];
    let r: Result<_, (_, GenerateError)> = gen(
        (nodes.clone(), edges.clone()),
        0,
        |_t: &u64, _s: usize| Err(GenerateError::MaxNodes),
        |_t: &u64| true,
        |_x: &u64, _y: &u64| Err(None),
        &big(),
    );
    assert_eq!(r, Ok((nodes, edges)));
}

#[test]
fn composition_bridges_a_removed_node() {
    let nodes: Vec<u64> = vec![10, 20, 30];
    let edges: Vec<([usize; 2], u64)> = vec![([0, 1], 1), ([1, 2], 2)];
    let r: Result<_, (_, GenerateError)> = gen(
        (nodes, edges),
        0,
        |_t: &u64, _s: usize| Err(GenerateError::MaxNodes),
        |t: &u64| *t != 20,
        |x: &u64, y: &u64| {
            if *x == 1 && *y == 2 {
                Ok(3)
            } else {
                Err(None)
            }
        },
        &big(),
    );
    assert_eq!(r, Ok((vec![10, 30], vec![([0, 1], 3)])));
}

#[test]
fn repeated_runs_agree() {
    type RunGraph = (Vec<u64>, Vec<([usize; 2], u64)>);
    let run = || -> Result<RunGraph, (RunGraph, GenerateError)> {
        gen(
            (vec![1u64], Vec::new()),
            2,
            |t: &u64, s: usize| Ok((t * 2 + s as u64 + 1, s as u64)),
            |t: &u64| t % 2 == 1,
            |x: &u64, y: &u64| Ok(x + y),
            &GenerateSettings { max_nodes: 6, max_edges: 20 },
        )
    };
    assert_eq!(run(), run());
}

#[test]
fn equal_candidates_converge_on_one_index() {
    let r: Result<_, (_, GenerateError)> = gen(
        (vec![1u64], Vec::new()),
        2,
        |_t: &u64, s: usize| Ok((5u64, s as u64)),
        |_t: &u64| true,
        |_x: &u64, _y: &u64| Err(None),
        &big(),
    );
    let (nodes, edges) = r.unwrap();
    assert_eq!(nodes, vec![1, 5]);
    // The appended node is expanded in turn; every edge converges on index 1.
    assert_eq!(edges, vec![([0, 1], 0), ([0, 1], 1), ([1, 1], 0), ([1, 1], 1)]);
}

#[test]
fn candidate_equal_to_a_seed_node_reuses_its_index() {
    let r: Result<_, (_, GenerateError)> = gen(
        (vec![1u64, 2], Vec::new()),
        1,
        |_t: &u64, _s: usize| Ok((2u64, 9u64)),
        |_t: &u64| true,
        |_x: &u64, _y: &u64| Err(None),
        &big(),
    );
    let (nodes, edges) = r.unwrap();
    assert_eq!(nodes, vec![1, 2]);
    assert_eq!(edges, vec![([0, 1], 9), ([1, 1], 9)]);
}

#[test]
fn node_ceiling_stops_expansion() {
    let r: Result<_, (_, GenerateError)> = gen(
        (vec![0u64], Vec::new()),
        1,
        |t: &u64, _s: usize| Ok((t + 1, 0u64)),
        |_t: &u64| true,
        |_x: &u64, _y: &u64| Err(None),
        &GenerateSettings { max_nodes: 3, max_edges: 100 },
    );
    let (graph, err) = r.unwrap_err();
    assert_eq!(err, GenerateError::MaxNodes);
    assert!(graph.0.len() <= 3);
    assert_eq!(graph.0, vec![0, 1, 2]);
}

#[test]
fn edge_ceiling_stops_expansion() {
    let r: Result<_, (_, GenerateError)> = gen(
        (vec![0u64], Vec::new()),
        5,
        |t: &u64, s: usize| Ok((t + 1 + s as u64, s as u64)),
        |_t: &u64| true,
        |_x: &u64, _y: &u64| Err(None),
        &GenerateSettings { max_nodes: 100, max_edges: 2 },
    );
    let (graph, err) = r.unwrap_err();
    assert_eq!(err, GenerateError::MaxEdges);
    assert!(graph.1.len() <= 2);
}

#[derive(Debug, Clone, Copy, PartialEq, Eq)]
enum RunError {
    Ceiling(GenerateError),
    Inapplicable,
}

impl From<GenerateError> for RunError {
    fn from(e: GenerateError) -> RunError {
        RunError::Ceiling(e)
    }
}

#[test]
fn first_error_wins_over_a_later_ceiling() {
    let r: Result<_, (_, RunError)> = gen(
        (vec![0u64], Vec::new()),
        2,
        |t: &u64, s: usize| {
            if s == 0 {
                Err(RunError::Inapplicable)
            } else {
                Ok((t + 1, 1u64))
            }
        },
        |_t: &u64| true,
        |_x: &u64, _y: &u64| Err(None),
        &GenerateSettings { max_nodes: 100, max_edges: 1 },
    );
    let (_, err) = r.unwrap_err();
    assert_eq!(err, RunError::Inapplicable);
}

#[test]
fn no_edge_references_a_filtered_node() {
    let r: Result<_, (_, GenerateError)> = gen(
        (vec![1u64], Vec::new()),
        3,
        |t: &u64, s: usize| Ok((t + s as u64 + 1, s as u64)),
        |t: &u64| t % 2 == 1,
        |x: &u64, y: &u64| Ok(x + y),
        &GenerateSettings { max_nodes: 8, max_edges: 40 },
    );
    let (nodes, edges) = match r {
        Ok(g) => g,
        Err((g, _)) => g,
    };
    for node in &nodes {
        assert!(node % 2 == 1);
    }
    for ([a, b], _) in &edges {
        assert!(*a < nodes.len());
        assert!(*b < nodes.len());
    }
}

#[test]
fn compose_can_drop_silently_and_report_errors() {
    // One removed node with two outgoing edges: one composition succeeds,
    // one is declined silently; a third through another removed node fails.
    let nodes: Vec<u64> = vec![1, 2, 4, 5, 6];
    let edges: Vec<([usize; 2], u64)> =
        vec![([0, 1], 1), ([1, 2], 2), ([1, 3], 7), ([0, 4], 8), ([4, 3], 9)];
    let r: Result<_, (_, GenerateError)> = gen(
        (nodes, edges),
        0,
        |_t: &u64, _s: usize| Err(GenerateError::MaxNodes),
        |t: &u64| *t != 2 && *t != 6,
        |x: &u64, y: &u64| {
            if *x == 1 && *y == 2 {
                Ok(3)
            } else if *x == 1 && *y == 7 {
                Err(None)
            } else {
                Err(Some(GenerateError::MaxEdges))
            }
        },
        &big(),
    );
    let (graph, err) = r.unwrap_err();
    assert_eq!(err, GenerateError::MaxEdges);
    assert_eq!(graph.0, vec![1, 4, 5]);
    // The composed edge 0 -> 2 (label 3) survives compaction.
    assert!(graph.1.contains(&([0, 1], 3)));
    for ([a, b], _) in &graph.1 {
        assert!(*a < graph.0.len() && *b < graph.0.len());
    }
}

#[test]
fn error_messages_name_the_ceiling() {
    assert_eq!(GenerateError::MaxNodes.message(), "Reached limit maximum number of nodes");
    assert_eq!(GenerateError::MaxEdges.message(), "Reached limit maximum number of edges");
}

#[test]
fn unit_type_can_absorb_the_error() {
    let r: Result<_, (_, ())> = gen(
        (vec![0u64], Vec::new()),
        1,
        |t: &u64, _s: usize| Ok((t + 1, 0u64)),
        |_t: &u64| true,
        |_x: &u64, _y: &u64| Err(None),
        &GenerateSettings { max_nodes: 2, max_edges: 100 },
    );
    let (graph, ()) = r.unwrap_err();
    assert_eq!(graph.0, vec![0, 1]);
}

#[test]
fn settings_are_plain_data() {
    let s = GenerateSettings { max_nodes: 3, max_edges: 4 };
    let t = s.clone();
    assert_eq!(s, t);
    assert_eq!(t.max_nodes, 3);
    assert_eq!(t.max_edges, 4);
    assert!(GenerateError::MaxNodes < GenerateError::MaxEdges);
}

#[test]
fn a_chain_of_two_removed_nodes_resolves_through_composed_edges() {
    // A -> B -> C -> D with B and C removed: composing A->B with B->C
    // yields A->C, which is itself re-examined and composed with C->D,
    // so the surviving graph keeps a direct A->D edge.
    let nodes: Vec<u64> = vec![10, 20, 30, 40];
    let edges: Vec<([usize; 2], u64)> = vec![([0, 1], 1), ([1, 2], 2), ([2, 3], 4)];
    let r: Result<_, (_, GenerateError)> = gen(
        (nodes, edges),
        0,
        |_t: &u64, _s: usize| Err(GenerateError::MaxNodes),
        |t: &u64| *t == 10 || *t == 40,
        |x: &u64, y: &u64| Ok(x + y),
        &big(),
    );
    let (nodes, edges) = r.unwrap();
    assert_eq!(nodes, vec![10, 40]);
    assert_eq!(edges, vec![([0, 1], 7)]);
}

#[test]
fn removing_every_node_leaves_an_empty_graph() {
    let r: Result<_, (_, GenerateError)> = gen(
        (vec![10u64, 20], vec![([0, 1], 1u64)]),
        0,
        |_t: &u64, _s: usize| Err(GenerateError::MaxNodes),
        |_t: &u64| false,
        |x: &u64, y: &u64| Ok(x + y),
        &big(),
    );
    let (nodes, edges) = r.unwrap();
    assert_eq!(nodes, Vec::new());
    assert_eq!(edges, Vec::new());
}
