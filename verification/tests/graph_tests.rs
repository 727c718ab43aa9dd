use ecs_core::dependency::SystemMetadata;
use ecs_core::graph::DependencyGraph;

const RES_A: u64 = 1;
const RES_B: u64 = 2;
const RES_C: u64 = 3;

fn unit(reads: &[u64], writes: &[u64]) -> SystemMetadata {
    let mut md = SystemMetadata::new();
    if !reads.is_empty() {
        md.push_dependency_metadata(&reads.to_vec(), false).expect("reads accepted");
    }
    if !writes.is_empty() {
        md.push_dependency_metadata(&writes.to_vec(), true).expect("writes accepted");
    }
    md
}

#[test]
fn internal_conflict_is_rejected_at_registration() {
    let mut md = SystemMetadata::new();
    md.push_dependency_metadata(&vec![RES_A], true).expect("first write accepted");
    // A second write on the same store from the same unit can never be
    // scheduled.
    assert!(md.push_dependency_metadata(&vec![RES_A], true).is_err());
    // Write + read on the same store from one unit is rejected too.
    assert!(md.push_dependency_metadata(&vec![RES_A], false).is_err());
    // A parameter listing the same store twice for writing is rejected.
    let mut md2 = SystemMetadata::new();
    assert!(md2.push_dependency_metadata(&vec![RES_B, RES_B], true).is_err());
    // Reading the same store from two parameters is fine.
    let mut md3 = SystemMetadata::new();
    md3.push_dependency_metadata(&vec![RES_A], false).expect("read accepted");
    md3.push_dependency_metadata(&vec![RES_A], false).expect("second read accepted");
}

#[test]
fn declared_dependencies_are_reported_back() {
    let md = unit(&[RES_A], &[RES_B]);
    let mut deps = md.get_world_resource_dependencies();
    deps.sort();
    assert_eq!(deps, vec![(RES_A, false), (RES_B, true)]);
}

#[test]
fn clash_predicate_matches_read_write_semantics() {
    let write_a = unit(&[], &[RES_A]);
    let read_a = unit(&[RES_A], &[]);
    let read_a2 = unit(&[RES_A], &[]);
    let write_b = unit(&[], &[RES_B]);
    assert!(write_a.is_resource_clashing(&read_a));
    assert!(read_a.is_resource_clashing(&write_a));
    assert!(write_a.is_resource_clashing(&write_a));
    assert!(!read_a.is_resource_clashing(&read_a2));
    assert!(!write_a.is_resource_clashing(&write_b));
}

#[test]
fn expected_layering_for_write_read_and_unrelated_units() {
    // S1 writes resource A, S2 reads resource A, S3 writes unrelated B.
    let mut graph = DependencyGraph::new();
    let s1 = graph.add_system(unit(&[], &[RES_A]));
    let s2 = graph.add_system(unit(&[RES_A], &[]));
    let s3 = graph.add_system(unit(&[], &[RES_B]));
    assert_eq!(graph.layer_of(s1), 0);
    assert_eq!(graph.layer_of(s2), 1);
    assert_eq!(graph.layer_of(s3), 0);
    assert_eq!(graph.indegree_of(s2), 1);
    assert_eq!(graph.layer_count(), 2);
    let layers = graph.execution_layers();
    assert_eq!(layers.len(), 2);
    assert_eq!(layers[0], vec![s1, s3]);
    assert_eq!(layers[1], vec![s2]);
}

#[test]
fn clashing_units_never_share_a_layer_for_any_insertion_order() {
    // Descriptors: two writers of A, a reader of A, a writer of B, a reader
    // of B and C. Try every insertion order of the first three plus a few
    // rotations of the rest.
    let build = |order: &[usize]| {
        let mut graph = DependencyGraph::new();
        let mut positions = Vec::new();
        for &which in order {
            let md = match which {
                0 => unit(&[], &[RES_A]),
                1 => unit(&[], &[RES_A]),
                2 => unit(&[RES_A], &[]),
                3 => unit(&[], &[RES_B]),
                _ => unit(&[RES_B, RES_C], &[]),
            };
            positions.push((which, graph.add_system(md)));
        }
        (graph, positions)
    };
    let rebuild_md = |which: usize| match which {
        0 => unit(&[], &[RES_A]),
        1 => unit(&[], &[RES_A]),
        2 => unit(&[RES_A], &[]),
        3 => unit(&[], &[RES_B]),
        _ => unit(&[RES_B, RES_C], &[]),
    };
    let orders: Vec<Vec<usize>> = vec![
        vec![0, 1, 2, 3, 4],
        vec![4, 3, 2, 1, 0],
        vec![2, 0, 4, 1, 3],
        vec![1, 2, 0, 3, 4],
        vec![3, 4, 0, 2, 1],
        vec![2, 1, 3, 0, 4],
    ];
    for order in orders {
        let (graph, positions) = build(&order);
        for (wa, pa) in &positions {
            for (wb, pb) in &positions {
                if pa < pb {
                    let ma = rebuild_md(*wa);
                    let mb = rebuild_md(*wb);
                    if ma.is_resource_clashing(&mb) {
                        assert_ne!(
                            graph.layer_of(*pa),
                            graph.layer_of(*pb),
                            "clashing units shared a layer in order {:?}",
                            order
                        );
                    }
                }
            }
        }
    }
}

#[test]
fn no_clashes_means_a_single_layer() {
    let mut quiet = DependencyGraph::new();
    let q1 = quiet.add_system(unit(&[], &[RES_A]));
    let q2 = quiet.add_system(unit(&[], &[RES_B]));
    let q3 = quiet.add_system(unit(&[], &[RES_C]));
    assert_eq!(quiet.layer_of(q1), 0);
    assert_eq!(quiet.layer_of(q2), 0);
    assert_eq!(quiet.layer_of(q3), 0);
    assert_eq!(quiet.layer_count(), 1);
}

#[test]
fn explicit_chain_orders_units_across_every_cycle() {
    let mut graph = DependencyGraph::new();
    // An unrelated concurrent unit first.
    let noise = graph.add_system(unit(&[], &[RES_C]));
    // Chain of three units that do not clash with one another.
    let chain = graph.add_dependent_systems(vec![
        unit(&[RES_A], &[]),
        unit(&[RES_B], &[]),
        unit(&[], &[]),
    ]);
    let (a, b, c) = (chain[0], chain[1], chain[2]);
    assert!(graph.layer_of(a) < graph.layer_of(b));
    assert!(graph.layer_of(b) < graph.layer_of(c));
    // The plan is the same on every cycle: B never begins before A
    // completes, C never before B, whatever the unrelated unit does.
    for _cycle in 0..3 {
        let plan = graph.execution_layers();
        let group_of = |node: usize| {
            plan.iter().position(|group| group.contains(&node)).expect("node scheduled")
        };
        assert!(group_of(a) < group_of(b));
        assert!(group_of(b) < group_of(c));
        let _ = group_of(noise);
    }
}

#[test]
fn chained_clashing_units_keep_conflict_safety() {
    let mut graph = DependencyGraph::new();
    // The chain's members also clash on a store; ordering and conflict
    // safety must both hold.
    let chain = graph.add_dependent_systems(vec![unit(&[], &[RES_A]), unit(&[RES_A], &[])]);
    assert!(graph.layer_of(chain[0]) < graph.layer_of(chain[1]));
    // A later writer of A must not share a layer with either.
    let w = graph.add_system(unit(&[], &[RES_A]));
    assert_ne!(graph.layer_of(w), graph.layer_of(chain[0]));
    assert_ne!(graph.layer_of(w), graph.layer_of(chain[1]));
}

#[test]
fn indegree_peeling_walks_the_same_frontiers_as_the_layer_plan() {
    let mut graph = DependencyGraph::new();
    let s1 = graph.add_system(unit(&[], &[RES_A]));
    let s2 = graph.add_system(unit(&[RES_A], &[]));
    let s3 = graph.add_system(unit(&[], &[RES_B]));
    let s4 = graph.add_system(unit(&[RES_A], &[RES_B]));

    let plan = graph.execution_layers();
    let mut state = graph.begin_cycle();
    let mut walked = Vec::new();
    while !graph.cycle_complete(&state) {
        walked.push(graph.next_frontier(&mut state));
    }
    assert_eq!(walked, plan);
    // Every node ran exactly once.
    let mut seen: Vec<usize> = walked.into_iter().flatten().collect();
    seen.sort();
    assert_eq!(seen, vec![s1, s2, s3, s4]);
}

#[test]
fn an_empty_graph_has_an_empty_cycle() {
    let graph = DependencyGraph::new();
    let state = graph.begin_cycle();
    assert!(graph.cycle_complete(&state));
    assert!(graph.execution_layers().is_empty());
}
