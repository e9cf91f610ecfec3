use guixvis::graph::{
    clamp_depth, project, project_cancellable, select_wrapped, Dir, EdgeMode, XorShift, EDGE_BUDGET,
    NODE_BUDGET,
};
use guixvis::index::{Index, Package};
use guixvis::model::{GuixOrigin, Header, IndexDoc, PkgJson, SCHEMA_VERSION};
use guixvis::relations::WalkError;

fn pkg(id: u32, name: String, inputs: Vec<u32>) -> PkgJson {
    PkgJson {
        id,
        name,
        catalog: true,
        version: "1".to_string(),
        synopsis: String::new(),
        description: String::new(),
        homepage: String::new(),
        licenses: Vec::new(),
        file: (String::new(), 0),
        inputs,
        propagated_inputs: Vec::new(),
        native_inputs: Vec::new(),
    }
}

fn index_of(packages: Vec<PkgJson>) -> Index {
    let doc = IndexDoc {
        header: Header {
            schema: SCHEMA_VERSION,
            guix_commit: String::new(),
            generated_ms: "0".to_string(),
            package_count: packages.len() as u64,
            origin: GuixOrigin::default(),
        },
        packages,
        diagnostics: Vec::new(),
    };
    Index::from_doc(doc, 0).unwrap()
}

fn chain_fixture(count: u32) -> Index {
    index_of(
        (0..count)
            .map(|id| pkg(id, format!("p{id:05}"), if id + 1 < count { vec![id + 1] } else { vec![] }))
            .collect(),
    )
}

fn small_fixture() -> Index {
    let p = |id: u32, name: &str, inputs: Vec<u32>| pkg(id, name.to_string(), inputs);
    let mut emacs = p(0, "emacs", vec![3, 4]);
    emacs.propagated_inputs = vec![5];
    emacs.native_inputs = vec![6];
    index_of(vec![
        emacs,
        p(1, "emacs-minimal", vec![4]),
        p(2, "emacs-next", vec![4]),
        p(3, "gtk+", vec![4]),
        p(4, "zlib", vec![]),
        p(5, "pkg-config", vec![]),
        p(6, "texinfo", vec![]),
        p(7, "solo", vec![]),
        p(8, "cyc-a", vec![9]),
        p(9, "cyc-b", vec![8]),
    ])
}

#[test]
fn projection_counts_nodes_beyond_the_drawing_budget() {
    let index = chain_fixture(8);
    let p = project(&index, 0, Dir::Deps, 7, 3);
    assert_eq!(p.nodes.len(), 3, "budget includes root");
    assert_eq!(p.truncated, 5, "discovery continues beyond materialization");
    assert_eq!(p.discovered_total, Some(8));
    assert!(p.discovery_complete);
    assert_eq!(p.edges_total, Some(2));
}

#[test]
fn dense_graph_reports_edge_budget_and_cancellation() {
    let count = 60u32;
    let index = index_of(
        (0..count)
            .map(|id| pkg(id, format!("p{id}"), (0..count).filter(|d| *d != id).collect()))
            .collect(),
    );
    let p = project_cancellable(&index, 0, Dir::Deps, 1, 200, &|| false).unwrap();
    assert_eq!(p.nodes.len(), 60);
    assert_eq!(p.edges.len(), EDGE_BUDGET);
    assert_eq!(p.edges_total, Some(3540));
    assert_eq!(p.edges_truncated, 540);
    assert!(matches!(
        project_cancellable(&index, 0, Dir::Deps, 1, 200, &|| true),
        Err(WalkError::Cancelled)
    ));
    assert!(matches!(
        project_cancellable(&index, 999, Dir::Deps, 1, 200, &|| false),
        Err(WalkError::InvalidRoot)
    ));
}

#[test]
fn discovery_and_edge_work_limits_report_unknown_totals_independently() {
    let outside: Vec<u32> = (200..10_251).collect();
    let direct: Vec<u32> = (1..200).collect();
    let packages = (0..10_251u32)
        .map(|id| Package {
            id,
            catalog: true,
            name: format!("p{id}"),
            version: "1".into(),
            synopsis: String::new(),
            description: String::new(),
            homepage: String::new(),
            licenses: Vec::new(),
            file: String::new(),
            line: 0,
            inputs: if id == 0 {
                direct.clone()
            } else if id < 200 {
                outside.clone()
            } else {
                Vec::new()
            },
            propagated: Vec::new(),
            native: Vec::new(),
        })
        .collect();
    let index = Index::from_packages(packages, "fixture".into(), 0, 0).unwrap();
    let shallow = project(&index, 0, Dir::Deps, 1, 200);
    assert_eq!(shallow.discovered_total, Some(200));
    assert!(shallow.discovery_complete);
    assert_eq!(shallow.edges_total, None);
    assert_eq!(shallow.edges_truncated, 0);
    let deep = project(&index, 0, Dir::Deps, 2, 200);
    assert_eq!(deep.discovered_total, None);
    assert!(!deep.discovery_complete);
    assert_eq!(deep.nodes.len(), 200);
}

#[test]
fn projection_of_the_fixture_keeps_the_direct_dependencies() {
    let index = small_fixture();
    let p = project(&index, 0, Dir::Deps, 2, NODE_BUDGET);
    assert_eq!(p.nodes.len(), 5);
    assert_eq!(p.nodes[0], 0);
    for name in ["gtk+", "zlib", "pkg-config", "texinfo"] {
        assert!(p.nodes.contains(&index.name_id(name).unwrap()));
    }
    assert_eq!(p.depth_of.len(), p.nodes.len());
    let solo = project(&index, 7, Dir::Deps, 2, NODE_BUDGET);
    assert_eq!(solo.nodes, vec![7]);
    let reverse = project(&index, 4, Dir::Dependents, 1, NODE_BUDGET);
    assert_eq!(reverse.nodes.len(), 5);
    assert_eq!(reverse.nodes[0], 4);
    let invalid = project(&index, 99, Dir::Deps, 2, NODE_BUDGET);
    assert!(invalid.nodes.is_empty());
}

#[test]
fn cycle_selection_wraps() {
    let n = 5usize;
    assert_eq!(select_wrapped(0, -1, n), n - 1);
    assert_eq!(select_wrapped(n - 1, 1, n), 0);
    assert_eq!(select_wrapped(2, 1, n), 3);
    assert_eq!(select_wrapped(0, 0, 0), 0);
}

#[test]
fn depth_delta_clamps() {
    assert_eq!(clamp_depth(1, -1), 1);
    assert_eq!(clamp_depth(8, 1), 8);
    assert_eq!(clamp_depth(3, 1), 4);
    assert_eq!(clamp_depth(3, -1), 2);
}

#[test]
fn edge_modes_cycle_through_all_three() {
    let start = EdgeMode::default();
    assert_eq!(start.next().next().next(), start);
    assert_ne!(start.next(), start);
    assert!(!start.label().is_empty());
}

#[test]
fn the_layout_generator_is_deterministic() {
    let mut a = XorShift::new(0);
    let mut b = XorShift::new(1);
    assert_eq!(a.next_u64(), b.next_u64());
    let mut c = XorShift::new(42);
    let mut d = XorShift::new(42);
    for _ in 0..10 {
        assert_eq!(c.next_u64(), d.next_u64());
    }
}

#[test]
fn builds_expected_subgraph() {
    let index = small_fixture();
    let p = project(&index, 0, Dir::Deps, 2, NODE_BUDGET);
    // emacs -> gtk+, zlib, pkg-config, texinfo (5 nodes at depth 2).
    assert_eq!(p.nodes.len(), 5);
    for name in ["gtk+", "zlib", "pkg-config", "texinfo"] {
        assert!(p.nodes.contains(&index.name_id(name).unwrap()), "{name}");
    }
    assert_eq!(p.depth_of.len(), 5);
}

#[test]
fn respects_node_budget_and_reports_truncation() {
    let index = small_fixture();
    let p = project(&index, 0, Dir::Deps, 1, NODE_BUDGET);
    // emacs has 4 neighbors; the 200-node budget keeps them all.
    assert_eq!(p.nodes.len(), 5);
    assert!(p.nodes.len() <= NODE_BUDGET + 1, "root + budget");
    // The BFS cap itself truncates honestly: cap 2 materializes 2 of 4.
    let (bfs, total) = index.deps_bfs(0, 1, 2);
    assert_eq!(bfs.len(), 2);
    assert_eq!(total, 4, "discovered count stays honest under the cap");
}

#[test]
fn projection_depths_are_within_the_walk_and_totals_match() {
    let index = small_fixture();
    let p = project(&index, 0, Dir::Deps, 1, 3);
    assert_eq!(p.nodes[0], 0);
    assert_eq!(p.depth_of[0], 0);
    assert!(p.depth_of.iter().all(|d| *d <= 1));
    assert!(p.depth_of[1..].iter().all(|d| *d == 1));
    assert!(p.discovery_complete);
    assert_eq!(p.discovered_total, Some(5));
    assert_eq!(p.nodes.len(), 3);
    assert_eq!(p.truncated, 2);

    let all = project(&index, 0, Dir::Deps, 1, 200);
    assert_eq!(all.nodes.len(), 5);
    assert_eq!(all.edges_total, Some(5));
    assert_eq!(all.edges.len(), 5);
    assert_eq!(all.edges_truncated, 0);

    let rev = project(&index, 4, Dir::Dependents, 2, 200);
    assert_eq!(rev.nodes[0], 4);
    assert_eq!(rev.discovered_total, Some(rev.nodes.len()));
    assert_eq!(rev.truncated, 0);
    let depth_of = |id: u32| rev.depth_of[rev.nodes.iter().position(|n| *n == id).unwrap()];
    assert_eq!(depth_of(3), 1);
    assert_eq!(depth_of(0), 1);
    assert_eq!(depth_of(1), 1);
}
