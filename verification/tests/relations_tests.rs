use guixvis::index::{DepKind, Index};
use guixvis::model::{GuixOrigin, Header, IndexDoc, PkgJson, SCHEMA_VERSION};
use guixvis::relations::{collect_relations, matches_relation, Direction, WalkError};

fn pkg(id: u32, name: String, inputs: Vec<u32>) -> PkgJson {
    PkgJson {
        id,
        name,
        catalog: true,
        version: "1".to_string(),
        synopsis: String::new(),
        description: String::new(),
        homepage: String::new(),
        licenses: Vec::new(),
        file: (String::new(), 0),
        inputs,
        propagated_inputs: Vec::new(),
        native_inputs: Vec::new(),
    }
}

fn index_of(packages: Vec<PkgJson>) -> Index {
    let doc = IndexDoc {
        header: Header {
            schema: SCHEMA_VERSION,
            guix_commit: String::new(),
            generated_ms: "0".to_string(),
            package_count: packages.len() as u64,
            origin: GuixOrigin::default(),
        },
        packages,
        diagnostics: Vec::new(),
    };
    Index::from_doc(doc, 0).unwrap()
}

fn chain_fixture(count: u32) -> Index {
    index_of(
        (0..count)
            .map(|id| pkg(id, format!("p{id:05}"), if id + 1 < count { vec![id + 1] } else { vec![] }))
            .collect(),
    )
}

fn identity_fixture() -> Index {
    let mut root = pkg(0, "root".into(), vec![1, 2, 3, 4, 5]);
    root.propagated_inputs = vec![1];
    root.native_inputs = vec![1];
    let mut private = pkg(4, "variant".into(), vec![]);
    private.catalog = false;
    private.version = "2.0".into();
    index_of(vec![
        root,
        pkg(1, "lib".into(), vec![]),
        pkg(2, "tool".into(), vec![]),
        pkg(3, "variant".into(), vec![]),
        private,
        pkg(5, "loop".into(), vec![0]),
    ])
}

#[test]
fn full_closures_reach_beyond_depth_255_and_two_thousand_rows() {
    let index = chain_fixture(2502);
    for (root, direction, last) in [(0, Direction::Dependencies, 2501), (2501, Direction::Dependents, 0)] {
        let set = collect_relations(&index, root, direction, &|| false).unwrap();
        assert_eq!(set.hits.len(), 2501);
        assert_eq!(set.hits.iter().find(|hit| hit.id == last).unwrap().depth, 2501);
    }
    assert!(matches_relation("p02501", "1", "P02501 1"));
    assert!(!matches_relation("p02501", "1", "P02501 9"));
    assert!(matches_relation("Éditeur", "3.2", "ÉDI 3.2"));
    assert!(!matches_relation("Éditeur", "3.2", ".*"));
}

#[test]
fn cycles_kinds_invalid_roots_and_cancellation() {
    let index = identity_fixture();
    let set = collect_relations(&index, 0, Direction::Dependencies, &|| false).unwrap();
    assert_eq!(set.hits.len(), 5);
    assert!(!set.hits.iter().any(|hit| hit.id == 0));
    assert_eq!(set.hits.iter().find(|hit| hit.id == 1).unwrap().kinds.len(), 3);
    assert_eq!(
        collect_relations(&index, 0, Direction::Dependencies, &|| true).unwrap_err(),
        WalkError::Cancelled
    );
    assert_eq!(
        collect_relations(&index, 999, Direction::Dependencies, &|| false).unwrap_err(),
        WalkError::InvalidRoot
    );
}

#[test]
fn diamond_unions_kinds_and_uses_shortest_distance() {
    let mut b = pkg(2, "b".into(), vec![]);
    b.native_inputs = vec![3];
    let index = index_of(vec![
        pkg(0, "root".into(), vec![1, 2]),
        pkg(1, "a".into(), vec![3]),
        b,
        pkg(3, "c".into(), vec![0]),
    ]);
    let set = collect_relations(&index, 0, Direction::Dependencies, &|| false).unwrap();
    let c = set.hits.iter().find(|h| h.id == 3).unwrap();
    assert_eq!(c.depth, 2);
    assert_eq!(c.kinds, vec![DepKind::Input, DepKind::Native]);
    let singleton = chain_fixture(1);
    assert!(collect_relations(&singleton, 0, Direction::Dependencies, &|| false).unwrap().hits.is_empty());
}

#[test]
fn closure_hits_come_in_name_order() {
    let index = identity_fixture();
    let set = collect_relations(&index, 0, Direction::Dependencies, &|| false).unwrap();
    let names: Vec<(&str, &str)> = set
        .hits
        .iter()
        .map(|h| (index.packages[h.id as usize].name.as_str(), index.packages[h.id as usize].version.as_str()))
        .collect();
    let mut sorted = names.clone();
    sorted.sort();
    assert_eq!(names, sorted);
    assert_eq!(set.key.root, 0);
    let reverse = collect_relations(&index, 1, Direction::Dependents, &|| false).unwrap();
    let ids: Vec<u32> = reverse.hits.iter().map(|h| h.id).collect();
    assert_eq!(ids, vec![5, 0]);
}

#[test]
fn closures_hold_exactly_the_reachable_packages_at_their_distance() {
    // 0 -> 1 -> 2 -> 3 and a shortcut 0 -> 3; 4 lists 3 but nothing reaches 4.
    let index = index_of(vec![
        pkg(0, "root".into(), vec![1, 3]),
        pkg(1, "one".into(), vec![2]),
        pkg(2, "two".into(), vec![3]),
        pkg(3, "three".into(), vec![]),
        pkg(4, "island".into(), vec![3]),
    ]);
    let set = collect_relations(&index, 0, Direction::Dependencies, &|| false).unwrap();
    let mut ids: Vec<(u32, usize)> = set.hits.iter().map(|h| (h.id, h.depth)).collect();
    ids.sort();
    assert_eq!(ids, vec![(1, 1), (2, 2), (3, 1)]);
    let up = collect_relations(&index, 3, Direction::Dependents, &|| false).unwrap();
    let mut ids: Vec<(u32, usize)> = up.hits.iter().map(|h| (h.id, h.depth)).collect();
    ids.sort();
    assert_eq!(ids, vec![(0, 1), (1, 2), (2, 1), (4, 1)]);
}
