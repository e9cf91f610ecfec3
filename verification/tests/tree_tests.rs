use guixvis::ui::tree::scroll_into_view;
use guixvis::relations::visible_positions;
use guixvis::app::{NodeKind, RevState, TreeState};
use guixvis::index::Index;
use guixvis::model::{GuixOrigin, Header, IndexDoc, PkgJson, SCHEMA_VERSION};
use guixvis::relations::{collect_relations, Direction};
use guixvis::ui::tree::{children, dep_rows, node_kind, rev_rows, TRANS_SECTION};

fn pkg(id: u32, name: String, inputs: Vec<u32>) -> PkgJson {
    PkgJson {
        id,
        name,
        catalog: true,
        version: String::new(),
        synopsis: String::new(),
        description: String::new(),
        homepage: String::new(),
        licenses: Vec::new(),
        file: (String::new(), 0),
        inputs,
        propagated_inputs: Vec::new(),
        native_inputs: Vec::new(),
    }
}

fn index_of(packages: Vec<PkgJson>) -> Index {
    let doc = IndexDoc {
        header: Header {
            schema: SCHEMA_VERSION,
            guix_commit: String::new(),
            generated_ms: "0".to_string(),
            package_count: packages.len() as u64,
            origin: GuixOrigin::default(),
        },
        packages,
        diagnostics: Vec::new(),
    };
    Index::from_doc(doc, 0).unwrap()
}

fn diamond() -> Index {
    index_of(vec![
        pkg(0, "root".into(), vec![1, 2]),
        pkg(1, "a".into(), vec![3]),
        pkg(2, "b".into(), vec![3]),
        pkg(3, "c".into(), vec![0]),
    ])
}

#[test]
fn direct_lists_ignore_expanded_descendant_budget() {
    let count = 2103u32;
    let index = index_of(
        (0..count)
            .map(|id| pkg(id, format!("p{id:05}"), if id == 0 { (1..count).collect() } else { vec![] }))
            .collect(),
    );
    let rows = dep_rows(&index, &TreeState::default(), 0, 2);
    assert_eq!(rows.rows.len(), count as usize);
    assert_eq!(rows.rows.last().unwrap().id, count - 1);
    assert!(!rows.materialization_limited);
}

#[test]
fn diamond_is_depth_first_and_retains_both_branches_and_cycles() {
    let index = diamond();
    let mut state = TreeState::default();
    let k = NodeKind::Input;
    for key in [
        vec![(0, k), (1, k)],
        vec![(0, k), (2, k)],
        vec![(0, k), (1, k), (3, k)],
        vec![(0, k), (2, k), (3, k)],
    ] {
        state.toggle(&key);
    }
    let result = dep_rows(&index, &state, 0, usize::MAX);
    let rows = &result.rows;
    assert_eq!(rows.iter().map(|r| r.id).collect::<Vec<_>>(), vec![0, 1, 3, 0, 2, 3, 0]);
    assert!(rows[3].cycle && rows[6].cycle);
    assert_ne!(rows[2].key, rows[5].key);
    assert!(!result.materialization_limited);
    assert!(dep_rows(&index, &state, 0, 1).materialization_limited);
    state.toggle(&[(0, k), (1, k), (3, k)]);
    assert_eq!(
        dep_rows(&index, &state, 0, usize::MAX).rows.iter().map(|r| r.id).collect::<Vec<_>>(),
        vec![0, 1, 3, 2, 3, 0]
    );
}

#[test]
fn children_are_in_name_order_with_their_kinds() {
    let mut root = pkg(0, "root".into(), vec![2, 1]);
    root.native_inputs = vec![1];
    let index = index_of(vec![root, pkg(1, "zeta".into(), vec![]), pkg(2, "alpha".into(), vec![0])]);
    let kids = children(&index, 0, false);
    assert_eq!(kids.iter().map(|c| c.0).collect::<Vec<_>>(), vec![2, 1]);
    assert_eq!(kids[1].1.len(), 2);
    assert_eq!(node_kind(kids[1].1[0]), NodeKind::Input);
    let parents = children(&index, 1, true);
    assert_eq!(parents.len(), 1);
    assert_eq!(parents[0].0, 0);
}

#[test]
fn reverse_rows_end_with_the_transitive_section() {
    let index = diamond();
    let mut state = RevState::default();
    state.relations = Some(collect_relations(&index, 3, Direction::Dependents, &|| false).unwrap());
    let rows = rev_rows(&index, &state, 3, usize::MAX);
    let ids: Vec<u32> = rows.rows.iter().map(|r| r.id).collect();
    assert_eq!(ids, vec![3, 1, 2, TRANS_SECTION]);
    let section = rows.rows.last().unwrap();
    assert!(section.is_section);
    assert_eq!(section.children_count, 1);
    state.toggle(&[(TRANS_SECTION, NodeKind::RevTrans)]);
    let open = rev_rows(&index, &state, 3, usize::MAX);
    assert_eq!(open.rows.len(), 5);
    assert_eq!(open.rows[4].id, 0);
    assert_eq!(open.rows[4].transitive_depth, Some(2));
}

#[test]
fn a_query_shows_the_filtered_closure() {
    let index = diamond();
    let mut state = TreeState::default();
    state.query = "c".into();
    state.relations = Some(collect_relations(&index, 0, Direction::Dependencies, &|| false).unwrap());
    state.visible = vec![2, 7];
    let rows = dep_rows(&index, &state, 0, usize::MAX);
    assert_eq!(rows.rows.len(), 1);
    assert_eq!(rows.rows[0].id, 3);
    assert_eq!(rows.rows[0].depth, 1);
    state.relations = None;
    assert!(dep_rows(&index, &state, 0, usize::MAX).rows.is_empty());
}

#[test]
fn scrolling_keeps_the_cursor_row_in_view() {
    assert_eq!(scroll_into_view(0, 0, 100, 10), 0);
    assert_eq!(scroll_into_view(0, 15, 100, 10), 6);
    assert_eq!(scroll_into_view(50, 12, 100, 10), 12);
    assert_eq!(scroll_into_view(95, 99, 100, 10), 90);
    assert_eq!(scroll_into_view(7, 2, 5, 10), 0);
}

#[test]
fn the_closure_filter_keeps_matching_positions() {
    let index = diamond();
    let set = collect_relations(&index, 0, Direction::Dependencies, &|| false).unwrap();
    assert_eq!(visible_positions(&index, &set.hits, "c", &|| false), Some(vec![2]));
    assert_eq!(visible_positions(&index, &set.hits, "", &|| false), Some(vec![0, 1, 2]));
    assert_eq!(visible_positions(&index, &set.hits, "A", &|| false), Some(vec![0]));
    assert_eq!(visible_positions(&index, &set.hits, "c", &|| true), None);
}

#[test]
fn a_spent_budget_never_hides_direct_dependencies() {
    let index = index_of(vec![
        pkg(0, "root".into(), vec![1, 2]),
        pkg(1, "a".into(), vec![3, 4, 5]),
        pkg(2, "b".into(), vec![]),
        pkg(3, "c".into(), vec![]),
        pkg(4, "d".into(), vec![]),
        pkg(5, "e".into(), vec![]),
    ]);
    let mut state = TreeState::default();
    state.expanded.push(vec![(0, NodeKind::Input), (1, NodeKind::Input)]);
    let rows = dep_rows(&index, &state, 0, 1);
    assert_eq!(rows.rows.iter().map(|r| r.id).collect::<Vec<_>>(), vec![0, 1, 3, 2]);
    assert!(rows.materialization_limited);
    let full = dep_rows(&index, &state, 0, usize::MAX);
    assert_eq!(full.rows.iter().map(|r| r.id).collect::<Vec<_>>(), vec![0, 1, 3, 4, 5, 2]);
    assert!(!full.materialization_limited);
}

#[test]
fn every_row_follows_its_parent_in_preorder() {
    let index = diamond();
    let mut state = TreeState::default();
    let k = NodeKind::Input;
    for key in [vec![(0, k), (1, k)], vec![(0, k), (2, k)], vec![(0, k), (2, k), (3, k)]] {
        state.toggle(&key);
    }
    let rows = dep_rows(&index, &state, 0, usize::MAX).rows;
    assert_eq!(rows[0].id, 0);
    assert_eq!(rows[0].depth, 0);
    for (k, row) in rows.iter().enumerate() {
        assert_eq!(row.key.last().unwrap().0, row.id);
        if k == 0 {
            continue;
        }
        let j = (0..k).rev().find(|&j| rows[j].depth + 1 == row.depth).expect("a parent row");
        assert!(rows[j + 1..k].iter().all(|m| m.depth >= row.depth));
        assert_eq!(rows[j].key[..], row.key[..row.key.len() - 1]);
        let kids: Vec<u32> = children(&index, rows[j].id, false).into_iter().map(|c| c.0).collect();
        assert!(kids.contains(&row.id));
    }
    assert_eq!(rows.iter().map(|r| r.depth).collect::<Vec<_>>(), vec![0, 1, 2, 1, 2, 3]);
}

#[test]
fn keys_are_paths_and_cycles_repeat_an_ancestor() {
    let index = diamond();
    let mut state = TreeState::default();
    let k = NodeKind::Input;
    for key in [vec![(0, k), (1, k)], vec![(0, k), (1, k), (3, k)]] {
        state.toggle(&key);
    }
    let result = dep_rows(&index, &state, 0, usize::MAX);
    let rows = &result.rows;
    assert!(!result.materialization_limited);
    for row in rows {
        assert_eq!(row.key.len(), row.depth + 1);
        let earlier = row.key[..row.key.len() - 1].iter().any(|(id, _)| *id == row.id);
        assert_eq!(row.cycle, earlier);
    }
    // The cycle row back to the root is listed but not walked further.
    let cycle = rows.iter().position(|r| r.cycle).unwrap();
    assert_eq!(rows[cycle].id, 0);
    assert!(rows.get(cycle + 1).map_or(true, |r| r.depth <= rows[cycle].depth));
    // b (id 2) is not expanded: nothing below it.
    let b = rows.iter().position(|r| r.id == 2 && r.depth == 1).unwrap();
    assert!(rows.get(b + 1).map_or(true, |r| r.depth <= 1));
}
