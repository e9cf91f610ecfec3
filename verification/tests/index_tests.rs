use guixvis::blob;
use guixvis::index::{DepKind, Index};
use guixvis::model::{ChannelPin, GuixOrigin, Header, IndexDiagnostic, IndexDoc, PkgJson, SCHEMA_VERSION};
use guixvis::search::dependents_by_name;

fn pkg(id: u32, name: &str, inputs: &[u32], propagated: &[u32], native: &[u32]) -> PkgJson {
    PkgJson {
        id,
        name: name.to_string(),
        catalog: true,
        version: "1.0".to_string(),
        synopsis: String::new(),
        description: String::new(),
        homepage: String::new(),
        licenses: Vec::new(),
        file: (String::new(), 0),
        inputs: inputs.to_vec(),
        propagated_inputs: propagated.to_vec(),
        native_inputs: native.to_vec(),
    }
}

fn doc_of(packages: Vec<PkgJson>, commit: &str) -> IndexDoc {
    IndexDoc {
        header: Header {
            schema: SCHEMA_VERSION,
            guix_commit: commit.to_string(),
            generated_ms: "0".to_string(),
            package_count: packages.len() as u64,
            origin: GuixOrigin::default(),
        },
        packages,
        diagnostics: Vec::new(),
    }
}

/// Ten packages: emacs and two variants sharing a module, a small tree of
/// libraries under them, a lone package and a two-package cycle.
fn small_doc() -> IndexDoc {
    let mut packages = vec![
        pkg(0, "emacs", &[3, 4], &[5], &[6]),
        pkg(1, "emacs-minimal", &[4], &[], &[]),
        pkg(2, "emacs-next", &[4], &[], &[]),
        pkg(3, "gtk+", &[4], &[], &[]),
        pkg(4, "zlib", &[], &[], &[]),
        pkg(5, "pkg-config", &[], &[], &[]),
        pkg(6, "texinfo", &[], &[], &[]),
        pkg(7, "solo", &[], &[], &[]),
        pkg(8, "cyc-a", &[9], &[], &[]),
        pkg(9, "cyc-b", &[8], &[], &[]),
    ];
    packages[0].synopsis = "The extensible, customizable text editor".to_string();
    for p in packages.iter_mut().take(3) {
        p.file = ("gnu/packages/emacs.scm".to_string(), 10 + p.id as u64);
    }
    doc_of(packages, "testcommit")
}

fn load_fixture() -> Index {
    Index::from_doc(small_doc(), 0).expect("fixture validates")
}

/// Six packages: a root relating to one package under every kind, two
/// packages sharing a name (a catalog entry and a private variant) and a
/// cycle back to the root.
fn identity_doc() -> IndexDoc {
    let mut packages = vec![
        pkg(0, "root", &[1, 2, 3, 4, 5], &[1], &[1]),
        pkg(1, "lib", &[], &[], &[]),
        pkg(2, "tool", &[], &[], &[]),
        pkg(3, "variant", &[], &[], &[]),
        pkg(4, "variant", &[], &[], &[]),
        pkg(5, "loop", &[0], &[], &[]),
    ];
    packages[3].version = "1.0".to_string();
    packages[4].version = "2.0".to_string();
    packages[4].catalog = false;
    doc_of(packages, "identity")
}

#[test]
fn exact_numeric_ids_preserve_versions_and_private_variants() {
    let index = Index::from_doc(identity_doc(), 0).expect("exact identity document validates");
    assert_eq!(index.packages[0].inputs.as_slice(), &[1, 2, 3, 4, 5]);
    assert_eq!(index.packages[0].propagated.as_slice(), &[1]);
    assert_eq!(index.packages[0].native.as_slice(), &[1]);
    assert_eq!(index.packages[0].dep_count(), 5);
    assert_eq!(index.name_id("variant"), Some(3));
    assert_eq!(index.dependents[1].as_slice(), &[0]);
    assert_eq!(index.packages[0].relation_count(), 7);
    assert_eq!(
        index.packages[0].dep_kinds(1),
        vec![DepKind::Input, DepKind::Propagated, DepKind::Native]
    );
    assert!(!index.packages[4].catalog);
    assert_eq!(index.packages[4].version, "2.0");
    assert!(index.is_complete());
}

#[test]
fn shuffled_ids_are_sorted_and_catalog_wins_legacy_lookup() {
    let mut doc = identity_doc();
    doc.packages[3].catalog = false;
    doc.packages[4].catalog = true;
    doc.packages.reverse();
    let index = Index::from_doc(doc, 0).unwrap();
    assert_eq!(index.name_id("variant"), Some(4));
    for (id, package) in index.packages.iter().enumerate() {
        assert_eq!(package.id as usize, id);
    }
}

#[test]
fn diagnostics_and_identity_survive_binary_round_trip() {
    let mut doc = identity_doc();
    doc.diagnostics.push(IndexDiagnostic {
        package_id: 0,
        kind: "native".into(),
        code: "accessor-failed".into(),
        message: "Could not read inputs".into(),
    });
    let index = Index::from_doc(doc, 0).unwrap();
    let bytes = blob::encode(&index);
    let loaded = blob::decode(&bytes, 1).unwrap();
    assert!(!loaded.is_complete());
    assert_eq!(index.diagnostics, loaded.diagnostics);
    assert!(!loaded.packages[4].catalog);
    assert_eq!(loaded.packages[0].relation_count(), 7);
    let mut trailing = bytes;
    trailing.push(0);
    assert!(blob::decode(&trailing, 0).is_err());
}

#[test]
fn parses_fixture() {
    let index = load_fixture();
    assert_eq!(index.len(), 10);
    assert_eq!(index.guix_commit, "testcommit");
    assert_eq!(index.packages[0].name, "emacs");
    assert_eq!(index.packages[0].inputs.len(), 2);
    assert_eq!(index.packages[0].propagated.len(), 1);
    assert_eq!(index.packages[0].native.len(), 1);
}

#[test]
fn reverse_edges_are_exact_and_bidirectional() {
    let index = load_fixture();
    let names = dependents_by_name(&index);
    let lookup = |name: &str| -> Vec<String> {
        names
            .iter()
            .find(|(n, _)| n == name)
            .map(|(_, ds)| ds.clone())
            .unwrap_or_default()
    };

    let zlib_deps = lookup("zlib");
    assert_eq!(zlib_deps.len(), 4);
    for dependent in ["emacs", "emacs-minimal", "emacs-next", "gtk+"] {
        assert!(zlib_deps.iter().any(|d| d == dependent));
    }

    for p in &index.packages {
        for (dep, _) in p.deps() {
            let dep_name = index.packages[dep as usize].name.clone();
            assert!(
                lookup(&dep_name).contains(&p.name),
                "{} depends on {} but is missing from its dependents",
                p.name,
                dep_name
            );
        }
        for d in index.dependents[p.id as usize].iter() {
            let d_name = index.packages[*d as usize].name.clone();
            assert!(
                lookup(&p.name).contains(&d_name),
                "{} listed as dependent of {} but has no such edge",
                d_name,
                p.name
            );
        }
    }
}

#[test]
fn deduplicates_deps_across_input_kinds() {
    let index = load_fixture();
    let p = &index.packages[0];
    let deps: Vec<u32> = p.deps().iter().map(|(d, _)| *d).collect();
    assert_eq!(deps.len(), 4);
    let mut sorted = deps.clone();
    sorted.sort_unstable();
    sorted.dedup();
    assert_eq!(sorted.len(), deps.len());
    let mut doc = small_doc();
    doc.packages[0].native_inputs.push(3);
    doc.packages[0].inputs.push(3);
    let index = Index::from_doc(doc, 0).unwrap();
    assert_eq!(index.packages[0].inputs.as_slice(), &[3, 4]);
    assert_eq!(index.packages[0].dep_count(), 4);
    assert_eq!(index.packages[0].dep_kinds(3), vec![DepKind::Input, DepKind::Native]);
}

#[test]
fn bfs_transitive_closure_matches_naive_fixed_point() {
    let index = load_fixture();
    let (nodes, total) = index.deps_bfs(0, 3, 100);
    let ids: Vec<u32> = nodes.iter().map(|n| n.id).collect();
    for name in ["gtk+", "zlib", "pkg-config", "texinfo"] {
        assert!(ids.contains(&index.name_id(name).unwrap()));
    }
    assert_eq!(total, 4);

    let mut closure = std::collections::HashSet::new();
    closure.insert(0u32);
    loop {
        let mut next = closure.clone();
        for id in &closure {
            for (d, _) in index.packages[*id as usize].deps() {
                next.insert(d);
            }
        }
        if next.len() == closure.len() {
            break;
        }
        closure = next;
    }
    closure.remove(&0);
    assert_eq!(closure.len(), ids.len());
    for id in &ids {
        assert!(closure.contains(id));
    }
}

#[test]
fn bfs_survives_cycles() {
    let index = load_fixture();
    let a = index.name_id("cyc-a").unwrap();
    let (nodes, total) = index.deps_bfs(a, 8, 100);
    assert_eq!(total, 1);
    assert_eq!(nodes.len(), 1);
    assert_eq!(nodes[0].id, index.name_id("cyc-b").unwrap());
}

#[test]
fn reverse_bfs_depths() {
    let index = load_fixture();
    let zlib = index.name_id("zlib").unwrap();
    let (nodes, total) = index.dependents_bfs(zlib, 1, 100);
    assert_eq!(nodes.len(), 4);
    assert_eq!(total, 4);
    let (nodes, _) = index.dependents_bfs(zlib, 2, 100);
    assert_eq!(nodes.len(), 4);
    assert!(nodes.iter().all(|n| n.depth == 1 && n.kind.is_none()));
}

#[test]
fn bfs_cap_keeps_the_discovered_count_honest() {
    let index = load_fixture();
    let (bfs, total) = index.deps_bfs(0, 1, 2);
    assert_eq!(bfs.len(), 2);
    assert_eq!(total, 4);
    let (none, total) = index.deps_bfs(99, 3, 10);
    assert!(none.is_empty());
    assert_eq!(total, 0);
}

#[test]
fn module_neighbors_grouped() {
    let index = load_fixture();
    let emacs = index.name_id("emacs").unwrap();
    let neighbors = index.module_neighbors(emacs);
    assert_eq!(neighbors.len(), 3);
    assert!(index.module_neighbors(index.name_id("solo").unwrap()).len() <= 1);
}

#[test]
fn rejects_bad_documents() {
    let mut doc = small_doc();

    let mut dup = doc.clone();
    dup.packages[7].id = 0;
    assert!(Index::from_doc(dup, 0).is_err());

    let mut bad_count = doc.clone();
    bad_count.header.package_count = 7;
    assert!(Index::from_doc(bad_count, 0).is_err());

    let mut oob = doc.clone();
    oob.packages[7].id = 99;
    assert!(Index::from_doc(oob, 0).is_err());

    let mut bad_schema = doc.clone();
    bad_schema.header.schema = 2;
    assert!(Index::from_doc(bad_schema, 0).is_err());

    let mut empty = doc.clone();
    empty.packages[0].name = String::new();
    assert!(Index::from_doc(empty, 0).is_err());

    doc.packages[0].inputs.push(99);
    assert!(Index::from_doc(doc, 0).is_err());
}

fn has_control(s: &str) -> bool {
    s.chars().any(char::is_control)
}

#[test]
fn untrusted_text_is_safe_in_both_document_and_blob_paths() {
    let mut doc = small_doc();
    doc.packages[0].name = "emacs\u{1b}]52;c;payload\u{7}".into();
    doc.packages[0].synopsis = "line\nnext\tword\u{1b}[31m".into();
    doc.header.origin = GuixOrigin {
        executable: "/bin/guix\u{1b}".into(),
        system: "x86_64-linux\u{7}".into(),
        channels: vec![ChannelPin { name: "guix\u{9b}".into(), commit: "abc".into() }],
        verified: true,
        mutable_package_path: false,
    };
    doc.diagnostics.push(IndexDiagnostic {
        package_id: 0,
        kind: "input\u{1b}".into(),
        code: "fail\u{7}".into(),
        message: "oops\u{9b}31m".into(),
    });
    let mut index = Index::from_doc(doc, 0).unwrap();
    assert!(!has_control(&index.packages[0].name));
    assert!(!has_control(&index.diagnostics[0].message));
    assert!(!index.origin.is_verified());
    assert!(!has_control(&index.origin.executable));
    assert!(!has_control(&index.origin.system));
    assert!(!has_control(&index.origin.channels[0].name));
    index.packages[0].name = "evil\u{1b}\u{7}".to_string();
    index.packages[0].inputs = vec![1, 1];
    let decoded = blob::decode(&blob::encode(&index), 0).unwrap();
    assert!(!has_control(&decoded.packages[0].name));
    assert_eq!(decoded.packages[0].inputs.as_slice(), &[1]);
}

#[test]
fn packages_build_directly_and_count_their_relations() {
    let index = load_fixture();
    let packages: Vec<_> = index
        .packages
        .iter()
        .map(|p| guixvis::index::Package {
            id: p.id,
            catalog: p.catalog,
            name: p.name.clone(),
            version: p.version.clone(),
            synopsis: p.synopsis.clone(),
            description: p.description.clone(),
            homepage: p.homepage.clone(),
            licenses: p.licenses.clone(),
            file: p.file.clone(),
            line: p.line,
            inputs: p.inputs.clone(),
            propagated: p.propagated.clone(),
            native: p.native.clone(),
        })
        .collect();
    let rebuilt = Index::from_packages(packages, "testcommit".into(), 0, 0).unwrap();
    assert_eq!(rebuilt.len(), index.len());
    assert_eq!(rebuilt.dependents_count(4), 4);
    assert_eq!(rebuilt.snapshot_id(), index.snapshot_id());
    assert_eq!(DepKind::Propagated.label(), "P");
    assert_eq!(DepKind::Input.label(), "");
    assert!(!rebuilt.is_empty());
}

#[test]
fn dependents_are_filed_once_per_name_in_id_order() {
    let doc = doc_of(
        vec![
            pkg(0, "a", &[2], &[], &[]),
            pkg(1, "b", &[3], &[], &[]),
            pkg(2, "lib", &[], &[], &[]),
            pkg(3, "lib", &[], &[], &[]),
            pkg(4, "c", &[], &[], &[2]),
        ],
        "groups",
    );
    let index = Index::from_doc(doc, 0).unwrap();
    let names = dependents_by_name(&index);
    assert_eq!(
        names,
        vec![("lib".to_string(), vec!["a".to_string(), "c".to_string(), "b".to_string()])]
    );
}

#[test]
fn documents_are_accepted_exactly_when_valid() {
    let doc = small_doc();
    assert!(Index::from_doc(doc.clone(), 0).is_ok());

    let mut shuffled = doc.clone();
    shuffled.packages.reverse();
    assert!(Index::from_doc(shuffled, 0).is_ok());

    let mut swapped = doc.clone();
    swapped.packages[7].id = 8;
    swapped.packages[8].id = 7;
    assert!(Index::from_doc(swapped, 0).is_ok());

    let mut missing = doc.clone();
    missing.packages[7].id = 8;
    assert!(Index::from_doc(missing, 0).is_err());

    let mut diag = doc.clone();
    diag.diagnostics.push(IndexDiagnostic {
        package_id: 10,
        kind: "warning".to_string(),
        code: "x".to_string(),
        message: "m".to_string(),
    });
    assert!(Index::from_doc(diag.clone(), 0).is_err());
    diag.diagnostics[0].package_id = 9;
    assert!(Index::from_doc(diag, 0).is_ok());
}

#[test]
fn bounded_walks_list_min_of_cap_and_reachable() {
    let index = load_fixture();
    // emacs reaches gtk+, zlib, pkg-config and texinfo within two steps.
    for cap in 0..6usize {
        let (nodes, total) = index.deps_bfs(0, 2, cap);
        assert_eq!(nodes.len(), cap.min(4), "cap {cap}");
        if cap >= 4 {
            assert_eq!(total, 4);
        }
    }
    let (nodes, _) = index.deps_bfs(0, 2, 10);
    let depth_of = |id: u32| nodes.iter().find(|n| n.id == id).unwrap().depth;
    assert_eq!(depth_of(3), 1);
    assert_eq!(depth_of(4), 1);
    let (rev, total) = index.dependents_bfs(4, 2, 10);
    assert_eq!(rev.len(), 4);
    assert_eq!(total, 4);
    assert!(rev.iter().all(|n| n.depth == 1));
}

#[test]
fn walks_deepen_along_the_output_and_carry_kinds() {
    let index = load_fixture();
    let (nodes, total) = index.deps_bfs(0, 3, 100);
    assert!(nodes.windows(2).all(|w| w[0].depth <= w[1].depth));
    assert!(nodes.iter().all(|n| n.kind.is_some()));
    assert_eq!(total, nodes.len());
    let (capped, total) = index.deps_bfs(0, 3, 2);
    assert_eq!(capped.len(), 2);
    assert!(capped.len() < total && total <= 4);
    let (rev, _) = index.dependents_bfs(4, 2, 10);
    assert!(rev.iter().all(|n| n.kind.is_none()));
}

#[test]
fn grouped_dependents_add_up_to_all_dependents() {
    let index = load_fixture();
    let groups = dependents_by_name(&index);
    let grouped: usize = groups.iter().map(|(_, ds)| ds.len()).sum();
    let all: usize = index.dependents.iter().map(|ds| ds.len()).sum();
    assert_eq!(grouped, all);
}

#[test]
fn content_changes_change_the_encoding() {
    let base = Index::from_doc(small_doc(), 0).unwrap();
    let bytes = blob::encode(&base);
    let mut flag = small_doc();
    flag.packages[3].catalog = false;
    assert_ne!(blob::encode(&Index::from_doc(flag, 0).unwrap()), bytes);
    let mut native = small_doc();
    native.packages[0].native_inputs.clear();
    assert_ne!(blob::encode(&Index::from_doc(native, 0).unwrap()), bytes);
    let mut diag = small_doc();
    diag.diagnostics.push(IndexDiagnostic {
        package_id: 1,
        kind: "warning".to_string(),
        code: "c".to_string(),
        message: "m".to_string(),
    });
    assert_ne!(blob::encode(&Index::from_doc(diag, 0).unwrap()), bytes);
    assert_eq!(&bytes[..8], b"GUIV5IDX");
    assert_eq!(&bytes[8..12], &4u32.to_le_bytes());
    assert_eq!(&bytes[12..16], &(base.len() as u32).to_le_bytes());
}

#[test]
fn built_texts_replace_control_characters_with_spaces() {
    let mut doc = small_doc();
    doc.packages[0].name = "em\u{1b}acs".into();
    doc.packages[0].description = "a\nb\tc\u{7}".into();
    let index = Index::from_doc(doc, 0).unwrap();
    assert_eq!(index.packages[0].name, "em acs");
    assert_eq!(index.packages[0].description, "a\nb\tc ");
}
