use guixvis::cache::{commit_from_describe, parse_describe_json, MAX_DESCRIBE_BYTES};
use guixvis::process::{output_fits, LineBuffer, MAX_LINE};
use guixvis::blob;
use guixvis::blob::{BlobError, FieldKind};
use guixvis::cache::{classify, snapshot_status, Cache, CacheStatus};
use guixvis::index::Index;
use guixvis::indexer::{after_cache, progress_line, IndexEvent};
use guixvis::model::{ChannelPin, GuixOrigin, Header, IndexDiagnostic, IndexDoc, PkgJson, SCHEMA_VERSION};

fn pkg(id: u32, name: &str, inputs: &[u32], propagated: &[u32], native: &[u32]) -> PkgJson {
    PkgJson {
        id,
        name: name.to_string(),
        catalog: true,
        version: "1.0".to_string(),
        synopsis: String::new(),
        description: String::new(),
        homepage: String::new(),
        licenses: vec!["GPL 3+".to_string()],
        file: (format!("gnu/packages/p{id}.scm"), id as u64),
        inputs: inputs.to_vec(),
        propagated_inputs: propagated.to_vec(),
        native_inputs: native.to_vec(),
    }
}

fn doc_of(packages: Vec<PkgJson>, commit: &str) -> IndexDoc {
    IndexDoc {
        header: Header {
            schema: SCHEMA_VERSION,
            guix_commit: commit.to_string(),
            generated_ms: "0".to_string(),
            package_count: packages.len() as u64,
            origin: GuixOrigin::default(),
        },
        packages,
        diagnostics: Vec::new(),
    }
}

fn small_doc() -> IndexDoc {
    doc_of(
        vec![
            pkg(0, "emacs", &[3, 4], &[5], &[6]),
            pkg(1, "emacs-minimal", &[4], &[], &[]),
            pkg(2, "emacs-next", &[4], &[], &[]),
            pkg(3, "gtk+", &[4], &[], &[]),
            pkg(4, "zlib", &[], &[], &[]),
            pkg(5, "pkg-config", &[], &[], &[]),
            pkg(6, "texinfo", &[], &[], &[]),
            pkg(7, "solo", &[], &[], &[]),
            pkg(8, "cyc-a", &[9], &[], &[]),
            pkg(9, "cyc-b", &[8], &[], &[]),
        ],
        "testcommit",
    )
}

fn identity_doc() -> IndexDoc {
    let mut packages = vec![
        pkg(0, "root", &[1, 2, 3, 4, 5], &[1], &[1]),
        pkg(1, "lib", &[], &[], &[]),
        pkg(2, "tool", &[], &[], &[]),
        pkg(3, "variant", &[], &[], &[]),
        pkg(4, "variant", &[], &[], &[]),
        pkg(5, "loop", &[0], &[], &[]),
    ];
    packages[4].catalog = false;
    doc_of(packages, "identity")
}

fn fixture_origin() -> GuixOrigin {
    GuixOrigin {
        executable: "/fixture/bin/guix".into(),
        system: "x86_64-linux".into(),
        channels: vec![ChannelPin { name: "guix".into(), commit: "testcommit".into() }],
        verified: true,
        mutable_package_path: false,
    }
}

fn fixture_index() -> Index {
    let mut doc = small_doc();
    doc.header.origin = fixture_origin();
    Index::from_doc(doc, 42).expect("fixture index")
}

#[test]
fn secondary_channel_changes_snapshot_content() {
    let mut doc = small_doc();
    doc.header.origin = GuixOrigin {
        executable: "/guix/bin/guix".into(),
        system: "x86_64-linux".into(),
        channels: vec![
            ChannelPin { name: "guix".into(), commit: "abc".into() },
            ChannelPin { name: "extra".into(), commit: "def".into() },
        ],
        verified: true,
        mutable_package_path: false,
    };
    let a = Index::from_doc(doc.clone(), 1).unwrap();
    doc.header.origin.channels[1].commit = "changed".into();
    let b = Index::from_doc(doc, 1).unwrap();
    assert_ne!(blob::encode(&a), blob::encode(&b), "secondary channel identity must persist");
    assert_ne!(a.snapshot_id(), b.snapshot_id());
}

#[test]
fn snapshot_token_is_content_scoped_not_process_scoped() {
    let index = fixture_index();
    let loaded = blob::decode(&blob::encode(&index), 999999).unwrap();
    assert_eq!(index.snapshot_id(), loaded.snapshot_id());
    assert_eq!(index.snapshot_id().len(), 64);
    let mut doc = identity_doc();
    let a = Index::from_doc(doc.clone(), 0).unwrap();
    doc.packages[0].inputs.retain(|id| *id != 4);
    let b = Index::from_doc(doc, 0).unwrap();
    assert_ne!(a.snapshot_id(), b.snapshot_id());
}

#[test]
fn origin_order_is_canonical_and_metadata_changes_token() {
    let mut doc = identity_doc();
    doc.header.origin = fixture_origin();
    doc.header.origin.channels.push(ChannelPin { name: "extra".into(), commit: "abc".into() });
    let a = Index::from_doc(doc.clone(), 0).unwrap();
    doc.header.origin.channels.reverse();
    let b = Index::from_doc(doc.clone(), 123).unwrap();
    assert_eq!(a.snapshot_id(), b.snapshot_id());
    doc.packages[4].catalog = true;
    let c = Index::from_doc(doc.clone(), 0).unwrap();
    assert_ne!(b.snapshot_id(), c.snapshot_id());
    doc.packages[0].native_inputs.clear();
    let d = Index::from_doc(doc.clone(), 0).unwrap();
    assert_ne!(c.snapshot_id(), d.snapshot_id());
    doc.diagnostics.push(IndexDiagnostic {
        package_id: 0,
        kind: "input".into(),
        code: "accessor-failed".into(),
        message: "Unavailable".into(),
    });
    let e = Index::from_doc(doc, 0).unwrap();
    assert_ne!(d.snapshot_id(), e.snapshot_id());
}

#[test]
fn snapshot_keeps_dependency_edges_and_reverse_edges() {
    let index = fixture_index();
    let bytes = blob::encode(&index);
    let back = blob::decode(&bytes, index.built_ms).expect("decode");

    assert_eq!(back.packages.len(), index.packages.len());
    for p in &index.packages {
        assert_eq!(back.name_id(&p.name), index.name_id(&p.name));
        assert_eq!(back.module_neighbors(p.id), index.module_neighbors(p.id));
    }
    for (a, b) in index.packages.iter().zip(back.packages.iter()) {
        assert_eq!((a.id, &a.name, &a.file, a.line), (b.id, &b.name, &b.file, b.line));
        assert_eq!(a.inputs, b.inputs);
        assert_eq!(a.propagated, b.propagated);
        assert_eq!(a.native, b.native);
        assert_eq!(a.licenses, b.licenses);
    }
    for id in 0..index.len() as u32 {
        assert_eq!(index.dependents_count(id), back.dependents_count(id), "dependent count for id {id}");
    }
}

#[test]
fn truncated_or_garbage_snapshot_is_rejected() {
    let index = fixture_index();
    let bytes = blob::encode(&index);

    assert!(blob::decode(b"not a snapshot at all", 0).is_err());
    assert!(blob::decode(&bytes[..8], 0).is_err());
    assert!(blob::decode(&bytes[..bytes.len() / 2], 0).is_err());
    let mut poisoned = bytes.clone();
    let header = 8 + 4 + 4 + 4 + index.guix_commit.len() + 8;
    poisoned[header..header + 4].copy_from_slice(&u32::MAX.to_le_bytes());
    assert!(blob::decode(&poisoned, 0).is_err());
}

#[test]
fn fixture_index_builds_from_cache_doc() {
    let index = fixture_index();
    let _ = Index::from_doc(small_doc(), 0).unwrap();
    assert_eq!(index.built_ms, 42);
    assert_eq!(index.len(), 10);
}

#[test]
fn the_snapshot_file_is_named_by_its_schema() {
    let cache = Cache { dir: "/tmp/cache/guixvis".to_string() };
    assert_eq!(cache.path(), "/tmp/cache/guixvis/index-v5.bin");
    let cache = Cache { dir: "/tmp/cache/".to_string() };
    assert_eq!(cache.path(), "/tmp/cache/index-v5.bin");
    let cache = Cache { dir: String::new() };
    assert_eq!(cache.path(), "index-v5.bin");
}

#[test]
fn snapshots_are_fresh_only_for_the_verified_origin_that_made_them() {
    let origin = fixture_origin();
    assert!(matches!(classify(fixture_index(), Some(&origin)), CacheStatus::Fresh(_)));
    assert!(matches!(classify(fixture_index(), None), CacheStatus::Unverified(_)));
    let mut mutable = fixture_origin();
    mutable.mutable_package_path = true;
    assert!(matches!(classify(fixture_index(), Some(&mutable)), CacheStatus::Unverified(_)));
    let mut incomplete = fixture_origin();
    incomplete.system.clear();
    assert!(matches!(classify(fixture_index(), Some(&incomplete)), CacheStatus::Unverified(_)));
    let mut other = fixture_origin();
    other.channels[0].commit = "othercommit".into();
    match classify(fixture_index(), Some(&other)) {
        CacheStatus::Stale { reason } => assert_eq!(reason, "origin changed"),
        status => panic!("expected Stale, got {status:?}"),
    }
}

#[test]
fn snapshot_bytes_decode_then_classify() {
    let bytes = blob::encode(&fixture_index());
    match snapshot_status(&bytes, Some(&fixture_origin()), 7) {
        Ok(CacheStatus::Fresh(index)) => {
            assert_eq!(index.built_ms, 7);
            assert_eq!(index.guix_commit, "testcommit");
            assert_eq!(index.len(), 10);
        }
        _ => panic!("expected a fresh snapshot"),
    }
    assert!(snapshot_status(b"this is not an index snapshot", None, 0).is_err());
}

#[test]
fn the_loader_rebuilds_unless_the_cache_is_usable() {
    let (event, done, quarantine) = after_cache(Ok(CacheStatus::Fresh(fixture_index())));
    assert!(matches!(event, IndexEvent::Ready { fresh: true, unkeyed: false, .. }));
    assert!(done && !quarantine);
    let (event, done, _) = after_cache(Ok(CacheStatus::Unverified(fixture_index())));
    assert!(matches!(event, IndexEvent::Ready { fresh: false, unkeyed: true, .. }));
    assert!(done);
    let (event, done, quarantine) = after_cache(Ok(CacheStatus::Stale { reason: "origin changed".into() }));
    match event {
        IndexEvent::Failed { msg } => assert_eq!(msg, "cache stale (origin changed); rebuilding"),
        _ => panic!("expected a failure notice"),
    }
    assert!(!done && !quarantine);
    let (event, done, _) = after_cache(Ok(CacheStatus::Absent));
    assert!(matches!(event, IndexEvent::Progress { done: 0, total: 0 }));
    assert!(!done);
    let (event, done, quarantine) = after_cache(Err("bad magic".into()));
    match event {
        IndexEvent::Failed { msg } => assert_eq!(msg, "cache unreadable (bad magic); rebuilding"),
        _ => panic!("expected a failure notice"),
    }
    assert!(!done && quarantine);
}

#[test]
fn progress_lines_carry_two_counts() {
    assert_eq!(progress_line("PROGRESS 1 2"), Some((1, 2)));
    assert_eq!(progress_line("PROGRESS   30  400 extra"), Some((30, 400)));
    assert_eq!(progress_line("PROGRESS 1"), None);
    assert_eq!(progress_line("PROGRESS x 2"), None);
    assert_eq!(progress_line("progress 1 2"), None);
    assert_eq!(progress_line("PROGRESS"), None);
}

#[test]
fn error_lines_are_complete_bounded_and_utf8() {
    let mut buf = LineBuffer::new();
    assert!(buf.feed(b"PROGRESS 1").is_empty());
    assert_eq!(buf.feed(b" 2\nPROGRESS 2 2\npartial"), vec!["PROGRESS 1 2", "PROGRESS 2 2"]);
    assert_eq!(buf.feed(b"\n"), vec!["partial"]);
    let mut long = vec![b'x'; MAX_LINE + 1];
    long.push(b'\n');
    long.extend_from_slice(b"ok\n");
    assert_eq!(buf.feed(&long), vec!["ok"]);
    let mut exact = vec![b'y'; MAX_LINE];
    exact.push(b'\n');
    assert_eq!(buf.feed(&exact).len(), 1);
    assert!(buf.feed(&[0xff, b'\n']).is_empty());
    assert!(output_fits(10, 90, 100));
    assert!(!output_fits(11, 90, 100));
    assert!(!output_fits(1, 200, 100));
}

#[test]
fn describe_output_gives_the_first_channel_commit() {
    let out = br#"[{"name":"guix","commit":"abc123"},{"name":"x","commit":"def"}]"#;
    assert_eq!(commit_from_describe(out, true), Some("abc123".to_string()));
    assert_eq!(commit_from_describe(out, false), None);
    assert_eq!(commit_from_describe(b"", true), None);
    assert_eq!(commit_from_describe(b"[]", true), None);
    assert_eq!(commit_from_describe(b"{\"commit\":\"abc\"}", true), None);
    assert_eq!(commit_from_describe(br#"[{"commit":1}]"#, true), None);
    assert_eq!(commit_from_describe(b"not json", true), None);
    let mut big = br#"[{"commit":"abc"}]"#.to_vec();
    big.resize(MAX_DESCRIBE_BYTES + 1, b' ');
    assert_eq!(commit_from_describe(&big, true), None);
    big.truncate(MAX_DESCRIBE_BYTES);
    assert_eq!(commit_from_describe(&big, true), Some("abc".to_string()));
    assert_eq!(
        parse_describe_json(br#"[{"commit":"a"},{"name":"b"},{"commit":2}]"#),
        Some(vec![Some("a".to_string()), None, None])
    );
    assert_eq!(parse_describe_json(b"{}"), None);
}

#[test]
fn every_strict_prefix_is_rejected_and_one_more_byte_is_trailing() {
    let index = fixture_index();
    let bytes = blob::encode(&index);
    for m in 0..bytes.len() {
        assert!(blob::decode(&bytes[..m], 0).is_err(), "prefix of {m} bytes");
    }
    let mut longer = bytes.clone();
    longer.push(7);
    assert_eq!(blob::decode(&longer, 0).unwrap_err(), BlobError::Field(FieldKind::TrailingBytes));
    assert!(blob::decode(&bytes, 0).is_ok());
}

#[test]
fn snapshot_tokens_are_sixty_four_lowercase_hex_digits() {
    let index = fixture_index();
    assert_eq!(index.snapshot.chars().count(), 64);
    assert!(index.snapshot.chars().all(|c| c.is_ascii_digit() || ('a'..='f').contains(&c)));
    let back = blob::decode(&blob::encode(&index), 1).unwrap();
    assert_eq!(back.snapshot, index.snapshot);
    let plain = Index::from_doc(small_doc(), 0).unwrap();
    assert_eq!(plain.snapshot.len(), 64);
    assert_ne!(plain.snapshot, index.snapshot);
}
