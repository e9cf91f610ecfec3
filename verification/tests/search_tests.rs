use guixvis::index::Index;
use guixvis::model::{GuixOrigin, Header, IndexDoc, PkgJson, SCHEMA_VERSION};
use guixvis::search::{
    all_terms_match, boost, browse, byte_freq, chunk_ranges, dependents_by_name, highlight_ranges, hit_cmp, hit_highlights, hub_order,
    prefilter, push_range, rank_hits, rarest_byte, select_hits, SearchHit, RESULT_CAP,
};
use std::cmp::Ordering;

fn pkg(id: u32, name: &str, version: &str, inputs: Vec<u32>) -> PkgJson {
    PkgJson {
        id,
        name: name.to_string(),
        catalog: true,
        version: version.to_string(),
        synopsis: String::new(),
        description: String::new(),
        homepage: String::new(),
        licenses: Vec::new(),
        file: (String::new(), 0),
        inputs,
        propagated_inputs: Vec::new(),
        native_inputs: Vec::new(),
    }
}

fn index_of(packages: Vec<PkgJson>) -> Index {
    let doc = IndexDoc {
        header: Header {
            schema: SCHEMA_VERSION,
            guix_commit: String::new(),
            generated_ms: "0".to_string(),
            package_count: packages.len() as u64,
            origin: GuixOrigin::default(),
        },
        packages,
        diagnostics: Vec::new(),
    };
    Index::from_doc(doc, 0).unwrap()
}

fn small_fixture() -> Index {
    index_of(vec![
        pkg(0, "emacs", "29.1", vec![3, 4, 5, 6]),
        pkg(1, "emacs-minimal", "29.1", vec![4]),
        pkg(2, "emacs-next", "30.0", vec![4]),
        pkg(3, "gtk+", "3.24", vec![4]),
        pkg(4, "zlib", "1.3", vec![]),
        pkg(5, "pkg-config", "0.29", vec![]),
        pkg(6, "texinfo", "7.1", vec![]),
        pkg(7, "solo", "1", vec![]),
        pkg(8, "cyc-a", "1", vec![9]),
        pkg(9, "cyc-b", "1", vec![8]),
    ])
}

fn hit(id: u32, score: u32, name_match: bool) -> SearchHit {
    SearchHit { id, score, name_match }
}

#[test]
fn empty_query_browses_hubs_first() {
    let index = small_fixture();
    let order = hub_order(&index);
    let hits = browse(&order, 10);
    assert_eq!(hits.len(), 10);
    assert_eq!(index.packages[hits[0].hit.id as usize].name, "zlib");
    let counts: Vec<usize> = hits.iter().map(|h| index.dependents_count(h.hit.id)).collect();
    let mut sorted = counts.clone();
    sorted.sort_unstable_by(|a, b| b.cmp(a));
    assert_eq!(counts, sorted, "browse order is by dependent count");
    assert!(hits.iter().all(|h| h.hit.score == 0 && !h.hit.name_match && h.name_ranges.is_empty()));
    assert_eq!(browse(&order, 3).len(), 3);
    assert!(browse(&order, 0).is_empty());
}

#[test]
fn ranking_orders_by_score_name_match_length_name_and_id() {
    let index = small_fixture();
    assert_eq!(hit_cmp(&index, &hit(0, 9, false), &hit(1, 5, true)), Ordering::Less);
    assert_eq!(hit_cmp(&index, &hit(1, 5, true), &hit(0, 5, false)), Ordering::Less);
    assert_eq!(hit_cmp(&index, &hit(0, 5, true), &hit(1, 5, true)), Ordering::Less);
    assert_eq!(hit_cmp(&index, &hit(8, 5, true), &hit(9, 5, true)), Ordering::Less);
    assert_eq!(hit_cmp(&index, &hit(2, 5, true), &hit(2, 5, true)), Ordering::Equal);
    assert_eq!(hit_cmp(&index, &hit(9, 5, true), &hit(8, 5, true)), Ordering::Greater);
    let ranked = rank_hits(&index, &vec![hit(1, 10, true), hit(0, 10, true), hit(4, 50, false), hit(2, 10, true)], 10);
    assert_eq!(ranked.iter().map(|h| h.id).collect::<Vec<_>>(), vec![4, 0, 2, 1]);
}

#[test]
fn duplicate_names_keep_version_order_at_every_limit() {
    let index = index_of((0..64).map(|id| pkg(id, "emacs", &id.to_string(), vec![])).collect());
    let hits: Vec<SearchHit> = (0..64).rev().map(|id| hit(id, 100, true)).collect();
    for limit in 1..=64 {
        let ids: Vec<u32> = rank_hits(&index, &hits, limit).iter().map(|h| h.id).collect();
        assert_eq!(ids, (0..limit as u32).collect::<Vec<_>>());
    }
}

#[test]
fn limited_results_keep_the_full_ranking_prefix() {
    let index = small_fixture();
    let hits: Vec<SearchHit> = (0..10).map(|id| hit(id, (id * 7 % 5) as u32, id % 2 == 0)).collect();
    let full = rank_hits(&index, &hits, usize::MAX);
    assert_eq!(full.len(), 10);
    for limit in 0..=11 {
        let limited = rank_hits(&index, &hits, limit);
        let expected: Vec<u32> = full.iter().take(limit).map(|h| h.id).collect();
        assert_eq!(limited.iter().map(|h| h.id).collect::<Vec<_>>(), expected, "limit {limit}");
    }
}

#[test]
fn parallel_selection_keeps_the_full_ranking_prefix() {
    let count = 3073u32;
    let index = index_of((0..count).map(|id| pkg(id, &format!("package-{id:04}-emacs"), "1", vec![])).collect());
    let hits: Vec<SearchHit> = (0..count).map(|id| hit(id, (id * 31 % 97) as u32, id % 3 == 0)).collect();
    let full = rank_hits(&index, &hits, usize::MAX);
    for threads in [1usize, 3, 8, 64] {
        let ranges = chunk_ranges(hits.len(), threads);
        for limit in [1usize, 50, 500, 4000] {
            let parts: Vec<Vec<SearchHit>> = ranges
                .iter()
                .map(|(s, e)| rank_hits(&index, &hits[*s..*e].to_vec(), limit))
                .collect();
            let merged = select_hits(&index, &parts, limit);
            assert_eq!(
                merged.iter().map(|h| h.id).collect::<Vec<_>>(),
                full.iter().take(limit).map(|h| h.id).collect::<Vec<_>>(),
                "threads {threads}, limit {limit}"
            );
        }
    }
    assert!(RESULT_CAP >= 500);
}

#[test]
fn empty_index_and_zero_limit_do_not_scan() {
    let index = index_of(Vec::new());
    assert!(chunk_ranges(0, 8).is_empty());
    assert!(rank_hits(&index, &Vec::new(), 10).is_empty());
    assert!(browse(&hub_order(&index), 10).is_empty());
    let small = small_fixture();
    assert!(rank_hits(&small, &vec![hit(0, 1, true)], 0).is_empty());
}

#[test]
fn chunks_tile_the_candidates() {
    assert_eq!(chunk_ranges(10, 4), vec![(0, 3), (3, 6), (6, 9), (9, 10)]);
    assert_eq!(chunk_ranges(10, 0), vec![(0, 10)]);
    assert_eq!(chunk_ranges(3, 8), vec![(0, 1), (1, 2), (2, 3)]);
    assert_eq!(chunk_ranges(100, 100).len(), 8);
}

#[test]
fn highlight_ranges_merge_runs_and_split_at_the_separator() {
    let (name, synopsis) = highlight_ranges(5, &vec![3, 0, 1, 2, 1, 9, 10]);
    assert_eq!(name, vec![(0, 4)]);
    assert_eq!(synopsis, vec![(3, 5)]);
    let (name, synopsis) = highlight_ranges(5, &vec![4, 5, 6]);
    assert!(name.is_empty() && synopsis.is_empty());
    let (name, synopsis) = highlight_ranges(5, &vec![]);
    assert!(name.is_empty() && synopsis.is_empty());
    let mut n = Vec::new();
    let mut s = Vec::new();
    push_range(5, 0, 5, &mut n, &mut s);
    push_range(5, 7, 9, &mut n, &mut s);
    push_range(5, 4, 7, &mut n, &mut s);
    assert_eq!(n, vec![(0, 5)]);
    assert_eq!(s, vec![(1, 3)]);
}

#[test]
fn the_prefilter_checks_the_rarest_byte_of_each_term() {
    let lower = vec!["emacs the editor".to_string(), "zlib compression".to_string(), "gtk+ toolkit".to_string()];
    let freq = byte_freq(&lower);
    assert_eq!(freq.len(), 256);
    assert_eq!(freq[b'e' as usize], 4);
    assert_eq!(freq[b'z' as usize], 1);
    assert_eq!(freq[b' ' as usize], 4);
    assert_eq!(rarest_byte("zlib", &freq, 3), Some(b'z'));
    assert_eq!(rarest_byte("ed", &freq, 3), Some(b'd'));
    assert_eq!(rarest_byte("東京", &freq, 3), None);
    assert_eq!(rarest_byte("e", &freq, 3), None);
    let rare = vec![Some(b'z'), None];
    assert!(prefilter("zlib compression", &rare));
    assert!(!prefilter("emacs the editor", &rare));
    assert!(prefilter("anything", &vec![None]));
}

#[test]
fn substring_boosts_saturate() {
    assert_eq!(boost(10, true, true), 710);
    assert_eq!(boost(10, false, true), 210);
    assert_eq!(boost(10, false, false), 10);
    assert_eq!(boost(u32::MAX - 5, true, false), u32::MAX);
}

#[test]
fn dependents_are_filed_under_package_names() {
    let index = small_fixture();
    let groups = dependents_by_name(&index);
    let zlib = groups.iter().find(|(n, _)| n == "zlib").unwrap();
    assert_eq!(zlib.1, vec!["emacs", "emacs-minimal", "emacs-next", "gtk+"]);
    assert!(groups.iter().all(|(n, _)| n != "solo"));
    let names: Vec<&str> = groups.iter().map(|(n, _)| n.as_str()).collect();
    let mut unique = names.clone();
    unique.sort();
    unique.dedup();
    assert_eq!(unique.len(), names.len());
}

#[test]
fn highlights_stop_after_the_first_hundred_hits() {
    let indices = vec![0, 1, 5, 6, 7];
    let (names, synopsis) = hit_highlights(99, 3, &indices);
    assert_eq!(names, vec![(0, 2)]);
    assert_eq!(synopsis, vec![(1, 4)]);
    let (names, synopsis) = hit_highlights(100, 3, &indices);
    assert!(names.is_empty() && synopsis.is_empty());
}

#[test]
fn every_word_must_score() {
    assert!(all_terms_match(&vec![Some(3), Some(0)]));
    assert!(!all_terms_match(&vec![Some(3), None]));
    assert!(all_terms_match(&Vec::new()));
}
