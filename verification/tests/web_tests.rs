use guixvis::graph::{Dir, NODE_BUDGET};
use guixvis::web::{
    accepts_gzip, graph_budget, graph_depth, graph_dir, local_authority, origin_matches_host,
    positive_quality, query_too_long, request_allowed, search_limit, valid_package_name,
};

fn some(values: &[&str]) -> Vec<Option<String>> {
    values.iter().map(|v| Some(v.to_string())).collect()
}

#[test]
fn only_whole_loopback_authorities_are_local() {
    assert_eq!(local_authority("localhost"), Some(("localhost".to_string(), 80)));
    assert_eq!(local_authority("LocalHost:8787"), Some(("LocalHost".to_string(), 8787)));
    assert_eq!(local_authority("127.0.0.1:0"), Some(("127.0.0.1".to_string(), 0)));
    assert_eq!(local_authority("[::1]:443"), Some(("[::1]".to_string(), 443)));
    for bad in [
        "evil.example.com",
        "127.0.0.1:",
        "127.0.0.1:65536",
        "127.0.0.1:80x",
        "user@localhost",
        "localhost/path",
        "[::1]x",
        "[::1",
        "127.0.0.2",
        "",
    ] {
        assert_eq!(local_authority(bad), None, "{bad:?}");
    }
}

#[test]
fn only_this_servers_origin_matches() {
    assert!(origin_matches_host("http://127.0.0.1:8787", "127.0.0.1:8787"));
    assert!(origin_matches_host("http://LOCALHOST:8787", "localhost:8787"));
    assert!(!origin_matches_host("http://evil.example", "127.0.0.1:8787"));
    assert!(!origin_matches_host("https://127.0.0.1:8787", "127.0.0.1:8787"));
    assert!(!origin_matches_host("http://127.0.0.1:8788", "127.0.0.1:8787"));
    assert!(!origin_matches_host("http://localhost:8787", "127.0.0.1:8787"));
}

#[test]
fn quality_values_admit_an_encoding_only_when_positive() {
    for ok in ["1", "1.", "1.0", "1.000", "0.5", "0.001", "0.100"] {
        assert!(positive_quality(ok), "{ok:?}");
    }
    for bad in ["0", "0.0", "0.000", "1.5", "2", "0.0001", "", ".5", "1.0000", "-1", "0.5a"] {
        assert!(!positive_quality(bad), "{bad:?}");
    }
}

#[test]
fn gzip_is_used_only_when_the_client_accepts_it() {
    assert!(accepts_gzip(&some(&["gzip"])));
    assert!(accepts_gzip(&some(&["deflate, GZip;q=0.5"])));
    assert!(accepts_gzip(&some(&["x-gzip"])));
    assert!(accepts_gzip(&some(&["*"])));
    assert!(!accepts_gzip(&some(&["gzip;q=0"])));
    assert!(!accepts_gzip(&some(&["*", "gzip;q=0"])));
    assert!(!accepts_gzip(&some(&["gzip;q=0", "*"])));
    assert!(!accepts_gzip(&some(&["gzip", "gzip;q=0"])));
    assert!(!accepts_gzip(&some(&["gzip;level=1"])));
    assert!(!accepts_gzip(&some(&["gzip;q=1;q=1"])));
    assert!(!accepts_gzip(&some(&["br"])));
    assert!(!accepts_gzip(&Vec::new()));
    assert!(!accepts_gzip(&vec![Some("gzip".to_string()), None]));
    assert!(accepts_gzip(&some(&[" gzip ; q=1 "])));
}

#[test]
fn exotic_package_names_are_rejected() {
    for name in ["emacs", "gtk+", "pkg-config", "python3.11", "a_b"] {
        assert!(valid_package_name(name), "{name:?}");
    }
    let long = "a".repeat(129);
    for name in ["", "has space", "dot/dot", "emacs\u{1b}", "caf\u{e9}", long.as_str()] {
        assert!(!valid_package_name(name), "{name:?}");
    }
    assert!(valid_package_name(&"a".repeat(128)));
}

#[test]
fn cross_site_and_foreign_requests_are_refused() {
    let host = some(&["127.0.0.1:8787"]);
    assert!(request_allowed(&host, true, &Vec::new(), &Vec::new()));
    assert!(!request_allowed(&host, false, &Vec::new(), &Vec::new()));
    assert!(!request_allowed(&some(&["evil.example.com"]), true, &Vec::new(), &Vec::new()));
    assert!(!request_allowed(&some(&["127.0.0.1:8787", "127.0.0.1:8787"]), true, &Vec::new(), &Vec::new()));
    assert!(!request_allowed(&Vec::new(), true, &Vec::new(), &Vec::new()));
    assert!(!request_allowed(&host, true, &some(&["http://evil.example"]), &Vec::new()));
    assert!(request_allowed(&host, true, &some(&["http://127.0.0.1:8787"]), &Vec::new()));
    assert!(!request_allowed(&host, true, &Vec::new(), &some(&["cross-site"])));
    assert!(request_allowed(&host, true, &Vec::new(), &some(&["same-origin"])));
    assert!(request_allowed(&host, true, &Vec::new(), &some(&["none"])));
    assert!(!request_allowed(&host, true, &Vec::new(), &vec![None]));
}

#[test]
fn search_and_graph_parameters_are_bounded() {
    assert_eq!(search_limit(None), 50);
    assert_eq!(search_limit(Some(0)), 1);
    assert_eq!(search_limit(Some(600)), 500);
    assert_eq!(search_limit(Some(7)), 7);
    assert!(query_too_long(&"e".repeat(201)));
    assert!(!query_too_long(&"é".repeat(200)));
    assert_eq!(graph_dir(&None), Some(Dir::Deps));
    assert_eq!(graph_dir(&Some("reverse".into())), Some(Dir::Dependents));
    assert_eq!(graph_dir(&Some("dependents".into())), Some(Dir::Dependents));
    assert_eq!(graph_dir(&Some("sideways".into())), None);
    assert_eq!(graph_depth(None), Some(2));
    assert_eq!(graph_depth(Some(9)), None);
    assert_eq!(graph_depth(Some(0)), None);
    assert_eq!(graph_depth(Some(8)), Some(8));
    assert_eq!(graph_budget(None), NODE_BUDGET);
    assert_eq!(graph_budget(Some(5)), 5);
    assert_eq!(graph_budget(Some(100_000)), NODE_BUDGET);
}

#[test]
fn an_explicit_gzip_entry_decides_over_the_wildcard_in_any_order() {
    assert!(accepts_gzip(&some(&["*;q=0, gzip"])));
    assert!(accepts_gzip(&some(&["gzip", "*;q=0"])));
    assert!(!accepts_gzip(&some(&["*", "gzip;q=0.000"])));
    assert!(!accepts_gzip(&some(&["*;q=0", "deflate"])));
}
