use depgraph::graph::{DepKind, Graph};
use depgraph::paths::{join_path, normalize_path, parent_dir};
use depgraph::resolve::{classify, resolve, Fs};
use depgraph::stats::{aggregate, aggregate_checked, total_dep_count};

fn s(x: &str) -> String {
    String::from(x)
}

#[test]
fn join_normalizes_dot_segments() {
    assert_eq!(join_path(&s("proj/src"), &s("./foo.js")), "proj/src/foo.js");
    assert_eq!(join_path(&s("proj/src"), &s("../lib/a.ts")), "proj/lib/a.ts");
    assert_eq!(join_path(&s("proj"), &s("b")), "proj/b");
    assert_eq!(join_path(&s("/abs/dir"), &s("./x")), "/abs/dir/x");
}

#[test]
fn normalize_drops_empty_and_dot_segments() {
    assert_eq!(normalize_path(&s("a//b")), "a/b");
    assert_eq!(normalize_path(&s("a/./b/")), "a/b");
    assert_eq!(normalize_path(&s("a/b/../c")), "a/c");
    assert_eq!(normalize_path(&s("/a/../../b")), "/b");
    assert_eq!(normalize_path(&s("../x")), "../x");
}

#[test]
fn parent_dir_is_the_containing_directory() {
    assert_eq!(parent_dir(&s("proj/src/index.js")), "proj/src");
    assert_eq!(parent_dir(&s("proj/src")), "proj");
}

#[test]
fn graph_push_appends_in_order_and_seen_tracks_keys() {
    let mut g = Graph::new();
    assert!(!g.seen(s("a.js")));
    g.push_local_dep(s("a.js"), s("./b.js"));
    g.push_library_dep(s("a.js"), s("react"));
    g.push_library_dep(s("c.js"), s("react"));
    assert!(g.seen(s("a.js")));
    assert!(g.seen(s("c.js")));
    assert!(!g.seen(s("b.js")));
    assert_eq!(g.entries.len(), 2);
    assert_eq!(g.entries[0].file, "a.js");
    assert_eq!(g.entries[0].deps.len(), 2);
    assert_eq!(g.entries[0].deps[0].name, "./b.js");
    assert_eq!(g.entries[0].deps[0].kind, DepKind::Local);
    assert_eq!(g.entries[0].deps[1].name, "react");
    assert_eq!(g.entries[0].deps[1].kind, DepKind::External);
    assert_eq!(g.entries[1].file, "c.js");
}

#[test]
fn index_probe_respects_priority_order() {
    // index.tsx wins over the others
    let mut fs = Fs::new();
    fs.add_dir(s("p/src/c"));
    fs.add_file(s("p/src/c/index.tsx"));
    fs.add_file(s("p/src/c/index.ts"));
    fs.add_file(s("p/src/c/index.js"));
    let r = resolve(&s("./c"), &s("p/src"), &s("p"), &fs);
    assert_eq!(r.unwrap(), "p/src/c/index.tsx");
    // without index.tsx, index.ts wins
    let mut fs2 = Fs::new();
    fs2.add_dir(s("p/src/c"));
    fs2.add_file(s("p/src/c/index.ts"));
    fs2.add_file(s("p/src/c/index.js"));
    let r2 = resolve(&s("./c"), &s("p/src"), &s("p"), &fs2);
    assert_eq!(r2.unwrap(), "p/src/c/index.ts");
}

#[test]
fn parent_relative_directory_lookup_applies_second() {
    let mut fs = Fs::new();
    fs.add_dir(s("p/shared"));
    fs.add_file(s("p/shared/index.js"));
    let r = resolve(&s("./shared"), &s("p/src"), &s("p"), &fs);
    assert_eq!(r.unwrap(), "p/shared/index.js");
}

#[test]
fn extension_probe_applies_from_the_project_root() {
    let mut fs = Fs::new();
    fs.add_file(s("p/util.ts"));
    let r = resolve(&s("./util"), &s("p/src"), &s("p"), &fs);
    assert_eq!(r.unwrap(), "p/util.ts");
}

#[test]
fn non_relative_specifier_never_resolves() {
    let mut fs = Fs::new();
    fs.add_dir(s("p/src/lodash"));
    fs.add_file(s("p/src/lodash/index.js"));
    let r = resolve(&s("lodash"), &s("p/src"), &s("p"), &fs);
    assert!(r.is_none());
    assert_eq!(classify(&s("lodash"), &s("p/src"), &s("p"), &fs), DepKind::External);
}

#[test]
fn resolution_is_deterministic_for_an_unchanged_snapshot() {
    let mut fs = Fs::new();
    fs.add_file(s("p/src/foo.js"));
    let a = resolve(&s("./foo.js"), &s("p/src"), &s("p"), &fs);
    let b = resolve(&s("./foo.js"), &s("p/src"), &s("p"), &fs);
    assert_eq!(a, b);
    assert_eq!(a.unwrap(), "p/src/foo.js");
}

#[test]
fn classify_is_local_exactly_on_resolution_success() {
    let mut fs = Fs::new();
    fs.add_file(s("p/src/foo.js"));
    assert_eq!(classify(&s("./foo.js"), &s("p/src"), &s("p"), &fs), DepKind::Local);
    assert_eq!(classify(&s("./bar.js"), &s("p/src"), &s("p"), &fs), DepKind::External);
}

#[test]
fn stats_count_equal_specifiers_across_files() {
    let mut g = Graph::new();
    g.push_library_dep(s("a.js"), s("react"));
    g.push_library_dep(s("b.js"), s("react"));
    g.push_library_dep(s("b.js"), s("react"));
    g.push_local_dep(s("b.js"), s("./x.js"));
    let report = aggregate(&g);
    assert_eq!(report.len(), 2);
    assert_eq!(report[0].name, "react");
    assert_eq!(report[0].count, 3);
    assert_eq!(report[1].name, "./x.js");
    assert_eq!(report[1].count, 1);
}

#[test]
fn stats_break_count_ties_lexicographically() {
    let mut g = Graph::new();
    g.push_library_dep(s("a.js"), s("zeta"));
    g.push_library_dep(s("a.js"), s("alpha"));
    g.push_library_dep(s("a.js"), s("beta"));
    let report = aggregate(&g);
    let names: Vec<&str> = report.iter().map(|e| e.name.as_str()).collect();
    assert_eq!(names, vec!["alpha", "beta", "zeta"]);
    assert!(report.iter().all(|e| e.count == 1));
}

#[test]
fn total_dep_count_and_checked_aggregate_agree() {
    let mut g = Graph::new();
    g.push_library_dep(s("a.js"), s("react"));
    g.push_local_dep(s("a.js"), s("./b.js"));
    g.push_library_dep(s("c.js"), s("react"));
    assert_eq!(total_dep_count(&g), Some(3));
    let report = aggregate_checked(&g).unwrap();
    assert_eq!(report[0].name, "react");
    assert_eq!(report[0].count, 2);
}

#[test]
fn empty_graph_has_empty_report() {
    let g = Graph::new();
    let report = aggregate(&g);
    assert_eq!(report.len(), 0);
}

#[test]
fn literal_relative_reference_requires_existing_file() {
    let fs = Fs::new();
    // carries a source extension but no such file exists
    let r = resolve(&s("./gone.js"), &s("p/src"), &s("p"), &fs);
    assert!(r.is_none());
}
