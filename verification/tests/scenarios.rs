use depgraph::graph::DepKind;
use depgraph::resolve::Fs;
use depgraph::stats::aggregate;
use depgraph::traverse::{run, ImportTable};

fn s(x: &str) -> String {
    String::from(x)
}

fn dep_names(t: &depgraph::traverse::Traversal, file: &str) -> Vec<(String, DepKind)> {
    for e in &t.graph.entries {
        if e.file == file {
            return e.deps.iter().map(|d| (d.name.clone(), d.kind)).collect();
        }
    }
    Vec::new()
}

fn is_key(t: &depgraph::traverse::Traversal, file: &str) -> bool {
    t.graph.entries.iter().any(|e| e.file == file)
}

#[test]
fn entry_with_relative_js_import_records_local_edge_and_visits_target() {
    let mut fs = Fs::new();
    fs.add_file(s("proj/src/index.js"));
    fs.add_file(s("proj/src/foo.js"));
    let mut table = ImportTable::new();
    table.add(s("proj/src/index.js"), vec![s("./foo.js")]);
    table.add(s("proj/src/foo.js"), vec![]);
    let t = run(s("proj/src/index.js"), s("proj"), &table, &fs).unwrap();
    let deps = dep_names(&t, "proj/src/index.js");
    assert_eq!(deps.len(), 1);
    assert_eq!(deps[0].0, "./foo.js");
    assert_eq!(deps[0].1, DepKind::Local);
    assert!(t.visited.iter().any(|v| v == "proj/src/foo.js"));
}

#[test]
fn package_import_is_external_and_never_a_key() {
    let fs = Fs::new();
    let mut table = ImportTable::new();
    table.add(s("proj/src/index.js"), vec![s("lodash")]);
    let t = run(s("proj/src/index.js"), s("proj"), &table, &fs).unwrap();
    let deps = dep_names(&t, "proj/src/index.js");
    assert_eq!(deps.len(), 1);
    assert_eq!(deps[0].0, "lodash");
    assert_eq!(deps[0].1, DepKind::External);
    assert!(!is_key(&t, "lodash"));
    assert!(!t.visited.iter().any(|v| v == "lodash"));
}

#[test]
fn directory_import_picks_index_tsx_and_descends() {
    let mut fs = Fs::new();
    fs.add_dir(s("proj/src/components"));
    fs.add_file(s("proj/src/components/index.tsx"));
    let mut table = ImportTable::new();
    table.add(s("proj/src/index.js"), vec![s("./components")]);
    table.add(s("proj/src/components/index.tsx"), vec![]);
    let t = run(s("proj/src/index.js"), s("proj"), &table, &fs).unwrap();
    let deps = dep_names(&t, "proj/src/index.js");
    assert_eq!(deps.len(), 1);
    assert_eq!(deps[0].0, "./components");
    assert_eq!(deps[0].1, DepKind::Local);
    assert!(t.visited.iter().any(|v| v == "proj/src/components/index.tsx"));
}

#[test]
fn cyclic_imports_terminate_and_visit_each_file_once() {
    let mut fs = Fs::new();
    fs.add_file(s("proj/src/a.js"));
    fs.add_file(s("proj/src/b.js"));
    let mut table = ImportTable::new();
    table.add(s("proj/src/a.js"), vec![s("./b.js")]);
    table.add(s("proj/src/b.js"), vec![s("./a.js")]);
    let t = run(s("proj/src/a.js"), s("proj"), &table, &fs).unwrap();
    assert!(is_key(&t, "proj/src/a.js"));
    assert!(is_key(&t, "proj/src/b.js"));
    let a_visits = t.visited.iter().filter(|v| *v == "proj/src/a.js").count();
    let b_visits = t.visited.iter().filter(|v| *v == "proj/src/b.js").count();
    assert_eq!(a_visits, 1);
    assert_eq!(b_visits, 1);
    assert_eq!(dep_names(&t, "proj/src/a.js").len(), 1);
    assert_eq!(dep_names(&t, "proj/src/b.js").len(), 1);
}

#[test]
fn shared_package_import_counts_twice_in_stats() {
    let mut fs = Fs::new();
    fs.add_file(s("proj/src/other.js"));
    let mut table = ImportTable::new();
    table.add(s("proj/src/index.js"), vec![s("react"), s("./other.js")]);
    table.add(s("proj/src/other.js"), vec![s("react")]);
    let t = run(s("proj/src/index.js"), s("proj"), &table, &fs).unwrap();
    let report = aggregate(&t.graph);
    assert_eq!(report[0].name, "react");
    assert_eq!(report[0].count, 2);
    let other: Vec<_> = report.iter().filter(|e| e.name == "./other.js").collect();
    assert_eq!(other.len(), 1);
    assert_eq!(other[0].count, 1);
}

#[test]
fn unresolvable_relative_import_degrades_to_external_without_error() {
    let fs = Fs::new();
    let mut table = ImportTable::new();
    table.add(s("proj/src/index.js"), vec![s("./missing")]);
    let t = run(s("proj/src/index.js"), s("proj"), &table, &fs).unwrap();
    let deps = dep_names(&t, "proj/src/index.js");
    assert_eq!(deps.len(), 1);
    assert_eq!(deps[0].0, "./missing");
    assert_eq!(deps[0].1, DepKind::External);
    assert_eq!(t.visited.len(), 1);
}

#[test]
fn file_without_imports_never_becomes_a_graph_key() {
    let fs = Fs::new();
    let mut table = ImportTable::new();
    table.add(s("proj/src/index.js"), vec![]);
    let t = run(s("proj/src/index.js"), s("proj"), &table, &fs).unwrap();
    assert_eq!(t.graph.entries.len(), 0);
    assert_eq!(t.visited.len(), 1);
    assert_eq!(t.visited[0], "proj/src/index.js");
}

#[test]
fn missing_parse_result_aborts_naming_the_file() {
    let mut fs = Fs::new();
    fs.add_file(s("proj/src/foo.js"));
    let mut table = ImportTable::new();
    table.add(s("proj/src/index.js"), vec![s("./foo.js")]);
    // foo.js resolves and is scheduled, but no import list exists for it
    let r = run(s("proj/src/index.js"), s("proj"), &table, &fs);
    match r {
        Ok(_) => panic!("expected the run to abort"),
        Err(f) => assert_eq!(f, "proj/src/foo.js"),
    }
}

#[test]
fn unparseable_entry_aborts_naming_the_entry() {
    let fs = Fs::new();
    let table = ImportTable::new();
    let r = run(s("proj/src/index.js"), s("proj"), &table, &fs);
    match r {
        Ok(_) => panic!("expected the run to abort"),
        Err(f) => assert_eq!(f, "proj/src/index.js"),
    }
}

#[test]
fn traversal_is_depth_first_in_declaration_order() {
    let mut fs = Fs::new();
    fs.add_file(s("proj/src/a.js"));
    fs.add_file(s("proj/src/b.js"));
    fs.add_file(s("proj/src/c.js"));
    let mut table = ImportTable::new();
    table.add(s("proj/src/index.js"), vec![s("./a.js"), s("./b.js")]);
    table.add(s("proj/src/a.js"), vec![s("./c.js")]);
    table.add(s("proj/src/b.js"), vec![]);
    table.add(s("proj/src/c.js"), vec![]);
    let t = run(s("proj/src/index.js"), s("proj"), &table, &fs).unwrap();
    let order: Vec<&str> = t.visited.iter().map(|v| v.as_str()).collect();
    assert_eq!(
        order,
        vec!["proj/src/index.js", "proj/src/a.js", "proj/src/c.js", "proj/src/b.js"],
    );
}
