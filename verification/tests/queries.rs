//! End-to-end checks of the index queries: graph construction, reverse
//! dependencies, milestones, and the failure modes of assembly.
use revdep_index::graph::{build_graph, direct_reverse_deps, transitive_reverse_deps};
use revdep_index::index::{assemble_index, Blob, Index, IndexError};
use revdep_index::milestone::{all_milestones, milestone_version};
use revdep_index::present::run;
use revdep_index::record::{parse_record, CrateVersion, Dep, RawRecord};

fn dep(name: &str) -> Dep {
    Dep {
        name: name.as_bytes().to_vec(),
        req: "^1.0".to_string(),
        features: Vec::new(),
        optional: false,
        default_features: true,
        target: None,
        kind: None,
    }
}

fn dep_of_kind(name: &str, kind: &str) -> Dep {
    let mut d = dep(name);
    d.kind = Some(kind.as_bytes().to_vec());
    d
}

fn raw(name: &str, vers: &str, deps: Vec<Dep>) -> RawRecord {
    RawRecord {
        name: name.as_bytes().to_vec(),
        vers: vers.to_string(),
        deps,
        cksum: b"0000".to_vec(),
        features: Vec::new(),
        yanked: false,
    }
}

fn blob(source: &str, records: Vec<RawRecord>) -> Blob {
    Blob {
        source: source.as_bytes().to_vec(),
        lines: records.into_iter().map(Some).collect(),
    }
}

fn rec(name: &str, vers: &str, deps: Vec<Dep>) -> CrateVersion {
    parse_record(raw(name, vers, deps)).unwrap()
}

/// The three-package index of the end-to-end scenarios: bar has no
/// dependencies, foo depends on bar, baz depends on foo.
fn scenario_index() -> Index {
    let blobs = vec![
        blob("registry/ba/r/bar", vec![raw("bar", "0.5.0", vec![])]),
        blob("registry/fo/o/foo", vec![raw("foo", "1.0.0", vec![dep("bar")])]),
        blob("registry/ba/z/baz", vec![raw("baz", "2.0.0", vec![dep("foo")])]),
    ];
    assemble_index(blobs).unwrap()
}

fn names(v: &[Vec<u8>]) -> Vec<String> {
    v.iter().map(|b| String::from_utf8(b.clone()).unwrap()).collect()
}

#[test]
fn direct_reverse_deps_of_bar() {
    let ix = scenario_index();
    let g = build_graph(&ix);
    let r = direct_reverse_deps(&g, &b"bar".to_vec());
    assert_eq!(names(&r), vec!["foo".to_string()]);
}

#[test]
fn transitive_reverse_deps_of_bar() {
    let ix = scenario_index();
    let g = build_graph(&ix);
    let r = transitive_reverse_deps(&g, &b"bar".to_vec());
    assert_eq!(names(&r), vec!["baz".to_string(), "foo".to_string()]);
}

#[test]
fn unknown_package_has_no_dependents() {
    let ix = scenario_index();
    let g = build_graph(&ix);
    let r = direct_reverse_deps(&g, &b"unknown-package".to_vec());
    assert!(r.is_empty());
    let r = transitive_reverse_deps(&g, &b"unknown-package".to_vec());
    assert!(r.is_empty());
}

#[test]
fn cycle_terminates_and_excludes_target() {
    let blobs = vec![
        blob("a", vec![raw("A", "1.0.0", vec![dep("B")])]),
        blob("b", vec![raw("B", "1.0.0", vec![dep("A")])]),
    ];
    let ix = assemble_index(blobs).unwrap();
    let g = build_graph(&ix);
    let r = transitive_reverse_deps(&g, &b"A".to_vec());
    assert_eq!(names(&r), vec!["B".to_string()]);
}

#[test]
fn dev_and_build_dependencies_make_no_edge() {
    let blobs = vec![
        blob("bar", vec![raw("bar", "1.0.0", vec![])]),
        blob(
            "foo",
            vec![raw("foo", "1.0.0", vec![dep_of_kind("bar", "dev"), dep_of_kind("bar", "build")])],
        ),
        blob("qux", vec![raw("qux", "1.0.0", vec![dep_of_kind("bar", "normal")])]),
    ];
    let ix = assemble_index(blobs).unwrap();
    let g = build_graph(&ix);
    let r = direct_reverse_deps(&g, &b"bar".to_vec());
    assert_eq!(names(&r), vec!["qux".to_string()]);
}

#[test]
fn milestone_ignores_file_order() {
    let recs = vec![
        rec("pkg", "1.2.0", vec![]),
        rec("pkg", "0.9.0", vec![]),
        rec("pkg", "1.0.0", vec![]),
    ];
    let m = milestone_version(&recs).unwrap();
    assert_eq!(m.major, 1);
    assert_eq!(m.minor, 0);
    assert_eq!(m.patch, 0);
    assert!(m.pre.is_empty());
}

#[test]
fn milestone_excludes_pre_releases_of_one_oh() {
    let recs = vec![rec("pkg", "1.0.0-alpha", vec![]), rec("pkg", "0.9.0", vec![])];
    assert!(milestone_version(&recs).is_none());
    let recs = vec![rec("pkg", "1.1.0-alpha", vec![]), rec("pkg", "1.1.0", vec![])];
    let m = milestone_version(&recs).unwrap();
    assert_eq!((m.major, m.minor, m.patch), (1, 1, 0));
    assert_eq!(m.pre, b"alpha".to_vec());
}

#[test]
fn all_milestones_sorted_and_filtered() {
    let ix = scenario_index();
    let ms = all_milestones(&ix);
    let shown: Vec<(String, String)> = ms
        .iter()
        .map(|(n, v)| {
            (
                String::from_utf8(n.clone()).unwrap(),
                format!("{}.{}.{}", v.major, v.minor, v.patch),
            )
        })
        .collect();
    assert_eq!(
        shown,
        vec![("baz".to_string(), "2.0.0".to_string()), ("foo".to_string(), "1.0.0".to_string())]
    );
}

#[test]
fn mixed_names_abort_with_consistency_error() {
    let blobs = vec![blob("registry/x", vec![raw("x", "1.0.0", vec![]), raw("y", "1.0.0", vec![])])];
    match assemble_index(blobs) {
        Err(IndexError::Consistency { source, expected, found, line }) => {
            assert_eq!(source, b"registry/x".to_vec());
            assert_eq!(expected, b"x".to_vec());
            assert_eq!(found, b"y".to_vec());
            assert_eq!(line, 1);
        }
        other => panic!("expected a consistency error, got {:?}", other.is_ok()),
    }
}

#[test]
fn undecodable_line_aborts_with_parse_error() {
    let blobs = vec![Blob {
        source: b"registry/x".to_vec(),
        lines: vec![Some(raw("x", "1.0.0", vec![])), None],
    }];
    match assemble_index(blobs) {
        Err(IndexError::Parse { source, line }) => {
            assert_eq!(source, b"registry/x".to_vec());
            assert_eq!(line, 1);
        }
        _ => panic!("expected a parse error"),
    }
}

#[test]
fn invalid_version_aborts_with_parse_error() {
    let blobs = vec![blob("registry/x", vec![raw("x", "not-a-version", vec![])])];
    assert!(matches!(assemble_index(blobs), Err(IndexError::Parse { .. })));
}

#[test]
fn empty_blob_contributes_no_entry() {
    let blobs = vec![blob("registry/empty", vec![]), blob("registry/x", vec![raw("x", "1.0.0", vec![])])];
    let ix = assemble_index(blobs).unwrap();
    assert_eq!(ix.entries.len(), 1);
    assert_eq!(ix.entries[0].0, b"x".to_vec());
}

#[test]
fn later_blob_wins_for_a_repeated_name() {
    let blobs = vec![
        blob("first", vec![raw("x", "1.0.0", vec![])]),
        blob("second", vec![raw("x", "2.0.0", vec![])]),
    ];
    let ix = assemble_index(blobs).unwrap();
    assert_eq!(ix.entries.len(), 1);
    assert_eq!(ix.entries[0].1.len(), 1);
    assert_eq!(ix.entries[0].1[0].vers.major, 2);
}

#[test]
fn run_milestones_end_to_end() {
    let blobs = vec![
        blob("bar", vec![raw("bar", "0.5.0", vec![])]),
        blob("foo", vec![raw("foo", "1.0.0", vec![dep("bar")])]),
        blob("baz", vec![raw("baz", "2.0.0", vec![dep("foo")])]),
    ];
    let lines = run(false, false, true, None, blobs).unwrap();
    let shown: Vec<String> =
        lines.iter().map(|l| String::from_utf8(l.clone()).unwrap()).collect();
    assert_eq!(shown, vec!["baz 2.0.0".to_string(), "foo 1.0.0".to_string()]);
}

#[test]
fn run_transitive_end_to_end() {
    let blobs = vec![
        blob("bar", vec![raw("bar", "0.5.0", vec![])]),
        blob("foo", vec![raw("foo", "1.0.0", vec![dep("bar")])]),
        blob("baz", vec![raw("baz", "2.0.0", vec![dep("foo")])]),
    ];
    let lines = run(false, true, false, Some(b"bar".to_vec()), blobs).unwrap();
    let shown: Vec<String> =
        lines.iter().map(|l| String::from_utf8(l.clone()).unwrap()).collect();
    assert_eq!(shown, vec!["baz".to_string(), "foo".to_string()]);
}

#[test]
fn run_aborts_whole_snapshot_on_one_bad_blob() {
    let blobs = vec![
        blob("good", vec![raw("good", "1.0.0", vec![])]),
        blob("bad", vec![raw("x", "1.0.0", vec![]), raw("y", "1.0.0", vec![])]),
    ];
    assert!(run(false, false, true, None, blobs).is_err());
}

#[test]
fn direct_deps_are_a_subset_of_transitive_deps() {
    let ix = scenario_index();
    let g = build_graph(&ix);
    for target in [b"bar".to_vec(), b"foo".to_vec(), b"baz".to_vec()] {
        let direct = direct_reverse_deps(&g, &target);
        let transitive = transitive_reverse_deps(&g, &target);
        for name in &direct {
            assert!(transitive.contains(name));
        }
    }
}

#[test]
fn transitive_query_is_deterministic() {
    let ix = scenario_index();
    let g = build_graph(&ix);
    let first = transitive_reverse_deps(&g, &b"bar".to_vec());
    let second = transitive_reverse_deps(&g, &b"bar".to_vec());
    assert_eq!(first, second);
}
