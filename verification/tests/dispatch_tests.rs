//! Tests of routing, batch dispatch, and failure isolation.

use stwalk::dispatch::{
    as_normal, contains_wildcard, dispatch_batch, plan_dispatch, walk_and_dispatch, BatchReport,
    CollectingHandler, FileHandler, Plan, ProcessError, StructuralError,
};
use stwalk::pathnorm::{parse_path, render, NormPath, NormalizationError};
use stwalk::walker::{FsTree, WalkError};

fn norm(names: &[&str]) -> NormPath {
    NormPath { names: names.iter().map(|n| n.as_bytes().to_vec()).collect() }
}

fn root() -> NormPath {
    NormPath { names: Vec::new() }
}

/// A handler that records every path it is given and fails on request.
struct Recorder {
    seen: Vec<Vec<u8>>,
    fail_on: Vec<Vec<u8>>,
}

impl FileHandler for Recorder {
    fn process(&mut self, path: &NormPath) -> Result<(), ProcessError> {
        let rendered = render(path);
        self.seen.push(rendered.clone());
        if self.fail_on.contains(&rendered) {
            Err(ProcessError { detail: "corrupt input".to_string() })
        } else {
            Ok(())
        }
    }
}

#[test]
fn test_batch_continues_after_failures() {
    // Five candidates, two of which fail: the handler is still invoked
    // on all five, in order, and the batch reports a plain count.
    let paths: Vec<NormPath> =
        ["a", "b", "c", "d", "e"].iter().map(|n| norm(&[n, "f.ext"])).collect();
    let mut h = Recorder {
        seen: Vec::new(),
        fail_on: vec![b"/b/f.ext".to_vec(), b"/d/f.ext".to_vec()],
    };
    let report: BatchReport = dispatch_batch(&paths, &mut h);
    assert_eq!(report.attempted, 5);
    assert_eq!(report.failed, 2);
    let expected: Vec<Vec<u8>> =
        ["a", "b", "c", "d", "e"].iter().map(|n| format!("/{n}/f.ext").into_bytes()).collect();
    assert_eq!(h.seen, expected);
}

#[test]
fn test_batch_dispatch_count_matches_candidates() {
    // N matching candidates and M non-matching ones: only the matches
    // are dispatched, so the handler runs exactly N times.
    let entries = vec![
        FsTree::File { name: b"one.ext".to_vec() },
        FsTree::File { name: b"two.ext".to_vec() },
        FsTree::File { name: b"three.other".to_vec() },
        FsTree::File { name: b"four.ext".to_vec() },
    ];
    let mut h = Recorder { seen: Vec::new(), fail_on: Vec::new() };
    let (report, err) = walk_and_dispatch(&root(), &entries, b"ext", &mut h);
    assert!(err.is_none());
    assert_eq!(report.attempted, 3);
    assert_eq!(report.failed, 0);
    assert_eq!(h.seen, vec![b"/one.ext".to_vec(), b"/two.ext".to_vec(), b"/four.ext".to_vec()]);
}

#[test]
fn test_walk_dispatches_before_failure_point() {
    // An unreadable subdirectory aborts the walk, but everything walked
    // before it has already been handed to the handler.
    let entries = vec![
        FsTree::Dir {
            name: b"early".to_vec(),
            readable: true,
            entries: vec![FsTree::File { name: b"a.ext".to_vec() }],
        },
        FsTree::Dir { name: b"broken".to_vec(), readable: false, entries: vec![] },
        FsTree::Dir {
            name: b"late".to_vec(),
            readable: true,
            entries: vec![FsTree::File { name: b"b.ext".to_vec() }],
        },
    ];
    let mut h = Recorder { seen: Vec::new(), fail_on: Vec::new() };
    let (report, err) = walk_and_dispatch(&norm(&["r"]), &entries, b"ext", &mut h);
    assert_eq!(err, Some(WalkError::Unreadable));
    assert_eq!(report.attempted, 1);
    assert_eq!(h.seen, vec![b"/r/early/a.ext".to_vec()]);
}

#[test]
fn test_collecting_handler_log() {
    let entries = vec![
        FsTree::File { name: b"a.ext".to_vec() },
        FsTree::Dir {
            name: b"sub".to_vec(),
            readable: true,
            entries: vec![FsTree::File { name: b"b.ext".to_vec() }],
        },
        FsTree::File { name: b"c.other".to_vec() },
    ];
    let mut h = CollectingHandler { log: Vec::new() };
    let (report, err) = walk_and_dispatch(&norm(&["base"]), &entries, b"ext", &mut h);
    assert!(err.is_none());
    assert_eq!(report.attempted, 2);
    assert_eq!(report.failed, 0);
    let logged: Vec<Vec<u8>> = h.log.iter().map(render).collect();
    assert_eq!(logged, vec![b"/base/a.ext".to_vec(), b"/base/sub/b.ext".to_vec()]);
}

#[test]
fn test_wildcard_detection() {
    assert!(contains_wildcard(b"*.safetensors"));
    assert!(contains_wildcard(b"file?.bin"));
    assert!(contains_wildcard(b"[ab].bin"));
    assert!(!contains_wildcard(b"/plain/path.bin"));
}

#[test]
fn test_plan_directory() {
    let plan = plan_dispatch("models", &norm(&["w"]), None, true).unwrap();
    match plan {
        Plan::WalkDirectory(n) => assert_eq!(render(&n), b"/w/models".to_vec()),
        _ => panic!("expected a directory walk"),
    }
}

#[test]
fn test_plan_single_file() {
    let plan = plan_dispatch("m.safetensors", &norm(&["w"]), None, false).unwrap();
    match plan {
        Plan::SingleFile(n) => assert_eq!(render(&n), b"/w/m.safetensors".to_vec()),
        _ => panic!("expected a single file"),
    }
}

#[test]
fn test_plan_glob_pattern() {
    let plan = plan_dispatch("*.safetensors", &norm(&["w"]), None, false).unwrap();
    assert!(matches!(plan, Plan::ExpandPattern));
}

#[test]
fn test_malformed_pattern_rejected_before_dispatch() {
    // An unterminated bracket class is a structural error raised at
    // planning time: no plan is produced, so nothing can be dispatched.
    let res = plan_dispatch("data/[ab.safetensors", &norm(&["w"]), None, false);
    match res {
        Err(StructuralError::BadPattern) => {},
        _ => panic!("expected a pattern syntax error"),
    }
}

#[test]
fn test_plan_normalization_failure_aborts() {
    let res = plan_dispatch("../x", &root(), None, false);
    match res {
        Err(StructuralError::Norm(NormalizationError::EscapesRoot)) => {},
        _ => panic!("expected an escape above the root"),
    }
}

#[test]
fn test_as_normal() {
    let p = parse_path(b"/a/b");
    let n = as_normal(&p).unwrap();
    assert_eq!(render(&n), b"/a/b".to_vec());
    assert!(as_normal(&parse_path(b"a/b")).is_none());
    assert!(as_normal(&parse_path(b"/a/../b")).is_none());
    assert!(as_normal(&parse_path(b"/a/./b")).is_none());
}
