//! Tests of the directory-walk policy over filesystem snapshots.

use stwalk::pathnorm::NormPath;
use stwalk::walker::{extension_matches, join, walk_list_exec, FsTree, RelPath, WalkError};

fn file(name: &str) -> FsTree {
    FsTree::File { name: name.as_bytes().to_vec() }
}

fn dir(name: &str, entries: Vec<FsTree>) -> FsTree {
    FsTree::Dir { name: name.as_bytes().to_vec(), readable: true, entries }
}

fn locked_dir(name: &str, entries: Vec<FsTree>) -> FsTree {
    FsTree::Dir { name: name.as_bytes().to_vec(), readable: false, entries }
}

fn paths_of(visited: &[RelPath]) -> Vec<String> {
    visited
        .iter()
        .map(|p| {
            p.names
                .iter()
                .map(|n| String::from_utf8(n.clone()).unwrap())
                .collect::<Vec<_>>()
                .join("/")
        })
        .collect()
}

#[test]
fn test_extension_matching() {
    assert!(extension_matches(b"model.safetensors", b"safetensors"));
    assert!(extension_matches(b"a.b.ext", b"ext"));
    assert!(!extension_matches(b"fake.safetensors.txt", b"safetensors"));
    assert!(!extension_matches(b"readme", b"safetensors"));
    assert!(!extension_matches(b".hidden", b"hidden"));
    assert!(!extension_matches(b"config.toml", b"safetensors"));
}

#[test]
fn test_walk_filters_by_extension() {
    // Root holds a.ext, sub/b.ext and c.other: the walk visits exactly
    // the two .ext files, never c.other and never a directory path.
    let entries = vec![file("a.ext"), dir("sub", vec![file("b.ext")]), file("c.other")];
    let out = walk_list_exec(&entries, b"ext");
    assert!(out.error.is_none());
    assert_eq!(paths_of(&out.visited), vec!["a.ext", "sub/b.ext"]);
}

#[test]
fn test_only_matching_extension_visited() {
    // A mixed directory: only the real .safetensors file qualifies; a
    // name that merely contains the token does not.
    let entries = vec![
        file("model.safetensors"),
        file("config.toml"),
        file("readme.txt"),
        file("fake.safetensors.txt"),
    ];
    let out = walk_list_exec(&entries, b"safetensors");
    assert!(out.error.is_none());
    assert_eq!(paths_of(&out.visited), vec!["model.safetensors"]);
}

#[test]
fn test_walk_empty_dir() {
    let entries = vec![dir("sub", vec![])];
    let out = walk_list_exec(&entries, b"ext");
    assert!(out.error.is_none());
    assert!(out.visited.is_empty());
}

#[test]
fn test_walk_depth_first_order() {
    let entries = vec![
        dir("d1", vec![file("x.ext"), dir("d2", vec![file("y.ext")])]),
        file("z.ext"),
    ];
    let out = walk_list_exec(&entries, b"ext");
    assert!(out.error.is_none());
    assert_eq!(paths_of(&out.visited), vec!["d1/x.ext", "d1/d2/y.ext", "z.ext"]);
}

#[test]
fn test_walk_aborts_on_unreadable_dir() {
    // The unreadable directory aborts the walk: files in directories
    // walked before it are kept, later siblings are never visited.
    let entries = vec![
        dir("early", vec![file("a.ext")]),
        locked_dir("broken", vec![file("hidden.ext")]),
        dir("late", vec![file("b.ext")]),
    ];
    let out = walk_list_exec(&entries, b"ext");
    assert_eq!(out.error, Some(WalkError::Unreadable));
    assert_eq!(paths_of(&out.visited), vec!["early/a.ext"]);
}

#[test]
fn test_join_root_and_relative() {
    let root = NormPath { names: vec![b"r".to_vec()] };
    let rel = RelPath { names: vec![b"sub".to_vec(), b"f.ext".to_vec()] };
    let joined = join(&root, &rel);
    assert_eq!(stwalk::pathnorm::render(&joined), b"/r/sub/f.ext".to_vec());
}
