//! Tests of path parsing, normalization, and rendering.

use stwalk::pathnorm::{
    bytes_eq, normalize, parse_path, render, NormPath, NormalizationError, RawPath, Segment,
};

fn norm(names: &[&str]) -> NormPath {
    NormPath { names: names.iter().map(|n| n.as_bytes().to_vec()).collect() }
}

fn root() -> NormPath {
    NormPath { names: Vec::new() }
}

fn normalize_bytes(raw: &[u8], cwd: &NormPath) -> Result<Vec<u8>, NormalizationError> {
    let parsed = parse_path(raw);
    normalize(&parsed, cwd, None).map(|n| render(&n))
}

#[test]
fn test_bytes_eq() {
    assert!(bytes_eq(b"abc", b"abc"));
    assert!(!bytes_eq(b"abc", b"abd"));
    assert!(!bytes_eq(b"abc", b"ab"));
    assert!(bytes_eq(b"", b""));
}

#[test]
fn test_parse_components() {
    let p: RawPath = parse_path(b"/a//b/./../c");
    assert!(p.absolute);
    let kinds: Vec<String> = p
        .segments
        .iter()
        .map(|s| match s {
            Segment::Cur => ".".to_string(),
            Segment::Parent => "..".to_string(),
            Segment::Name(n) => String::from_utf8(n.clone()).unwrap(),
        })
        .collect();
    assert_eq!(kinds, vec!["a", "b", ".", "..", "c"]);

    let rel = parse_path(b"x/y");
    assert!(!rel.absolute);
    assert_eq!(rel.segments.len(), 2);

    let empty = parse_path(b"");
    assert!(!empty.absolute);
    assert!(empty.segments.is_empty());
}

#[test]
fn test_normalize_relative_joins_cwd() {
    let cwd = norm(&["home", "user"]);
    let out = normalize_bytes(b"a/b/../c", &cwd).unwrap();
    assert_eq!(out, b"/home/user/a/c".to_vec());
}

#[test]
fn test_normalize_is_absolute() {
    // Whatever the input, a normalized path renders with a leading separator.
    let cwd = norm(&["w"]);
    for raw in [&b"x"[..], b"./x", b"../x", b"/x/./y", b""] {
        if let Ok(out) = normalize_bytes(raw, &cwd) {
            assert_eq!(out[0], b'/');
        }
    }
}

#[test]
fn test_normalize_idempotent() {
    let cwd = norm(&["base"]);
    let once = normalize_bytes(b"a/./b/../c/d", &cwd).unwrap();
    let twice = normalize_bytes(&once, &cwd).unwrap();
    assert_eq!(once, twice);
    // Also against a different working directory: an absolute path does
    // not consult it.
    let elsewhere = norm(&["other"]);
    let again = normalize_bytes(&once, &elsewhere).unwrap();
    assert_eq!(once, again);
}

#[test]
fn test_escapes_root() {
    // From the filesystem root, a/b/../../../x climbs above the root:
    // two names retained, three parent components.
    let res = normalize_bytes(b"a/b/../../../x", &root());
    assert_eq!(res, Err(NormalizationError::EscapesRoot));
}

#[test]
fn test_escape_boundary_just_survives() {
    // One more ancestor and the same input resolves.
    let cwd = norm(&["c"]);
    let out = normalize_bytes(b"a/b/../../../x", &cwd).unwrap();
    assert_eq!(out, b"/x".to_vec());
}

#[test]
fn test_dot_components_dropped() {
    let out = normalize_bytes(b"/a/./b/.", &root()).unwrap();
    assert_eq!(out, b"/a/b".to_vec());
}

#[test]
fn test_render_root() {
    assert_eq!(render(&root()), b"/".to_vec());
    assert_eq!(render(&norm(&["a"])), b"/a".to_vec());
}

#[test]
fn test_resolved_form_is_authoritative() {
    // When the filesystem resolved the path, that form is returned as is.
    let cwd = norm(&["w"]);
    let parsed = parse_path(b"link/file");
    let resolved = norm(&["real", "file"]);
    let out = normalize(&parsed, &cwd, Some(resolved)).unwrap();
    assert_eq!(render(&out), b"/real/file".to_vec());
}
