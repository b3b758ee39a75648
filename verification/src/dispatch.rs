//! Routing and dispatch: classifying the raw input as a directory walk,
//! a glob expansion, or a single file, and invoking the per-file handler
//! with failures absorbed per candidate.

use vstd::prelude::*;
use vstd::string::StringSliceAdditionalSpecFns;
use crate::pathnorm::{
    clean_path, normalize, parse_path, spec_clean, spec_parse, NormPath, NormalizationError,
    RawModel, RawPath, SegModel, Segment,
};
use crate::walker::{join, rels_view, walk_list, walk_list_exec, FsTree, WalkError, WalkOutcome};

verus! {

/// An opaque failure of the external per-file handler.  It concerns one
/// file only and is never treated as a structural failure of a batch.
pub struct ProcessError {
    /// A diagnostic rendering of the failure.
    pub detail: String,
}

/// The per-file operation supplied by the caller of the dispatcher: it
/// consumes one normalized path and reports success or failure.  Each
/// call may fail independently; the dispatcher never lets a failure of
/// one call abort the remaining ones.
pub trait FileHandler {
    /// The paths this handler has been invoked on, oldest first.  An
    /// implementation that tracks its invocations gives this its own
    /// meaning; the default carries no information.
    open spec fn seen(&self) -> Seq<Seq<Seq<u8>>> {
        Seq::empty()
    }

    /// Process the file at the given normalized absolute path.  Success
    /// or failure is the handler's own affair; either way the call adds
    /// exactly this path to what the handler has seen.
    fn process(&mut self, path: &NormPath) -> (r: Result<(), ProcessError>)
        ensures
            final(self).seen() == old(self).seen().push(path@),
    ;
}

/// The spec values of a list of normalized paths.
pub open spec fn norms_view(v: Vec<NormPath>) -> Seq<Seq<Seq<u8>>> {
    v@.map(|i: int, p: NormPath| p@)
}

/// A handler that records every path it is given and always succeeds.
pub struct CollectingHandler {
    pub log: Vec<NormPath>,
}

impl FileHandler for CollectingHandler {
    /// What this handler has seen is exactly its log.
    open spec fn seen(&self) -> Seq<Seq<Seq<u8>>> {
        norms_view(self.log)
    }

    fn process(&mut self, path: &NormPath) -> (r: Result<(), ProcessError>) {
        let copy = NormPath { names: crate::pathnorm::copy_names(&path.names) };
        let ghost before = norms_view(self.log);
        self.log.push(copy);
        assert(norms_view(self.log) =~= before.push(path@));
        Ok(())
    }
}

/// Every path of `paths`, joined under the absolute root `root`.
pub open spec fn join_all(root: Seq<Seq<u8>>, paths: Seq<Seq<Seq<u8>>>) -> Seq<Seq<Seq<u8>>> {
    paths.map(|i: int, p: Seq<Seq<u8>>| root + p)
}

/// What a batch dispatch did: how many candidates were handed to the
/// handler, and how many of those calls failed.
pub struct BatchReport {
    pub attempted: usize,
    pub failed: usize,
}

/// Dispatch every candidate to the handler, in order.  A handler failure
/// is absorbed: it is counted and the batch continues, so the handler is
/// invoked exactly once per candidate, in the candidates' order,
/// whatever the earlier calls returned.
pub fn dispatch_batch<H: FileHandler>(paths: &Vec<NormPath>, h: &mut H) -> (r: BatchReport)
    ensures
        r.attempted == paths@.len(),
        r.failed <= r.attempted,
        final(h).seen() == old(h).seen() + norms_view(*paths),
{
    let mut failed: usize = 0;
    let mut i: usize = 0;
    assert(h.seen() =~= old(h).seen() + norms_view(*paths).take(0));
    while i < paths.len()
        invariant
            0 <= i <= paths@.len(),
            failed <= i,
            h.seen() == old(h).seen() + norms_view(*paths).take(i as int),
        decreases paths@.len() - i,
    {
        match h.process(&paths[i]) {
            Ok(_) => {},
            Err(_) => {
                failed += 1;
            },
        }
        assert(h.seen() =~= old(h).seen() + norms_view(*paths).take(i + 1));
        i += 1;
    }
    assert(norms_view(*paths).take(paths@.len() as int) =~= norms_view(*paths));
    BatchReport { attempted: i, failed }
}

/// Walk a directory snapshot rooted at the absolute path `root` and
/// dispatch every matching file to the handler: the handler is invoked
/// exactly on the matching files, joined under the root, in depth-first
/// order.  Files visited before a structural failure are dispatched even
/// when the walk aborts; the handler's own failures never abort
/// anything.
pub fn walk_and_dispatch<H: FileHandler>(
    root: &NormPath,
    entries: &Vec<FsTree>,
    ext: &[u8],
    h: &mut H,
) -> (r: (BatchReport, Option<WalkError>))
    ensures
        r.0.attempted == walk_list(entries@, ext@).0.len(),
        r.0.failed <= r.0.attempted,
        (r.1 is None) == walk_list(entries@, ext@).1,
        final(h).seen() == old(h).seen() + join_all(root@, walk_list(entries@, ext@).0),
{
    let outcome = walk_list_exec(entries, ext);
    let WalkOutcome { visited, error } = outcome;
    let mut paths: Vec<NormPath> = Vec::new();
    let mut i: usize = 0;
    while i < visited.len()
        invariant
            0 <= i <= visited@.len(),
            paths@.len() == i,
            forall|j: int|
                0 <= j < i ==> #[trigger] norms_view(paths)[j] == root@ + rels_view(visited)[j],
        decreases visited@.len() - i,
    {
        let p = join(root, &visited[i]);
        let ghost before = norms_view(paths);
        paths.push(p);
        assert(norms_view(paths) =~= before.push(p@));
        i += 1;
    }
    assert(norms_view(paths) =~= join_all(root@, rels_view(visited)));
    let report = dispatch_batch(&paths, h);
    (report, error)
}

/// A wildcard metacharacter of the glob syntax: `*`, `?`, or the opening
/// bracket of a character class.
pub open spec fn is_wildcard_byte(b: u8) -> bool {
    b == 42 || b == 63 || b == 91
}

/// Whether the raw input contains a wildcard metacharacter.
pub open spec fn has_wildcard(s: Seq<u8>) -> bool {
    exists|i: int| 0 <= i < s.len() && is_wildcard_byte(s[i])
}

/// Whether the raw input contains a wildcard metacharacter.
pub fn contains_wildcard(s: &[u8]) -> (r: bool)
    ensures
        r == has_wildcard(s@),
{
    let mut i: usize = 0;
    while i < s.len()
        invariant
            0 <= i <= s@.len(),
            forall|j: int| 0 <= j < i ==> !is_wildcard_byte(s@[j]),
        decreases s@.len() - i,
    {
        let b = s[i];
        if b == 42 || b == 63 || b == 91 {
            assert(is_wildcard_byte(s@[i as int]));
            return true;
        }
        i += 1;
    }
    false
}

/// Whether a pattern string is valid glob syntax.  The result of the
/// matcher's syntax check is a function of the pattern alone.
pub uninterp spec fn pattern_wf(p: Seq<u8>) -> bool;

/// Relies on glob::Pattern::new: compiling a pattern succeeds or fails
/// on the pattern string alone, and a malformed pattern is rejected
/// without touching the filesystem.
#[verifier::external_body]
fn pattern_compiles(p: &str) -> (r: bool)
    ensures
        r == pattern_wf(p.spec_bytes()),
{
    glob::Pattern::new(p).is_ok()
}

/// A structural failure of routing: it aborts the whole run, unlike a
/// per-candidate handler failure.
#[derive(Clone, Copy, PartialEq, Eq, Structural, Debug)]
pub enum StructuralError {
    /// The input path could not be normalized.
    Norm(NormalizationError),
    /// The input is a malformed glob pattern.
    BadPattern,
}

/// How one raw input is to be processed.
pub enum Plan {
    /// The input names an existing directory: walk it recursively.
    WalkDirectory(NormPath),
    /// The input is a glob pattern: expand it against the filesystem and
    /// dispatch each match, normalized individually.
    ExpandPattern,
    /// The input names a single file: dispatch it directly.
    SingleFile(NormPath),
}

/// The result of normalizing a parsed input: a filesystem-resolved form
/// is authoritative when present, otherwise manual cleanup decides.
pub open spec fn norm_outcome(p: RawModel, cwd: Seq<Seq<u8>>, resolved: Option<NormPath>) -> Option<
    Seq<Seq<u8>>,
> {
    match resolved {
        Some(c) => Some(c@),
        None => spec_clean(p, cwd),
    }
}

/// Classify one raw input and decide how it is processed, normalizing it
/// first.  `is_dir` is whether the normalized path names an existing
/// directory; `resolved` is the filesystem-resolved form of the input,
/// when canonicalization succeeded.  A malformed glob pattern is
/// rejected here, before anything is dispatched.
pub fn plan_dispatch(raw: &str, cwd: &NormPath, resolved: Option<NormPath>, is_dir: bool) -> (r:
    Result<Plan, StructuralError>)
    requires
        cwd.wf(),
        resolved matches Some(c) ==> c.wf(),
    ensures
        ({
            let p = spec_parse(raw.spec_bytes());
            let no = norm_outcome(p, cwd@, resolved);
            match r {
                Ok(plan) => match plan {
                    Plan::WalkDirectory(n) => no == Some(n@) && n.wf() && is_dir,
                    Plan::ExpandPattern => no is Some && !is_dir && has_wildcard(raw.spec_bytes())
                        && pattern_wf(raw.spec_bytes()),
                    Plan::SingleFile(n) => no == Some(n@) && n.wf() && !is_dir && !has_wildcard(
                        raw.spec_bytes(),
                    ),
                },
                Err(e) => match e {
                    StructuralError::Norm(ne) => ne == NormalizationError::EscapesRoot
                        && no is None,
                    StructuralError::BadPattern => no is Some && !is_dir && has_wildcard(
                        raw.spec_bytes(),
                    ) && !pattern_wf(raw.spec_bytes()),
                },
            }
        }),
{
    let bytes = raw.as_bytes();
    let parsed = parse_path(bytes);
    let norm = match normalize(&parsed, cwd, resolved) {
        Ok(n) => n,
        Err(e) => {
            return Err(StructuralError::Norm(e));
        },
    };
    if is_dir {
        Ok(Plan::WalkDirectory(norm))
    } else if contains_wildcard(bytes) {
        if pattern_compiles(raw) {
            Ok(Plan::ExpandPattern)
        } else {
            Err(StructuralError::BadPattern)
        }
    } else {
        Ok(Plan::SingleFile(norm))
    }
}

/// Whether a parsed path is already in normal form: absolute, with plain
/// name components only; if so, those names.
pub open spec fn normal_of(p: RawModel) -> Option<Seq<Seq<u8>>> {
    if p.absolute && (forall|i: int| 0 <= i < p.segments.len() ==> #[trigger] p.segments[i] is Name) {
        Some(p.segments.map(|i: int, s: SegModel| s->Name_0))
    } else {
        None
    }
}

/// Interpret a parsed path as one already in normal form: absolute, with
/// plain names only.  Used for paths the filesystem itself resolved.
pub fn as_normal(p: &RawPath) -> (r: Option<NormPath>)
    requires
        p@.wf(),
    ensures
        match r {
            Some(n) => normal_of(p@) == Some(n@) && n.wf(),
            None => normal_of(p@) is None,
        },
{
    if !p.absolute {
        return None;
    }
    let mut i: usize = 0;
    while i < p.segments.len()
        invariant
            0 <= i <= p.segments@.len(),
            forall|j: int| 0 <= j < i ==> #[trigger] p@.segments[j] is Name,
        decreases p.segments@.len() - i,
    {
        match &p.segments[i] {
            Segment::Name(_) => {
                assert(p@.segments[i as int] is Name);
            },
            _ => {
                assert(!(p@.segments[i as int] is Name));
                return None;
            },
        }
        i += 1;
    }
    let ghost mapped = p@.segments.map(|j: int, s: SegModel| s->Name_0);
    proof {
        assert(p@.segments =~= crate::pathnorm::names_as_segs(mapped));
        crate::pathnorm::lemma_clean_normal_identity(mapped);
        assert(spec_clean(p@, Seq::empty()) == Some(mapped));
    }
    let root = NormPath { names: Vec::new() };
    assert(root@ =~= Seq::<Seq<u8>>::empty());
    assert(root.wf());
    match clean_path(p, &root) {
        Ok(n) => {
            assert(normal_of(p@) == Some(n@));
            Some(n)
        },
        Err(_) => {
            assert(false);
            None
        },
    }
}

} // verus!
