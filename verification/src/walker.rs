//! The directory walker's traversal policy: a depth-first descent over a
//! filesystem tree, filtering regular files by extension.
//!
//! The tree is a snapshot of what the filesystem hands the walker: each
//! directory either lists its entries or is unreadable.  The walk visits
//! matching files in depth-first order and aborts at the first directory
//! that cannot be listed, keeping everything visited up to that point.

use vstd::prelude::*;
use crate::pathnorm::{copy_names, lemma_bytes_deep_view, NormPath, DOT};

verus! {

broadcast use lemma_bytes_deep_view;

/// A snapshot of a filesystem subtree, as the walker sees it.
pub enum FsTree {
    /// A regular file.
    File { name: Vec<u8> },
    /// A directory; `readable` is whether listing its entries succeeds.
    Dir { name: Vec<u8>, readable: bool, entries: Vec<FsTree> },
}

/// A structural failure of a walk.
#[derive(Clone, Copy, PartialEq, Eq, Structural, Debug)]
pub enum WalkError {
    /// A directory could not be listed.
    Unreadable,
}

/// A path relative to the walk root, as a list of names.
pub struct RelPath {
    pub names: Vec<Vec<u8>>,
}

impl View for RelPath {
    type V = Seq<Seq<u8>>;

    open spec fn view(&self) -> Seq<Seq<u8>> {
        self.names.deep_view()
    }
}

/// The outcome of a walk: the matching files visited in depth-first
/// order, and the structural failure that aborted the walk, if any.
/// Handler failures never appear here: they are absorbed per candidate.
pub struct WalkOutcome {
    pub visited: Vec<RelPath>,
    pub error: Option<WalkError>,
}

/// The spec value of a list of relative paths.
pub open spec fn rels_view(v: Vec<RelPath>) -> Seq<Seq<Seq<u8>>> {
    v@.map(|i: int, p: RelPath| p@)
}

/// Whether `i` splits `name` into a non-empty stem, a final dot, and a
/// suffix equal to `ext`.
pub open spec fn is_ext_split(name: Seq<u8>, ext: Seq<u8>, i: int) -> bool {
    &&& 1 <= i < name.len()
    &&& name[i] == DOT
    &&& name.skip(i + 1) == ext
    &&& forall|j: int| i < j < name.len() ==> name[j] != DOT
}

/// Whether a file name has extension `ext`: the bytes after the final
/// dot equal `ext`, and the dot is neither first nor absent.
pub open spec fn ext_matches(name: Seq<u8>, ext: Seq<u8>) -> bool {
    exists|i: int| is_ext_split(name, ext, i)
}

/// Whether a file name has extension `ext`.
pub fn extension_matches(name: &[u8], ext: &[u8]) -> (r: bool)
    ensures
        r == ext_matches(name@, ext@),
{
    let mut i: usize = name.len();
    while i > 0 && name[i - 1] != DOT
        invariant
            0 <= i <= name@.len(),
            forall|j: int| i <= j < name@.len() ==> name@[j] != DOT,
        decreases i,
    {
        i -= 1;
    }
    if i == 0 {
        assert(!ext_matches(name@, ext@)) by {
            assert(forall|k: int| !is_ext_split(name@, ext@, k)) by {
                assert(forall|k: int| 1 <= k < name@.len() ==> #[trigger] name@[k] != DOT);
            }
        }
        return false;
    }
    let d = i - 1;
    assert(name@[d as int] == DOT);
    assert(forall|j: int| d < j < name@.len() ==> name@[j] != DOT);
    if d == 0 {
        assert(!ext_matches(name@, ext@)) by {
            assert(forall|k: int| !is_ext_split(name@, ext@, k)) by {
                assert(forall|k: int| d < k < name@.len() ==> #[trigger] name@[k] != DOT);
            }
        }
        return false;
    }
    let suffix = vstd::slice::slice_subrange(name, d + 1, name.len());
    assert(suffix@ =~= name@.skip(d + 1));
    let same = crate::pathnorm::bytes_eq(suffix, ext);
    if same {
        assert(is_ext_split(name@, ext@, d as int));
        true
    } else {
        assert(!ext_matches(name@, ext@)) by {
            assert(forall|k: int| !is_ext_split(name@, ext@, k)) by {
                assert(forall|k: int| d < k < name@.len() ==> #[trigger] name@[k] != DOT);
            }
        }
        false
    }
}

/// Prefix every path in `paths` with the directory name `name`.
pub open spec fn prefix_all(name: Seq<u8>, paths: Seq<Seq<Seq<u8>>>) -> Seq<Seq<Seq<u8>>> {
    paths.map(|i: int, p: Seq<Seq<u8>>| seq![name] + p)
}

/// The walk of a single tree node: the relative paths of the matching
/// files it yields in depth-first order, and whether it completed.
pub open spec fn walk_node(t: FsTree, ext: Seq<u8>) -> (Seq<Seq<Seq<u8>>>, bool)
    decreases t,
{
    match t {
        FsTree::File { name } => (
            if ext_matches(name@, ext) {
                seq![seq![name@]]
            } else {
                Seq::empty()
            },
            true,
        ),
        FsTree::Dir { name, readable, entries } => {
            if !readable {
                (Seq::empty(), false)
            } else {
                let sub = walk_list(entries@, ext);
                (prefix_all(name@, sub.0), sub.1)
            }
        },
    }
}

/// The walk of a forest, left to right, stopping at the first failure.
pub open spec fn walk_list(ts: Seq<FsTree>, ext: Seq<u8>) -> (Seq<Seq<Seq<u8>>>, bool)
    decreases ts,
{
    if ts.len() == 0 {
        (Seq::empty(), true)
    } else {
        let h = walk_node(ts.first(), ext);
        if !h.1 {
            (h.0, false)
        } else {
            let r = walk_list(ts.drop_first(), ext);
            (h.0 + r.0, r.1)
        }
    }
}

/// Splitting a forest splits its walk: the walk of `a + b` is the walk
/// of `a`, followed, when `a` completed, by the walk of `b`.
pub proof fn lemma_walk_list_append(a: Seq<FsTree>, b: Seq<FsTree>, ext: Seq<u8>)
    ensures
        !walk_list(a, ext).1 ==> walk_list(a + b, ext) == walk_list(a, ext),
        walk_list(a, ext).1 ==> walk_list(a + b, ext).0 == walk_list(a, ext).0 + walk_list(
            b,
            ext,
        ).0 && walk_list(a + b, ext).1 == walk_list(b, ext).1,
    decreases a.len(),
{
    if a.len() == 0 {
        assert(a + b =~= b);
        assert(walk_list(a, ext).0 + walk_list(b, ext).0 =~= walk_list(b, ext).0);
    } else {
        assert((a + b).len() > 0 && (a + b).first() == a.first());
        assert((a + b).drop_first() =~= a.drop_first() + b);
        lemma_walk_list_append(a.drop_first(), b, ext);
        let h = walk_node(a.first(), ext);
        if h.1 {
            if walk_list(a.drop_first(), ext).1 {
                assert(h.0 + (walk_list(a.drop_first(), ext).0 + walk_list(b, ext).0) =~= (h.0
                    + walk_list(a.drop_first(), ext).0) + walk_list(b, ext).0);
            }
        }
    }
}

/// When a walk aborts, it aborts inside one entry: everything in earlier
/// sibling entries has been visited in full, and nothing from later
/// siblings has been visited at all.
pub proof fn lemma_walk_failure_isolated(ts: Seq<FsTree>, ext: Seq<u8>)
    requires
        !walk_list(ts, ext).1,
    ensures
        exists|k: int|
            {
                &&& 0 <= k < ts.len()
                &&& walk_list(ts.take(k), ext).1
                &&& !walk_node(ts[k], ext).1
                &&& walk_list(ts, ext).0 == walk_list(ts.take(k), ext).0 + walk_node(ts[k], ext).0
            },
    decreases ts.len(),
{
    let h = walk_node(ts.first(), ext);
    if !h.1 {
        let k: int = 0;
        assert(ts.take(0) =~= Seq::<FsTree>::empty());
        assert(walk_list(ts.take(0), ext).0 + walk_node(ts[0], ext).0 =~= walk_node(ts[0], ext).0);
        assert({
            &&& 0 <= k < ts.len()
            &&& walk_list(ts.take(k), ext).1
            &&& !walk_node(ts[k], ext).1
            &&& walk_list(ts, ext).0 == walk_list(ts.take(k), ext).0 + walk_node(ts[k], ext).0
        });
    } else {
        lemma_walk_failure_isolated(ts.drop_first(), ext);
        let k0 = choose|k0: int|
            {
                &&& 0 <= k0 < ts.drop_first().len()
                &&& walk_list(ts.drop_first().take(k0), ext).1
                &&& !walk_node(ts.drop_first()[k0], ext).1
                &&& walk_list(ts.drop_first(), ext).0 == walk_list(ts.drop_first().take(k0), ext).0
                    + walk_node(ts.drop_first()[k0], ext).0
            };
        let k = k0 + 1;
        assert(ts.drop_first()[k0] == ts[k]);
        assert(ts.take(k) =~= seq![ts.first()] + ts.drop_first().take(k0));
        lemma_walk_list_append(seq![ts.first()], ts.drop_first().take(k0), ext);
        assert(walk_list(seq![ts.first()], ext).1 && walk_list(seq![ts.first()], ext).0 == h.0) by {
            assert(seq![ts.first()].first() == ts.first());
            assert(seq![ts.first()].drop_first() =~= Seq::<FsTree>::empty());
            assert(walk_list(Seq::<FsTree>::empty(), ext).0 =~= Seq::<Seq<Seq<u8>>>::empty());
            assert(walk_list(Seq::<FsTree>::empty(), ext).1);
            assert(h.0 + Seq::<Seq<Seq<u8>>>::empty() =~= h.0);
        }
        assert(walk_list(ts.take(k), ext).1);
        assert(walk_list(ts, ext).0 == h.0 + walk_list(ts.drop_first(), ext).0);
        assert(walk_list(ts.take(k), ext).0 + walk_node(ts[k], ext).0 =~= h.0 + (walk_list(
            ts.drop_first().take(k0),
            ext,
        ).0 + walk_node(ts.drop_first()[k0], ext).0));
        assert({
            &&& 0 <= k < ts.len()
            &&& walk_list(ts.take(k), ext).1
            &&& !walk_node(ts[k], ext).1
            &&& walk_list(ts, ext).0 == walk_list(ts.take(k), ext).0 + walk_node(ts[k], ext).0
        });
    }
}

/// Whether the tree node `t` holds a regular file at relative path
/// `path`.  A directory is never a file: only `File` leaves qualify.
pub open spec fn node_has_file(t: FsTree, path: Seq<Seq<u8>>) -> bool
    decreases t,
{
    match t {
        FsTree::File { name } => path == seq![name@],
        FsTree::Dir { name, entries, .. } => path.len() > 0 && path.first() == name@
            && forest_has_file(entries@, path.drop_first()),
    }
}

/// Whether the forest holds a regular file at relative path `path`.
pub open spec fn forest_has_file(ts: Seq<FsTree>, path: Seq<Seq<u8>>) -> bool
    decreases ts,
{
    exists|i: int| 0 <= i < ts.len() && node_has_file(#[trigger] ts[i], path)
}

/// Soundness of one node's walk: everything it yields is a regular file
/// of that node whose name matches the extension filter — never a
/// directory path, never a file of another extension.
pub proof fn lemma_walk_node_sound(t: FsTree, ext: Seq<u8>, p: Seq<Seq<u8>>)
    requires
        walk_node(t, ext).0.contains(p),
    ensures
        node_has_file(t, p),
        p.len() > 0,
        ext_matches(p.last(), ext),
    decreases t,
{
    match t {
        FsTree::File { name } => {
            assert(ext_matches(name@, ext));
            assert(p == seq![seq![name@]][0]);
            assert(p.last() == name@);
        },
        FsTree::Dir { name, readable, entries } => {
            assert(readable);
            let sub = walk_list(entries@, ext);
            let all = prefix_all(name@, sub.0);
            let i = choose|i: int| 0 <= i < all.len() && all[i] == p;
            assert(p == seq![name@] + sub.0[i]);
            assert(sub.0.contains(sub.0[i]));
            lemma_walk_list_sound(entries@, ext, sub.0[i]);
            assert(p.first() == name@);
            assert(p.drop_first() =~= sub.0[i]);
            assert(p.last() == sub.0[i].last());
        },
    }
}

/// Soundness of a forest's walk, failed or complete: see
/// `lemma_walk_node_sound`.
pub proof fn lemma_walk_list_sound(ts: Seq<FsTree>, ext: Seq<u8>, p: Seq<Seq<u8>>)
    requires
        walk_list(ts, ext).0.contains(p),
    ensures
        forest_has_file(ts, p),
        p.len() > 0,
        ext_matches(p.last(), ext),
    decreases ts,
{
    assert(ts.len() > 0);
    let h = walk_node(ts.first(), ext);
    if !h.1 {
        lemma_walk_node_sound(ts.first(), ext, p);
        assert(node_has_file(ts[0], p));
    } else {
        let r = walk_list(ts.drop_first(), ext);
        let i = choose|i: int| 0 <= i < (h.0 + r.0).len() && (h.0 + r.0)[i] == p;
        if i < h.0.len() {
            assert(h.0[i] == p);
            assert(h.0.contains(p));
            lemma_walk_node_sound(ts.first(), ext, p);
            assert(node_has_file(ts[0], p));
        } else {
            assert(r.0[i - h.0.len()] == p);
            assert(r.0.contains(p));
            lemma_walk_list_sound(ts.drop_first(), ext, p);
            let j = choose|j: int|
                0 <= j < ts.drop_first().len() && node_has_file(#[trigger] ts.drop_first()[j], p);
            assert(node_has_file(ts[j + 1], p));
        }
    }
}

/// Completeness of one node's walk: when it completes, it yields every
/// regular file of that node whose name matches the extension filter.
pub proof fn lemma_walk_node_complete(t: FsTree, ext: Seq<u8>, p: Seq<Seq<u8>>)
    requires
        walk_node(t, ext).1,
        node_has_file(t, p),
        ext_matches(p.last(), ext),
    ensures
        walk_node(t, ext).0.contains(p),
    decreases t,
{
    match t {
        FsTree::File { name } => {
            assert(p == seq![name@]);
            assert(p.last() == name@);
            assert(walk_node(t, ext).0[0] == p);
        },
        FsTree::Dir { name, readable, entries } => {
            assert(readable);
            let q = p.drop_first();
            let w = choose|w: int|
                0 <= w < entries@.len() && node_has_file(#[trigger] entries@[w], q);
            assert(q.len() > 0) by {
                match entries@[w] {
                    FsTree::File { name: fname } => {
                        assert(q == seq![fname@]);
                    },
                    FsTree::Dir { .. } => {},
                }
            }
            assert(q.last() == p.last());
            lemma_walk_list_complete(entries@, ext, q);
            let sub = walk_list(entries@, ext);
            let i = choose|i: int| 0 <= i < sub.0.len() && sub.0[i] == q;
            assert(p =~= seq![name@] + q);
            assert(prefix_all(name@, sub.0)[i] == p);
            assert(walk_node(t, ext).0.contains(p));
        },
    }
}

/// Completeness of a forest's walk: a completed walk yields every
/// matching regular file reachable from the root.
pub proof fn lemma_walk_list_complete(ts: Seq<FsTree>, ext: Seq<u8>, p: Seq<Seq<u8>>)
    requires
        walk_list(ts, ext).1,
        forest_has_file(ts, p),
        ext_matches(p.last(), ext),
    ensures
        walk_list(ts, ext).0.contains(p),
    decreases ts,
{
    let i = choose|i: int| 0 <= i < ts.len() && node_has_file(#[trigger] ts[i], p);
    let h = walk_node(ts.first(), ext);
    assert(h.1);
    let r = walk_list(ts.drop_first(), ext);
    if i == 0 {
        lemma_walk_node_complete(ts.first(), ext, p);
        let k = choose|k: int| 0 <= k < h.0.len() && h.0[k] == p;
        assert((h.0 + r.0)[k] == p);
        assert(walk_list(ts, ext).0.contains(p));
    } else {
        assert(node_has_file(ts.drop_first()[i - 1], p));
        assert(forest_has_file(ts.drop_first(), p));
        lemma_walk_list_complete(ts.drop_first(), ext, p);
        let k = choose|k: int| 0 <= k < r.0.len() && r.0[k] == p;
        assert((h.0 + r.0)[h.0.len() + k] == p);
        assert(walk_list(ts, ext).0.contains(p));
    }
}

/// Prepend a directory name to a relative path.
fn prefix_one(name: &Vec<u8>, rel: &RelPath) -> (r: RelPath)
    ensures
        r@ == seq![name@] + rel@,
{
    let mut names: Vec<Vec<u8>> = Vec::new();
    names.push(vstd::slice::slice_to_vec(name.as_slice()));
    assert(names.deep_view()[0] =~= name@);
    let mut i: usize = 0;
    while i < rel.names.len()
        invariant
            0 <= i <= rel.names@.len(),
            names@.len() == i + 1,
            names.deep_view()[0] == name@,
            forall|j: int| 0 <= j < i ==> names.deep_view()[j + 1] == rel@[j],
        decreases rel.names@.len() - i,
    {
        let x = vstd::slice::slice_to_vec(rel.names[i].as_slice());
        names.push(x);
        assert(names.deep_view()[i as int + 1] =~= rel@[i as int]);
        i += 1;
    }
    let r = RelPath { names };
    assert(r@ =~= seq![name@] + rel@);
    r
}

/// Walk one node: visit its matching files depth first, stopping at the
/// first directory that cannot be listed.
pub fn walk_node_exec(t: &FsTree, ext: &[u8]) -> (r: WalkOutcome)
    ensures
        rels_view(r.visited) == walk_node(*t, ext@).0,
        (r.error is None) == walk_node(*t, ext@).1,
    decreases *t,
{
    match t {
        FsTree::File { name } => {
            let mut visited: Vec<RelPath> = Vec::new();
            if extension_matches(name.as_slice(), ext) {
                let mut names: Vec<Vec<u8>> = Vec::new();
                names.push(vstd::slice::slice_to_vec(name.as_slice()));
                let rel = RelPath { names };
                assert(rel@ =~~= seq![name@]);
                visited.push(rel);
                assert(rels_view(visited) =~= seq![seq![name@]]);
            } else {
                assert(rels_view(visited) =~= Seq::<Seq<Seq<u8>>>::empty());
            }
            WalkOutcome { visited, error: None }
        },
        FsTree::Dir { name, readable, entries } => {
            if !*readable {
                let visited: Vec<RelPath> = Vec::new();
                assert(rels_view(visited) =~= Seq::<Seq<Seq<u8>>>::empty());
                WalkOutcome { visited, error: Some(WalkError::Unreadable) }
            } else {
                let sub = walk_list_exec(entries, ext);
                let mut visited: Vec<RelPath> = Vec::new();
                let ghost sub_paths = rels_view(sub.visited);
                assert(rels_view(visited) =~= prefix_all(name@, sub_paths).take(0));
                let mut i: usize = 0;
                while i < sub.visited.len()
                    invariant
                        0 <= i <= sub.visited@.len(),
                        sub_paths == rels_view(sub.visited),
                        sub_paths.len() == sub.visited@.len(),
                        rels_view(visited) == prefix_all(name@, sub_paths).take(i as int),
                    decreases sub.visited@.len() - i,
                {
                    let ghost before = rels_view(visited);
                    let p = prefix_one(name, &sub.visited[i]);
                    assert(p@ == prefix_all(name@, sub_paths)[i as int]);
                    visited.push(p);
                    assert(rels_view(visited) =~= before.push(p@));
                    assert(prefix_all(name@, sub_paths).take(i + 1) =~= prefix_all(
                        name@,
                        sub_paths,
                    ).take(i as int).push(prefix_all(name@, sub_paths)[i as int]));
                    i += 1;
                }
                assert(rels_view(visited) =~= prefix_all(name@, sub_paths));
                WalkOutcome { visited, error: sub.error }
            }
        },
    }
}

/// Walk a forest of entries, left to right.
pub fn walk_list_exec(entries: &Vec<FsTree>, ext: &[u8]) -> (r: WalkOutcome)
    ensures
        rels_view(r.visited) == walk_list(entries@, ext@).0,
        (r.error is None) == walk_list(entries@, ext@).1,
    decreases entries@,
{
    let mut visited: Vec<RelPath> = Vec::new();
    let mut i: usize = 0;
    assert(entries@.take(0) =~= Seq::<FsTree>::empty());
    assert(rels_view(visited) =~= Seq::<Seq<Seq<u8>>>::empty());
    while i < entries.len()
        invariant
            0 <= i <= entries@.len(),
            walk_list(entries@.take(i as int), ext@).1,
            rels_view(visited) == walk_list(entries@.take(i as int), ext@).0,
        decreases entries@.len() - i,
    {
        let sub = walk_node_exec(&entries[i], ext);
        let ghost old_visited = rels_view(visited);
        let ghost sub_paths = rels_view(sub.visited);
        let WalkOutcome { visited: sub_visited, error: sub_error } = sub;
        let mut k: usize = 0;
        while k < sub_visited.len()
            invariant
                0 <= k <= sub_visited@.len(),
                rels_view(sub_visited) == sub_paths,
                rels_view(visited) =~= old_visited + sub_paths.take(k as int),
            decreases sub_visited@.len() - k,
        {
            let ghost before = rels_view(visited);
            let q = RelPath { names: copy_names(&sub_visited[k].names) };
            assert(q@ == rels_view(sub_visited)[k as int]);
            visited.push(q);
            assert(rels_view(visited) =~= before.push(sub_paths[k as int]));
            assert(old_visited + sub_paths.take(k + 1) =~= (old_visited + sub_paths.take(
                k as int,
            )).push(sub_paths[k as int]));
            k += 1;
        }
        assert(sub_paths.take(sub_paths.len() as int) =~= sub_paths);
        proof {
            assert(entries@.take(i + 1) =~= entries@.take(i as int) + seq![entries@[i as int]]);
            lemma_walk_list_append(entries@.take(i as int), seq![entries@[i as int]], ext@);
            assert(walk_list(seq![entries@[i as int]], ext@).0 == walk_node(entries@[i as int], ext@).0
                && walk_list(seq![entries@[i as int]], ext@).1 == walk_node(
                entries@[i as int],
                ext@,
            ).1) by {
                assert(seq![entries@[i as int]].first() == entries@[i as int]);
                assert(seq![entries@[i as int]].drop_first() =~= Seq::<FsTree>::empty());
                assert(walk_list(Seq::<FsTree>::empty(), ext@).0 =~= Seq::<Seq<Seq<u8>>>::empty());
                assert(walk_list(Seq::<FsTree>::empty(), ext@).1);
                if walk_node(entries@[i as int], ext@).1 {
                    assert(walk_node(entries@[i as int], ext@).0 + Seq::<Seq<Seq<u8>>>::empty()
                        =~= walk_node(entries@[i as int], ext@).0);
                }
            }
        }
        match sub_error {
            Some(e) => {
                proof {
                    assert(entries@.take(entries@.len() as int) =~= entries@);
                    lemma_walk_list_append(entries@.take(i + 1), entries@.skip(i + 1), ext@);
                    assert(entries@.take(i + 1) + entries@.skip(i + 1) =~= entries@);
                }
                return WalkOutcome { visited, error: Some(e) };
            },
            None => {},
        }
        i += 1;
    }
    assert(entries@.take(i as int) =~= entries@);
    WalkOutcome { visited, error: None }
}

/// Join a relative path found by the walk onto the absolute root it was
/// walked from.
pub fn join(root: &NormPath, rel: &RelPath) -> (r: NormPath)
    ensures
        r@ == root@ + rel@,
{
    let mut names = copy_names(&root.names);
    let mut i: usize = 0;
    while i < rel.names.len()
        invariant
            0 <= i <= rel.names@.len(),
            names@.len() == root@.len() + i,
            forall|j: int| 0 <= j < root@.len() ==> names.deep_view()[j] == root@[j],
            forall|j: int|
                0 <= j < i ==> names.deep_view()[root@.len() + j] == rel@[j],
        decreases rel.names@.len() - i,
    {
        let x = vstd::slice::slice_to_vec(rel.names[i].as_slice());
        names.push(x);
        assert(names.deep_view()[root@.len() + i as int] =~= rel@[i as int]);
        i += 1;
    }
    let r = NormPath { names };
    assert(r@ =~= root@ + rel@);
    r
}

} // verus!
