//! Path normalization: converting arbitrary input paths into an absolute
//! form with no `.` components and no unresolved `..` components.
//!
//! A path is modeled as a sequence of byte-string components.  A raw path
//! may be relative and may contain `.` and `..` components; a normalized
//! path is absolute and holds plain names only.  Normalization joins a
//! relative path onto the working directory and then resolves `.` and
//! `..` component-wise; a `..` that would climb above the filesystem root
//! is a structural error.

use vstd::prelude::*;

verus! {

/// A byte vector's deep view is its view.
pub broadcast proof fn lemma_bytes_deep_view(v: Vec<u8>)
    ensures
        #[trigger] v.deep_view() == v@,
{
    assert(v.deep_view() =~= v@);
}

/// The path separator byte, `/`.
pub const SEPARATOR: u8 = 47;

/// The byte of a `.` character.
pub const DOT: u8 = 46;

/// Spec-level value of one parsed path component.
pub enum SegModel {
    Cur,
    Parent,
    Name(Seq<u8>),
}

/// One parsed component of a raw path.
pub enum Segment {
    /// A `.` component: refers to the current directory.
    Cur,
    /// A `..` component: refers to the parent directory.
    Parent,
    /// A plain name, free of separators and distinct from `.` and `..`.
    Name(Vec<u8>),
}

impl View for Segment {
    type V = SegModel;

    open spec fn view(&self) -> SegModel {
        match self {
            Segment::Cur => SegModel::Cur,
            Segment::Parent => SegModel::Parent,
            Segment::Name(n) => SegModel::Name(n@),
        }
    }
}

/// A well-formed component name: non-empty, free of separators, and not
/// one of the special components `.` and `..`.
pub open spec fn name_wf(n: Seq<u8>) -> bool {
    &&& n.len() > 0
    &&& !n.contains(SEPARATOR)
    &&& n != seq![DOT]
    &&& n != seq![DOT, DOT]
}

/// Well-formedness of a parsed segment: a name must be a plain name.
pub open spec fn seg_wf(s: SegModel) -> bool {
    match s {
        SegModel::Name(n) => name_wf(n),
        _ => true,
    }
}

/// Spec-level value of a raw path: whether it is absolute, and its
/// components in order.
pub struct RawModel {
    pub absolute: bool,
    pub segments: Seq<SegModel>,
}

impl RawModel {
    /// Every name component is well formed.
    pub open spec fn wf(self) -> bool {
        forall|i: int| 0 <= i < self.segments.len() ==> seg_wf(#[trigger] self.segments[i])
    }
}

/// A raw path as parsed from bytes: possibly relative, possibly holding
/// `.` and `..` components.
pub struct RawPath {
    pub absolute: bool,
    pub segments: Vec<Segment>,
}

/// The spec value of a vector of segments.
pub open spec fn segs_view(v: Vec<Segment>) -> Seq<SegModel> {
    v@.map(|i: int, s: Segment| s@)
}

impl View for RawPath {
    type V = RawModel;

    open spec fn view(&self) -> RawModel {
        RawModel { absolute: self.absolute, segments: segs_view(self.segments) }
    }
}

/// An absolute path in normal form: plain names only, no `.` or `..`.
/// The empty sequence of names is the filesystem root.
#[derive(Clone)]
pub struct NormPath {
    pub names: Vec<Vec<u8>>,
}

impl View for NormPath {
    type V = Seq<Seq<u8>>;

    open spec fn view(&self) -> Seq<Seq<u8>> {
        self.names.deep_view()
    }
}

/// Every name of a normalized path is well formed.
pub open spec fn norm_wf(names: Seq<Seq<u8>>) -> bool {
    forall|i: int| 0 <= i < names.len() ==> name_wf(#[trigger] names[i])
}

impl NormPath {
    /// Well-formedness of this normalized path.
    pub open spec fn wf(self) -> bool {
        norm_wf(self@)
    }
}

/// Equality of two byte slices.
pub fn bytes_eq(a: &[u8], b: &[u8]) -> (r: bool)
    ensures
        r == (a@ == b@),
{
    if a.len() != b.len() {
        assert(a@.len() != b@.len());
        return false;
    }
    let mut i: usize = 0;
    while i < a.len()
        invariant
            0 <= i <= a@.len(),
            a@.len() == b@.len(),
            forall|j: int| 0 <= j < i ==> a@[j] == b@[j],
        decreases a@.len() - i,
    {
        if a[i] != b[i] {
            return false;
        }
        i += 1;
    }
    assert(a@ =~= b@);
    true
}

/// The component denoted by a non-empty, separator-free chunk of bytes.
pub open spec fn classify(seg: Seq<u8>) -> SegModel {
    if seg == seq![DOT] {
        SegModel::Cur
    } else if seg == seq![DOT, DOT] {
        SegModel::Parent
    } else {
        SegModel::Name(seg)
    }
}

/// Flush a pending chunk onto the accumulated components.
pub open spec fn flush(acc: Seq<SegModel>, cur: Seq<u8>) -> Seq<SegModel> {
    if cur.len() == 0 {
        acc
    } else {
        acc.push(classify(cur))
    }
}

/// The components of the byte string `s`, given a pending chunk `cur` and
/// components `acc` already accumulated: chunks are separated by `/`,
/// empty chunks are dropped.
pub open spec fn parse_segs(s: Seq<u8>, cur: Seq<u8>, acc: Seq<SegModel>) -> Seq<SegModel>
    decreases s.len(),
{
    if s.len() == 0 {
        flush(acc, cur)
    } else if s.first() == SEPARATOR {
        parse_segs(s.drop_first(), Seq::empty(), flush(acc, cur))
    } else {
        parse_segs(s.drop_first(), cur.push(s.first()), acc)
    }
}

/// The raw path denoted by a byte string: absolute when it begins with a
/// separator, with its non-empty chunks as components.
pub open spec fn spec_parse(s: Seq<u8>) -> RawModel {
    RawModel {
        absolute: s.len() > 0 && s[0] == SEPARATOR,
        segments: parse_segs(s, Seq::empty(), Seq::empty()),
    }
}

/// Classify one non-empty, separator-free chunk.
fn classify_exec(seg: Vec<u8>) -> (r: Segment)
    requires
        seg@.len() > 0,
        !seg@.contains(SEPARATOR),
    ensures
        r@ == classify(seg@),
        seg_wf(r@),
{
    if seg.len() == 1 && seg[0] == DOT {
        assert(seg@ =~= seq![DOT]);
        Segment::Cur
    } else if seg.len() == 2 && seg[0] == DOT && seg[1] == DOT {
        assert(seg@ =~= seq![DOT, DOT]);
        Segment::Parent
    } else {
        assert(seg@ != seq![DOT] && seg@ != seq![DOT, DOT]) by {
            if seg@.len() == 1 {
                assert(seg@ == seq![DOT] ==> seg@[0] == DOT);
            }
            if seg@.len() == 2 {
                assert(seg@ == seq![DOT, DOT] ==> seg@[0] == DOT && seg@[1] == DOT);
            }
        }
        Segment::Name(seg)
    }
}

/// Parse a byte string into a raw path.
pub fn parse_path(s: &[u8]) -> (r: RawPath)
    ensures
        r@ == spec_parse(s@),
        r@.wf(),
{
    let absolute = s.len() > 0 && s[0] == SEPARATOR;
    let mut segs: Vec<Segment> = Vec::new();
    let mut cur: Vec<u8> = Vec::new();
    let mut i: usize = 0;
    assert(s@.skip(0) =~= s@);
    assert(segs_view(segs) =~= Seq::<SegModel>::empty());
    while i < s.len()
        invariant
            0 <= i <= s@.len(),
            !cur@.contains(SEPARATOR),
            parse_segs(s@, Seq::empty(), Seq::empty()) == parse_segs(
                s@.skip(i as int),
                cur@,
                segs_view(segs),
            ),
            forall|j: int| 0 <= j < segs_view(segs).len() ==> seg_wf(#[trigger] segs_view(segs)[j]),
        decreases s@.len() - i,
    {
        let ghost rest = s@.skip(i as int);
        let ghost old_cur = cur@;
        let ghost old_segs = segs_view(segs);
        assert(rest.len() > 0 && rest.first() == s@[i as int]);
        assert(rest.drop_first() =~= s@.skip(i + 1));
        if s[i] == SEPARATOR {
            assert(parse_segs(rest, old_cur, old_segs) == parse_segs(
                s@.skip(i + 1),
                Seq::empty(),
                flush(old_segs, old_cur),
            ));
            if cur.len() > 0 {
                let seg = classify_exec(cur);
                segs.push(seg);
                assert(segs_view(segs) =~= old_segs.push(seg@));
                assert(segs_view(segs) == flush(old_segs, old_cur));
                cur = Vec::new();
            } else {
                assert(flush(old_segs, old_cur) == old_segs);
            }
            assert(cur@ =~= Seq::<u8>::empty());
        } else {
            let b = s[i];
            assert(parse_segs(rest, old_cur, old_segs) == parse_segs(
                s@.skip(i + 1),
                old_cur.push(s@[i as int]),
                old_segs,
            ));
            cur.push(b);
            assert(cur@ == old_cur.push(b));
            assert(!cur@.contains(SEPARATOR)) by {
                assert(forall|j: int| 0 <= j < old_cur.len() ==> cur@[j] == old_cur[j]);
                assert(cur@[old_cur.len() as int] == b);
            }
        }
        i += 1;
    }
    assert(s@.skip(i as int) =~= Seq::<u8>::empty());
    if cur.len() > 0 {
        let seg = classify_exec(cur);
        let ghost old_segs = segs_view(segs);
        segs.push(seg);
        assert(segs_view(segs) =~= old_segs.push(seg@));
    }
    let r = RawPath { absolute, segments: segs };
    assert(r@.segments == spec_parse(s@).segments);
    r
}

/// Why a path could not be brought into normal form.
#[derive(Clone, Copy, PartialEq, Eq, Structural, Debug)]
pub enum NormalizationError {
    /// Component-wise cleanup would climb above the filesystem root.
    EscapesRoot,
    /// The input cannot be represented as a path at all.
    Unresolvable,
}

/// Resolve `.` and `..` components against names already retained in
/// `acc`; `None` when a `..` would climb above the root.
pub open spec fn clean_segs(acc: Seq<Seq<u8>>, segs: Seq<SegModel>) -> Option<Seq<Seq<u8>>>
    decreases segs.len(),
{
    if segs.len() == 0 {
        Some(acc)
    } else {
        match segs.first() {
            SegModel::Cur => clean_segs(acc, segs.drop_first()),
            SegModel::Parent => if acc.len() == 0 {
                None
            } else {
                clean_segs(acc.drop_last(), segs.drop_first())
            },
            SegModel::Name(n) => clean_segs(acc.push(n), segs.drop_first()),
        }
    }
}

/// A sequence of plain names, read as raw-path components.
pub open spec fn names_as_segs(names: Seq<Seq<u8>>) -> Seq<SegModel> {
    names.map(|i: int, n: Seq<u8>| SegModel::Name(n))
}

/// The components of `p` made absolute: a relative path is joined onto
/// the working directory `cwd`.
pub open spec fn spec_absolutize(p: RawModel, cwd: Seq<Seq<u8>>) -> Seq<SegModel> {
    if p.absolute {
        p.segments
    } else {
        names_as_segs(cwd) + p.segments
    }
}

/// The normal form of `p` against working directory `cwd`, or `None`
/// when cleanup would climb above the filesystem root.
pub open spec fn spec_clean(p: RawModel, cwd: Seq<Seq<u8>>) -> Option<Seq<Seq<u8>>> {
    clean_segs(Seq::empty(), spec_absolutize(p, cwd))
}

/// Resolving plain names never consults `.` or `..` handling: it only
/// appends them to the names already retained.
pub proof fn lemma_clean_names(acc: Seq<Seq<u8>>, names: Seq<Seq<u8>>, rest: Seq<SegModel>)
    ensures
        clean_segs(acc, names_as_segs(names) + rest) == clean_segs(acc + names, rest),
    decreases names.len(),
{
    if names.len() == 0 {
        assert(names_as_segs(names) + rest =~= rest);
        assert(acc + names =~= acc);
    } else {
        let segs = names_as_segs(names) + rest;
        assert(segs.first() == SegModel::Name(names.first()));
        assert(segs.drop_first() =~= names_as_segs(names.drop_first()) + rest);
        lemma_clean_names(acc.push(names.first()), names.drop_first(), rest);
        assert(acc.push(names.first()) + names.drop_first() =~= acc + names);
    }
}

/// Cleanup of a path already in normal form is the identity.
pub proof fn lemma_clean_normal_identity(names: Seq<Seq<u8>>)
    ensures
        clean_segs(Seq::empty(), names_as_segs(names)) == Some(names),
{
    lemma_clean_names(Seq::empty(), names, Seq::empty());
    assert(names_as_segs(names) + Seq::<SegModel>::empty() =~= names_as_segs(names));
    assert(Seq::<Seq<u8>>::empty() + names =~= names);
}

/// Copy a list of component names.
pub(crate) fn copy_names(v: &Vec<Vec<u8>>) -> (r: Vec<Vec<u8>>)
    ensures
        r.deep_view() == v.deep_view(),
{
    let mut r: Vec<Vec<u8>> = Vec::new();
    let mut i: usize = 0;
    while i < v.len()
        invariant
            0 <= i <= v@.len(),
            r@.len() == i,
            forall|j: int| 0 <= j < i ==> r.deep_view()[j] == v.deep_view()[j],
        decreases v@.len() - i,
    {
        r.push(vstd::slice::slice_to_vec(v[i].as_slice()));
        i += 1;
    }
    assert(r.deep_view() =~= v.deep_view());
    r
}

/// Component-wise cleanup of a raw path against the working directory:
/// the manual fallback of normalization.  Fails exactly when a `..`
/// would climb above the filesystem root.
pub fn clean_path(p: &RawPath, cwd: &NormPath) -> (r: Result<NormPath, NormalizationError>)
    requires
        p@.wf(),
        cwd.wf(),
    ensures
        match r {
            Ok(n) => Some(n@) == spec_clean(p@, cwd@) && n.wf(),
            Err(e) => e == NormalizationError::EscapesRoot && spec_clean(p@, cwd@) is None,
        },
{
    let mut acc: Vec<Vec<u8>> = if p.absolute {
        Vec::new()
    } else {
        copy_names(&cwd.names)
    };
    proof {
        if p.absolute {
            assert(acc.deep_view() =~= Seq::<Seq<u8>>::empty());
        } else {
            lemma_clean_names(Seq::empty(), cwd@, segs_view(p.segments));
            assert(Seq::<Seq<u8>>::empty() + cwd@ =~= cwd@);
        }
        assert(clean_segs(acc.deep_view(), segs_view(p.segments)) == spec_clean(p@, cwd@));
    }
    let mut i: usize = 0;
    assert(segs_view(p.segments).skip(0) =~= segs_view(p.segments));
    while i < p.segments.len()
        invariant
            0 <= i <= p.segments@.len(),
            p@.wf(),
            cwd.wf(),
            norm_wf(acc.deep_view()),
            clean_segs(acc.deep_view(), segs_view(p.segments).skip(i as int)) == spec_clean(
                p@,
                cwd@,
            ),
        decreases p.segments@.len() - i,
    {
        let ghost rest = segs_view(p.segments).skip(i as int);
        let ghost old_acc = acc.deep_view();
        assert(rest.len() > 0 && rest.first() == segs_view(p.segments)[i as int]);
        assert(rest.drop_first() =~= segs_view(p.segments).skip(i + 1));
        let seg = &p.segments[i];
        match seg {
            Segment::Cur => {
                assert(rest.first() == SegModel::Cur);
            },
            Segment::Parent => {
                assert(rest.first() == SegModel::Parent);
                if acc.len() == 0 {
                    assert(old_acc.len() == 0);
                    assert(spec_clean(p@, cwd@) is None);
                    return Err(NormalizationError::EscapesRoot);
                }
                acc.pop();
                assert(acc.deep_view() =~= old_acc.drop_last());
            },
            Segment::Name(n) => {
                assert(rest.first() == SegModel::Name(n@));
                assert(seg_wf(segs_view(p.segments)[i as int]));
                acc.push(vstd::slice::slice_to_vec(n.as_slice()));
                assert(acc.deep_view() =~~= old_acc.push(n@));
            },
        }
        i += 1;
    }
    assert(segs_view(p.segments).skip(i as int) =~= Seq::<SegModel>::empty());
    let r = NormPath { names: acc };
    assert(Some(r@) == spec_clean(p@, cwd@));
    Ok(r)
}

/// Normalize a raw path against the working directory `cwd`.  A resolved
/// form already obtained from the filesystem is authoritative when
/// present; otherwise `.` and `..` are resolved component-wise, and a
/// `..` that would climb above the filesystem root is rejected.
pub fn normalize(p: &RawPath, cwd: &NormPath, resolved: Option<NormPath>) -> (r: Result<
    NormPath,
    NormalizationError,
>)
    requires
        p@.wf(),
        cwd.wf(),
        resolved matches Some(c) ==> c.wf(),
    ensures
        match resolved {
            Some(c) => r matches Ok(n) && n@ == c@ && n.wf(),
            None => match r {
                Ok(n) => Some(n@) == spec_clean(p@, cwd@) && n.wf(),
                Err(e) => e == NormalizationError::EscapesRoot && spec_clean(p@, cwd@) is None,
            },
        },
{
    match resolved {
        Some(c) => Ok(c),
        None => clean_path(p, cwd),
    }
}

/// The bytes of a non-empty name list: each name preceded by a separator.
pub open spec fn render_from(names: Seq<Seq<u8>>) -> Seq<u8>
    decreases names.len(),
{
    if names.len() == 0 {
        Seq::empty()
    } else {
        seq![SEPARATOR] + names.first() + render_from(names.drop_first())
    }
}

/// The bytes of a normalized path; the root alone renders as a single
/// separator.
pub open spec fn spec_render(names: Seq<Seq<u8>>) -> Seq<u8> {
    if names.len() == 0 {
        seq![SEPARATOR]
    } else {
        render_from(names)
    }
}

/// Rendering distributes over concatenation of name lists.
proof fn lemma_render_concat(a: Seq<Seq<u8>>, b: Seq<Seq<u8>>)
    ensures
        render_from(a + b) == render_from(a) + render_from(b),
    decreases a.len(),
{
    if a.len() == 0 {
        assert(a + b =~= b);
        assert(render_from(a) + render_from(b) =~= render_from(b));
    } else {
        assert((a + b).len() > 0 && (a + b).first() == a.first());
        assert((a + b).drop_first() =~= a.drop_first() + b);
        lemma_render_concat(a.drop_first(), b);
        assert(seq![SEPARATOR] + a.first() + (render_from(a.drop_first()) + render_from(b)) =~= (
        seq![SEPARATOR] + a.first() + render_from(a.drop_first())) + render_from(b));
    }
}

/// Render a normalized path as bytes.  The result always begins with a
/// separator: a normalized path is absolute.
pub fn render(n: &NormPath) -> (r: Vec<u8>)
    ensures
        r@ == spec_render(n@),
        r@.len() > 0,
        r@.first() == SEPARATOR,
{
    let mut out: Vec<u8> = Vec::new();
    if n.names.len() == 0 {
        out.push(SEPARATOR);
        assert(out@ =~= seq![SEPARATOR]);
        return out;
    }
    let mut i: usize = 0;
    assert(out@ =~= render_from(n@.take(0)));
    while i < n.names.len()
        invariant
            0 <= i <= n.names@.len(),
            n@.len() == n.names@.len(),
            out@ == render_from(n@.take(i as int)),
        decreases n.names@.len() - i,
    {
        let ghost old_out = out@;
        out.push(SEPARATOR);
        let name = &n.names[i];
        let mut j: usize = 0;
        while j < name.len()
            invariant
                0 <= j <= name@.len(),
                out@ == old_out + seq![SEPARATOR] + name@.take(j as int),
            decreases name@.len() - j,
        {
            let ghost prev = out@;
            out.push(name[j]);
            assert(out@ =~= old_out + seq![SEPARATOR] + name@.take(j + 1));
            j += 1;
        }
        proof {
            assert(name@.take(name@.len() as int) =~= name@);
            assert(name@ == n@[i as int]);
            assert(n@.take(i + 1) =~= n@.take(i as int) + seq![n@[i as int]]);
            lemma_render_concat(n@.take(i as int), seq![n@[i as int]]);
            assert(seq![n@[i as int]].drop_first() =~= Seq::<Seq<u8>>::empty());
            assert(render_from(Seq::<Seq<u8>>::empty()) =~= Seq::<u8>::empty());
            assert(render_from(seq![n@[i as int]]) =~= seq![SEPARATOR] + n@[i as int]);
            assert(out@ =~= render_from(n@.take(i as int)) + render_from(seq![n@[i as int]]));
        }
        i += 1;
    }
    assert(n@.take(i as int) =~= n@);
    assert(render_from(n@).len() > 0 && render_from(n@).first() == SEPARATOR) by {
        assert(render_from(n@) == seq![SEPARATOR] + n@.first() + render_from(n@.drop_first()));
        assert((seq![SEPARATOR] + n@.first() + render_from(n@.drop_first()))[0] == SEPARATOR);
    }
    out
}

/// Scanning a separator-free chunk only extends the pending chunk.
proof fn lemma_parse_name_scan(n: Seq<u8>, rest: Seq<u8>, cur: Seq<u8>, acc: Seq<SegModel>)
    requires
        !n.contains(SEPARATOR),
    ensures
        parse_segs(n + rest, cur, acc) == parse_segs(rest, cur + n, acc),
    decreases n.len(),
{
    if n.len() == 0 {
        assert(n + rest =~= rest);
        assert(cur + n =~= cur);
    } else {
        assert(n.first() != SEPARATOR) by {
            if n.first() == SEPARATOR {
                assert(n[0] == SEPARATOR);
                assert(n.contains(SEPARATOR));
            }
        }
        assert((n + rest).len() > 0 && (n + rest).first() == n.first());
        assert((n + rest).drop_first() =~= n.drop_first() + rest);
        assert(!n.drop_first().contains(SEPARATOR)) by {
            if n.drop_first().contains(SEPARATOR) {
                let k = choose|k: int|
                    0 <= k < n.drop_first().len() && n.drop_first()[k] == SEPARATOR;
                assert(n[k + 1] == SEPARATOR);
                assert(n.contains(SEPARATOR));
            }
        }
        lemma_parse_name_scan(n.drop_first(), rest, cur.push(n.first()), acc);
        assert(cur.push(n.first()) + n.drop_first() =~= cur + n);
    }
}

/// Parsing the rendering of well-formed names recovers exactly those
/// names, whatever chunk and components were already pending.
proof fn lemma_parse_render_from(names: Seq<Seq<u8>>, cur: Seq<u8>, acc: Seq<SegModel>)
    requires
        norm_wf(names),
    ensures
        parse_segs(render_from(names), cur, acc) == flush(acc, cur) + names_as_segs(names),
    decreases names.len(),
{
    if names.len() == 0 {
        assert(names_as_segs(names) =~= Seq::<SegModel>::empty());
        assert(flush(acc, cur) + names_as_segs(names) =~= flush(acc, cur));
    } else {
        let n0 = names.first();
        assert(name_wf(n0));
        let s = render_from(names);
        assert(s == seq![SEPARATOR] + n0 + render_from(names.drop_first()));
        assert(s.len() > 0 && s.first() == SEPARATOR) by {
            assert(s[0] == (seq![SEPARATOR] + n0 + render_from(names.drop_first()))[0]);
        }
        assert(s.drop_first() =~= n0 + render_from(names.drop_first()));
        lemma_parse_name_scan(n0, render_from(names.drop_first()), Seq::empty(), flush(acc, cur));
        assert(Seq::<u8>::empty() + n0 =~= n0);
        assert(norm_wf(names.drop_first())) by {
            assert(forall|i: int|
                0 <= i < names.drop_first().len() ==> #[trigger] names.drop_first()[i] == names[i
                    + 1]);
        }
        lemma_parse_render_from(names.drop_first(), n0, flush(acc, cur));
        assert(classify(n0) == SegModel::Name(n0));
        assert(flush(flush(acc, cur), n0) == flush(acc, cur).push(SegModel::Name(n0)));
        assert(flush(acc, cur).push(SegModel::Name(n0)) + names_as_segs(names.drop_first()) =~= flush(
            acc,
            cur,
        ) + names_as_segs(names));
    }
}

/// Round trip: parsing the rendering of a well-formed normalized path
/// yields an absolute raw path whose components are exactly its names.
pub proof fn lemma_parse_render(names: Seq<Seq<u8>>)
    requires
        norm_wf(names),
    ensures
        spec_parse(spec_render(names)).absolute,
        spec_parse(spec_render(names)).segments == names_as_segs(names),
{
    if names.len() == 0 {
        let s = spec_render(names);
        assert(s == seq![SEPARATOR]);
        assert(s[0] == SEPARATOR);
        assert(s.drop_first() =~= Seq::<u8>::empty());
        assert(parse_segs(s, Seq::empty(), Seq::empty()) == parse_segs(
            s.drop_first(),
            Seq::empty(),
            Seq::empty(),
        ));
        assert(parse_segs(Seq::<u8>::empty(), Seq::empty(), Seq::empty())
            == Seq::<SegModel>::empty());
        assert(names_as_segs(names) =~= Seq::<SegModel>::empty());
    } else {
        let s = spec_render(names);
        assert(s == render_from(names));
        assert(s.len() > 0 && s[0] == SEPARATOR) by {
            assert(s == seq![SEPARATOR] + names.first() + render_from(names.drop_first()));
            assert(s[0] == (seq![SEPARATOR] + names.first() + render_from(names.drop_first()))[0]);
        }
        lemma_parse_render_from(names, Seq::empty(), Seq::empty());
        assert(flush(Seq::empty(), Seq::empty()) + names_as_segs(names) =~= names_as_segs(names));
    }
}

/// Every rendered normalized path is absolute: it begins with the
/// separator, and re-parsing it yields an absolute path.
pub proof fn lemma_normalized_is_absolute(names: Seq<Seq<u8>>)
    requires
        norm_wf(names),
    ensures
        spec_render(names).len() > 0,
        spec_render(names).first() == SEPARATOR,
        spec_parse(spec_render(names)).absolute,
{
    lemma_parse_render(names);
    if names.len() == 0 {
        assert(spec_render(names) == seq![SEPARATOR]);
    } else {
        assert(spec_render(names)[0] == SEPARATOR) by {
            assert(spec_render(names) == seq![SEPARATOR] + names.first() + render_from(
                names.drop_first(),
            ));
        }
    }
}

/// Idempotence of normalization: rendering a normalized path, parsing it
/// back, and normalizing it again — against any working directory, with
/// no help from the filesystem — returns exactly the same path.
pub proof fn lemma_normalize_idempotent(names: Seq<Seq<u8>>, cwd: Seq<Seq<u8>>)
    requires
        norm_wf(names),
    ensures
        spec_clean(spec_parse(spec_render(names)), cwd) == Some(names),
{
    lemma_parse_render(names);
    lemma_clean_normal_identity(names);
}

} // verus!
