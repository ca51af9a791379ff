//! Editor identifiers of the form `namespace:path`.
use vstd::prelude::*;
use crate::text::{chars_of, string_of};
use crate::paths::{
    rooted_plain,
    lemma_join_plain, lemma_segment_is_plain, opt_chars, path_components_after, path_file_stem, plain_path, seg_prefix,
    segments, stem_of, strs,
};

verus! {

/// Characters allowed in a namespace: `a-z`, `0-9` and `_`.
pub open spec fn is_namespace_char(c: char) -> bool {
    ('a' <= c && c <= 'z') || ('0' <= c && c <= '9') || c == '_'
}

/// Characters allowed in a path: namespace characters and `/`.
pub open spec fn is_path_char(c: char) -> bool {
    is_namespace_char(c) || c == '/'
}

/// The first position in `s` whose character fails `ok`, with that character.
pub open spec fn first_failing(s: Seq<char>, ok: spec_fn(char) -> bool) -> Option<(usize, char)>
    decreases s.len(),
{
    if s.len() == 0 {
        None
    } else if !ok(s[0]) {
        Some((0usize, s[0]))
    } else {
        match first_failing(s.drop_first(), ok) {
            None => None,
            Some((i, c)) => Some(((i + 1) as usize, c)),
        }
    }
}

pub proof fn lemma_first_failing(s: Seq<char>, ok: spec_fn(char) -> bool)
    requires
        s.len() <= usize::MAX,
    ensures
        match first_failing(s, ok) {
            None => forall|j: int| 0 <= j < s.len() ==> ok(#[trigger] s[j]),
            Some((i, c)) => i < s.len() && s[i as int] == c && !ok(c)
                && forall|j: int| 0 <= j < i ==> ok(#[trigger] s[j]),
        },
    decreases s.len(),
{
    if s.len() > 0 && ok(s[0]) {
        lemma_first_failing(s.drop_first(), ok);
        assert forall|j: int| 1 <= j < s.len() implies s[j] == s.drop_first()[j - 1] by {}
    }
}

/// Whether `c` may not appear in a namespace.
pub fn bad_namespace_char(c: char) -> (r: bool)
    ensures
        r == !is_namespace_char(c),
{
    !(('a' <= c && c <= 'z') || ('0' <= c && c <= '9') || c == '_')
}

/// Whether `c` may not appear in a path.
pub fn bad_path_char(c: char) -> (r: bool)
    ensures
        r == !is_path_char(c),
{
    !(('a' <= c && c <= 'z') || ('0' <= c && c <= '9') || c == '_' || c == '/')
}

/// First bad character of `v[lo..hi]` by the given rule, with its position relative to `lo`.
fn first_bad_in(v: &Vec<char>, lo: usize, hi: usize, path: bool) -> (r: Option<(usize, char)>)
    requires
        lo <= hi <= v@.len(),
    ensures
        r == first_failing(
            v@.subrange(lo as int, hi as int),
            if path { |c: char| is_path_char(c) } else { |c: char| is_namespace_char(c) },
        ),
{
    let ghost ok = if path { |c: char| is_path_char(c) } else { |c: char| is_namespace_char(c) };
    let ghost s = v@.subrange(lo as int, hi as int);
    proof { lemma_first_failing(s, ok); }
    let mut i = lo;
    while i < hi
        invariant
            lo <= i <= hi <= v@.len(),
            s == v@.subrange(lo as int, hi as int),
            ok == (if path { |c: char| is_path_char(c) } else { |c: char| is_namespace_char(c) }),
            forall|j: int| lo <= j < i ==> ok(#[trigger] v@[j]),
            match first_failing(s, ok) {
                None => forall|j: int| 0 <= j < s.len() ==> ok(#[trigger] s[j]),
                Some((k, c)) => k < s.len() && s[k as int] == c && !ok(c)
                    && forall|j: int| 0 <= j < k ==> ok(#[trigger] s[j]),
            },
        decreases hi - i,
    {
        let c = v[i];
        let bad = if path { bad_path_char(c) } else { bad_namespace_char(c) };
        if bad {
            proof {
                assert(s[i - lo] == c);
                match first_failing(s, ok) {
                    None => {}
                    Some((k, d)) => {
                        if k < i - lo {
                            assert(ok(v@[lo + k]));
                            assert(s[k as int] == v@[lo + k]);
                        }
                        if k > i - lo {
                            assert(ok(s[i - lo]));
                        }
                    }
                }
            }
            return Some((i - lo, c));
        }
        i = i + 1;
    }
    proof {
        match first_failing(s, ok) {
            None => {}
            Some((k, d)) => {
                assert(ok(v@[lo + k]));
                assert(s[k as int] == v@[lo + k]);
            }
        }
    }
    None
}

/// Position and character of the first character that may not appear in a namespace.
pub fn namespace_errors(namespace: &str) -> (r: Option<(usize, char)>)
    ensures
        r == first_failing(namespace@, |c: char| is_namespace_char(c)),
{
    let v = chars_of(namespace);
    let r = first_bad_in(&v, 0, v.len(), false);
    assert(v@.subrange(0, v@.len() as int) =~= namespace@);
    r
}

/// Position and character of the first character that may not appear in a path.
pub fn path_errors(namespace: &str) -> (r: Option<(usize, char)>)
    ensures
        r == first_failing(namespace@, |c: char| is_path_char(c)),
{
    let v = chars_of(namespace);
    let r = first_bad_in(&v, 0, v.len(), true);
    assert(v@.subrange(0, v@.len() as int) =~= namespace@);
    r
}

} // verus!

verus! {

/// Why a namespace or an editor id was refused.
#[derive(Debug, Clone, Copy, PartialEq, Eq, Structural)]
pub enum IdError {
    /// The text is not of the form `namespace:path` with exactly one `:`.
    NotNamespaced,
    /// The namespace is empty.
    EmptyNamespace,
    /// The namespace holds a character outside `a-z0-9_`.
    BadNamespaceSymbol { symbol: char, position: usize },
    /// The path is empty.
    EmptyPath,
    /// The path holds a character outside `a-z0-9_/`; `position` counts from the start of the id.
    BadPathSymbol { symbol: char, position: usize },
}

/// A validated namespace.
#[derive(Debug, Clone, PartialEq, Eq)]
pub struct Namespace {
    id: String,
}

/// A type identifier `namespace:path`.
#[derive(Debug, Clone, PartialEq, Eq)]
pub struct EditorId(pub String);

/// What checking a namespace gives: `Ok` or the first problem.
pub open spec fn namespace_check(s: Seq<char>) -> Result<(), IdError> {
    if s.len() == 0 {
        Err(IdError::EmptyNamespace)
    } else {
        match first_failing(s, |c: char| is_namespace_char(c)) {
            Some((i, c)) => Err(IdError::BadNamespaceSymbol { symbol: c, position: i }),
            None => Ok(()),
        }
    }
}

/// The position of the first `:` in `s`, if any.
pub open spec fn first_colon(s: Seq<char>) -> Option<(usize, char)> {
    first_failing(s, |c: char| c != ':')
}

/// What checking an editor id gives: `Ok` or the first problem, in the order the checks run.
pub open spec fn editor_id_check(s: Seq<char>) -> Result<(), IdError> {
    match first_colon(s) {
        None => Err(IdError::NotNamespaced),
        Some((k, _)) => {
            let ns = s.subrange(0, k as int);
            let path = s.subrange(k + 1, s.len() as int);
            if first_colon(path) is Some {
                Err(IdError::NotNamespaced)
            } else if namespace_check(ns) is Err {
                namespace_check(ns)
            } else if path.len() == 0 {
                Err(IdError::EmptyPath)
            } else {
                match first_failing(path, |c: char| is_path_char(c)) {
                    Some((i, c)) => Err(IdError::BadPathSymbol {
                        symbol: c,
                        position: (i + k + 1) as usize,
                    }),
                    None => Ok(()),
                }
            }
        },
    }
}

impl Namespace {
    pub closed spec fn view(&self) -> Seq<char> {
        self.id@
    }

    /// The namespace text.
    pub fn as_str(&self) -> (r: &str)
        ensures
            r@ == self.view(),
    {
        self.id.as_str()
    }

    /// Parses a namespace: non-empty, made of `a-z0-9_`.
    pub fn from_str(s: &str) -> (r: Result<Namespace, IdError>)
        ensures
            match namespace_check(s@) {
                Ok(()) => r is Ok && r->Ok_0.view() == s@,
                Err(e) => r == Err::<Namespace, IdError>(e),
            },
    {
        let v = chars_of(s);
        let r = check_namespace_chars(&v, 0, v.len());
        assert(v@.subrange(0, v@.len() as int) =~= s@);
        match r {
            Ok(()) => Ok(Namespace { id: string_of(&v, 0, v.len()) }),
            Err(e) => Err(e),
        }
    }
}

fn check_namespace_chars(v: &Vec<char>, lo: usize, hi: usize) -> (r: Result<(), IdError>)
    requires
        lo <= hi <= v@.len(),
    ensures
        r == namespace_check(v@.subrange(lo as int, hi as int)),
{
    if lo == hi {
        return Err(IdError::EmptyNamespace);
    }
    match first_bad_in(v, lo, hi, false) {
        Some((i, c)) => Err(IdError::BadNamespaceSymbol { symbol: c, position: i }),
        None => Ok(()),
    }
}

/// First `:` in `v[lo..hi]`, relative to `lo`.
fn find_colon(v: &Vec<char>, lo: usize, hi: usize) -> (r: Option<usize>)
    requires
        lo <= hi <= v@.len(),
    ensures
        match first_colon(v@.subrange(lo as int, hi as int)) {
            None => r is None,
            Some((k, _)) => r == Some(k),
        },
{
    let ghost s = v@.subrange(lo as int, hi as int);
    let ghost ok = |c: char| c != ':';
    proof { lemma_first_failing(s, ok); }
    let mut i = lo;
    while i < hi
        invariant
            lo <= i <= hi <= v@.len(),
            s == v@.subrange(lo as int, hi as int),
            ok == (|c: char| c != ':'),
            forall|j: int| lo <= j < i ==> v@[j] != ':',
            match first_failing(s, ok) {
                None => forall|j: int| 0 <= j < s.len() ==> ok(#[trigger] s[j]),
                Some((k, c)) => k < s.len() && s[k as int] == c && !ok(c)
                    && forall|j: int| 0 <= j < k ==> ok(#[trigger] s[j]),
            },
        decreases hi - i,
    {
        if v[i] == ':' {
            proof {
                match first_failing(s, ok) {
                    None => { assert(ok(s[i - lo])); }
                    Some((k, d)) => {
                        if k < i - lo { assert(s[k as int] == v@[lo + k]); }
                        if k > i - lo { assert(ok(s[i - lo])); }
                    }
                }
            }
            return Some(i - lo);
        }
        i = i + 1;
    }
    proof {
        match first_failing(s, ok) {
            None => {}
            Some((k, d)) => { assert(s[k as int] == v@[lo + k]); }
        }
    }
    None
}

impl EditorId {
    /// Parses an id of the form `namespace:path`.
    pub fn parse(data: &str) -> (r: Result<EditorId, IdError>)
        ensures
            match editor_id_check(data@) {
                Ok(()) => r is Ok && r->Ok_0.0@ == data@,
                Err(e) => r == Err::<EditorId, IdError>(e),
            },
    {
        let v = chars_of(data);
        let n = v.len();
        assert(v@.subrange(0, n as int) =~= data@);
        let k = match find_colon(&v, 0, n) {
            None => { return Err(IdError::NotNamespaced); }
            Some(k) => k,
        };
        let ghost s = data@;
        proof { lemma_first_failing(s, |c: char| c != ':'); }
        assert(v@.subrange(k + 1, n as int) =~= s.subrange(k + 1, s.len() as int));
        assert(v@.subrange(0, k as int) =~= s.subrange(0, k as int));
        if find_colon(&v, k + 1, n).is_some() {
            return Err(IdError::NotNamespaced);
        }
        match check_namespace_chars(&v, 0, k) {
            Err(e) => { return Err(e); }
            Ok(()) => {}
        }
        if k + 1 == n {
            return Err(IdError::EmptyPath);
        }
        proof { lemma_first_failing(v@.subrange(k + 1, n as int), |c: char| is_path_char(c)); }
        match first_bad_in(&v, k + 1, n, true) {
            Some((i, c)) => {
                return Err(IdError::BadPathSymbol { symbol: c, position: i + k + 1 });
            }
            None => {}
        }
        Ok(EditorId(string_of(&v, 0, n)))
    }

    /// The id text.
    pub fn as_str(&self) -> (r: &str)
        ensures
            r@ == self.0@,
    {
        self.0.as_str()
    }
}

} // verus!

verus! {

/// Why the path of a type file gives no type identifier.
#[derive(Debug, Clone, PartialEq, Eq)]
pub enum TypePathError {
    /// The file lies outside the types folder of its module.
    OutsideTypesFolder,
    /// The path has no part below the types folder.
    MalformedPath,
    /// The last segment of the path has no file name.
    EmptyFileName,
    /// A folder or file name holds a character outside `a-z0-9_/`, at
    /// `position` of the name checked (the stem, for the file).
    BadSymbol { symbol: char, position: usize, segment: String },
    /// The type would sit at the root of the types folder.
    AtTypesRoot,
    /// The identifier built is refused.
    Id(IdError),
}

/// The segments joined with `/`.
pub open spec fn joined(segs: Seq<Seq<char>>) -> Seq<char>
    decreases segs.len(),
{
    if segs.len() == 0 {
        Seq::empty()
    } else if segs.len() == 1 {
        segs[0]
    } else {
        joined(segs.drop_last()) + seq!['/'] + segs.last()
    }
}

/// The first of `segs[i..]` that holds a character outside `a-z0-9_/`: its
/// index, and the position and character.
pub open spec fn first_bad_segment(segs: Seq<Seq<char>>, i: int) -> Option<(int, usize, char)>
    decreases segs.len() - i,
{
    if i < 0 || i >= segs.len() {
        None
    } else {
        match first_failing(segs[i], |c: char| is_path_char(c)) {
            Some((p, c)) => Some((i, p, c)),
            None => first_bad_segment(segs, i + 1),
        }
    }
}

/// What the identifier of a type in namespace `ns` is, whose file lies at
/// the segments `comps` below the types folder, the file's stem being
/// `stem`: the folders are checked in order, then the stem; the folders and
/// the stem, joined with `/`, are the path of `ns:path`.
pub open spec fn type_id_outcome(
    ns: Seq<char>,
    comps: Seq<Seq<char>>,
    stem: Option<Seq<char>>,
    r: Result<EditorId, TypePathError>,
) -> bool {
    if comps.len() == 0 {
        r == Err::<EditorId, TypePathError>(TypePathError::MalformedPath)
    } else {
        match first_bad_segment(comps.drop_last(), 0) {
            Some((i, p, c)) => r matches Err(TypePathError::BadSymbol { symbol, position, segment }) && symbol == c
                && position == p && segment@ == comps[i],
            None => match stem {
                None => r == Err::<EditorId, TypePathError>(TypePathError::EmptyFileName),
                Some(st) => match first_failing(st, |c: char| is_path_char(c)) {
                    Some((p, c)) => r matches Err(TypePathError::BadSymbol { symbol, position, segment })
                        && symbol == c && position == p && segment@ == comps.last(),
                    None => {
                        let j = joined(comps.drop_last().push(st));
                        if j.len() == 0 {
                            r == Err::<EditorId, TypePathError>(TypePathError::AtTypesRoot)
                        } else {
                            let id = ns + seq![':'] + j;
                            match editor_id_check(id) {
                                Ok(()) => r matches Ok(e) && e.0@ == id,
                                Err(e) => r == Err::<EditorId, TypePathError>(TypePathError::Id(e)),
                            }
                        }
                    },
                },
            },
        }
    }
}

/// Appends the characters of `s`.
fn push_chars(out: &mut Vec<char>, s: &str)
    ensures
        final(out)@ == old(out)@ + s@,
{
    let v = chars_of(s);
    let mut i: usize = 0;
    while i < v.len()
        invariant
            i <= v@.len(),
            v@ == s@,
            out@ == old(out)@ + v@.subrange(0, i as int),
        decreases v.len() - i,
    {
        out.push(v[i]);
        i = i + 1;
        assert(out@ =~= old(out)@ + v@.subrange(0, i as int));
    }
    assert(v@.subrange(0, v@.len() as int) =~= s@);
}

/// The identifier of a type in `namespace` whose file lies at the segments
/// `segments` below the types folder, with the stem `stem` of its file name:
/// each folder and then the stem must hold only `a-z0-9_/`; joined with
/// `/`, they are the path of `namespace:path`.
pub fn editor_id_from_segments(namespace: &Namespace, segments: &Vec<String>, stem: Option<String>) -> (r: Result<
    EditorId,
    TypePathError,
>)
    ensures
        type_id_outcome(namespace.view(), strs(segments@), opt_chars(stem), r),
{
    let ghost comps = strs(segments@);
    let n = segments.len();
    if n == 0 {
        return Err(TypePathError::MalformedPath);
    }
    let ghost d = comps.drop_last();
    let mut i: usize = 0;
    while i < n - 1
        invariant
            n == segments@.len(),
            n > 0,
            comps == strs(segments@),
            d == comps.drop_last(),
            i <= n - 1,
            first_bad_segment(d, 0) == first_bad_segment(d, i as int),
        decreases n - 1 - i,
    {
        assert(d[i as int] == segments@[i as int]@);
        match path_errors(segments[i].as_str()) {
            Some((p, c)) => {
                return Err(TypePathError::BadSymbol { symbol: c, position: p, segment: segments[i].clone() });
            },
            None => {},
        }
        i = i + 1;
    }
    assert(first_bad_segment(d, i as int) is None);
    let st = match stem {
        None => {
            return Err(TypePathError::EmptyFileName);
        },
        Some(st) => st,
    };
    match path_errors(st.as_str()) {
        Some((p, c)) => {
            assert(comps.last() == segments@[n - 1]@);
            return Err(TypePathError::BadSymbol { symbol: c, position: p, segment: segments[n - 1].clone() });
        },
        None => {},
    }
    let ghost texts = d.push(st@);
    let mut out: Vec<char> = Vec::new();
    let mut k: usize = 0;
    while k < n
        invariant
            n == segments@.len(),
            n > 0,
            comps == strs(segments@),
            d == comps.drop_last(),
            texts == d.push(st@),
            k <= n,
            out@ == joined(texts.subrange(0, k as int)),
        decreases n - k,
    {
        let ghost before = out@;
        if k > 0 {
            out.push('/');
        }
        if k == n - 1 {
            push_chars(&mut out, st.as_str());
        } else {
            assert(d[k as int] == segments@[k as int]@);
            push_chars(&mut out, segments[k].as_str());
        }
        proof {
            let t = texts.subrange(0, k + 1);
            assert(t.drop_last() =~= texts.subrange(0, k as int));
            assert(t.last() == texts[k as int]);
            if k == 0 {
                assert(texts.subrange(0, 0) =~= Seq::<Seq<char>>::empty());
            }
        }
        k = k + 1;
    }
    assert(texts.subrange(0, n as int) =~= texts);
    if out.len() == 0 {
        return Err(TypePathError::AtTypesRoot);
    }
    let mut id: Vec<char> = Vec::new();
    push_chars(&mut id, namespace.as_str());
    id.push(':');
    let ghost head = id@;
    let mut m: usize = 0;
    while m < out.len()
        invariant
            m <= out@.len(),
            id@ == head + out@.subrange(0, m as int),
        decreases out.len() - m,
    {
        id.push(out[m]);
        m = m + 1;
        assert(id@ =~= head + out@.subrange(0, m as int));
    }
    assert(out@.subrange(0, out@.len() as int) =~= out@);
    let text = string_of(&id, 0, id.len());
    assert(id@.subrange(0, id@.len() as int) =~= id@);
    assert(text@ =~= namespace.view() + seq![':'] + joined(texts));
    match EditorId::parse(text.as_str()) {
        Ok(e) => Ok(e),
        Err(e) => Err(TypePathError::Id(e)),
    }
}

/// The identifier of the type whose file lies at `path`, in the module at
/// `module_root` with namespace `namespace` (`EditorId::from_path`): the
/// path below the module's types folder, each folder and the stem of the
/// file name, joined with `/`, is the path of `namespace:path`.
pub fn editor_id_from_path(namespace: &Namespace, module_root: &str, path: &str) -> (r: Result<
    EditorId,
    TypePathError,
>)
    ensures
        plain_path(path@) && plain_path(module_root@) ==> match type_path_segments(module_root@, path@) {
            None => r == Err::<EditorId, TypePathError>(TypePathError::OutsideTypesFolder),
            Some(comps) => type_id_outcome(
                namespace.view(),
                comps,
                if comps.len() > 0 {
                    Some(stem_of(comps.last()))
                } else {
                    None
                },
                r,
            ),
        },
        rooted_plain(path@) && rooted_plain(module_root@) ==> match type_path_segments(
            module_root@.drop_first(),
            path@.drop_first(),
        ) {
            None => r == Err::<EditorId, TypePathError>(TypePathError::OutsideTypesFolder),
            Some(comps) => type_id_outcome(
                namespace.view(),
                comps,
                if comps.len() > 0 {
                    Some(stem_of(comps.last()))
                } else {
                    None
                },
                r,
            ),
        },
{
    let mut base = module_root.to_owned();
    crate::text::string_push(&mut base, '/');
    crate::text::string_push(&mut base, 't');
    crate::text::string_push(&mut base, 'y');
    crate::text::string_push(&mut base, 'p');
    crate::text::string_push(&mut base, 'e');
    crate::text::string_push(&mut base, 's');
    proof {
        if plain_path(module_root@) {
            assert(base@ =~= module_root@ + seq!['/'] + seq!['t', 'y', 'p', 'e', 's']);
            lemma_join_plain(module_root@, seq!['t', 'y', 'p', 'e', 's']);
        }
        if rooted_plain(module_root@) {
            assert(base@ =~= module_root@ + seq!['/'] + seq!['t', 'y', 'p', 'e', 's']);
            assert(base@.drop_first() =~= module_root@.drop_first() + seq!['/'] + seq!['t', 'y', 'p', 'e', 's']);
            lemma_join_plain(module_root@.drop_first(), seq!['t', 'y', 'p', 'e', 's']);
        }
    }
    let parts = match path_components_after(path, base.as_str()) {
        Some(v) => v,
        None => {
            return Err(TypePathError::OutsideTypesFolder);
        },
    };
    if parts.len() == 0 {
        return Err(TypePathError::MalformedPath);
    }
    let last = parts.len() - 1;
    proof {
        if plain_path(path@) && plain_path(module_root@) {
            let lb = segments(base@).len() as int;
            let segs = segments(path@);
            assert(seg_prefix(segments(base@), segs));
            assert(strs(parts@) == segs.subrange(lb, segs.len() as int));
            assert(strs(parts@).len() == parts@.len());
            assert(0 <= last < segs.len() - lb);
            assert(strs(parts@)[last as int] == parts@[last as int]@);
            assert(segs.subrange(lb, segs.len() as int)[last as int] == segs[lb + last]);
            lemma_segment_is_plain(path@, lb + last);
        }
        if rooted_plain(path@) && rooted_plain(module_root@) {
            let lb = segments(base@.drop_first()).len() as int;
            let segs = segments(path@.drop_first());
            assert(seg_prefix(segments(base@.drop_first()), segs));
            assert(strs(parts@) == segs.subrange(lb, segs.len() as int));
            assert(strs(parts@).len() == parts@.len());
            assert(0 <= last < segs.len() - lb);
            assert(strs(parts@)[last as int] == parts@[last as int]@);
            assert(segs.subrange(lb, segs.len() as int)[last as int] == segs[lb + last]);
            lemma_segment_is_plain(path@.drop_first(), lb + last);
        }
    }
    let stem = path_file_stem(parts[last].as_str());
    editor_id_from_segments(namespace, &parts, stem)
}

/// The segments of a type file's path below the types folder of the module
/// at `module`, when it lies in that folder.
pub open spec fn type_path_segments(module: Seq<char>, p: Seq<char>) -> Option<Seq<Seq<char>>> {
    let base = segments(module).push(seq!['t', 'y', 'p', 'e', 's']);
    if seg_prefix(base, segments(p)) {
        Some(segments(p).subrange(base.len() as int, segments(p).len() as int))
    } else {
        None
    }
}

} // verus!
