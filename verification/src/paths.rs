//! Relative paths of plain segments joined by `/`, which every platform
//! splits alike, and the calls of `camino` that the project makes on paths,
//! stated on such paths.
use vstd::prelude::*;
use camino::Utf8Path;

verus! {

/// The index of the last `c` in `s`, or -1 when there is none.
pub open spec fn last_index_of(s: Seq<char>, c: char) -> int
    decreases s.len(),
{
    if s.len() == 0 {
        -1
    } else if s.last() == c {
        s.len() - 1
    } else {
        last_index_of(s.drop_last(), c)
    }
}

/// The parts of `s` between its `/` separators.
pub open spec fn segments(s: Seq<char>) -> Seq<Seq<char>>
    decreases s.len(),
{
    if s.len() == 0 {
        seq![Seq::<char>::empty()]
    } else {
        let p = segments(s.drop_last());
        if s.last() == '/' {
            p.push(Seq::empty())
        } else {
            p.update(p.len() - 1, p.last().push(s.last()))
        }
    }
}

/// A segment that names a file or folder: not empty, not `.` or `..`.
pub open spec fn plain_segment(t: Seq<char>) -> bool {
    t.len() > 0 && t != seq!['.'] && t != seq!['.', '.']
}

/// A relative path of plain segments joined by single `/`, without `\` or
/// `:`: no platform reads a prefix, a root or another separator in it.
pub open spec fn plain_path(s: Seq<char>) -> bool {
    &&& s.len() > 0
    &&& forall|i: int| 0 <= i < s.len() ==> #[trigger] s[i] != '\\' && s[i] != ':'
    &&& forall|k: int| 0 <= k < segments(s).len() ==> plain_segment(#[trigger] segments(s)[k])
}

/// An absolute path: `/` followed by a plain path. Every platform reads it
/// as a root followed by the plain path's segments.
pub open spec fn rooted_plain(s: Seq<char>) -> bool {
    s.len() > 1 && s[0] == '/' && plain_path(s.drop_first())
}

/// `a` is a prefix of `b`.
pub open spec fn seg_prefix(a: Seq<Seq<char>>, b: Seq<Seq<char>>) -> bool {
    a.len() <= b.len() && b.subrange(0, a.len() as int) == a
}

/// The path itself, then each prefix before a `/`, longest first, and last
/// the empty path (what `ancestors` yields for a relative path).
pub open spec fn ancestors_of(s: Seq<char>) -> Seq<Seq<char>>
    decreases s.len(),
{
    let k = last_index_of(s, '/');
    if s.len() == 0 {
        seq![s]
    } else if k < 0 {
        seq![s, Seq::empty()]
    } else if k < s.len() {
        seq![s] + ancestors_of(s.subrange(0, k))
    } else {
        seq![s]
    }
}

/// The last segment of a path.
pub open spec fn file_name_of(s: Seq<char>) -> Seq<char> {
    segments(s).last()
}

/// The extension of a file name: what follows its last `.`, unless there is
/// none or the name starts with its only `.`.
pub open spec fn extension_of(f: Seq<char>) -> Option<Seq<char>> {
    let d = last_index_of(f, '.');
    if d <= 0 {
        None
    } else {
        Some(f.subrange(d + 1, f.len() as int))
    }
}

/// The stem of a file name: what precedes its last `.`, or the whole name
/// when the extension is `None`.
pub open spec fn stem_of(f: Seq<char>) -> Seq<char> {
    let d = last_index_of(f, '.');
    if d <= 0 {
        f
    } else {
        f.subrange(0, d)
    }
}

pub open spec fn opt_chars(r: Option<String>) -> Option<Seq<char>> {
    match r {
        Some(s) => Some(s@),
        None => None,
    }
}

pub open spec fn strs(v: Seq<String>) -> Seq<Seq<char>> {
    v.map_values(|s: String| s@)
}

pub proof fn lemma_last_index_of(s: Seq<char>, c: char)
    ensures
        -1 <= last_index_of(s, c) < s.len(),
        last_index_of(s, c) >= 0 ==> s[last_index_of(s, c)] == c,
        forall|j: int| last_index_of(s, c) < j < s.len() ==> s[j] != c,
    decreases s.len(),
{
    if s.len() > 0 && s.last() != c {
        lemma_last_index_of(s.drop_last(), c);
        assert forall|j: int| last_index_of(s, c) < j < s.len() implies s[j] != c by {
            if j < s.len() - 1 {
                assert(s.drop_last()[j] == s[j]);
            }
        }
    }
}

/// A segment without `/` added after `s` and a `/` is one more segment.
pub proof fn lemma_segments_append(s: Seq<char>, t: Seq<char>)
    requires
        forall|i: int| 0 <= i < t.len() ==> #[trigger] t[i] != '/',
    ensures
        segments(s + seq!['/'] + t) == segments(s).push(t),
    decreases t.len(),
{
    let x = s + seq!['/'] + t;
    if t.len() == 0 {
        assert(x =~= s.push('/'));
        assert(x.drop_last() =~= s);
        assert(t =~= Seq::<char>::empty());
        assert(segments(x) == segments(s).push(Seq::empty()));
    } else {
        lemma_segments_append(s, t.drop_last());
        assert(x.drop_last() =~= s + seq!['/'] + t.drop_last());
        assert(x.last() == t.last());
        assert(t[t.len() - 1] != '/');
        assert(t.drop_last().push(t.last()) =~= t);
        let p = segments(x.drop_last());
        assert(p == segments(s).push(t.drop_last()));
        assert(segments(x) == p.update(p.len() - 1, p.last().push(x.last())));
        assert(segments(x) =~= segments(s).push(t));
    }
}

/// A path is its part before its last `/`, that `/`, and its last segment.
pub proof fn lemma_split_last(s: Seq<char>)
    requires
        last_index_of(s, '/') >= 0,
    ensures
        s =~= s.subrange(0, last_index_of(s, '/')) + seq!['/'] + s.subrange(last_index_of(s, '/') + 1, s.len() as int),
        segments(s) == segments(s.subrange(0, last_index_of(s, '/'))).push(
            s.subrange(last_index_of(s, '/') + 1, s.len() as int),
        ),
{
    lemma_last_index_of(s, '/');
    let k = last_index_of(s, '/');
    let t = s.subrange(k + 1, s.len() as int);
    assert(s =~= s.subrange(0, k) + seq!['/'] + t);
    lemma_segments_append(s.subrange(0, k), t);
}

/// The ancestors of a plain path are plain, but for the empty one at the
/// end.
pub proof fn lemma_ancestors_plain(s: Seq<char>)
    requires
        plain_path(s),
    ensures
        ancestors_of(s).len() >= 2,
        ancestors_of(s)[0] == s,
        ancestors_of(s).last() == Seq::<char>::empty(),
        forall|i: int| 0 <= i < ancestors_of(s).len() - 1 ==> plain_path(#[trigger] ancestors_of(s)[i]),
    decreases s.len(),
{
    lemma_last_index_of(s, '/');
    let k = last_index_of(s, '/');
    if k >= 0 {
        lemma_split_last(s);
        let p = s.subrange(0, k);
        let sp = segments(p);
        assert(sp.len() + 1 == segments(s).len());
        assert forall|j: int| 0 <= j < sp.len() implies plain_segment(#[trigger] sp[j]) by {
            assert(segments(s)[j] == sp[j]);
        }
        if p.len() == 0 {
            assert(sp =~= seq![Seq::<char>::empty()]);
            assert(plain_segment(sp[0]));
        }
        lemma_ancestors_plain(p);
        let a = ancestors_of(s);
        assert(a == seq![s] + ancestors_of(p));
        assert forall|i: int| 0 <= i < a.len() - 1 implies plain_path(#[trigger] a[i]) by {
            if i > 0 {
                assert(a[i] == ancestors_of(p)[i - 1]);
            }
        }
    }
}

/// A plain path followed by `/` and a plain segment is plain.
pub proof fn lemma_join_plain(s: Seq<char>, t: Seq<char>)
    requires
        plain_path(s),
        plain_segment(t),
        forall|i: int| 0 <= i < t.len() ==> #[trigger] t[i] != '/' && t[i] != '\\' && t[i] != ':',
    ensures
        plain_path(s + seq!['/'] + t),
        segments(s + seq!['/'] + t) == segments(s).push(t),
{
    lemma_segments_append(s, t);
    let x = s + seq!['/'] + t;
    assert forall|i: int| 0 <= i < x.len() implies #[trigger] x[i] != '\\' && x[i] != ':' by {
        if i < s.len() {
            assert(x[i] == s[i]);
        } else if i > s.len() {
            assert(x[i] == t[i - s.len() - 1]);
        }
    }
    assert forall|k: int| 0 <= k < segments(x).len() implies plain_segment(#[trigger] segments(x)[k]) by {
        if k < segments(s).len() {
            assert(segments(x)[k] == segments(s)[k]);
        }
    }
}

/// No segment holds a `/`, nor a `\\` or `:` when the path holds none.
pub proof fn lemma_segment_chars(s: Seq<char>)
    requires
        forall|i: int| 0 <= i < s.len() ==> #[trigger] s[i] != '\\' && s[i] != ':',
    ensures
        segments(s).len() >= 1,
        forall|k: int, i: int|
            0 <= k < segments(s).len() && 0 <= i < segments(s)[k].len() ==> #[trigger] segments(s)[k][i] != '/'
                && segments(s)[k][i] != '\\' && segments(s)[k][i] != ':',
    decreases s.len(),
{
    if s.len() > 0 {
        let d = s.drop_last();
        assert forall|i: int| 0 <= i < d.len() implies #[trigger] d[i] != '\\' && d[i] != ':' by {
            assert(d[i] == s[i]);
        }
        lemma_segment_chars(d);
        let p = segments(d);
        if s.last() != '/' {
            let x = p.last().push(s.last());
            assert(s[s.len() - 1] != '\\' && s[s.len() - 1] != ':');
            assert forall|k: int, i: int| 0 <= k < segments(s).len() && 0 <= i < segments(s)[k].len() implies #[trigger] segments(s)[k][i] != '/'
                && segments(s)[k][i] != '\\' && segments(s)[k][i] != ':' by {
                if k < p.len() - 1 {
                    assert(segments(s)[k] == p[k]);
                } else {
                    assert(segments(s)[k] == x);
                    if i < p.last().len() {
                        assert(x[i] == p[p.len() - 1][i]);
                    }
                }
            }
        } else {
            assert forall|k: int, i: int| 0 <= k < segments(s).len() && 0 <= i < segments(s)[k].len() implies #[trigger] segments(s)[k][i] != '/'
                && segments(s)[k][i] != '\\' && segments(s)[k][i] != ':' by {
                if k < p.len() {
                    assert(segments(s)[k] == p[k]);
                }
            }
        }
    }
}

/// A text without `/` is a single segment.
pub proof fn lemma_one_segment(t: Seq<char>)
    requires
        forall|i: int| 0 <= i < t.len() ==> #[trigger] t[i] != '/',
    ensures
        segments(t) == seq![t],
    decreases t.len(),
{
    if t.len() == 0 {
        assert(t =~= Seq::<char>::empty());
    } else {
        let d = t.drop_last();
        assert forall|i: int| 0 <= i < d.len() implies #[trigger] d[i] != '/' by {
            assert(d[i] == t[i]);
        }
        lemma_one_segment(d);
        assert(t[t.len() - 1] != '/');
        assert(d.push(t.last()) =~= t);
        assert(segments(t) =~= seq![t]);
    }
}

/// Each segment of a plain path is itself a plain path of one segment.
pub proof fn lemma_segment_is_plain(s: Seq<char>, k: int)
    requires
        plain_path(s),
        0 <= k < segments(s).len(),
    ensures
        plain_path(segments(s)[k]),
        segments(segments(s)[k]) == seq![segments(s)[k]],
{
    lemma_segment_chars(s);
    let t = segments(s)[k];
    assert forall|i: int| 0 <= i < t.len() implies #[trigger] t[i] != '/' by {
        assert(segments(s)[k][i] != '/');
    }
    lemma_one_segment(t);
    assert forall|i: int| 0 <= i < t.len() implies #[trigger] t[i] != '\\' && t[i] != ':' by {
        assert(segments(s)[k][i] != '/');
    }
    assert(plain_segment(segments(s)[k]));
    assert(segments(t)[0] == t);
}

/// The paths that `Utf8Path::ancestors` yields for `path`: the path itself,
/// then its parent, and so on. On a plain path they are the path, each
/// prefix before a `/` (longest first), and the empty path.
#[verifier::external_body]
pub(crate) fn path_ancestors(path: &str) -> (r: Vec<String>)
    ensures
        r@.len() >= 1,
        r@[0]@ == path@,
        plain_path(path@) ==> strs(r@) == ancestors_of(path@),
{
    Utf8Path::new(path).ancestors().map(|a| a.as_str().to_string()).collect()
}

/// The extension of the last component of `path` (`Utf8Path::extension`);
/// on a plain path, `extension_of` its last segment.
#[verifier::external_body]
pub(crate) fn path_extension(path: &str) -> (r: Option<String>)
    ensures
        plain_path(path@) ==> opt_chars(r) == extension_of(file_name_of(path@)),
{
    Utf8Path::new(path).extension().map(|e| e.to_string())
}

/// The last component of `path` (`Utf8Path::file_name`); on a plain path,
/// its last segment.
#[verifier::external_body]
pub(crate) fn path_file_name(path: &str) -> (r: Option<String>)
    ensures
        plain_path(path@) ==> opt_chars(r) == Some(file_name_of(path@)),
{
    Utf8Path::new(path).file_name().map(|e| e.to_string())
}

/// The stem of the last component of `path` (`Utf8Path::file_stem`); for a
/// plain path of one segment, `stem_of` that segment.
#[verifier::external_body]
pub(crate) fn path_file_stem(path: &str) -> (r: Option<String>)
    ensures
        plain_path(path@) && segments(path@).len() == 1 ==> opt_chars(r) == Some(stem_of(path@)),
{
    Utf8Path::new(path).file_stem().map(|e| e.to_string())
}

/// Whether `base` is a prefix of `path`, component by component
/// (`Utf8Path::starts_with`); on plain paths, whether the segments of
/// `base` begin those of `path`.
#[verifier::external_body]
pub(crate) fn path_starts_with(path: &str, base: &str) -> (r: bool)
    ensures
        plain_path(path@) && plain_path(base@) ==> r == seg_prefix(segments(base@), segments(path@)),
{
    Utf8Path::new(path).starts_with(base)
}

/// The components of `path` after `base` (`Utf8Path::strip_prefix`, then
/// `components`), or `None` when `base` is not a prefix of `path`. On plain
/// paths, and on two absolute ones, the segments of `path` that follow
/// those of `base`.
#[verifier::external_body]
pub(crate) fn path_components_after(path: &str, base: &str) -> (r: Option<Vec<String>>)
    ensures
        plain_path(path@) && plain_path(base@) ==> match r {
            Some(v) => seg_prefix(segments(base@), segments(path@)) && strs(v@) == segments(path@).subrange(
                segments(base@).len() as int,
                segments(path@).len() as int,
            ),
            None => !seg_prefix(segments(base@), segments(path@)),
        },
        rooted_plain(path@) && rooted_plain(base@) ==> match r {
            Some(v) => seg_prefix(segments(base@.drop_first()), segments(path@.drop_first())) && strs(v@) == segments(
                path@.drop_first(),
            ).subrange(segments(base@.drop_first()).len() as int, segments(path@.drop_first()).len() as int),
            None => !seg_prefix(segments(base@.drop_first()), segments(path@.drop_first())),
        },
{
    match Utf8Path::new(path).strip_prefix(base) {
        Ok(rest) => Some(rest.components().map(|c| c.as_str().to_string()).collect()),
        Err(_) => None,
    }
}

} // verus!
