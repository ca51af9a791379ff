//! Which role a file of a project directory plays, decided from its path:
//! its extension, the module directory it lies in, and the folders under it.
use vstd::prelude::*;
use vstd::utf8::{encode_utf8, is_char_boundary};
use vstd::string::StringSliceAdditionalSpecFns;
use crate::paths::{
    opt_chars,
    ancestors_of, extension_of, file_name_of, lemma_ancestors_plain, lemma_join_plain, path_ancestors,
    path_extension, path_file_name, path_starts_with, plain_path, seg_prefix, segments, strs,
};
use crate::editor_id::Namespace;

verus! {

/// `u8::to_ascii_lowercase`.
pub open spec fn ascii_lower(b: u8) -> u8 {
    if 65 <= b <= 90 {
        (b + 32) as u8
    } else {
        b
    }
}

/// `eq_ignore_ascii_case` on the bytes of two strings.
pub open spec fn bytes_eq_ignore_case(a: Seq<u8>, b: Seq<u8>) -> bool {
    &&& a.len() == b.len()
    &&& forall|i: int| 0 <= i < a.len() ==> ascii_lower(#[trigger] a[i]) == ascii_lower(b[i])
}

/// The last bytes of `p` match `e`, ignoring ASCII case.
pub open spec fn has_suffix_ignore_case(p: Seq<u8>, e: Seq<u8>) -> bool {
    p.len() >= e.len() && bytes_eq_ignore_case(p.subrange(p.len() - e.len(), p.len() as int), e)
}

fn lower(b: u8) -> (r: u8)
    ensures
        r == ascii_lower(b),
{
    if 65 <= b && b <= 90 {
        b + 32
    } else {
        b
    }
}

fn suffix_ignore_case(p: &[u8], e: &[u8]) -> (r: bool)
    ensures
        r == has_suffix_ignore_case(p@, e@),
{
    if p.len() < e.len() {
        return false;
    }
    let start = p.len() - e.len();
    let mut i: usize = 0;
    while i < e.len()
        invariant
            start + e@.len() == p@.len(),
            p@.len() <= usize::MAX,
            i <= e@.len(),
            forall|j: int| 0 <= j < i ==> ascii_lower(#[trigger] p@[start + j]) == ascii_lower(e@[j]),
        decreases e.len() - i,
    {
        if lower(p[start + i]) != lower(e[i]) {
            proof {
                let s = p@.subrange(start as int, p@.len() as int);
                assert(s[i as int] == p@[start + i]);
            }
            return false;
        }
        i = i + 1;
    }
    proof {
        let s = p@.subrange(start as int, p@.len() as int);
        assert forall|j: int| 0 <= j < s.len() implies ascii_lower(#[trigger] s[j]) == ascii_lower(e@[j]) by {
            assert(s[j] == p@[start + j]);
        }
    }
    true
}

/// Whether `path` ends with `extension`, ignoring ASCII case. The byte where
/// the ending would start must begin a character.
pub fn path_has_suffix(path: &str, extension: &str) -> (r: bool)
    requires
        path.spec_bytes().len() < extension.spec_bytes().len() || is_char_boundary(
            path.spec_bytes(),
            path.spec_bytes().len() - extension.spec_bytes().len(),
        ),
    ensures
        r == has_suffix_ignore_case(path.spec_bytes(), extension.spec_bytes()),
{
    suffix_ignore_case(path.as_bytes(), extension.as_bytes())
}

/// Whether two strings are equal ignoring ASCII case (`eq_ignore_ascii_case`).
pub fn eq_ignore_ascii_case(a: &str, b: &str) -> (r: bool)
    ensures
        r == bytes_eq_ignore_case(a.spec_bytes(), b.spec_bytes()),
{
    let x = a.as_bytes();
    let y = b.as_bytes();
    if x.len() != y.len() {
        return false;
    }
    let mut i: usize = 0;
    while i < x.len()
        invariant
            x@ == a.spec_bytes(),
            y@ == b.spec_bytes(),
            x@.len() == y@.len(),
            i <= x@.len(),
            forall|j: int| 0 <= j < i ==> ascii_lower(#[trigger] x@[j]) == ascii_lower(y@[j]),
        decreases x.len() - i,
    {
        if lower(x[i]) != lower(y[i]) {
            return false;
        }
        i = i + 1;
    }
    true
}

/// The index of the last path of `ancestors` that ends with `dbemodule`
/// (ignoring ASCII case). A path whose last bytes would cut a character does
/// not end with it.
pub fn outermost_module(ancestors: &Vec<String>) -> (r: Option<usize>)
    ensures
        match r {
            Some(i) => i < ancestors@.len() && module_dir(ancestors@[i as int]) && forall|j: int|
                i < j < ancestors@.len() ==> !module_dir(#[trigger] ancestors@[j]),
            None => forall|j: int| 0 <= j < ancestors@.len() ==> !module_dir(#[trigger] ancestors@[j]),
        },
{
    let mut found: Option<usize> = None;
    let mut i: usize = 0;
    while i < ancestors.len()
        invariant
            i <= ancestors@.len(),
            match found {
                Some(k) => k < i && module_dir(ancestors@[k as int]) && forall|j: int|
                    k < j < i ==> !module_dir(#[trigger] ancestors@[j]),
                None => forall|j: int| 0 <= j < i ==> !module_dir(#[trigger] ancestors@[j]),
            },
        decreases ancestors.len() - i,
    {
        if is_module_dir(ancestors[i].as_str()) {
            found = Some(i);
        }
        i = i + 1;
    }
    found
}

/// The bytes of `dbemodule`.
pub open spec fn module_ext() -> Seq<u8> {
    seq![100u8, 98u8, 101u8, 109u8, 111u8, 100u8, 117u8, 108u8, 101u8]
}

/// The bytes `b` of a path name a module directory: they end with
/// `dbemodule`, ignoring ASCII case, at a character boundary.
pub open spec fn module_dir_bytes(b: Seq<u8>) -> bool {
    b.len() >= 9 && is_char_boundary(b, b.len() - 9) && has_suffix_ignore_case(b, module_ext())
}

pub open spec fn module_dir(p: String) -> bool {
    module_dir_bytes(encode_utf8(p@))
}

/// Whether `a` names a module directory.
fn is_module_dir(a: &str) -> (r: bool)
    ensures
        r == module_dir_bytes(a.spec_bytes()),
{
    let b = a.as_bytes();
    if b.len() < 9 {
        return false;
    }
    if !a.is_char_boundary(b.len() - 9) {
        return false;
    }
    let m: Vec<u8> = vec![100u8, 98u8, 101u8, 109u8, 111u8, 100u8, 117u8, 108u8, 101u8];
    assert(m@ =~= module_ext());
    suffix_ignore_case(b, m.as_slice())
}

} // verus!

verus! {

/// The characters `s` name a module directory.
pub open spec fn module_dir_chars(s: Seq<char>) -> bool {
    module_dir_bytes(encode_utf8(s))
}

/// The last of the paths `a` that names a module directory.
pub open spec fn last_module(a: Seq<Seq<char>>) -> Option<Seq<char>>
    decreases a.len(),
{
    if a.len() == 0 {
        None
    } else if module_dir_chars(a.last()) {
        Some(a.last())
    } else {
        last_module(a.drop_last())
    }
}

/// The module directory that a plain path lies in: the outermost of its
/// ancestors that names one.
pub open spec fn module_of(p: Seq<char>) -> Option<Seq<char>> {
    last_module(ancestors_of(p))
}

proof fn lemma_last_module(a: Seq<Seq<char>>, i: int)
    requires
        0 <= i < a.len(),
        module_dir_chars(a[i]),
        forall|j: int| i < j < a.len() ==> !module_dir_chars(#[trigger] a[j]),
    ensures
        last_module(a) == Some(a[i]),
    decreases a.len(),
{
    if i < a.len() - 1 {
        assert(!module_dir_chars(a[a.len() - 1]));
        assert forall|j: int| i < j < a.len() - 1 implies !module_dir_chars(#[trigger] a.drop_last()[j]) by {
            assert(a.drop_last()[j] == a[j]);
        }
        lemma_last_module(a.drop_last(), i);
    }
}

proof fn lemma_no_module(a: Seq<Seq<char>>)
    requires
        forall|j: int| 0 <= j < a.len() ==> !module_dir_chars(#[trigger] a[j]),
    ensures
        last_module(a) is None,
    decreases a.len(),
{
    if a.len() > 0 {
        assert(!module_dir_chars(a[a.len() - 1]));
        assert forall|j: int| 0 <= j < a.len() - 1 implies !module_dir_chars(#[trigger] a.drop_last()[j]) by {
            assert(a.drop_last()[j] == a[j]);
        }
        lemma_no_module(a.drop_last());
    }
}

/// What `last_module` gives is one of the paths.
proof fn lemma_last_module_in(a: Seq<Seq<char>>)
    ensures
        last_module(a) matches Some(m) ==> module_dir_chars(m) && exists|i: int| 0 <= i < a.len() && a[i] == m,
    decreases a.len(),
{
    if a.len() > 0 && !module_dir_chars(a.last()) {
        lemma_last_module_in(a.drop_last());
        if last_module(a) is Some {
            let i = choose|i: int| 0 <= i < a.drop_last().len() && a.drop_last()[i] == last_module(a)->0;
            assert(a[i] == a.drop_last()[i]);
        }
    }
    if a.len() > 0 && module_dir_chars(a.last()) {
        assert(a[a.len() - 1] == a.last());
    }
}

/// The module directory that `path` lies in: of the paths that
/// `path_ancestors` yields, the last that names a module directory. For a
/// plain path, the outermost ancestor that names one.
pub fn find_dbemodule_path(path: &str) -> (r: Option<String>)
    ensures
        r matches Some(m) ==> module_dir(m),
        module_dir_bytes(path.spec_bytes()) ==> r is Some,
        plain_path(path@) ==> opt_chars(r) == module_of(path@),
{
    let ancestors = path_ancestors(path);
    let r = outermost_module(&ancestors);
    proof {
        if plain_path(path@) {
            let a = ancestors_of(path@);
            assert(a.len() == ancestors@.len());
            assert forall|j: int| 0 <= j < a.len() implies #[trigger] a[j] == ancestors@[j]@ by {
                assert(strs(ancestors@)[j] == ancestors@[j]@);
            }
            match r {
                Some(i) => {
                    assert forall|j: int| i < j < a.len() implies !module_dir_chars(#[trigger] a[j]) by {
                        assert(!module_dir(ancestors@[j]));
                    }
                    lemma_last_module(a, i as int);
                },
                None => {
                    assert forall|j: int| 0 <= j < a.len() implies !module_dir_chars(#[trigger] a[j]) by {
                        assert(!module_dir(ancestors@[j]));
                    }
                    lemma_no_module(a);
                },
            }
        }
    }
    match r {
        Some(i) => Some(ancestors[i].clone()),
        None => None,
    }
}

/// The project's configuration of types.
pub struct TypesConfig {
    /// The identifier of the type that imported values have.
    pub import: String,
}

/// What a file of a project directory is loaded as.
#[derive(Debug, Clone, Copy, PartialEq, Eq)]
pub enum FileKind {
    /// A type definition (`.kdl`).
    Type,
    /// Type configuration in JSON, in the types folder of a module.
    TypesConfigJson,
    /// A JSON value outside any module.
    ImportJson,
    /// A value file (`.dbevalue`).
    Value,
    /// A graph (`.dbegraph`).
    Graph,
    /// A documentation file (`.docs.toml`).
    Docs,
    /// The module description (`mod.toml`).
    ModuleFile,
    /// Type configuration in TOML, in the types folder of a module.
    TypesConfigToml,
    /// A file the project does not read.
    Ignored,
}

/// Why a file of a project directory is refused.
#[derive(Debug, Clone, Copy, PartialEq, Eq)]
pub enum LoadError {
    TypeOutsideModule,
    JsonConfigOutsideTypes,
    ValueInsideModule,
    GraphInsideTypes,
    DocsOutsideModule,
    TomlConfigOutsideTypes,
}

/// The role of a file with lowercased extension `ext`; whether it lies in a
/// module, in the types folder of that module, ends with `docs.toml`, and is
/// named `mod.toml`.
pub open spec fn file_kind(ext: Seq<char>, in_module: bool, in_types: bool, is_docs: bool, is_module_file: bool) -> Result<FileKind, LoadError> {
    if ext == seq!['k', 'd', 'l'] {
        if in_module {
            Ok(FileKind::Type)
        } else {
            Err(LoadError::TypeOutsideModule)
        }
    } else if ext == seq!['j', 's', 'o', 'n', '5'] || ext == seq!['j', 's', 'o', 'n'] {
        if !in_module {
            Ok(FileKind::ImportJson)
        } else if in_types {
            Ok(FileKind::TypesConfigJson)
        } else {
            Err(LoadError::JsonConfigOutsideTypes)
        }
    } else if ext == seq!['d', 'b', 'e', 'v', 'a', 'l', 'u', 'e'] {
        if in_module {
            Err(LoadError::ValueInsideModule)
        } else {
            Ok(FileKind::Value)
        }
    } else if ext == seq!['d', 'b', 'e', 'g', 'r', 'a', 'p', 'h'] {
        if in_module && in_types {
            Err(LoadError::GraphInsideTypes)
        } else {
            Ok(FileKind::Graph)
        }
    } else if ext == seq!['t', 'o', 'm', 'l'] && is_docs {
        if in_module {
            Ok(FileKind::Docs)
        } else {
            Err(LoadError::DocsOutsideModule)
        }
    } else if ext == seq!['t', 'o', 'm', 'l'] && in_module {
        if is_module_file {
            Ok(FileKind::ModuleFile)
        } else if in_types {
            Ok(FileKind::TypesConfigToml)
        } else {
            Err(LoadError::TomlConfigOutsideTypes)
        }
    } else {
        Ok(FileKind::Ignored)
    }
}

/// Decides the role of a file from its lowercased extension and where it
/// lies.
pub fn classify_file(ext: &str, in_module: bool, in_types: bool, is_docs: bool, is_module_file: bool) -> (r: Result<FileKind, LoadError>)
    ensures
        r == file_kind(ext@, in_module, in_types, is_docs, is_module_file),
{
    proof {
        reveal_strlit("kdl");
        reveal_strlit("json5");
        reveal_strlit("json");
        reveal_strlit("dbevalue");
        reveal_strlit("dbegraph");
        reveal_strlit("toml");
        assert("kdl"@ =~= seq!['k', 'd', 'l']);
        assert("json5"@ =~= seq!['j', 's', 'o', 'n', '5']);
        assert("json"@ =~= seq!['j', 's', 'o', 'n']);
        assert("dbevalue"@ =~= seq!['d', 'b', 'e', 'v', 'a', 'l', 'u', 'e']);
        assert("dbegraph"@ =~= seq!['d', 'b', 'e', 'g', 'r', 'a', 'p', 'h']);
        assert("toml"@ =~= seq!['t', 'o', 'm', 'l']);
    }
    if crate::text::str_eq(ext, "kdl") {
        if in_module {
            Ok(FileKind::Type)
        } else {
            Err(LoadError::TypeOutsideModule)
        }
    } else if crate::text::str_eq(ext, "json5") || crate::text::str_eq(ext, "json") {
        if !in_module {
            Ok(FileKind::ImportJson)
        } else if in_types {
            Ok(FileKind::TypesConfigJson)
        } else {
            Err(LoadError::JsonConfigOutsideTypes)
        }
    } else if crate::text::str_eq(ext, "dbevalue") {
        if in_module {
            Err(LoadError::ValueInsideModule)
        } else {
            Ok(FileKind::Value)
        }
    } else if crate::text::str_eq(ext, "dbegraph") {
        if in_module && in_types {
            Err(LoadError::GraphInsideTypes)
        } else {
            Ok(FileKind::Graph)
        }
    } else if crate::text::str_eq(ext, "toml") && is_docs {
        if in_module {
            Ok(FileKind::Docs)
        } else {
            Err(LoadError::DocsOutsideModule)
        }
    } else if crate::text::str_eq(ext, "toml") && in_module {
        if is_module_file {
            Ok(FileKind::ModuleFile)
        } else if in_types {
            Ok(FileKind::TypesConfigToml)
        } else {
            Err(LoadError::TomlConfigOutsideTypes)
        }
    } else {
        Ok(FileKind::Ignored)
    }
}

/// `str::to_lowercase`: the lowercase form of a text, by the Unicode
/// case tables of std.
pub uninterp spec fn lowercase_of(s: Seq<char>) -> Seq<char>;

/// `char::to_ascii_lowercase`.
pub open spec fn ascii_lower_char(c: char) -> char {
    if 'A' <= c && c <= 'Z' {
        ((c as u32) + 32) as char
    } else {
        c
    }
}

/// Every character of `s` is ASCII.
pub open spec fn ascii_chars(s: Seq<char>) -> bool {
    forall|i: int| 0 <= i < s.len() ==> (#[trigger] s[i] as u32) < 128
}

/// The lowercase form of `s`: on ASCII text, each letter `A-Z` lowered.
pub open spec fn lower_text(s: Seq<char>) -> Seq<char> {
    if ascii_chars(s) {
        s.map_values(|c: char| ascii_lower_char(c))
    } else {
        lowercase_of(s)
    }
}

/// Lowercases `s` (`str::to_lowercase`). Its result is named by
/// `lowercase_of`; on ASCII text, whose lowercase letters the Unicode tables
/// give as `a-z`, it is the ASCII lowercase.
#[verifier::external_body]
fn lowercase(s: &str) -> (r: String)
    ensures
        r@ == lowercase_of(s@),
        ascii_chars(s@) ==> r@ == s@.map_values(|c: char| ascii_lower_char(c)),
{
    s.to_lowercase()
}

/// The bytes of `docs.toml`.
pub open spec fn docs_ext() -> Seq<u8> {
    seq![100u8, 111u8, 99u8, 115u8, 46u8, 116u8, 111u8, 109u8, 108u8]
}

/// The bytes `b` of a path name a documentation file: they end with
/// `docs.toml`, ignoring ASCII case, at a character boundary.
pub open spec fn docs_file_bytes(b: Seq<u8>) -> bool {
    b.len() >= 9 && is_char_boundary(b, b.len() - 9) && has_suffix_ignore_case(b, docs_ext())
}

/// Whether `path` ends with `docs.toml` (ignoring ASCII case) at a character
/// boundary.
fn ends_with_docs(path: &str) -> (r: bool)
    ensures
        r == docs_file_bytes(path.spec_bytes()),
{
    let b = path.as_bytes();
    if b.len() < 9 {
        return false;
    }
    if !path.is_char_boundary(b.len() - 9) {
        return false;
    }
    let d: Vec<u8> = vec![100u8, 111u8, 99u8, 115u8, 46u8, 116u8, 111u8, 109u8, 108u8];
    assert(d@ =~= docs_ext());
    suffix_ignore_case(b, d.as_slice())
}

/// The folder of type definitions of a module: `m/types`.
pub open spec fn types_dir(m: Seq<char>) -> Seq<char> {
    m + seq!['/'] + seq!['t', 'y', 'p', 'e', 's']
}

/// The bytes of `mod.toml`.
pub open spec fn mod_file_bytes() -> Seq<u8> {
    seq![109u8, 111u8, 100u8, 46u8, 116u8, 111u8, 109u8, 108u8]
}

/// The role of the file at a plain path: its lowercased extension, whether
/// a module directory encloses it, whether it lies in that module's types
/// folder, ends with `docs.toml`, and is named `mod.toml` (ignoring ASCII
/// case) decide it as `file_kind` does. A file without extension is not
/// read.
pub open spec fn path_kind(p: Seq<char>) -> Result<FileKind, LoadError> {
    match extension_of(file_name_of(p)) {
        None => Ok(FileKind::Ignored),
        Some(e) => file_kind(
            lower_text(e),
            module_of(p) is Some,
            module_of(p) matches Some(m) && seg_prefix(segments(types_dir(m)), segments(p)),
            docs_file_bytes(encode_utf8(p)),
            bytes_eq_ignore_case(encode_utf8(file_name_of(p)), mod_file_bytes()),
        ),
    }
}

/// Builds `m/types`.
fn types_dir_of(m: &String) -> (r: String)
    ensures
        r@ == types_dir(m@),
{
    let mut t = m.clone();
    crate::text::string_push(&mut t, '/');
    crate::text::string_push(&mut t, 't');
    crate::text::string_push(&mut t, 'y');
    crate::text::string_push(&mut t, 'p');
    crate::text::string_push(&mut t, 'e');
    crate::text::string_push(&mut t, 's');
    assert(t@ =~= types_dir(m@));
    t
}

/// Whether a file name is `mod.toml`, ignoring ASCII case.
fn is_mod_file(f: &str) -> (r: bool)
    ensures
        r == bytes_eq_ignore_case(f.spec_bytes(), mod_file_bytes()),
{
    let b = f.as_bytes();
    let m: Vec<u8> = vec![109u8, 111u8, 100u8, 46u8, 116u8, 111u8, 109u8, 108u8];
    assert(m@ =~= mod_file_bytes());
    if b.len() != m.len() {
        return false;
    }
    let r = suffix_ignore_case(b, m.as_slice());
    assert(b@.subrange(0, b@.len() as int) =~= b@);
    r
}

/// Decides the role of the file at `path` (relative to the project root):
/// its lowercased extension, the module directory it lies in, whether it lies
/// in that module's types folder, ends with `docs.toml`, and is named
/// `mod.toml` decide it as `file_kind` does (`path_kind` on a plain path).
pub fn classify_path(path: &str) -> (r: Result<FileKind, LoadError>)
    ensures
        plain_path(path@) ==> r == path_kind(path@),
        exists|e: Seq<char>, m: bool, t: bool, d: bool, f: bool|
            r == file_kind(e, m, t, d, f) && (module_dir_bytes(path.spec_bytes()) ==> m),
{
    let ext = match path_extension(path) {
        Some(e) => lowercase(e.as_str()),
        None => {
            assert(file_kind(seq!['x'], true, false, false, false) == Ok::<FileKind, LoadError>(FileKind::Ignored));
            return Ok(FileKind::Ignored);
        },
    };
    let module = find_dbemodule_path(path);
    let in_module = module.is_some();
    let in_types = match &module {
        Some(m) => {
            let t = types_dir_of(m);
            proof {
                if plain_path(path@) {
                    lemma_ancestors_plain(path@);
                    lemma_last_module_in(ancestors_of(path@));
                    let a = ancestors_of(path@);
                    let i = choose|i: int| 0 <= i < a.len() && a[i] == m@;
                    if i == a.len() - 1 {
                        assert(encode_utf8(Seq::<char>::empty()) =~= Seq::<u8>::empty());
                    }
                    assert(plain_path(a[i]));
                    lemma_join_plain(m@, seq!['t', 'y', 'p', 'e', 's']);
                }
            }
            path_starts_with(path, t.as_str())
        },
        None => false,
    };
    let is_docs = ends_with_docs(path);
    let is_module_file = match path_file_name(path) {
        Some(f) => is_mod_file(f.as_str()),
        None => false,
    };
    classify_file(ext.as_str(), in_module, in_types, is_docs, is_module_file)
}

} // verus!

verus! {

/// Two modules that declare one namespace.
#[derive(Debug, Clone, PartialEq, Eq)]
pub struct DuplicateNamespace {
    pub namespace: String,
    /// The path of the module that declared it first.
    pub first: String,
    /// The path of the module that declared it again.
    pub second: String,
}

/// No two of the modules declare the same namespace.
pub open spec fn namespaces_distinct(modules: Seq<(String, Namespace)>) -> bool {
    forall|a: int, b: int| 0 <= a < b < modules.len() ==> modules[a].1.view() != modules[b].1.view()
}

/// Checks that each module, given by its path and namespace, declares a
/// namespace of its own. The first module whose namespace an earlier one
/// declared is refused, with the path of that earlier one.
pub fn check_module_namespaces(modules: &Vec<(String, Namespace)>) -> (r: Result<(), DuplicateNamespace>)
    ensures
        r is Ok <==> namespaces_distinct(modules@),
        r matches Err(d) ==> exists|i: int, j: int|
            #![trigger modules@[i], modules@[j]]
            0 <= i < j < modules@.len() && namespaces_distinct(modules@.subrange(0, j)) && modules@[i].1.view()
                == modules@[j].1.view() && d.first@ == modules@[i].0@ && d.second@ == modules@[j].0@
                && d.namespace@ == modules@[j].1.view(),
{
    let n = modules.len();
    let mut j: usize = 0;
    while j < n
        invariant
            n == modules@.len(),
            j <= n,
            namespaces_distinct(modules@.subrange(0, j as int)),
        decreases n - j,
    {
        let mut i: usize = 0;
        while i < j
            invariant
                n == modules@.len(),
                i <= j < n,
                namespaces_distinct(modules@.subrange(0, j as int)),
                forall|a: int| 0 <= a < i ==> modules@[a].1.view() != modules@[j as int].1.view(),
            decreases j - i,
        {
            if crate::text::str_eq(modules[i].1.as_str(), modules[j].1.as_str()) {
                let d = DuplicateNamespace {
                    namespace: modules[j].1.as_str().to_owned(),
                    first: modules[i].0.clone(),
                    second: modules[j].0.clone(),
                };
                proof {
                    assert(!namespaces_distinct(modules@)) by {
                        assert(modules@[i as int].1.view() == modules@[j as int].1.view());
                    }
                }
                return Err(d);
            }
            i = i + 1;
        }
        proof {
            let s = modules@.subrange(0, j + 1);
            assert forall|a: int, b: int| 0 <= a < b < s.len() implies s[a].1.view() != s[b].1.view() by {
                if b < j {
                    let t = modules@.subrange(0, j as int);
                    assert(s[a] == t[a]);
                    assert(s[b] == t[b]);
                } else {
                    assert(s[b] == modules@[j as int]);
                    assert(s[a] == modules@[a]);
                }
            }
        }
        j = j + 1;
    }
    assert(modules@.subrange(0, n as int) =~= modules@);
    Ok(())
}

} // verus!

verus! {

/// The path of the empty file that marks the file at `p` as generated:
/// `p.generated`.
pub open spec fn generated_marker(p: Seq<char>) -> Seq<char> {
    p + seq!['.', 'g', 'e', 'n', 'e', 'r', 'a', 't', 'e', 'd']
}

/// The files that saving writes, for files given by path and whether they
/// were generated: each file, after its marker when it was generated.
pub open spec fn save_writes(files: Seq<(String, bool)>) -> Seq<Seq<char>>
    decreases files.len(),
{
    if files.len() == 0 {
        Seq::empty()
    } else {
        let f = files.last();
        save_writes(files.drop_last()) + if f.1 {
            seq![generated_marker(f.0@), f.0@]
        } else {
            seq![f.0@]
        }
    }
}

/// The paths of `to_delete` that saving does not write, in their order.
pub open spec fn save_deletes(writes: Seq<Seq<char>>, to_delete: Seq<String>) -> Seq<Seq<char>>
    decreases to_delete.len(),
{
    if to_delete.len() == 0 {
        Seq::empty()
    } else {
        let p = to_delete.last()@;
        save_deletes(writes, to_delete.drop_last()) + if writes.contains(p) {
            Seq::empty()
        } else {
            seq![p]
        }
    }
}

pub open spec fn views_of(v: Seq<String>) -> Seq<Seq<char>> {
    v.map_values(|s: String| s@)
}

/// Builds `p.generated`.
fn marker_of(p: &String) -> (r: String)
    ensures
        r@ == generated_marker(p@),
{
    let mut m = p.clone();
    crate::text::string_push(&mut m, '.');
    crate::text::string_push(&mut m, 'g');
    crate::text::string_push(&mut m, 'e');
    crate::text::string_push(&mut m, 'n');
    crate::text::string_push(&mut m, 'e');
    crate::text::string_push(&mut m, 'r');
    crate::text::string_push(&mut m, 'a');
    crate::text::string_push(&mut m, 't');
    crate::text::string_push(&mut m, 'e');
    crate::text::string_push(&mut m, 'd');
    assert(m@ =~= generated_marker(p@));
    m
}

/// Whether `p` is one of `v`.
fn contains_path(v: &Vec<String>, p: &str) -> (r: bool)
    ensures
        r == views_of(v@).contains(p@),
{
    let mut i: usize = 0;
    while i < v.len()
        invariant
            i <= v@.len(),
            forall|j: int| 0 <= j < i ==> (#[trigger] v@[j])@ != p@,
        decreases v.len() - i,
    {
        if crate::text::str_eq(v[i].as_str(), p) {
            assert(views_of(v@)[i as int] == p@);
            return true;
        }
        i = i + 1;
    }
    assert forall|j: int| 0 <= j < views_of(v@).len() implies views_of(v@)[j] != p@ by {
        assert(views_of(v@)[j] == v@[j]@);
    }
    false
}

/// What saving a project writes and deletes (`Project::save`, without the
/// writing): each file, with a marker before each generated one; and the
/// paths marked for deletion that are not written. A generated file's path
/// is plain, so that its marker lies beside it.
pub fn save_plan(files: &Vec<(String, bool)>, to_delete: &Vec<String>) -> (r: (Vec<String>, Vec<String>))
    requires
        forall|i: int| 0 <= i < files@.len() && (#[trigger] files@[i]).1 ==> plain_path(files@[i].0@),
    ensures
        views_of(r.0@) == save_writes(files@),
        views_of(r.1@) == save_deletes(save_writes(files@), to_delete@),
{
    let mut writes: Vec<String> = Vec::new();
    let mut i: usize = 0;
    assert(files@.subrange(0, 0) =~= Seq::<(String, bool)>::empty());
    while i < files.len()
        invariant
            i <= files@.len(),
            views_of(writes@) == save_writes(files@.subrange(0, i as int)),
        decreases files.len() - i,
    {
        let ghost before = writes@;
        let (p, g) = (&files[i].0, files[i].1);
        if g {
            writes.push(marker_of(p));
        }
        writes.push(p.clone());
        proof {
            let s = files@.subrange(0, i + 1);
            assert(s.drop_last() =~= files@.subrange(0, i as int));
            assert(s.last() == files@[i as int]);
            assert(views_of(writes@) =~= save_writes(s));
        }
        i = i + 1;
    }
    assert(files@.subrange(0, files@.len() as int) =~= files@);
    let mut deletes: Vec<String> = Vec::new();
    let mut k: usize = 0;
    assert(to_delete@.subrange(0, 0) =~= Seq::<String>::empty());
    while k < to_delete.len()
        invariant
            k <= to_delete@.len(),
            views_of(writes@) == save_writes(files@),
            views_of(deletes@) == save_deletes(save_writes(files@), to_delete@.subrange(0, k as int)),
        decreases to_delete.len() - k,
    {
        let ghost before = deletes@;
        let p = &to_delete[k];
        if !contains_path(&writes, p.as_str()) {
            deletes.push(p.clone());
        }
        proof {
            let s = to_delete@.subrange(0, k + 1);
            assert(s.drop_last() =~= to_delete@.subrange(0, k as int));
            assert(s.last() == to_delete@[k as int]);
            assert(views_of(deletes@) =~= save_deletes(save_writes(files@), s));
        }
        k = k + 1;
    }
    assert(to_delete@.subrange(0, to_delete@.len() as int) =~= to_delete@);
    (writes, deletes)
}

} // verus!

verus! {

proof fn lemma_deletes_exactly(writes: Seq<Seq<char>>, to_delete: Seq<String>)
    ensures
        forall|x: Seq<char>| #[trigger] save_deletes(writes, to_delete).contains(x) <==> (
            views_of(to_delete).contains(x) && !writes.contains(x)),
    decreases to_delete.len(),
{
    if to_delete.len() > 0 {
        let rest = to_delete.drop_last();
        lemma_deletes_exactly(writes, rest);
        assert(views_of(to_delete) =~= views_of(rest).push(to_delete.last()@));
        let p = to_delete.last()@;
        let d0 = save_deletes(writes, rest);
        assert forall|x: Seq<char>| #[trigger] save_deletes(writes, to_delete).contains(x) <==> (views_of(
            to_delete,
        ).contains(x) && !writes.contains(x)) by {
            let tail = if writes.contains(p) {
                Seq::<Seq<char>>::empty()
            } else {
                seq![p]
            };
            let d = d0 + tail;
            assert(save_deletes(writes, to_delete) == d);
            if d.contains(x) {
                let i = choose|i: int| 0 <= i < d.len() && d[i] == x;
                if i < d0.len() {
                    assert(d0[i] == x);
                    assert(d0.contains(x));
                    let j = choose|j: int| 0 <= j < views_of(rest).len() && views_of(rest)[j] == x;
                    assert(views_of(to_delete)[j] == x);
                } else {
                    assert(tail[i - d0.len()] == x);
                    assert(tail.len() > 0);
                    assert(x == p);
                    assert(views_of(to_delete)[views_of(to_delete).len() - 1] == p);
                }
                assert(views_of(to_delete).contains(x));
            }
            if views_of(to_delete).contains(x) && !writes.contains(x) {
                let i = choose|i: int| 0 <= i < views_of(to_delete).len() && views_of(to_delete)[i] == x;
                if i < views_of(rest).len() {
                    assert(views_of(rest)[i] == x);
                    assert(views_of(rest).contains(x));
                    assert(d0.contains(x));
                    let k = choose|k: int| 0 <= k < d0.len() && d0[k] == x;
                    assert(d[k] == x);
                } else {
                    assert(x == p);
                    assert(d[d0.len() as int] == x);
                }
            }
        }
    } else {
        assert(views_of(to_delete) =~= Seq::<Seq<char>>::empty());
    }
}

proof fn lemma_writes_exactly(files: Seq<(String, bool)>)
    ensures
        forall|x: Seq<char>| #[trigger] save_writes(files).contains(x) <==> exists|i: int|
            0 <= i < files.len() && (x == (#[trigger] files[i]).0@ || (files[i].1 && x == generated_marker(
                files[i].0@,
            ))),
    decreases files.len(),
{
    if files.len() > 0 {
        let rest = files.drop_last();
        lemma_writes_exactly(rest);
        let f = files.last();
        let tail = if f.1 {
            seq![generated_marker(f.0@), f.0@]
        } else {
            seq![f.0@]
        };
        let w0 = save_writes(rest);
        let w = w0 + tail;
        assert(save_writes(files) == w);
        assert forall|x: Seq<char>| #[trigger] save_writes(files).contains(x) <==> exists|i: int|
            0 <= i < files.len() && (x == (#[trigger] files[i]).0@ || (files[i].1 && x == generated_marker(
                files[i].0@,
            ))) by {
            if w.contains(x) {
                let k = choose|k: int| 0 <= k < w.len() && w[k] == x;
                if k < w0.len() {
                    assert(w0[k] == x);
                    assert(w0.contains(x));
                    let i = choose|i: int|
                        0 <= i < rest.len() && (x == (#[trigger] rest[i]).0@ || (rest[i].1 && x == generated_marker(
                            rest[i].0@,
                        )));
                    assert(files[i] == rest[i]);
                } else {
                    assert(tail[k - w0.len()] == x);
                    assert(files[files.len() - 1] == f);
                }
            }
            if exists|i: int|
                0 <= i < files.len() && (x == (#[trigger] files[i]).0@ || (files[i].1 && x == generated_marker(
                    files[i].0@,
                ))) {
                let i = choose|i: int|
                    0 <= i < files.len() && (x == (#[trigger] files[i]).0@ || (files[i].1 && x == generated_marker(
                        files[i].0@,
                    )));
                if i < rest.len() {
                    assert(rest[i] == files[i]);
                    assert(w0.contains(x));
                    let k = choose|k: int| 0 <= k < w0.len() && w0[k] == x;
                    assert(w[k] == x);
                } else {
                    assert(files[i] == f);
                    if x == f.0@ {
                        assert(w[w.len() - 1] == x);
                    } else {
                        assert(w[w0.len() as int] == x);
                    }
                }
            }
        }
    }
}

/// Saving writes each file, and the marker of each generated file, and
/// nothing else; it deletes exactly the paths marked for deletion that it
/// does not write, so no written path is ever deleted.
pub proof fn law_save_writes_then_deletes_the_rest(files: Seq<(String, bool)>, to_delete: Seq<String>)
    ensures
        forall|x: Seq<char>| #[trigger] save_writes(files).contains(x) <==> exists|i: int|
            0 <= i < files.len() && (x == (#[trigger] files[i]).0@ || (files[i].1 && x == generated_marker(
                files[i].0@,
            ))),
        forall|x: Seq<char>| #[trigger] save_deletes(save_writes(files), to_delete).contains(x) ==> !save_writes(
            files,
        ).contains(x),
        forall|x: Seq<char>| #[trigger] save_deletes(save_writes(files), to_delete).contains(x) <==> (views_of(
            to_delete,
        ).contains(x) && !save_writes(files).contains(x)),
{
    lemma_writes_exactly(files);
    lemma_deletes_exactly(save_writes(files), to_delete);
}

} // verus!

verus! {

/// JSON and JSON5 files are read alike, wherever they lie: outside any
/// module each is a value to import; inside a module each is type
/// configuration, allowed only in the module's types folder.
pub proof fn law_json_and_json5_alike(in_module: bool, in_types: bool, is_docs: bool, is_module_file: bool)
    ensures
        file_kind(seq!['j', 's', 'o', 'n', '5'], in_module, in_types, is_docs, is_module_file) == file_kind(
            seq!['j', 's', 'o', 'n'],
            in_module,
            in_types,
            is_docs,
            is_module_file,
        ),
        !in_module ==> file_kind(seq!['j', 's', 'o', 'n', '5'], in_module, in_types, is_docs, is_module_file)
            == Ok::<FileKind, LoadError>(FileKind::ImportJson),
        in_module && in_types ==> file_kind(seq!['j', 's', 'o', 'n', '5'], in_module, in_types, is_docs, is_module_file)
            == Ok::<FileKind, LoadError>(FileKind::TypesConfigJson),
        in_module && !in_types ==> file_kind(seq!['j', 's', 'o', 'n', '5'], in_module, in_types, is_docs, is_module_file)
            == Err::<FileKind, LoadError>(LoadError::JsonConfigOutsideTypes),
{
    assert(seq!['j', 's', 'o', 'n', '5'] != seq!['k', 'd', 'l']) by {
        assert(seq!['j', 's', 'o', 'n', '5'].len() != seq!['k', 'd', 'l'].len());
    }
    assert(seq!['j', 's', 'o', 'n'] != seq!['k', 'd', 'l']) by {
        assert(seq!['j', 's', 'o', 'n'].len() != seq!['k', 'd', 'l'].len());
    }
}

} // verus!
