//! The kinds of items a type definition is made of, by their names in the
//! definition files.
use vstd::prelude::*;
use crate::text::str_eq;
use crate::parsing::ETypeConst;
use crate::editor_id::{editor_id_check, EditorId, IdError};

verus! {

#[derive(Debug, Clone, Copy, PartialEq, Eq)]
pub enum ThingItemKind {
    Boolean,
    Number,
    String,
    Object,
    Const,
    List,
    MapKind,
    Generic,
}

/// The name of a kind, in snake case.
pub open spec fn kind_name(k: ThingItemKind) -> Seq<char> {
    match k {
        ThingItemKind::Boolean => seq!['b', 'o', 'o', 'l', 'e', 'a', 'n'],
        ThingItemKind::Number => seq!['n', 'u', 'm', 'b', 'e', 'r'],
        ThingItemKind::String => seq!['s', 't', 'r', 'i', 'n', 'g'],
        ThingItemKind::Object => seq!['o', 'b', 'j', 'e', 'c', 't'],
        ThingItemKind::Const => seq!['c', 'o', 'n', 's', 't'],
        ThingItemKind::List => seq!['l', 'i', 's', 't'],
        ThingItemKind::MapKind => seq!['m', 'a', 'p'],
        ThingItemKind::Generic => seq!['g', 'e', 'n', 'e', 'r', 'i', 'c'],
    }
}

/// The name given is not that of a kind.
#[derive(Debug, Clone, Copy, PartialEq, Eq)]
pub struct UnknownKind;

impl ThingItemKind {
    /// The kind named `s`.
    pub fn from_name(s: &str) -> (r: Option<ThingItemKind>)
        ensures
            match r {
                Some(k) => kind_name(k) == s@,
                None => forall|k: ThingItemKind| #[trigger] kind_name(k) != s@,
            },
    {
        proof {
            reveal_strlit("boolean");
            reveal_strlit("number");
            reveal_strlit("string");
            reveal_strlit("object");
            reveal_strlit("const");
            reveal_strlit("list");
            reveal_strlit("map");
            reveal_strlit("generic");
            assert("boolean"@ =~= kind_name(ThingItemKind::Boolean));
            assert("number"@ =~= kind_name(ThingItemKind::Number));
            assert("string"@ =~= kind_name(ThingItemKind::String));
            assert("object"@ =~= kind_name(ThingItemKind::Object));
            assert("const"@ =~= kind_name(ThingItemKind::Const));
            assert("list"@ =~= kind_name(ThingItemKind::List));
            assert("map"@ =~= kind_name(ThingItemKind::MapKind));
            assert("generic"@ =~= kind_name(ThingItemKind::Generic));
        }
        if str_eq(s, "boolean") {
            Some(ThingItemKind::Boolean)
        } else if str_eq(s, "number") {
            Some(ThingItemKind::Number)
        } else if str_eq(s, "string") {
            Some(ThingItemKind::String)
        } else if str_eq(s, "object") {
            Some(ThingItemKind::Object)
        } else if str_eq(s, "const") {
            Some(ThingItemKind::Const)
        } else if str_eq(s, "list") {
            Some(ThingItemKind::List)
        } else if str_eq(s, "map") {
            Some(ThingItemKind::MapKind)
        } else if str_eq(s, "generic") {
            Some(ThingItemKind::Generic)
        } else {
            proof {
                assert forall|k: ThingItemKind| #[trigger] kind_name(k) != s@ by {
                    match k {
                        ThingItemKind::Boolean => {},
                        ThingItemKind::Number => {},
                        ThingItemKind::String => {},
                        ThingItemKind::Object => {},
                        ThingItemKind::Const => {},
                        ThingItemKind::List => {},
                        ThingItemKind::MapKind => {},
                        ThingItemKind::Generic => {},
                    }
                }
            }
            None
        }
    }
}

impl std::str::FromStr for ThingItemKind {
    type Err = UnknownKind;

    fn from_str(s: &str) -> (r: Result<Self, Self::Err>)
        ensures
            match r {
                Ok(k) => kind_name(k) == s@,
                Err(_) => forall|k: ThingItemKind| #[trigger] kind_name(k) != s@,
            },
    {
        match ThingItemKind::from_name(s) {
            Some(k) => Ok(k),
            None => Err(UnknownKind),
        }
    }
}

} // verus!

verus! {

/// What an item of a type definition stands for, as far as it is decided
/// before the registry builds types; its children (generic arguments) are
/// converted by the caller, and are named here by their index.
#[derive(Debug, Clone, PartialEq, Eq)]
pub enum ItemShape {
    Boolean,
    Number,
    String,
    /// An object of the type with this id, made generic over the children
    /// when there are some.
    Object { ident: EditorId },
    /// The constant given as the argument.
    Const,
    /// A list of the child named `Item`.
    ListOf { item: usize },
    /// A map from the child named `Key` to the child named `Item`.
    MapOf { key: usize, item: usize },
    /// The generic argument that the argument names.
    GenericArg,
}

/// Why an item of a type definition is refused.
#[derive(Debug, Clone, PartialEq, Eq)]
pub enum ItemError {
    /// No arguments were expected; this many were given.
    ExpectedNoArguments(usize),
    /// No children were expected; this many were given.
    ExpectedNoGenerics(usize),
    WrongArgumentCount { expected: usize, got: usize },
    /// The argument at this position is not an item id.
    NotAnId(usize),
    /// The argument is no valid item id.
    BadId(IdError),
    /// The argument at this position is not a generic type name.
    NotAGenericName(usize),
    /// The argument names a generic type that the object does not declare.
    UndefinedGeneric { name: String, position: usize },
    /// No child is named `Item`.
    MissingItem,
    /// No child is named `Key`.
    MissingKey,
}

/// The index of the last of `names` that is `n`.
pub open spec fn last_named(names: Seq<String>, n: Seq<char>) -> Option<int>
    decreases names.len(),
{
    if names.len() == 0 {
        None
    } else if names.last()@ == n {
        Some(names.len() - 1)
    } else {
        last_named(names.drop_last(), n)
    }
}

pub open spec fn item_name() -> Seq<char> {
    seq!['I', 't', 'e', 'm']
}

pub open spec fn key_name() -> Seq<char> {
    seq!['K', 'e', 'y']
}

/// What an item of kind `kind` with arguments `args`, children named
/// `names`, inside an object with generic arguments `gargs`, stands for:
/// plain types take neither arguments nor children; an object takes one
/// argument, an item id; a constant one argument; a list and a map no
/// argument, and the children named `Item` (and `Key`), the last of a name
/// counting; a generic argument one argument naming a declared generic.
pub open spec fn item_outcome(
    kind: ThingItemKind,
    args: Seq<ETypeConst>,
    names: Seq<String>,
    gargs: Seq<String>,
    r: Result<ItemShape, ItemError>,
) -> bool {
    let n_args = args.len() as usize;
    let plain = |s: ItemShape|
        if args.len() > 0 {
            r == Err::<ItemShape, ItemError>(ItemError::ExpectedNoArguments(n_args))
        } else if names.len() > 0 {
            r == Err::<ItemShape, ItemError>(ItemError::ExpectedNoGenerics(names.len() as usize))
        } else {
            r == Ok::<ItemShape, ItemError>(s)
        };
    let one_arg = args.len() == 1;
    let wrong = r == Err::<ItemShape, ItemError>(ItemError::WrongArgumentCount { expected: 1, got: n_args });
    match kind {
        ThingItemKind::Boolean => plain(ItemShape::Boolean),
        ThingItemKind::Number => plain(ItemShape::Number),
        ThingItemKind::String => plain(ItemShape::String),
        ThingItemKind::Object => if !one_arg {
            wrong
        } else {
            match args[0] {
                ETypeConst::String(t) => match editor_id_check(t@) {
                    Ok(()) => r matches Ok(ItemShape::Object { ident }) && ident.0@ == t@,
                    Err(e) => r == Err::<ItemShape, ItemError>(ItemError::BadId(e)),
                },
                _ => r == Err::<ItemShape, ItemError>(ItemError::NotAnId(0)),
            }
        },
        ThingItemKind::Const => if !one_arg {
            wrong
        } else {
            r == Ok::<ItemShape, ItemError>(ItemShape::Const)
        },
        ThingItemKind::List => if args.len() > 0 {
            r == Err::<ItemShape, ItemError>(ItemError::ExpectedNoArguments(n_args))
        } else {
            match last_named(names, item_name()) {
                None => r == Err::<ItemShape, ItemError>(ItemError::MissingItem),
                Some(i) => r == Ok::<ItemShape, ItemError>(ItemShape::ListOf { item: i as usize }),
            }
        },
        ThingItemKind::MapKind => if args.len() > 0 {
            r == Err::<ItemShape, ItemError>(ItemError::ExpectedNoArguments(n_args))
        } else {
            match (last_named(names, key_name()), last_named(names, item_name())) {
                (None, _) => r == Err::<ItemShape, ItemError>(ItemError::MissingKey),
                (Some(_), None) => r == Err::<ItemShape, ItemError>(ItemError::MissingItem),
                (Some(k), Some(i)) => r == Ok::<ItemShape, ItemError>(
                    ItemShape::MapOf { key: k as usize, item: i as usize },
                ),
            }
        },
        ThingItemKind::Generic => if !one_arg {
            wrong
        } else {
            match args[0] {
                ETypeConst::String(t) => if exists|j: int| 0 <= j < gargs.len() && (#[trigger] gargs[j])@ == t@ {
                    r == Ok::<ItemShape, ItemError>(ItemShape::GenericArg)
                } else {
                    r matches Err(ItemError::UndefinedGeneric { name, position }) && name@ == t@ && position == 0
                },
                _ => r == Err::<ItemShape, ItemError>(ItemError::NotAGenericName(0)),
            }
        },
    }
}

/// The index of the last of `names` that is `n`.
fn find_last_named(names: &Vec<String>, n: &str) -> (r: Option<usize>)
    ensures
        match last_named(names@, n@) {
            None => r is None,
            Some(i) => r == Some(i as usize),
        },
{
    let mut i = names.len();
    assert(names@.subrange(0, i as int) =~= names@);
    while i > 0
        invariant
            i <= names@.len(),
            last_named(names@, n@) == last_named(names@.subrange(0, i as int), n@),
        decreases i,
    {
        let ghost s = names@.subrange(0, i as int);
        assert(s.last() == names@[i - 1]);
        if str_eq(names[i - 1].as_str(), n) {
            return Some(i - 1);
        }
        assert(s.drop_last() =~= names@.subrange(0, i - 1));
        i = i - 1;
    }
    assert(names@.subrange(0, 0) =~= Seq::<String>::empty());
    None
}

/// Whether one of `names` is `n`.
fn contains_name(names: &Vec<String>, n: &str) -> (r: bool)
    ensures
        r == exists|j: int| 0 <= j < names@.len() && (#[trigger] names@[j])@ == n@,
{
    let mut i: usize = 0;
    while i < names.len()
        invariant
            i <= names@.len(),
            forall|j: int| 0 <= j < i ==> (#[trigger] names@[j])@ != n@,
        decreases names.len() - i,
    {
        if str_eq(names[i].as_str(), n) {
            return true;
        }
        i = i + 1;
    }
    false
}

/// Decides what an item of a type definition stands for
/// (`ThingItem::into_item`, but for what the registry builds): the kind's
/// rules on arguments and children, in the order they are checked.
pub fn item_type(kind: ThingItemKind, arguments: &Vec<ETypeConst>, generic_names: &Vec<String>, generic_arguments: &Vec<String>) -> (r: Result<ItemShape, ItemError>)
    ensures
        item_outcome(kind, arguments@, generic_names@, generic_arguments@, r),
{
    let n_args = arguments.len();
    let plain = match kind {
        ThingItemKind::Boolean => Some(ItemShape::Boolean),
        ThingItemKind::Number => Some(ItemShape::Number),
        ThingItemKind::String => Some(ItemShape::String),
        _ => None,
    };
    if let Some(s) = plain {
        if n_args > 0 {
            return Err(ItemError::ExpectedNoArguments(n_args));
        }
        if generic_names.len() > 0 {
            return Err(ItemError::ExpectedNoGenerics(generic_names.len()));
        }
        return Ok(s);
    }
    proof {
        reveal_strlit("Item");
        reveal_strlit("Key");
        assert("Item"@ =~= item_name());
        assert("Key"@ =~= key_name());
    }
    match kind {
        ThingItemKind::List | ThingItemKind::MapKind => {
            if n_args > 0 {
                return Err(ItemError::ExpectedNoArguments(n_args));
            }
            let key = find_last_named(generic_names, "Key");
            let item = find_last_named(generic_names, "Item");
            match kind {
                ThingItemKind::List => match item {
                    Some(i) => Ok(ItemShape::ListOf { item: i }),
                    None => Err(ItemError::MissingItem),
                },
                _ => match (key, item) {
                    (None, _) => Err(ItemError::MissingKey),
                    (Some(_), None) => Err(ItemError::MissingItem),
                    (Some(k), Some(i)) => Ok(ItemShape::MapOf { key: k, item: i }),
                },
            }
        },
        _ => {
            if n_args != 1 {
                return Err(ItemError::WrongArgumentCount { expected: 1, got: n_args });
            }
            match kind {
                ThingItemKind::Const => Ok(ItemShape::Const),
                ThingItemKind::Object => match &arguments[0] {
                    ETypeConst::String(t) => match EditorId::parse(t.as_str()) {
                        Ok(id) => Ok(ItemShape::Object { ident: id }),
                        Err(e) => Err(ItemError::BadId(e)),
                    },
                    _ => Err(ItemError::NotAnId(0)),
                },
                _ => match &arguments[0] {
                    ETypeConst::String(t) => {
                        if contains_name(generic_arguments, t.as_str()) {
                            Ok(ItemShape::GenericArg)
                        } else {
                            Err(ItemError::UndefinedGeneric { name: t.clone(), position: 0 })
                        }
                    },
                    _ => Err(ItemError::NotAGenericName(0)),
                },
            }
        },
    }
}

} // verus!
