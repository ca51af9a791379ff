use dbe_backend::docs::{
    Docs, DocsContent, DocsError, DocsField, DocsFile, DocsRef, DocsWindowRef, FieldDocs,
    NodeDocs, NodeIODocs, TypeDocs, TypeKey, VariantDocs,
};
use dbe_backend::text::trim;

fn s(x: &str) -> String {
    x.to_string()
}

fn io(title: &str, id: &str, description: &str) -> NodeIODocs {
    NodeIODocs {
        title: s(title),
        id: s(id),
        description: s(description),
        docs: s(""),
    }
}

fn node(title: &str) -> NodeDocs {
    NodeDocs {
        title: s(title),
        description: s(" adds numbers "),
        docs: s("\n long text \n"),
        inputs: vec![io(" A ", "a", "first"), io("B", "b", "second")],
        outputs: vec![io("Sum", "sum", "the sum")],
    }
}

fn ty() -> TypeDocs {
    TypeDocs {
        description: s("a point"),
        docs: s(""),
        fields: vec![FieldDocs {
            id: s("x"),
            description: s(" the x "),
            docs: s(""),
        }],
        variants: vec![VariantDocs {
            id: s("v"),
            description: s("variant"),
            docs: s(""),
        }],
    }
}

fn node_file(name: &str, n: NodeDocs) -> DocsFile {
    DocsFile {
        nodes: vec![(s(name), n)],
        types: vec![],
    }
}

fn type_file(name: &str, t: TypeDocs) -> DocsFile {
    DocsFile {
        nodes: vec![],
        types: vec![(s(name), t)],
    }
}

#[test]
fn trim_removes_unicode_white_space() {
    assert_eq!(trim("  a b \t\n"), "a b");
    assert_eq!(trim("\u{3000}x\u{a0}"), "x");
    assert_eq!(trim(" \n "), "");
    assert_eq!(trim("abc"), "abc");
}

#[test]
fn added_node_is_trimmed_and_found() {
    let mut docs = Docs::Docs(DocsContent::new());
    assert_eq!(docs.add_file(node_file("add", node(" Add ")), s("m/add.docs.toml")), Ok(()));
    let d = docs.get_node("add").unwrap();
    assert_eq!(d.title, "Add");
    assert_eq!(d.description, "adds numbers");
    assert_eq!(d.docs, "long text");
    assert_eq!(d.inputs[0].title, "A");
    assert!(docs.get_node("other").is_none());
    let all = docs.all_nodes();
    assert_eq!(all.len(), 1);
    assert_eq!(all[0].0, "add");
}

#[test]
fn second_documentation_of_a_node_is_refused() {
    let mut docs = Docs::Docs(DocsContent::new());
    assert_eq!(docs.add_file(node_file("add", node("Add")), s("first.docs.toml")), Ok(()));
    assert_eq!(
        docs.add_file(node_file("add", node("Add again")), s("second.docs.toml")),
        Err(DocsError::NodeAlreadyDocumented {
            name: s("add"),
            location: s("first.docs.toml"),
        })
    );
    assert_eq!(docs.get_node("add").unwrap().title, "Add");
}

#[test]
fn file_counts_are_checked() {
    let mut docs = Docs::Docs(DocsContent::new());
    let empty = DocsFile {
        nodes: vec![],
        types: vec![],
    };
    assert_eq!(docs.add_file(empty, s("e")), Ok(()));
    let two_nodes = DocsFile {
        nodes: vec![(s("a"), node("A")), (s("b"), node("B"))],
        types: vec![],
    };
    assert_eq!(docs.add_file(two_nodes, s("f")), Err(DocsError::MultipleNodes));
    let two_types = DocsFile {
        nodes: vec![],
        types: vec![(s("a"), ty()), (s("b"), ty())],
    };
    assert_eq!(docs.add_file(two_types, s("f")), Err(DocsError::MultipleTypes));
    let mixed = DocsFile {
        nodes: vec![(s("a"), node("A"))],
        types: vec![(s("b"), ty())],
    };
    assert_eq!(docs.add_file(mixed, s("f")), Err(DocsError::MixedFile));
    assert!(docs.get_node("a").is_none());
}

#[test]
fn empty_fields_are_refused() {
    let mut docs = Docs::Docs(DocsContent::new());
    assert_eq!(
        docs.add_file(node_file("n", node("   ")), s("f")),
        Err(DocsError::EmptyField(DocsField::Title))
    );
    let mut n = node("N");
    n.inputs[1].id = s(" ");
    assert_eq!(
        docs.add_file(node_file("n", n), s("f")),
        Err(DocsError::EmptyField(DocsField::InputId))
    );
    let mut n = node("N");
    n.outputs[0].title = s("");
    assert_eq!(
        docs.add_file(node_file("n", n), s("f")),
        Err(DocsError::EmptyField(DocsField::OutputTitle))
    );
    let mut t = ty();
    t.fields[0].description = s("\t");
    assert_eq!(
        docs.add_file(type_file("t", t), s("f")),
        Err(DocsError::EmptyField(DocsField::Description))
    );
    let mut t = ty();
    t.variants[0].id = s("");
    assert_eq!(
        docs.add_file(type_file("t", t), s("f")),
        Err(DocsError::EmptyField(DocsField::VariantId))
    );
    assert!(docs.get_node("n").is_none());
}

#[test]
fn validate_trims_in_place() {
    let mut f = DocsFile {
        nodes: vec![(s("n"), node(" N "))],
        types: vec![(s("t"), ty())],
    };
    assert_eq!(f.validate(), Ok(()));
    assert_eq!(f.nodes[0].1.title, "N");
    assert_eq!(f.types[0].1.fields[0].description, "the x");
}

#[test]
fn types_are_found_by_generic_form() {
    let mut docs = Docs::Docs(DocsContent::new());
    assert_eq!(docs.add_file(type_file("m:point", ty()), s("p.docs.toml")), Ok(()));
    let exact = TypeKey {
        id: s("m:point"),
        without_generics: s("m:point"),
    };
    let generic = TypeKey {
        id: s("m:point<number>"),
        without_generics: s("m:point"),
    };
    let other = TypeKey {
        id: s("m:line"),
        without_generics: s("m:line"),
    };
    assert!(docs.get_type(&exact).is_some());
    assert!(docs.get_type(&generic).is_some());
    assert!(docs.get_type(&other).is_none());
    assert!(DocsWindowRef::Type(generic).has_docs(&docs));
    assert_eq!(
        DocsWindowRef::Type(exact).description(&docs),
        Some("a point")
    );
    assert!(!DocsWindowRef::Node(s("add")).has_docs(&docs));
}

#[test]
fn docs_refs_find_descriptions_and_titles() {
    let mut docs = Docs::Docs(DocsContent::new());
    assert_eq!(docs.add_file(node_file("add", node("Add")), s("f")), Ok(()));
    assert_eq!(docs.add_file(type_file("m:point", ty()), s("g")), Ok(()));
    let input = DocsRef::NodeInput(s("add"), s("a"));
    assert!(input.has_field_structure());
    assert_eq!(input.get_description(&docs), Some("first"));
    assert_eq!(input.get_field_title(&docs), "A");
    let missing = DocsRef::NodeOutput(s("add"), s("nope"));
    assert_eq!(missing.get_description(&docs), None);
    assert_eq!(missing.get_field_title(&docs), "nope");
    let field = DocsRef::TypeField(
        TypeKey {
            id: s("m:point"),
            without_generics: s("m:point"),
        },
        s("x"),
    );
    assert_eq!(field.get_description(&docs), Some("the x"));
    assert_eq!(field.get_field_title(&docs), "x");
    assert!(matches!(input.as_window_ref(), Some(DocsWindowRef::Node(n)) if n == "add"));
    assert!(!DocsRef::Custom(s("text")).has_field_structure());
    assert!(DocsRef::Nothing.as_window_ref().is_none());
}

#[test]
fn stub_docs_have_nothing() {
    let docs = Docs::Stub;
    assert!(docs.get_node("add").is_none());
    assert!(docs.all_nodes().is_empty());
    assert!(docs.all_types().is_empty());
}

#[test]
fn second_documentation_of_a_type_is_refused() {
    let mut docs = Docs::Docs(DocsContent::new());
    assert_eq!(docs.add_file(type_file("m:point", ty()), s("a.docs.toml")), Ok(()));
    assert_eq!(
        docs.add_file(type_file("m:point", ty()), s("b.docs.toml")),
        Err(DocsError::TypeAlreadyDocumented {
            name: s("m:point"),
            location: s("a.docs.toml"),
        })
    );
    assert_eq!(docs.all_types().len(), 1);
}
