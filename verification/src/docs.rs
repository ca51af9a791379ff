//! Documentation of nodes and types: the files that hold it, their checks,
//! and the collection that answers lookups.
use vstd::prelude::*;
use crate::assoc::{keys_distinct, lemma_lookup_index, lemma_lookup_push, lemma_lookup_skip, lookup, position};
use crate::text::{str_eq, trim, trimmed};

verus! {

/// A text field of documentation that may not be empty.
#[derive(Debug, Clone, Copy, PartialEq, Eq)]
pub enum DocsField {
    Title,
    Description,
    InputTitle,
    InputId,
    OutputTitle,
    OutputId,
    FieldId,
    VariantId,
}

/// Why a documentation file was refused.
#[derive(Debug, Clone, PartialEq, Eq)]
pub enum DocsError {
    /// The field is empty once trimmed.
    EmptyField(DocsField),
    /// A file documents more than one node.
    MultipleNodes,
    /// A file documents more than one type.
    MultipleTypes,
    /// A file documents several nodes and types together.
    MixedFile,
    /// The node is documented already, in the file at `location`.
    NodeAlreadyDocumented { name: String, location: String },
    /// The type is documented already, in the file at `location`.
    TypeAlreadyDocumented { name: String, location: String },
}

pub struct NodeDocs {
    pub title: String,
    pub description: String,
    pub docs: String,
    pub inputs: Vec<NodeIODocs>,
    pub outputs: Vec<NodeIODocs>,
}

pub struct NodeIODocs {
    pub title: String,
    pub id: String,
    pub description: String,
    pub docs: String,
}

pub struct TypeDocs {
    pub description: String,
    pub docs: String,
    pub fields: Vec<FieldDocs>,
    pub variants: Vec<VariantDocs>,
}

pub struct FieldDocs {
    pub id: String,
    pub description: String,
    pub docs: String,
}

pub struct VariantDocs {
    pub id: String,
    pub description: String,
    pub docs: String,
}

/// Documentation that has a description and longer docs.
pub trait DocsDescription {
    spec fn description_text(&self) -> Seq<char>;

    spec fn docs_text(&self) -> Seq<char>;

    fn description(&self) -> (r: &str)
        ensures
            r@ == self.description_text(),
    ;

    fn docs(&self) -> (r: &str)
        ensures
            r@ == self.docs_text(),
    ;
}

/// Documentation that has a title.
pub trait DocsTitled {
    fn title(&self) -> &str;
}

impl DocsDescription for NodeDocs {
    open spec fn description_text(&self) -> Seq<char> {
        self.description@
    }

    open spec fn docs_text(&self) -> Seq<char> {
        self.docs@
    }

    fn description(&self) -> (r: &str) {
        self.description.as_str()
    }

    fn docs(&self) -> (r: &str) {
        self.docs.as_str()
    }
}

impl DocsDescription for NodeIODocs {
    open spec fn description_text(&self) -> Seq<char> {
        self.description@
    }

    open spec fn docs_text(&self) -> Seq<char> {
        self.docs@
    }

    fn description(&self) -> (r: &str) {
        self.description.as_str()
    }

    fn docs(&self) -> (r: &str) {
        self.docs.as_str()
    }
}

impl DocsDescription for TypeDocs {
    open spec fn description_text(&self) -> Seq<char> {
        self.description@
    }

    open spec fn docs_text(&self) -> Seq<char> {
        self.docs@
    }

    fn description(&self) -> (r: &str) {
        self.description.as_str()
    }

    fn docs(&self) -> (r: &str) {
        self.docs.as_str()
    }
}

impl DocsDescription for FieldDocs {
    open spec fn description_text(&self) -> Seq<char> {
        self.description@
    }

    open spec fn docs_text(&self) -> Seq<char> {
        self.docs@
    }

    fn description(&self) -> (r: &str) {
        self.description.as_str()
    }

    fn docs(&self) -> (r: &str) {
        self.docs.as_str()
    }
}

impl DocsDescription for VariantDocs {
    open spec fn description_text(&self) -> Seq<char> {
        self.description@
    }

    open spec fn docs_text(&self) -> Seq<char> {
        self.docs@
    }

    fn description(&self) -> (r: &str) {
        self.description.as_str()
    }

    fn docs(&self) -> (r: &str) {
        self.docs.as_str()
    }
}

/// Trims `s` in place; an empty result is refused as field `f`.
fn validate_nonempty(s: &mut String, f: DocsField) -> (r: Result<(), DocsError>)
    ensures
        final(s)@ == trimmed(old(s)@),
        r == (if trimmed(old(s)@).len() == 0 {
            Err::<(), DocsError>(DocsError::EmptyField(f))
        } else {
            Ok(())
        }),
{
    *s = trim(s.as_str());
    if s.as_str().unicode_len() == 0 {
        return Err(DocsError::EmptyField(f));
    }
    Ok(())
}


/// The result of a check that may fail as field `f`.
pub open spec fn check(f: Option<DocsField>) -> Result<(), DocsError> {
    match f {
        Some(f) => Err(DocsError::EmptyField(f)),
        None => Ok(()),
    }
}

/// The first of two checks that fails.
pub open spec fn first_of(a: Option<DocsField>, b: Option<DocsField>) -> Option<DocsField> {
    if a is Some {
        a
    } else {
        b
    }
}

/// Field `f` fails if `s` is empty once trimmed.
pub open spec fn nonempty(s: Seq<char>, f: DocsField) -> Option<DocsField> {
    if trimmed(s).len() == 0 {
        Some(f)
    } else {
        None
    }
}

/// `b` holds `a`'s text trimmed.
pub open spec fn text_trimmed(a: String, b: String) -> bool {
    b@ == trimmed(a@)
}

/// `b` holds `a`'s text, trimmed or not.
pub open spec fn text_partly(a: String, b: String) -> bool {
    b@ == a@ || b@ == trimmed(a@)
}

/// The first failing check of an input or output.
pub open spec fn io_failure(d: NodeIODocs, title: DocsField, id: DocsField) -> Option<DocsField> {
    first_of(
        nonempty(d.title@, title),
        first_of(nonempty(d.id@, id), nonempty(d.description@, DocsField::Description)),
    )
}

pub open spec fn io_trimmed(a: NodeIODocs, b: NodeIODocs) -> bool {
    &&& text_trimmed(a.title, b.title)
    &&& text_trimmed(a.id, b.id)
    &&& text_trimmed(a.description, b.description)
    &&& text_trimmed(a.docs, b.docs)
}

pub open spec fn io_partly(a: NodeIODocs, b: NodeIODocs) -> bool {
    &&& text_partly(a.title, b.title)
    &&& text_partly(a.id, b.id)
    &&& text_partly(a.description, b.description)
    &&& text_partly(a.docs, b.docs)
}

/// The first failing check of a list of inputs or outputs.
pub open spec fn ios_failure(v: Seq<NodeIODocs>, title: DocsField, id: DocsField) -> Option<DocsField>
    decreases v.len(),
{
    if v.len() == 0 {
        None
    } else {
        first_of(io_failure(v[0], title, id), ios_failure(v.drop_first(), title, id))
    }
}

fn validate_io(d: &mut NodeIODocs, title: DocsField, id: DocsField) -> (r: Result<(), DocsError>)
    ensures
        r == check(io_failure(*old(d), title, id)),
        r is Ok ==> io_trimmed(*old(d), *final(d)),
        io_partly(*old(d), *final(d)),
{
    validate_nonempty(&mut d.title, title)?;
    validate_nonempty(&mut d.id, id)?;
    validate_nonempty(&mut d.description, DocsField::Description)?;
    d.docs = trim(d.docs.as_str());
    Ok(())
}

proof fn lemma_ios_failure_step(v: Seq<NodeIODocs>, i: int, title: DocsField, id: DocsField)
    requires
        0 <= i < v.len(),
        forall|j: int| 0 <= j < i ==> io_failure(#[trigger] v[j], title, id) is None,
    ensures
        ios_failure(v, title, id) == first_of(io_failure(v[i], title, id), ios_failure(v.subrange(i + 1, v.len() as int), title, id)),
    decreases i,
{
    let t = v.drop_first();
    if i > 0 {
        assert forall|j: int| 0 <= j < i - 1 implies io_failure(#[trigger] t[j], title, id) is None by {
            assert(t[j] == v[j + 1]);
        }
        lemma_ios_failure_step(t, i - 1, title, id);
        assert(t.subrange(i, t.len() as int) =~= v.subrange(i + 1, v.len() as int));
        assert(io_failure(v[0], title, id) is None);
    } else {
        assert(t =~= v.subrange(1, v.len() as int));
    }
}

fn validate_ios(v: &mut Vec<NodeIODocs>, title: DocsField, id: DocsField) -> (r: Result<(), DocsError>)
    ensures
        r == check(ios_failure(old(v)@, title, id)),
        final(v)@.len() == old(v)@.len(),
        r is Ok ==> forall|j: int| 0 <= j < old(v)@.len() ==> io_trimmed(#[trigger] old(v)@[j], final(v)@[j]),
        forall|j: int| 0 <= j < old(v)@.len() ==> io_partly(#[trigger] old(v)@[j], final(v)@[j]),
{
    let mut i: usize = 0;
    while i < v.len()
        invariant
            i <= v@.len(),
            v@.len() == old(v)@.len(),
            forall|j: int| 0 <= j < i ==> io_failure(#[trigger] old(v)@[j], title, id) is None,
            forall|j: int| 0 <= j < i ==> io_trimmed(#[trigger] old(v)@[j], v@[j]),
            forall|j: int| i <= j < v@.len() ==> #[trigger] v@[j] == old(v)@[j],
            forall|j: int| 0 <= j < v@.len() ==> io_partly(#[trigger] old(v)@[j], v@[j]),
        decreases v.len() - i,
    {
        proof {
            lemma_ios_failure_step(old(v)@, i as int, title, id);
        }
        let res = validate_io(&mut v[i], title, id);
        if res.is_err() {
            return res;
        }
        i = i + 1;
    }
    proof {
        assert(ios_failure(old(v)@, title, id) is None) by {
            if old(v)@.len() > 0 {
                lemma_ios_failure_step(old(v)@, old(v)@.len() - 1, title, id);
                assert(old(v)@.subrange(old(v)@.len() as int, old(v)@.len() as int) =~= Seq::<NodeIODocs>::empty());
            }
        }
    }
    Ok(())
}

/// Documentation whose text fields are checked and trimmed.
pub trait CheckedDocs: Sized {
    /// The first check that fails, if any.
    spec fn failure(&self) -> Option<DocsField>;

    /// `self` is `old` with every text field trimmed.
    spec fn trimmed_from(&self, old: &Self) -> bool;

    /// `self` is `old` with some text fields trimmed.
    spec fn partly_from(&self, old: &Self) -> bool;

    /// Leaving every field as it is trims some of them.
    proof fn lemma_partly_refl(&self)
        ensures
            self.partly_from(self),
    ;

    /// Trims every text field, refusing the first that may not be empty
    /// and is.
    fn validate(&mut self) -> (r: Result<(), DocsError>)
        ensures
            r == check(old(self).failure()),
            r is Ok ==> final(self).trimmed_from(&*old(self)),
            final(self).partly_from(&*old(self)),
    ;
}

/// The first failing check of a list.
pub open spec fn list_failure<T: CheckedDocs>(v: Seq<T>) -> Option<DocsField>
    decreases v.len(),
{
    if v.len() == 0 {
        None
    } else {
        first_of(v[0].failure(), list_failure(v.drop_first()))
    }
}

/// The first failing check of a list of named entries.
pub open spec fn named_failure<T: CheckedDocs>(v: Seq<(String, T)>) -> Option<DocsField>
    decreases v.len(),
{
    if v.len() == 0 {
        None
    } else {
        first_of(v[0].1.failure(), named_failure(v.drop_first()))
    }
}

/// Each entry of `b` is the entry of `a` trimmed.
pub open spec fn list_trimmed<T: CheckedDocs>(a: Seq<T>, b: Seq<T>) -> bool {
    &&& b.len() == a.len()
    &&& forall|j: int| 0 <= j < a.len() ==> (#[trigger] b[j]).trimmed_from(&a[j])
}

pub open spec fn list_partly<T: CheckedDocs>(a: Seq<T>, b: Seq<T>) -> bool {
    &&& b.len() == a.len()
    &&& forall|j: int| 0 <= j < a.len() ==> (#[trigger] b[j]).partly_from(&a[j])
}

pub open spec fn named_trimmed<T: CheckedDocs>(a: Seq<(String, T)>, b: Seq<(String, T)>) -> bool {
    &&& b.len() == a.len()
    &&& forall|j: int| 0 <= j < a.len() ==> (#[trigger] b[j]).0 == a[j].0 && b[j].1.trimmed_from(&a[j].1)
}

pub open spec fn named_partly<T: CheckedDocs>(a: Seq<(String, T)>, b: Seq<(String, T)>) -> bool {
    &&& b.len() == a.len()
    &&& forall|j: int| 0 <= j < a.len() ==> (#[trigger] b[j]).0 == a[j].0 && b[j].1.partly_from(&a[j].1)
}

proof fn lemma_list_failure_step<T: CheckedDocs>(v: Seq<T>, i: int)
    requires
        0 <= i <= v.len(),
        forall|j: int| 0 <= j < i ==> (#[trigger] v[j]).failure() is None,
    ensures
        list_failure(v) == list_failure(v.subrange(i, v.len() as int)),
    decreases i,
{
    let t = v.drop_first();
    if i > 0 {
        assert forall|j: int| 0 <= j < i - 1 implies (#[trigger] t[j]).failure() is None by {
            assert(t[j] == v[j + 1]);
        }
        lemma_list_failure_step(t, i - 1);
        assert(t.subrange(i - 1, t.len() as int) =~= v.subrange(i, v.len() as int));
    } else {
        assert(v.subrange(0, v.len() as int) =~= v);
    }
}

proof fn lemma_named_failure_step<T: CheckedDocs>(v: Seq<(String, T)>, i: int)
    requires
        0 <= i <= v.len(),
        forall|j: int| 0 <= j < i ==> (#[trigger] v[j]).1.failure() is None,
    ensures
        named_failure(v) == named_failure(v.subrange(i, v.len() as int)),
    decreases i,
{
    let t = v.drop_first();
    if i > 0 {
        assert forall|j: int| 0 <= j < i - 1 implies (#[trigger] t[j]).1.failure() is None by {
            assert(t[j] == v[j + 1]);
        }
        lemma_named_failure_step(t, i - 1);
        assert(t.subrange(i - 1, t.len() as int) =~= v.subrange(i, v.len() as int));
    } else {
        assert(v.subrange(0, v.len() as int) =~= v);
    }
}

fn validate_list<T: CheckedDocs>(v: &mut Vec<T>) -> (r: Result<(), DocsError>)
    ensures
        r == check(list_failure(old(v)@)),
        r is Ok ==> list_trimmed(old(v)@, final(v)@),
        list_partly(old(v)@, final(v)@),
{
    proof {
        assert forall|j: int| 0 <= j < v@.len() implies (#[trigger] v@[j]).partly_from(&old(v)@[j]) by {
            v@[j].lemma_partly_refl();
        }
    }
    let mut i: usize = 0;
    while i < v.len()
        invariant
            i <= v@.len(),
            v@.len() == old(v)@.len(),
            forall|j: int| 0 <= j < i ==> (#[trigger] old(v)@[j]).failure() is None,
            forall|j: int| 0 <= j < i ==> (#[trigger] v@[j]).trimmed_from(&old(v)@[j]),
            forall|j: int| i <= j < v@.len() ==> #[trigger] v@[j] == old(v)@[j],
            forall|j: int| 0 <= j < v@.len() ==> (#[trigger] v@[j]).partly_from(&old(v)@[j]),
        decreases v.len() - i,
    {
        proof {
            lemma_list_failure_step(old(v)@, i as int);
            let rest = old(v)@.subrange(i as int, old(v)@.len() as int);
            assert(rest.drop_first() =~= old(v)@.subrange(i + 1, old(v)@.len() as int));
            assert(rest[0] == old(v)@[i as int]);
        }
        let res = v[i].validate();
        if res.is_err() {
            return res;
        }
        i = i + 1;
    }
    proof {
        lemma_list_failure_step(old(v)@, old(v)@.len() as int);
        assert(old(v)@.subrange(old(v)@.len() as int, old(v)@.len() as int) =~= Seq::<T>::empty());
    }
    Ok(())
}

fn validate_named<T: CheckedDocs>(v: &mut Vec<(String, T)>) -> (r: Result<(), DocsError>)
    ensures
        r == check(named_failure(old(v)@)),
        r is Ok ==> named_trimmed(old(v)@, final(v)@),
        named_partly(old(v)@, final(v)@),
{
    proof {
        assert forall|j: int| 0 <= j < v@.len() implies (#[trigger] v@[j]).0 == old(v)@[j].0 && v@[j].1.partly_from(
            &old(v)@[j].1,
        ) by {
            v@[j].1.lemma_partly_refl();
        }
    }
    let mut i: usize = 0;
    while i < v.len()
        invariant
            i <= v@.len(),
            v@.len() == old(v)@.len(),
            forall|j: int| 0 <= j < i ==> (#[trigger] old(v)@[j]).1.failure() is None,
            forall|j: int| 0 <= j < i ==> (#[trigger] v@[j]).0 == old(v)@[j].0 && v@[j].1.trimmed_from(&old(v)@[j].1),
            forall|j: int| i <= j < v@.len() ==> #[trigger] v@[j] == old(v)@[j],
            forall|j: int| 0 <= j < v@.len() ==> (#[trigger] v@[j]).0 == old(v)@[j].0 && v@[j].1.partly_from(&old(v)@[j].1),
        decreases v.len() - i,
    {
        proof {
            lemma_named_failure_step(old(v)@, i as int);
            let rest = old(v)@.subrange(i as int, old(v)@.len() as int);
            assert(rest.drop_first() =~= old(v)@.subrange(i + 1, old(v)@.len() as int));
            assert(rest[0] == old(v)@[i as int]);
        }
        let res = v[i].1.validate();
        if res.is_err() {
            return res;
        }
        i = i + 1;
    }
    proof {
        lemma_named_failure_step(old(v)@, old(v)@.len() as int);
        assert(old(v)@.subrange(old(v)@.len() as int, old(v)@.len() as int) =~= Seq::<(String, T)>::empty());
    }
    Ok(())
}

impl CheckedDocs for FieldDocs {
    open spec fn failure(&self) -> Option<DocsField> {
        first_of(nonempty(self.id@, DocsField::FieldId), nonempty(self.description@, DocsField::Description))
    }

    open spec fn trimmed_from(&self, old: &Self) -> bool {
        text_trimmed(old.id, self.id) && text_trimmed(old.description, self.description) && text_trimmed(
            old.docs,
            self.docs,
        )
    }

    open spec fn partly_from(&self, old: &Self) -> bool {
        text_partly(old.id, self.id) && text_partly(old.description, self.description) && text_partly(
            old.docs,
            self.docs,
        )
    }

    proof fn lemma_partly_refl(&self) {
    }

    fn validate(&mut self) -> (r: Result<(), DocsError>) {
        validate_nonempty(&mut self.id, DocsField::FieldId)?;
        validate_nonempty(&mut self.description, DocsField::Description)?;
        self.docs = trim(self.docs.as_str());
        Ok(())
    }
}

impl CheckedDocs for VariantDocs {
    open spec fn failure(&self) -> Option<DocsField> {
        first_of(nonempty(self.id@, DocsField::VariantId), nonempty(self.description@, DocsField::Description))
    }

    open spec fn trimmed_from(&self, old: &Self) -> bool {
        text_trimmed(old.id, self.id) && text_trimmed(old.description, self.description) && text_trimmed(
            old.docs,
            self.docs,
        )
    }

    open spec fn partly_from(&self, old: &Self) -> bool {
        text_partly(old.id, self.id) && text_partly(old.description, self.description) && text_partly(
            old.docs,
            self.docs,
        )
    }

    proof fn lemma_partly_refl(&self) {
    }

    fn validate(&mut self) -> (r: Result<(), DocsError>) {
        validate_nonempty(&mut self.id, DocsField::VariantId)?;
        validate_nonempty(&mut self.description, DocsField::Description)?;
        self.docs = trim(self.docs.as_str());
        Ok(())
    }
}

impl CheckedDocs for NodeDocs {
    open spec fn failure(&self) -> Option<DocsField> {
        first_of(
            nonempty(self.title@, DocsField::Title),
            first_of(
                nonempty(self.description@, DocsField::Description),
                first_of(
                    ios_failure(self.inputs@, DocsField::InputTitle, DocsField::InputId),
                    ios_failure(self.outputs@, DocsField::OutputTitle, DocsField::OutputId),
                ),
            ),
        )
    }

    open spec fn trimmed_from(&self, old: &Self) -> bool {
        &&& text_trimmed(old.title, self.title)
        &&& text_trimmed(old.description, self.description)
        &&& text_trimmed(old.docs, self.docs)
        &&& self.inputs@.len() == old.inputs@.len()
        &&& forall|j: int| 0 <= j < old.inputs@.len() ==> io_trimmed(#[trigger] old.inputs@[j], self.inputs@[j])
        &&& self.outputs@.len() == old.outputs@.len()
        &&& forall|j: int| 0 <= j < old.outputs@.len() ==> io_trimmed(#[trigger] old.outputs@[j], self.outputs@[j])
    }

    open spec fn partly_from(&self, old: &Self) -> bool {
        &&& text_partly(old.title, self.title)
        &&& text_partly(old.description, self.description)
        &&& text_partly(old.docs, self.docs)
        &&& self.inputs@.len() == old.inputs@.len()
        &&& forall|j: int| 0 <= j < old.inputs@.len() ==> io_partly(#[trigger] old.inputs@[j], self.inputs@[j])
        &&& self.outputs@.len() == old.outputs@.len()
        &&& forall|j: int| 0 <= j < old.outputs@.len() ==> io_partly(#[trigger] old.outputs@[j], self.outputs@[j])
    }

    proof fn lemma_partly_refl(&self) {
    }

    fn validate(&mut self) -> (r: Result<(), DocsError>) {
        validate_nonempty(&mut self.title, DocsField::Title)?;
        validate_nonempty(&mut self.description, DocsField::Description)?;
        self.docs = trim(self.docs.as_str());
        validate_ios(&mut self.inputs, DocsField::InputTitle, DocsField::InputId)?;
        validate_ios(&mut self.outputs, DocsField::OutputTitle, DocsField::OutputId)?;
        Ok(())
    }
}

impl CheckedDocs for TypeDocs {
    open spec fn failure(&self) -> Option<DocsField> {
        first_of(
            nonempty(self.description@, DocsField::Description),
            first_of(list_failure(self.fields@), list_failure(self.variants@)),
        )
    }

    open spec fn trimmed_from(&self, old: &Self) -> bool {
        &&& text_trimmed(old.description, self.description)
        &&& text_trimmed(old.docs, self.docs)
        &&& list_trimmed(old.fields@, self.fields@)
        &&& list_trimmed(old.variants@, self.variants@)
    }

    open spec fn partly_from(&self, old: &Self) -> bool {
        &&& text_partly(old.description, self.description)
        &&& text_partly(old.docs, self.docs)
        &&& list_partly(old.fields@, self.fields@)
        &&& list_partly(old.variants@, self.variants@)
    }

    proof fn lemma_partly_refl(&self) {
    }

    fn validate(&mut self) -> (r: Result<(), DocsError>) {
        validate_nonempty(&mut self.description, DocsField::Description)?;
        self.docs = trim(self.docs.as_str());
        validate_list(&mut self.fields)?;
        validate_list(&mut self.variants)?;
        Ok(())
    }
}
} // verus!

verus! {

/// A documentation file: nodes and types, each under its name.
pub struct DocsFile {
    pub nodes: Vec<(String, NodeDocs)>,
    pub types: Vec<(String, TypeDocs)>,
}

impl DocsFile {
    /// Checks and trims every text field; the first field that may not be
    /// empty and is refuses the file.
    pub fn validate(&mut self) -> (r: Result<(), DocsError>)
        ensures
            r == check(first_of(named_failure(old(self).nodes@), named_failure(old(self).types@))),
            r is Ok ==> named_trimmed(old(self).nodes@, final(self).nodes@) && named_trimmed(
                old(self).types@,
                final(self).types@,
            ),
            named_partly(old(self).nodes@, final(self).nodes@),
            named_partly(old(self).types@, final(self).types@),
    {
        proof {
            assert forall|j: int| 0 <= j < self.types@.len() implies (#[trigger] self.types@[j]).0 == old(self).types@[j].0
                && self.types@[j].1.partly_from(&old(self).types@[j].1) by {
                self.types@[j].1.lemma_partly_refl();
            }
        }
        validate_named(&mut self.nodes)?;
        validate_named(&mut self.types)?;
        Ok(())
    }
}

/// Documentation and the file it came from.
pub struct WithLocation<T> {
    pub value: T,
    pub location: String,
}

pub struct DocsContent {
    nodes: Vec<(String, WithLocation<NodeDocs>)>,
    types: Vec<(String, WithLocation<TypeDocs>)>,
}

impl DocsContent {
    /// Docs with nothing documented.
    pub fn new() -> (r: Self)
        ensures
            r.wf(),
            forall|k: Seq<char>| #[trigger] r.node(k) is None,
            forall|k: Seq<char>| #[trigger] r.type_docs(k) is None,
    {
        DocsContent { nodes: Vec::new(), types: Vec::new() }
    }

    /// The documentation of node `k`.
    pub closed spec fn node(&self, k: Seq<char>) -> Option<WithLocation<NodeDocs>> {
        lookup(self.nodes@, k)
    }

    /// The documentation of type `k`.
    pub closed spec fn type_docs(&self, k: Seq<char>) -> Option<WithLocation<TypeDocs>> {
        lookup(self.types@, k)
    }

    /// The number of documented nodes and types.
    pub closed spec fn counts(&self) -> (nat, nat) {
        (self.nodes@.len(), self.types@.len())
    }

    /// Each node and each type is documented once.
    pub closed spec fn wf(&self) -> bool {
        keys_distinct(self.nodes@) && keys_distinct(self.types@)
    }
}

/// Documentation of a project, or a stand-in for when it is not available
/// yet.
pub enum Docs {
    Docs(DocsContent),
    Stub,
}

impl Docs {
    /// Whether `self` holds documentation and each node and type is
    /// documented once.
    pub open spec fn wf(&self) -> bool {
        match self {
            Docs::Docs(d) => d.wf(),
            Docs::Stub => true,
        }
    }

    /// The documentation of node `k`; a stand-in has none.
    pub open spec fn node(&self, k: Seq<char>) -> Option<WithLocation<NodeDocs>> {
        match self {
            Docs::Docs(d) => d.node(k),
            Docs::Stub => None,
        }
    }

    /// The documentation of type `k`; a stand-in has none.
    pub open spec fn type_docs(&self, k: Seq<char>) -> Option<WithLocation<TypeDocs>> {
        match self {
            Docs::Docs(d) => d.type_docs(k),
            Docs::Stub => None,
        }
    }
}

/// What adding a file of `n` node and `t` type entries is refused with
/// before its fields are checked.
pub open spec fn count_error(n: nat, t: nat) -> Option<DocsError> {
    if (n == 0 && t == 0) || (n == 1 && t == 0) || (n == 0 && t == 1) {
        None
    } else if t == 0 {
        Some(DocsError::MultipleNodes)
    } else if n == 0 {
        Some(DocsError::MultipleTypes)
    } else {
        Some(DocsError::MixedFile)
    }
}

/// `d1` documents the same nodes and types as `d0`.
pub open spec fn same_docs(d0: Docs, d1: Docs) -> bool {
    &&& forall|k: Seq<char>| #[trigger] d1.node(k) == d0.node(k)
    &&& forall|k: Seq<char>| #[trigger] d1.type_docs(k) == d0.type_docs(k)
}

/// What adding `file`, found at `location`, to `d0` gives (`r`) and
/// leaves (`d1`).
pub open spec fn add_file_outcome(d0: Docs, d1: Docs, file: DocsFile, location: String, r: Result<(), DocsError>) -> bool {
    let n = file.nodes@.len();
    let t = file.types@.len();
    match count_error(n, t) {
        Some(e) => r == Err::<(), DocsError>(e) && same_docs(d0, d1),
        None => if n == 0 && t == 0 {
            r is Ok && same_docs(d0, d1)
        } else if n == 1 {
            let name = file.nodes@[0].0@;
            if file.nodes@[0].1.failure() is Some {
                r == check(file.nodes@[0].1.failure()) && same_docs(d0, d1)
            } else if d0.node(name) is Some {
                &&& r matches Err(DocsError::NodeAlreadyDocumented { name: k, location: l })
                &&& k@ == name
                &&& l == d0.node(name)->0.location
                &&& same_docs(d0, d1)
            } else {
                &&& r is Ok
                &&& d1.node(name) matches Some(w) && w.value.trimmed_from(&file.nodes@[0].1)
                    && w.location == location
                &&& forall|k: Seq<char>| k != name ==> #[trigger] d1.node(k) == d0.node(k)
                &&& forall|k: Seq<char>| #[trigger] d1.type_docs(k) == d0.type_docs(k)
            }
        } else {
            let name = file.types@[0].0@;
            if file.types@[0].1.failure() is Some {
                r == check(file.types@[0].1.failure()) && same_docs(d0, d1)
            } else if d0.type_docs(name) is Some {
                &&& r matches Err(DocsError::TypeAlreadyDocumented { name: k, location: l })
                &&& k@ == name
                &&& l == d0.type_docs(name)->0.location
                &&& same_docs(d0, d1)
            } else {
                &&& r is Ok
                &&& d1.type_docs(name) matches Some(w) && w.value.trimmed_from(
                    &file.types@[0].1,
                ) && w.location == location
                &&& forall|k: Seq<char>| k != name ==> #[trigger] d1.type_docs(k) == d0.type_docs(k)
                &&& forall|k: Seq<char>| #[trigger] d1.node(k) == d0.node(k)
            }
        },
    }
}

impl Docs {
    /// Adds the documentation of one file, found at `location`. A file
    /// documents one node or one type, or nothing; its fields are checked
    /// and trimmed; what it documents must not be documented already.
    pub fn add_file(&mut self, file: DocsFile, location: String) -> (r: Result<(), DocsError>)
        requires
            *old(self) is Docs,
            old(self).wf(),
        ensures
            *final(self) is Docs,
            final(self).wf(),
            add_file_outcome(*old(self), *final(self), file, location, r),
    {
        let n = file.nodes.len();
        let t = file.types.len();
        if n == 0 && t == 0 {
            return Ok(());
        }
        if !((n == 1 && t == 0) || (n == 0 && t == 1)) {
            if t == 0 {
                return Err(DocsError::MultipleNodes);
            } else if n == 0 {
                return Err(DocsError::MultipleTypes);
            } else {
                return Err(DocsError::MixedFile);
            }
        }
        let ghost f0 = file;
        let mut file = file;
        match file.validate() {
            Ok(()) => {},
            Err(e) => {
                proof {
                    if n == 1 {
                        assert(f0.nodes@.drop_first().len() == 0);
                        assert(named_failure(f0.nodes@.drop_first()) is None);
                        assert(named_failure(f0.nodes@) == f0.nodes@[0].1.failure());
                    } else {
                        assert(f0.types@.drop_first().len() == 0);
                        assert(named_failure(f0.types@.drop_first()) is None);
                        assert(named_failure(f0.types@) == f0.types@[0].1.failure());
                    }
                }
                return Err(e);
            },
        }
        proof {
            if n == 1 {
                assert(f0.nodes@.drop_first().len() == 0);
                assert(named_failure(f0.nodes@.drop_first()) is None);
                assert(named_failure(f0.nodes@) == f0.nodes@[0].1.failure());
            } else {
                assert(f0.types@.drop_first().len() == 0);
                assert(named_failure(f0.types@.drop_first()) is None);
                assert(named_failure(f0.types@) == f0.types@[0].1.failure());
            }
        }
        let docs = match self {
            Docs::Docs(d) => d,
            Docs::Stub => {
                return Ok(());
            },
        };
        if n == 1 {
            let (name, node) = file.nodes.pop().unwrap();
            match position(&docs.nodes, name.as_str()) {
                Some(i) => {
                    let existing = docs.nodes[i].1.location.clone();
                    return Err(DocsError::NodeAlreadyDocumented { name, location: existing });
                },
                None => {
                    let ghost v0 = docs.nodes@;
                    docs.nodes.push((name, WithLocation { value: node, location }));
                    proof {
                        let x = docs.nodes@.last();
                        assert(docs.nodes@ =~= v0.push(x));
                        assert forall|k: Seq<char>| #[trigger] lookup(docs.nodes@, k) == (if k == x.0@ {
                            Some(x.1)
                        } else {
                            lookup(v0, k)
                        }) by {
                            lemma_lookup_push(v0, x, k);
                        }
                        assert forall|a: int, b: int| 0 <= a < b < docs.nodes@.len() implies docs.nodes@[a].0@
                            != docs.nodes@[b].0@ by {
                            assert(docs.nodes@[a] == v0[a]);
                            if b < v0.len() {
                                assert(docs.nodes@[b] == v0[b]);
                            }
                        }
                    }
                },
            }
        } else {
            let (name, ty) = file.types.pop().unwrap();
            match position(&docs.types, name.as_str()) {
                Some(i) => {
                    let existing = docs.types[i].1.location.clone();
                    return Err(DocsError::TypeAlreadyDocumented { name, location: existing });
                },
                None => {
                    let ghost v0 = docs.types@;
                    docs.types.push((name, WithLocation { value: ty, location }));
                    proof {
                        let x = docs.types@.last();
                        assert(docs.types@ =~= v0.push(x));
                        assert forall|k: Seq<char>| #[trigger] lookup(docs.types@, k) == (if k == x.0@ {
                            Some(x.1)
                        } else {
                            lookup(v0, k)
                        }) by {
                            lemma_lookup_push(v0, x, k);
                        }
                        assert forall|a: int, b: int| 0 <= a < b < docs.types@.len() implies docs.types@[a].0@
                            != docs.types@[b].0@ by {
                            assert(docs.types@[a] == v0[a]);
                            if b < v0.len() {
                                assert(docs.types@[b] == v0[b]);
                            }
                        }
                    }
                },
            }
        }
        Ok(())
    }
}

} // verus!

verus! {

/// A type's identifier, with the identifier of its generic form (the
/// identifier without generic arguments).
pub struct TypeKey {
    pub id: String,
    pub without_generics: String,
}

impl TypeKey {
    pub fn copy(&self) -> (r: Self)
        ensures
            r == *self,
    {
        TypeKey { id: self.id.clone(), without_generics: self.without_generics.clone() }
    }
}

impl Docs {
    /// A type's documentation: under its identifier, else under its generic
    /// form.
    pub open spec fn type_for(&self, ty: TypeKey) -> Option<WithLocation<TypeDocs>> {
        if self.type_docs(ty.id@) is Some {
            self.type_docs(ty.id@)
        } else {
            self.type_docs(ty.without_generics@)
        }
    }

    /// The documentation of node `name`.
    pub fn get_node(&self, name: &str) -> (r: Option<&NodeDocs>)
        ensures
            match r {
                Some(d) => self.node(name@) matches Some(w) && *d == w.value,
                None => self.node(name@) is None,
            },
    {
        match self {
            Docs::Docs(docs) => match position(&docs.nodes, name) {
                Some(i) => Some(&docs.nodes[i].1.value),
                None => None,
            },
            Docs::Stub => None,
        }
    }

    /// The documentation of type `ty`, or else of its generic form.
    pub fn get_type(&self, ty: &TypeKey) -> (r: Option<&TypeDocs>)
        ensures
            match r {
                Some(d) => self.type_for(*ty) matches Some(w) && *d == w.value,
                None => self.type_for(*ty) is None,
            },
    {
        match self {
            Docs::Docs(docs) => match position(&docs.types, ty.id.as_str()) {
                Some(i) => Some(&docs.types[i].1.value),
                None => match position(&docs.types, ty.without_generics.as_str()) {
                    Some(i) => Some(&docs.types[i].1.value),
                    None => None,
                },
            },
            Docs::Stub => None,
        }
    }

    /// Every documented node with its name.
    pub fn all_nodes(&self) -> (r: Vec<(&str, &NodeDocs)>)
        requires
            self.wf(),
        ensures
            forall|i: int|
                0 <= i < r@.len() ==> (self.node((#[trigger] r@[i]).0@) matches Some(w) && *r@[i].1 == w.value),
            forall|k: Seq<char>| #[trigger] self.node(k) is Some ==> exists|i: int| 0 <= i < r@.len() && (#[trigger] r@[i]).0@ == k,
            forall|i: int, j: int| 0 <= i < j < r@.len() ==> r@[i].0@ != r@[j].0@,
    {
        let mut out: Vec<(&str, &NodeDocs)> = Vec::new();
        match self {
            Docs::Docs(docs) => {
                let mut i: usize = 0;
                while i < docs.nodes.len()
                    invariant
                        i <= docs.nodes@.len(),
                        out@.len() == i,
                        forall|j: int| 0 <= j < i ==> (#[trigger] out@[j]).0@ == docs.nodes@[j].0@ && *out@[j].1 == docs.nodes@[j].1.value,
                    decreases docs.nodes.len() - i,
                {
                    out.push((docs.nodes[i].0.as_str(), &docs.nodes[i].1.value));
                    i = i + 1;
                }
                proof {
                    assert forall|j: int| 0 <= j < out@.len() implies (self.node((#[trigger] out@[j]).0@) matches Some(w) && *out@[j].1 == w.value) by {
                        lemma_lookup_skip(docs.nodes@, docs.nodes@[j].0@, j);
                        assert(docs.nodes@.subrange(j, docs.nodes@.len() as int)[0] == docs.nodes@[j]);
                    }
                    assert forall|k: Seq<char>| #[trigger] self.node(k) is Some implies exists|j: int| 0 <= j < out@.len() && (#[trigger] out@[j]).0@ == k by {
                        let j = lemma_lookup_index(docs.nodes@, k);
                        assert(out@[j].0@ == k);
                    }
                }
            },
            Docs::Stub => {},
        }
        out
    }

    /// Every documented type with its identifier.
    pub fn all_types(&self) -> (r: Vec<(&str, &TypeDocs)>)
        requires
            self.wf(),
        ensures
            forall|i: int|
                0 <= i < r@.len() ==> (self.type_docs((#[trigger] r@[i]).0@) matches Some(w) && *r@[i].1 == w.value),
            forall|k: Seq<char>| #[trigger] self.type_docs(k) is Some ==> exists|i: int| 0 <= i < r@.len() && (#[trigger] r@[i]).0@ == k,
            forall|i: int, j: int| 0 <= i < j < r@.len() ==> r@[i].0@ != r@[j].0@,
    {
        let mut out: Vec<(&str, &TypeDocs)> = Vec::new();
        match self {
            Docs::Docs(docs) => {
                let mut i: usize = 0;
                while i < docs.types.len()
                    invariant
                        i <= docs.types@.len(),
                        out@.len() == i,
                        forall|j: int| 0 <= j < i ==> (#[trigger] out@[j]).0@ == docs.types@[j].0@ && *out@[j].1 == docs.types@[j].1.value,
                    decreases docs.types.len() - i,
                {
                    out.push((docs.types[i].0.as_str(), &docs.types[i].1.value));
                    i = i + 1;
                }
                proof {
                    assert forall|j: int| 0 <= j < out@.len() implies (self.type_docs((#[trigger] out@[j]).0@) matches Some(w) && *out@[j].1 == w.value) by {
                        lemma_lookup_skip(docs.types@, docs.types@[j].0@, j);
                        assert(docs.types@.subrange(j, docs.types@.len() as int)[0] == docs.types@[j]);
                    }
                    assert forall|k: Seq<char>| #[trigger] self.type_docs(k) is Some implies exists|j: int| 0 <= j < out@.len() && (#[trigger] out@[j]).0@ == k by {
                        let j = lemma_lookup_index(docs.types@, k);
                        assert(out@[j].0@ == k);
                    }
                }
            },
            Docs::Stub => {},
        }
        out
    }
}

} // verus!

verus! {

/// Documentation of an input, output, field or variant, found by its id.
pub trait HasId {
    spec fn id_text(&self) -> Seq<char>;

    fn id_str(&self) -> (r: &str)
        ensures
            r@ == self.id_text(),
    ;

    fn description_str(&self) -> (r: &str);
}

impl HasId for NodeIODocs {
    open spec fn id_text(&self) -> Seq<char> {
        self.id@
    }

    fn id_str(&self) -> (r: &str) {
        self.id.as_str()
    }

    fn description_str(&self) -> (r: &str)
        ensures
            r@ == self.description@,
    {
        self.description.as_str()
    }
}

impl HasId for FieldDocs {
    open spec fn id_text(&self) -> Seq<char> {
        self.id@
    }

    fn id_str(&self) -> (r: &str) {
        self.id.as_str()
    }

    fn description_str(&self) -> (r: &str)
        ensures
            r@ == self.description@,
    {
        self.description.as_str()
    }
}

impl HasId for VariantDocs {
    open spec fn id_text(&self) -> Seq<char> {
        self.id@
    }

    fn id_str(&self) -> (r: &str) {
        self.id.as_str()
    }

    fn description_str(&self) -> (r: &str)
        ensures
            r@ == self.description@,
    {
        self.description.as_str()
    }
}

/// The first entry of `v` with id `id`.
pub open spec fn with_id<T: HasId>(v: Seq<T>, id: Seq<char>) -> Option<T>
    decreases v.len(),
{
    if v.len() == 0 {
        None
    } else if v[0].id_text() == id {
        Some(v[0])
    } else {
        with_id(v.drop_first(), id)
    }
}

fn find_by_id<'a, T: HasId>(v: &'a Vec<T>, id: &str) -> (r: Option<&'a T>)
    ensures
        match r {
            Some(x) => with_id(v@, id@) == Some(*x),
            None => with_id(v@, id@) is None,
        },
{
    let mut i: usize = 0;
    assert(v@.subrange(0, v@.len() as int) =~= v@);
    while i < v.len()
        invariant
            i <= v@.len(),
            with_id(v@, id@) == with_id(v@.subrange(i as int, v@.len() as int), id@),
        decreases v.len() - i,
    {
        let ghost rest = v@.subrange(i as int, v@.len() as int);
        assert(rest[0] == v@[i as int]);
        if str_eq(v[i].id_str(), id) {
            return Some(&v[i]);
        }
        assert(rest.drop_first() =~= v@.subrange(i + 1, v@.len() as int));
        i = i + 1;
    }
    assert(v@.subrange(i as int, v@.len() as int).len() == 0);
    None
}

/// A documented node or type, as a documentation window shows it.
pub enum DocsWindowRef {
    Node(String),
    Type(TypeKey),
}

impl DocsWindowRef {
    /// The description of the node or type, if it is documented.
    pub fn description<'d>(&self, docs: &'d Docs) -> (r: Option<&'d str>)
        ensures
            match self {
                DocsWindowRef::Node(n) => match docs.node(n@) {
                    Some(w) => r matches Some(s) && s@ == w.value.description@,
                    None => r is None,
                },
                DocsWindowRef::Type(t) => match docs.type_for(*t) {
                    Some(w) => r matches Some(s) && s@ == w.value.description@,
                    None => r is None,
                },
            },
    {
        match self {
            DocsWindowRef::Node(node) => match docs.get_node(node.as_str()) {
                Some(d) => Some(d.description.as_str()),
                None => None,
            },
            DocsWindowRef::Type(ty) => match docs.get_type(ty) {
                Some(d) => Some(d.description.as_str()),
                None => None,
            },
        }
    }

    /// Whether the node or type is documented.
    pub fn has_docs(&self, docs: &Docs) -> (r: bool)
        ensures
            r == match self {
                DocsWindowRef::Node(n) => docs.node(n@) is Some,
                DocsWindowRef::Type(t) => docs.type_for(*t) is Some,
            },
    {
        match self {
            DocsWindowRef::Node(node) => docs.get_node(node.as_str()).is_some(),
            DocsWindowRef::Type(ty) => docs.get_type(ty).is_some(),
        }
    }
}

/// A documented part: an input or output of a node, a field or variant of
/// a type; or text of its own, or nothing.
pub enum DocsRef {
    NodeInput(String, String),
    NodeOutput(String, String),
    TypeField(TypeKey, String),
    EnumVariant(TypeKey, String),
    Custom(String),
    Nothing,
}

/// The description that a lookup of `id` in `v` gives.
pub open spec fn description_of<T: HasId + DocsDescription>(v: Seq<T>, id: Seq<char>) -> Option<Seq<char>> {
    match with_id(v, id) {
        Some(x) => Some(x.description_text()),
        None => None,
    }
}

impl DocsRef {
    /// Whether the part belongs to a node or a type.
    pub fn has_field_structure(&self) -> (r: bool)
        ensures
            r == !(self is Custom || self is Nothing),
    {
        match self {
            DocsRef::NodeInput(_, _) | DocsRef::NodeOutput(_, _) | DocsRef::TypeField(_, _) | DocsRef::EnumVariant(
                _,
                _,
            ) => true,
            DocsRef::Custom(_) | DocsRef::Nothing => false,
        }
    }

    /// The description of the part, if its node or type documents it.
    pub fn get_description<'d>(&self, docs: &'d Docs) -> (r: Option<&'d str>)
        requires
            !(self is Custom || self is Nothing),
        ensures
            ({
                let expected = match self {
                    DocsRef::NodeInput(n, i) => match docs.node(n@) {
                        Some(w) => description_of(w.value.inputs@, i@),
                        None => None,
                    },
                    DocsRef::NodeOutput(n, o) => match docs.node(n@) {
                        Some(w) => description_of(w.value.outputs@, o@),
                        None => None,
                    },
                    DocsRef::TypeField(t, f) => match docs.type_for(*t) {
                        Some(w) => description_of(w.value.fields@, f@),
                        None => None,
                    },
                    DocsRef::EnumVariant(t, v) => match docs.type_for(*t) {
                        Some(w) => description_of(w.value.variants@, v@),
                        None => None,
                    },
                    _ => None,
                };
                match r {
                    Some(s) => expected == Some(s@),
                    None => expected is None,
                }
            }),
    {
        match self {
            DocsRef::NodeInput(node, input) => match docs.get_node(node.as_str()) {
                Some(d) => match find_by_id(&d.inputs, input.as_str()) {
                    Some(x) => Some(x.description_str()),
                    None => None,
                },
                None => None,
            },
            DocsRef::NodeOutput(node, output) => match docs.get_node(node.as_str()) {
                Some(d) => match find_by_id(&d.outputs, output.as_str()) {
                    Some(x) => Some(x.description_str()),
                    None => None,
                },
                None => None,
            },
            DocsRef::TypeField(ty, field) => match docs.get_type(ty) {
                Some(d) => match find_by_id(&d.fields, field.as_str()) {
                    Some(x) => Some(x.description_str()),
                    None => None,
                },
                None => None,
            },
            DocsRef::EnumVariant(ty, variant) => match docs.get_type(ty) {
                Some(d) => match find_by_id(&d.variants, variant.as_str()) {
                    Some(x) => Some(x.description_str()),
                    None => None,
                },
                None => None,
            },
            DocsRef::Custom(_) | DocsRef::Nothing => None,
        }
    }

    /// The title of the part: an input's or output's documented title, else
    /// its id; a field's or variant's id.
    pub fn get_field_title<'d>(&'d self, docs: &'d Docs) -> (r: &'d str)
        requires
            !(self is Custom || self is Nothing),
        ensures
            r@ == match self {
                DocsRef::NodeInput(n, i) => match docs.node(n@) {
                    Some(w) => match with_id(w.value.inputs@, i@) {
                        Some(x) => x.title@,
                        None => i@,
                    },
                    None => i@,
                },
                DocsRef::NodeOutput(n, o) => match docs.node(n@) {
                    Some(w) => match with_id(w.value.outputs@, o@) {
                        Some(x) => x.title@,
                        None => o@,
                    },
                    None => o@,
                },
                DocsRef::TypeField(_, f) => f@,
                DocsRef::EnumVariant(_, v) => v@,
                _ => Seq::empty(),
            },
    {
        match self {
            DocsRef::NodeInput(node, input) => match docs.get_node(node.as_str()) {
                Some(d) => match find_by_id(&d.inputs, input.as_str()) {
                    Some(x) => x.title.as_str(),
                    None => input.as_str(),
                },
                None => input.as_str(),
            },
            DocsRef::NodeOutput(node, output) => match docs.get_node(node.as_str()) {
                Some(d) => match find_by_id(&d.outputs, output.as_str()) {
                    Some(x) => x.title.as_str(),
                    None => output.as_str(),
                },
                None => output.as_str(),
            },
            DocsRef::TypeField(_, field) => field.as_str(),
            DocsRef::EnumVariant(_, variant) => variant.as_str(),
            DocsRef::Custom(_) | DocsRef::Nothing => "",
        }
    }

    /// The node or type the part belongs to.
    pub fn as_window_ref(&self) -> (r: Option<DocsWindowRef>)
        ensures
            match self {
                DocsRef::NodeInput(n, _) | DocsRef::NodeOutput(n, _) => r == Some(DocsWindowRef::Node(*n)),
                DocsRef::TypeField(t, _) | DocsRef::EnumVariant(t, _) => r == Some(DocsWindowRef::Type(*t)),
                _ => r is None,
            },
    {
        match self {
            DocsRef::NodeInput(node, _) | DocsRef::NodeOutput(node, _) => Some(DocsWindowRef::Node(node.clone())),
            DocsRef::TypeField(ty, _) | DocsRef::EnumVariant(ty, _) => Some(DocsWindowRef::Type(ty.copy())),
            DocsRef::Custom(_) | DocsRef::Nothing => None,
        }
    }
}

} // verus!

verus! {

/// A node documented by one file cannot be documented again by another: the
/// second file is refused with the location of the first.
pub proof fn law_node_documented_once(
    d0: Docs,
    d1: Docs,
    d2: Docs,
    f1: DocsFile,
    l1: String,
    r1: Result<(), DocsError>,
    f2: DocsFile,
    l2: String,
    r2: Result<(), DocsError>,
)
    requires
        add_file_outcome(d0, d1, f1, l1, r1),
        r1 is Ok,
        f1.nodes@.len() == 1,
        f1.types@.len() == 0,
        add_file_outcome(d1, d2, f2, l2, r2),
        f2.nodes@.len() == 1,
        f2.types@.len() == 0,
        f2.nodes@[0].0@ == f1.nodes@[0].0@,
        f2.nodes@[0].1.failure() is None,
    ensures
        r2 matches Err(DocsError::NodeAlreadyDocumented { name, location }) && name@ == f1.nodes@[0].0@
            && location == l1,
        same_docs(d1, d2),
{
}

/// A type documented by one file cannot be documented again by another: the
/// second file is refused with the location of the first.
pub proof fn law_type_documented_once(
    d0: Docs,
    d1: Docs,
    d2: Docs,
    f1: DocsFile,
    l1: String,
    r1: Result<(), DocsError>,
    f2: DocsFile,
    l2: String,
    r2: Result<(), DocsError>,
)
    requires
        add_file_outcome(d0, d1, f1, l1, r1),
        r1 is Ok,
        f1.nodes@.len() == 0,
        f1.types@.len() == 1,
        add_file_outcome(d1, d2, f2, l2, r2),
        f2.nodes@.len() == 0,
        f2.types@.len() == 1,
        f2.types@[0].0@ == f1.types@[0].0@,
        f2.types@[0].1.failure() is None,
    ensures
        r2 matches Err(DocsError::TypeAlreadyDocumented { name, location }) && name@ == f1.types@[0].0@
            && location == l1,
        same_docs(d1, d2),
{
}

} // verus!

verus! {

/// The text of an input or output check may leave: its title, its id and
/// its description each hold more than white space.
pub open spec fn io_filled(d: NodeIODocs) -> bool {
    &&& trimmed(d.title@).len() > 0
    &&& trimmed(d.id@).len() > 0
    &&& trimmed(d.description@).len() > 0
}

proof fn lemma_ios_descriptions(v: Seq<NodeIODocs>, title: DocsField, id: DocsField)
    requires
        title != DocsField::Description,
        id != DocsField::Description,
    ensures
        ios_failure(v, title, id) is None <==> forall|j: int| 0 <= j < v.len() ==> io_filled(#[trigger] v[j]),
        (forall|j: int| 0 <= j < v.len() ==> trimmed((#[trigger] v[j]).title@).len() > 0 && trimmed(v[j].id@).len() > 0)
            && (exists|j: int| 0 <= j < v.len() && trimmed((#[trigger] v[j]).description@).len() == 0) ==> ios_failure(
            v,
            title,
            id,
        ) == Some(DocsField::Description),
        ios_failure(v, title, id) matches Some(f) ==> f == title || f == id || f == DocsField::Description,
    decreases v.len(),
{
    if v.len() > 0 {
        lemma_ios_descriptions(v.drop_first(), title, id);
        assert forall|j: int| 0 <= j < v.len() - 1 implies #[trigger] v.drop_first()[j] == v[j + 1] by {}
        if (forall|j: int| 0 <= j < v.len() ==> io_filled(#[trigger] v[j])) {
            assert(io_filled(v[0]));
            assert forall|j: int| 0 <= j < v.len() - 1 implies io_filled(#[trigger] v.drop_first()[j]) by {
                assert(io_filled(v[j + 1]));
            }
        }
        if ios_failure(v, title, id) is None {
            assert forall|j: int| 0 <= j < v.len() implies io_filled(#[trigger] v[j]) by {
                if j > 0 {
                    assert(v[j] == v.drop_first()[j - 1]);
                }
            }
        }
        if (forall|j: int| 0 <= j < v.len() ==> trimmed((#[trigger] v[j]).title@).len() > 0 && trimmed(v[j].id@).len()
            > 0) && (exists|j: int| 0 <= j < v.len() && trimmed((#[trigger] v[j]).description@).len() == 0) {
            let j0 = choose|j: int| 0 <= j < v.len() && trimmed((#[trigger] v[j]).description@).len() == 0;
            assert(trimmed(v[0].title@).len() > 0 && trimmed(v[0].id@).len() > 0);
            if j0 > 0 {
                assert(v.drop_first()[j0 - 1] == v[j0]);
                assert forall|j: int| 0 <= j < v.len() - 1 implies trimmed((#[trigger] v.drop_first()[j]).title@).len() > 0
                    && trimmed(v.drop_first()[j].id@).len() > 0 by {
                    assert(trimmed(v[j + 1].title@).len() > 0);
                }
            }
        }
    }
}

/// Every input and output of a node needs a description: a node whose
/// documentation passes has a title, an id and a description that are more
/// than white space on each input and output; and when the node's own title
/// and description and every input's and output's title and id are filled,
/// an input or output whose description is only white space is refused for
/// its description.
pub proof fn law_node_io_needs_description(n: NodeDocs)
    ensures
        n.failure() is None ==> {
            &&& forall|j: int| 0 <= j < n.inputs@.len() ==> io_filled(#[trigger] n.inputs@[j])
            &&& forall|j: int| 0 <= j < n.outputs@.len() ==> io_filled(#[trigger] n.outputs@[j])
        },
        trimmed(n.title@).len() > 0 && trimmed(n.description@).len() > 0 && (forall|j: int|
            0 <= j < n.inputs@.len() ==> trimmed((#[trigger] n.inputs@[j]).title@).len() > 0 && trimmed(
                n.inputs@[j].id@,
            ).len() > 0) && (forall|j: int|
            0 <= j < n.outputs@.len() ==> trimmed((#[trigger] n.outputs@[j]).title@).len() > 0 && trimmed(
                n.outputs@[j].id@,
            ).len() > 0) && ((exists|j: int|
            0 <= j < n.inputs@.len() && trimmed((#[trigger] n.inputs@[j]).description@).len() == 0) || (exists|j: int|
            0 <= j < n.outputs@.len() && trimmed((#[trigger] n.outputs@[j]).description@).len() == 0))
            ==> n.failure() == Some(DocsField::Description),
{
    lemma_ios_descriptions(n.inputs@, DocsField::InputTitle, DocsField::InputId);
    lemma_ios_descriptions(n.outputs@, DocsField::OutputTitle, DocsField::OutputId);
}

} // verus!
