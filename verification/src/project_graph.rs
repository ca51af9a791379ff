//! The graphs of a project, by id, with the file each came from. A graph
//! can be taken out for editing; while it is out, its project graph holds
//! no graph.
//!
//! An id is the 128-bit number of a UUID; a graph is of any type `G`.
use vstd::prelude::*;
use std::collections::HashMap;
use crate::text::{string_push, trim};

verus! {

broadcast use vstd::std_specs::hash::group_hash_axioms;

/// A graph, or the mark of a graph out for editing.
pub enum GraphHolder<G> {
    Graph(Box<G>),
    Editing,
}

pub struct ProjectGraph<G> {
    pub id: u128,
    pub name: String,
    pub is_node_group: bool,
    pub hide_from_search: bool,
    pub categories: Vec<String>,
    pub graph: GraphHolder<G>,
}

/// `16` to the power `n`.
pub open spec fn pow16(n: nat) -> int
    decreases n,
{
    if n == 0 {
        1
    } else {
        16 * pow16((n - 1) as nat)
    }
}

/// The lowercase hexadecimal digit of `d` (below 16).
pub open spec fn hex_digit(d: int) -> char {
    if d < 10 {
        (48 + d) as char
    } else {
        (87 + d) as char
    }
}

/// The `j`-th of the 32 hexadecimal digits of `id`, the most significant
/// first.
pub open spec fn nibble(id: u128, j: int) -> int {
    (id as int / pow16((31 - j) as nat)) % 16
}

/// The number of hyphens before place `i` of the hyphenated form.
pub open spec fn hyphens_before(i: int) -> int {
    if i < 8 {
        0
    } else if i < 13 {
        1
    } else if i < 18 {
        2
    } else if i < 23 {
        3
    } else {
        4
    }
}

/// The text of an id: the hyphenated lowercase form of the UUID whose 128
/// bits, most significant first, are `id`: 32 hexadecimal digits in groups
/// of 8, 4, 4, 4 and 12, joined by `-`.
pub open spec fn uuid_text_of(id: u128) -> Seq<char> {
    Seq::new(
        36,
        |i: int|
            if i == 8 || i == 13 || i == 18 || i == 23 {
                '-'
            } else {
                hex_digit(nibble(id, i - hyphens_before(i)))
            },
    )
}

/// The text of an id (`Uuid::from_u128`, then `to_string`): the hyphenated
/// lowercase form, `uuid_text_of`.
#[verifier::external_body]
fn uuid_text(id: u128) -> (r: String)
    ensures
        r@ == uuid_text_of(id),
{
    uuid::Uuid::from_u128(id).to_string()
}

/// The name a graph is shown by: its name trimmed, or, when that is empty,
/// `Graph ` and its id.
pub open spec fn display_name_of(name: Seq<char>, id: u128) -> Seq<char> {
    if crate::text::trimmed(name).len() == 0 {
        seq!['G', 'r', 'a', 'p', 'h', ' '] + uuid_text_of(id)
    } else {
        crate::text::trimmed(name)
    }
}

impl<G> ProjectGraph<G> {
    /// Whether the graph is out for editing.
    pub open spec fn editing(&self) -> bool {
        self.graph is Editing
    }

    /// The graph, when it is not out for editing.
    pub open spec fn graph_value(&self) -> G
        recommends
            !self.editing(),
    {
        match self.graph {
            GraphHolder::Graph(g) => *g,
            GraphHolder::Editing => arbitrary(),
        }
    }

    /// An empty project graph, named nothing, with `graph`.
    pub fn new(id: u128, graph: G) -> (r: Self)
        ensures
            r.id == id,
            r.name@ == Seq::<char>::empty(),
            !r.is_node_group,
            !r.hide_from_search,
            r.categories@.len() == 0,
            !r.editing(),
            r.graph_value() == graph,
    {
        ProjectGraph {
            id,
            name: String::new(),
            is_node_group: false,
            hide_from_search: false,
            categories: Vec::new(),
            graph: GraphHolder::Graph(Box::new(graph)),
        }
    }

    /// Whether the graph is out for editing.
    pub fn is_editing(&self) -> (r: bool)
        ensures
            r == self.editing(),
    {
        match &self.graph {
            GraphHolder::Graph(_) => false,
            GraphHolder::Editing => true,
        }
    }

    /// The graph.
    pub fn graph(&self) -> (r: &G)
        requires
            !self.editing(),
        ensures
            *r == self.graph_value(),
    {
        match &self.graph {
            GraphHolder::Graph(g) => g,
            GraphHolder::Editing => vstd::pervasive::unreached(),
        }
    }

    /// The name the graph is shown by.
    pub fn display_name(&self) -> (r: String)
        ensures
            r@ == display_name_of(self.name@, self.id),
    {
        let trimmed = trim(self.name.as_str());
        if trimmed.as_str().unicode_len() == 0 {
            let mut out = String::new();
            string_push(&mut out, 'G');
            string_push(&mut out, 'r');
            string_push(&mut out, 'a');
            string_push(&mut out, 'p');
            string_push(&mut out, 'h');
            string_push(&mut out, ' ');
            let text = crate::text::chars_of(uuid_text(self.id).as_str());
            let ghost head = out@;
            let mut i: usize = 0;
            while i < text.len()
                invariant
                    i <= text@.len(),
                    text@ == uuid_text_of(self.id),
                    head == seq!['G', 'r', 'a', 'p', 'h', ' '],
                    out@ == head + text@.subrange(0, i as int),
                decreases text.len() - i,
            {
                string_push(&mut out, text[i]);
                i = i + 1;
                assert(out@ =~= head + text@.subrange(0, i as int));
            }
            assert(text@.subrange(0, text@.len() as int) =~= text@);
            out
        } else {
            trimmed
        }
    }

    /// Takes the graph out for editing.
    pub fn take_graph(&mut self) -> (r: Box<G>)
        requires
            !old(self).editing(),
        ensures
            *r == old(self).graph_value(),
            final(self).editing(),
            final(self).id == old(self).id,
            final(self).name == old(self).name,
            final(self).is_node_group == old(self).is_node_group,
            final(self).hide_from_search == old(self).hide_from_search,
            final(self).categories == old(self).categories,
    {
        let mut holder = GraphHolder::Editing;
        std::mem::swap(&mut holder, &mut self.graph);
        match holder {
            GraphHolder::Graph(g) => g,
            GraphHolder::Editing => vstd::pervasive::unreached(),
        }
    }

    /// Puts the edited graph back.
    pub fn return_graph(&mut self, graph: Box<G>)
        requires
            old(self).editing(),
        ensures
            !final(self).editing(),
            final(self).graph_value() == *graph,
            final(self).id == old(self).id,
            final(self).name == old(self).name,
            final(self).is_node_group == old(self).is_node_group,
            final(self).hide_from_search == old(self).hide_from_search,
            final(self).categories == old(self).categories,
    {
        self.graph = GraphHolder::Graph(graph);
    }
}

/// Why a graph could not be added.
#[derive(Debug, Clone, PartialEq, Eq)]
pub enum GraphError {
    /// A graph with this id exists already, from the file at `other_path`.
    AlreadyExists { id: u128, other_path: String },
}

pub struct ProjectGraphs<G> {
    /// All project graphs.
    pub graphs: HashMap<u128, ProjectGraph<G>>,
    /// The file each graph came from.
    pub paths: HashMap<u128, String>,
}

impl<G> ProjectGraphs<G> {
    /// The file each graph came from.
    pub open spec fn path_of(&self) -> Map<u128, String> {
        self.paths@
    }

    pub fn new() -> (r: Self)
        ensures
            r.graphs@ == Map::<u128, ProjectGraph<G>>::empty(),
            r.path_of() == Map::<u128, String>::empty(),
    {
        ProjectGraphs { graphs: HashMap::new(), paths: HashMap::new() }
    }

    /// Adds `graph`, which came from the file at `path`, under its id; an id
    /// that is taken is refused, with the file of the graph that holds it
    /// (`unknown file` when that is not known).
    pub fn add_graph(&mut self, path: String, graph: ProjectGraph<G>) -> (r: Result<u128, GraphError>)
        ensures
            old(self).graphs@.contains_key(graph.id) ==> {
                &&& r matches Err(GraphError::AlreadyExists { id, other_path })
                &&& id == graph.id
                &&& other_path@ == (if old(self).path_of().contains_key(graph.id) {
                    old(self).path_of()[graph.id]@
                } else {
                    seq!['u', 'n', 'k', 'n', 'o', 'w', 'n', ' ', 'f', 'i', 'l', 'e']
                })
                &&& final(self).graphs@ == old(self).graphs@
                &&& final(self).path_of() == old(self).path_of()
            },
            !old(self).graphs@.contains_key(graph.id) ==> {
                &&& r == Ok::<u128, GraphError>(graph.id)
                &&& final(self).graphs@ == old(self).graphs@.insert(graph.id, graph)
                &&& final(self).path_of() == old(self).path_of().insert(graph.id, path)
            },
    {
        let id = graph.id;
        if self.graphs.contains_key(&id) {
            let other_path = match self.paths.get(&id) {
                Some(p) => p.clone(),
                None => {
                    proof {
                        reveal_strlit("unknown file");
                    }
                    "unknown file".to_owned()
                },
            };
            proof {
                reveal_strlit("unknown file");
                assert("unknown file"@ =~= seq!['u', 'n', 'k', 'n', 'o', 'w', 'n', ' ', 'f', 'i', 'l', 'e']);
            }
            return Err(GraphError::AlreadyExists { id, other_path });
        }
        self.graphs.insert(id, graph);
        self.paths.insert(id, path);
        Ok(id)
    }

    /// Adds an empty graph under `id`, if no graph has it; a new id is drawn
    /// at random until one is free.
    pub fn try_insert_new_graph(&mut self, id: u128) -> (r: bool)
        where G: Default,
        ensures
            r == !old(self).graphs@.contains_key(id),
            r ==> final(self).graphs@.dom() == old(self).graphs@.dom().insert(id) && final(self).graphs@[id].id == id
                && final(self).graphs@[id].name@.len() == 0 && !final(self).graphs@[id].editing(),
            r ==> forall|k: u128| k != id && #[trigger] old(self).graphs@.contains_key(k) ==> final(self).graphs@[k] == old(self).graphs@[k],
            !r ==> final(self).graphs@ == old(self).graphs@,
            final(self).path_of() == old(self).path_of(),
    {
        if self.graphs.contains_key(&id) {
            return false;
        }
        let g = G::default();
        self.graphs.insert(id, ProjectGraph::new(id, g));
        true
    }
}

} // verus!
