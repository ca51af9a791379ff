//! The list loops (for each, map, filter, filter-map, flat-map), the list
//! constructor and the optional branch, as steps of a region that the graph
//! runs again and again: the start node hands out one value per run, the end
//! node collects the results.
//!
//! Values are of any type `V`; the caller reads booleans and lists out of
//! its values before a step and builds lists and numbers from what a step
//! gives back.
use crate::parsing::EDataType;
use vstd::prelude::*;
use std::collections::HashMap;

verus! {

broadcast use vstd::std_specs::hash::group_hash_axioms;

/// What a node tells the graph after it ran.
#[derive(Debug, Clone, Copy, PartialEq, Eq, Structural)]
pub enum ExecutionResult {
    /// Go on after the node.
    Done,
    /// Run the node's region again.
    RerunRegion,
}

/// Appends to `outputs` the variables a start node passes on: those the end
/// node kept from the last run, or else its own extra inputs. The kept ones
/// are used up.
pub fn remember_variables<V>(state_values: &mut Option<Vec<V>>, inputs: Vec<V>, outputs: &mut Vec<V>)
    ensures
        *final(state_values) is None,
        final(outputs)@ == old(outputs)@ + (match *old(state_values) {
            Some(v) => v,
            None => inputs,
        })@,
        old(outputs)@.len() == 0 ==> *final(outputs) == match *old(state_values) {
            Some(v) => v,
            None => inputs,
        },
{
    let mut chosen = match state_values.take() {
        Some(values) => values,
        None => inputs,
    };
    if outputs.len() == 0 {
        assert(old(outputs)@ + chosen@ =~= chosen@);
        *outputs = chosen;
    } else {
        outputs.append(&mut chosen);
    }
}

/// The five list loops.
#[derive(Debug, Clone, Copy, PartialEq, Eq, Structural)]
pub enum ForEachKind {
    ForEach,
    ListMap,
    Filter,
    FilterMap,
    FlatMap,
}

impl ForEachKind {
    /// The loop numbered `kind` (0 to 4, in the order above).
    pub fn of(kind: u8) -> (r: Self)
        requires
            kind < 5,
        ensures
            r == spec_kind_of(kind),
    {
        match kind {
            0 => ForEachKind::ForEach,
            1 => ForEachKind::ListMap,
            2 => ForEachKind::Filter,
            3 => ForEachKind::FilterMap,
            _ => ForEachKind::FlatMap,
        }
    }
}

pub open spec fn spec_kind_of(kind: u8) -> ForEachKind {
    if kind == 0 {
        ForEachKind::ForEach
    } else if kind == 1 {
        ForEachKind::ListMap
    } else if kind == 2 {
        ForEachKind::Filter
    } else if kind == 3 {
        ForEachKind::FilterMap
    } else {
        ForEachKind::FlatMap
    }
}

/// The loop gives a list of new values.
pub fn is_map(kind: u8) -> (r: bool)
    requires
        kind < 5,
    ensures
        r == (kind == 1 || kind == 3 || kind == 4),
{
    match ForEachKind::of(kind) {
        ForEachKind::ListMap | ForEachKind::FilterMap | ForEachKind::FlatMap => true,
        ForEachKind::ForEach | ForEachKind::Filter => false,
    }
}

/// The loop keeps some values and drops others.
pub fn is_filter(kind: u8) -> (r: bool)
    ensures
        r == (kind == 2 || kind == 3),
{
    kind == 2 || kind == 3
}

/// How many of the end node's inputs come before its variables.
pub fn end_inputs_before_variables(kind: ForEachKind) -> (r: usize)
    ensures
        r == match kind {
            ForEachKind::ForEach => 0usize,
            ForEachKind::FilterMap => 2usize,
            _ => 1usize,
        },
{
    match kind {
        ForEachKind::ForEach => 0,
        ForEachKind::ListMap | ForEachKind::Filter | ForEachKind::FlatMap => 1,
        ForEachKind::FilterMap => 2,
    }
}

/// The state of a running list loop.
pub struct ForEachNodeState<V> {
    pub index: usize,
    pub length: usize,
    pub output: Vec<V>,
    /// The value handed out in this run, for a filter.
    pub input_value: Option<V>,
    /// The variables the end node kept for the next run.
    pub values: Option<Vec<V>>,
}

/// What the start node hands out.
pub struct StartOutputs<V> {
    /// The value of this run (none for an empty list).
    pub value: Option<V>,
    pub index: usize,
    pub length: usize,
    pub variables: Vec<V>,
}

/// What the end node receives ahead of its variables, by kind of loop.
pub enum EndInput<V> {
    ForEach,
    Mapped(V),
    Filter(bool),
    FilterMap(V, bool),
    FlatMap(Vec<V>),
}

/// What the end node does.
pub enum EndResult<V> {
    /// The loop is over: the collected list (for the kinds that give one)
    /// and the variables.
    Done { list: Option<Vec<V>>, variables: Vec<V> },
    /// Run again, with the state kept.
    Rerun { state: ForEachNodeState<V> },
}

/// The text of each string of `v`.
pub open spec fn texts(v: Seq<String>) -> Seq<Seq<char>> {
    v.map_values(|t: String| t@)
}

/// The names of the inputs of the start node (`start`) or the end node of a
/// list loop of kind `kind`.
pub open spec fn foreach_input_names(kind: ForEachKind, start: bool) -> Seq<Seq<char>> {
    if start {
        seq!["values"@]
    } else {
        match kind {
            ForEachKind::ForEach => Seq::empty(),
            ForEachKind::ListMap => seq!["value"@],
            ForEachKind::Filter => seq!["condition"@],
            ForEachKind::FilterMap => seq!["value"@, "condition"@],
            ForEachKind::FlatMap => seq!["values"@],
        }
    }
}

/// The names of the outputs of the start node (`start`) or the end node of
/// a list loop of kind `kind`.
pub open spec fn foreach_output_names(kind: ForEachKind, start: bool) -> Seq<Seq<char>> {
    if start {
        seq!["value"@, "index"@, "length"@]
    } else if kind == ForEachKind::ForEach {
        Seq::empty()
    } else {
        seq!["values"@]
    }
}

/// What a port of a node carries: a list of values of a type, a value or an
/// optional value of a type (each type known or not yet), or a value of a
/// fixed type.
#[derive(Debug, Clone, PartialEq, Eq)]
pub enum PortField {
    List(Option<EDataType>),
    Value(Option<EDataType>),
    /// An optional value of a type.
    Optional(Option<EDataType>),
    Fixed(EDataType),
}

/// The input ports of the start node (`start`) or the end node of a list
/// loop of kind `kind`, whose types in and out are `input_ty` and
/// `output_ty`.
pub open spec fn foreach_inputs(
    kind: ForEachKind,
    start: bool,
    input_ty: Option<EDataType>,
    output_ty: Option<EDataType>,
) -> Seq<PortField> {
    if start {
        seq![PortField::List(input_ty)]
    } else {
        match kind {
            ForEachKind::ForEach => Seq::empty(),
            ForEachKind::ListMap => seq![PortField::Value(output_ty)],
            ForEachKind::Filter => seq![PortField::Fixed(EDataType::Boolean)],
            ForEachKind::FilterMap => seq![PortField::Value(output_ty), PortField::Fixed(EDataType::Boolean)],
            ForEachKind::FlatMap => seq![PortField::List(output_ty)],
        }
    }
}

/// The output ports of the start node (`start`) or the end node of a list
/// loop of kind `kind`: the value, its index and the length at the start;
/// at the end the new list of a map, the filtered list of a filter.
pub open spec fn foreach_outputs(
    kind: ForEachKind,
    start: bool,
    input_ty: Option<EDataType>,
    output_ty: Option<EDataType>,
) -> Seq<PortField> {
    if start {
        seq![PortField::Value(input_ty), PortField::Fixed(EDataType::Number), PortField::Fixed(EDataType::Number)]
    } else {
        match kind {
            ForEachKind::ListMap | ForEachKind::FilterMap | ForEachKind::FlatMap => seq![PortField::List(output_ty)],
            ForEachKind::Filter => seq![PortField::List(input_ty)],
            ForEachKind::ForEach => Seq::empty(),
        }
    }
}

/// An equal copy of an optional type.
pub fn copy_type(t: &Option<EDataType>) -> (r: Option<EDataType>)
    ensures
        r == *t,
{
    match t {
        Some(x) => Some(x.copied()),
        None => None,
    }
}

/// A list loop of kind `KIND`.
#[derive(Debug, Clone, PartialEq, Eq)]
pub struct ForEachLikeRegionalNode<const KIND: u8> {
    pub input_ty: Option<EDataType>,
    pub output_ty: Option<EDataType>,
}

/// The state after the start node of a run: a fresh state for the first run.
pub open spec fn start_state<V>(state: Option<ForEachNodeState<V>>, length: nat) -> (usize, usize, Seq<V>, Option<V>, Option<Vec<V>>) {
    match state {
        Some(s) => (s.index, s.length, s.output@, s.input_value, s.values),
        None => (0usize, length as usize, Seq::<V>::empty(), None::<V>, None::<Vec<V>>),
    }
}

/// The list collected after one more run of the end node.
pub open spec fn collect<V>(kind: ForEachKind, output: Seq<V>, input_value: Option<V>, input: EndInput<V>) -> Seq<V> {
    match (kind, input) {
        (ForEachKind::ListMap, EndInput::Mapped(v)) => output.push(v),
        (ForEachKind::Filter, EndInput::Filter(c)) => if c {
            output.push(input_value.unwrap())
        } else {
            output
        },
        (ForEachKind::FilterMap, EndInput::FilterMap(v, c)) => if c {
            output.push(v)
        } else {
            output
        },
        (ForEachKind::FlatMap, EndInput::FlatMap(vs)) => output + vs@,
        _ => output,
    }
}

/// `o` holds a copy of `x`.
pub open spec fn holds_clone<V: Clone>(o: Option<V>, x: V) -> bool {
    o is Some && cloned(x, o.unwrap())
}

/// A filter's end input that keeps the value.
pub open spec fn keeps<V>(input: EndInput<V>) -> bool {
    match input {
        EndInput::Filter(c) => c,
        _ => false,
    }
}

/// The end input fits the kind of loop.
pub open spec fn input_fits<V>(kind: ForEachKind, input: EndInput<V>) -> bool {
    match (kind, input) {
        (ForEachKind::ForEach, EndInput::ForEach) => true,
        (ForEachKind::ListMap, EndInput::Mapped(_)) => true,
        (ForEachKind::Filter, EndInput::Filter(_)) => true,
        (ForEachKind::FilterMap, EndInput::FilterMap(_, _)) => true,
        (ForEachKind::FlatMap, EndInput::FlatMap(_)) => true,
        _ => false,
    }
}

/// What the start node of a list loop of kind `kind` gives (`r`) for
/// `state`, over the list `values`.
pub open spec fn foreach_start_outcome<V: Clone>(
    kind: u8,
    state: Option<ForEachNodeState<V>>,
    values: Seq<V>,
    variables: Vec<V>,
    r: (ForEachNodeState<V>, StartOutputs<V>),
) -> bool {
    let (index, length, output, input_value, kept) = start_state(state, values.len());
    &&& r.0.index == index
    &&& r.0.length == length
    &&& r.0.output@ == output
    &&& r.0.values is None
    &&& r.1.index == index
    &&& r.1.length == length
    &&& r.1.variables == match kept {
        Some(v) => v,
        None => variables,
    }
    &&& values.len() == 0 ==> r.1.value is None && r.0.input_value == input_value
    &&& values.len() > 0 ==> holds_clone(r.1.value, values[index as int])
    &&& (values.len() > 0 && kind == 2) ==> holds_clone(r.0.input_value, values[index as int])
    &&& (values.len() > 0 && kind != 2) ==> r.0.input_value == input_value
}

/// What the end node of a list loop of kind `kind` gives (`r`) for `state`.
pub open spec fn foreach_end_outcome<V>(
    kind: u8,
    state: ForEachNodeState<V>,
    input: EndInput<V>,
    variables: Vec<V>,
    r: EndResult<V>,
) -> bool {
    let output = if state.length > 0 {
        collect(spec_kind_of(kind), state.output@, state.input_value, input)
    } else {
        state.output@
    };
    let index = state.index + 1;
    match r {
        EndResult::Done { list, variables: vs } => {
            &&& index >= state.length
            &&& vs == variables
            &&& (kind == 0 ==> list is None)
            &&& (kind != 0 ==> list is Some && list.unwrap()@ == output)
        },
        EndResult::Rerun { state: s } => {
            &&& index < state.length
            &&& s.index == index
            &&& s.length == state.length
            &&& s.output@ == output
            &&& s.values == Some(variables)
            &&& (kind == 2 && state.length > 0 && keeps(input)) ==> s.input_value is None
            &&& !(kind == 2 && state.length > 0 && keeps(input)) ==> s.input_value == state.input_value
        },
    }
}

/// The state a rerun of a list loop keeps.
pub open spec fn loop_rerun_state<V>(r: EndResult<V>) -> ForEachNodeState<V> {
    match r {
        EndResult::Rerun { state } => state,
        EndResult::Done { .. } => arbitrary(),
    }
}

/// Run `i` of a map over `values` hands out the `i`-th value (a copy), its
/// index, the length, and the variables given to the start node (first
/// run) or kept from the run before.
pub open spec fn map_hands_out<V: Clone>(
    start: (ForEachNodeState<V>, StartOutputs<V>),
    i: int,
    values: Seq<V>,
    ins: Seq<Vec<V>>,
    xs: Seq<Vec<V>>,
) -> bool {
    &&& start.1.index == i
    &&& start.1.length == values.len()
    &&& holds_clone(start.1.value, values[i])
    &&& start.1.variables == if i == 0 {
        ins[0]
    } else {
        xs[i - 1]
    }
}

/// The links between the runs of a map over `values`: the first start has
/// no state, each later start the state the end before kept; each end has
/// what its start gave, and the run's mapped value `ws[i]`.
pub open spec fn map_runs_linked<V: Clone>(
    values: Seq<V>,
    starts: Seq<(ForEachNodeState<V>, StartOutputs<V>)>,
    ends: Seq<EndResult<V>>,
    ins: Seq<Vec<V>>,
    xs: Seq<Vec<V>>,
    ws: Seq<V>,
) -> bool {
    &&& starts.len() == ends.len() && ends.len() == ins.len() && ins.len() == xs.len() && xs.len() == ws.len()
    &&& starts.len() > 0
    &&& foreach_start_outcome(1, None, values, ins[0], starts[0])
    &&& forall|i: int| 0 < i < starts.len() ==> #[trigger] ends[i - 1] is Rerun && foreach_start_outcome(
        1,
        Some(loop_rerun_state(ends[i - 1])),
        values,
        ins[i],
        starts[i],
    )
    &&& forall|i: int|
        0 <= i < starts.len() ==> foreach_end_outcome(1, #[trigger] starts[i].0, EndInput::Mapped(ws[i]), xs[i], ends[i])
}

proof fn lemma_map_run<V: Clone>(
    values: Seq<V>,
    starts: Seq<(ForEachNodeState<V>, StartOutputs<V>)>,
    ends: Seq<EndResult<V>>,
    ins: Seq<Vec<V>>,
    xs: Seq<Vec<V>>,
    ws: Seq<V>,
    i: int,
)
    requires
        0 < values.len() <= usize::MAX,
        map_runs_linked(values, starts, ends, ins, xs, ws),
        0 <= i < starts.len(),
    ensures
        starts[i].0.index == i,
        starts[i].0.length == values.len(),
        starts[i].0.output@ == ws.subrange(0, i),
        i < values.len(),
        map_hands_out(starts[i], i, values, ins, xs),
    decreases i,
{
    if i == 0 {
        assert(ws.subrange(0, 0) =~= Seq::<V>::empty());
    } else {
        lemma_map_run(values, starts, ends, ins, xs, ws, i - 1);
        assert(ends[i - 1] is Rerun);
        assert(foreach_end_outcome(1, starts[i - 1].0, EndInput::Mapped(ws[i - 1]), xs[i - 1], ends[i - 1]));
        assert(ws.subrange(0, i - 1).push(ws[i - 1]) =~= ws.subrange(0, i));
        assert(loop_rerun_state(ends[i - 1]).values == Some(xs[i - 1]));
    }
}

/// Over all runs of a map over the `n > 0` values of `values`: run `i`
/// hands out the `i`-th value, index `i`, length `n`, and the variables;
/// every run but the last runs again, and the last gives the list of the
/// `n` mapped values, in order, and the variables given to it.
pub proof fn law_map_runs<V: Clone>(
    values: Seq<V>,
    starts: Seq<(ForEachNodeState<V>, StartOutputs<V>)>,
    ends: Seq<EndResult<V>>,
    ins: Seq<Vec<V>>,
    xs: Seq<Vec<V>>,
    ws: Seq<V>,
)
    requires
        0 < values.len() <= usize::MAX,
        map_runs_linked(values, starts, ends, ins, xs, ws),
    ensures
        starts.len() <= values.len(),
        forall|i: int| 0 <= i < starts.len() ==> map_hands_out(#[trigger] starts[i], i, values, ins, xs),
        starts.len() < values.len() ==> ends.last() is Rerun,
        starts.len() == values.len() ==> (ends.last() matches EndResult::Done { list, variables } && list is Some
            && list.unwrap()@ == ws && variables == xs.last()),
{
    let m = starts.len();
    assert forall|i: int| 0 <= i < m implies map_hands_out(#[trigger] starts[i], i, values, ins, xs) by {
        lemma_map_run(values, starts, ends, ins, xs, ws, i);
    }
    lemma_map_run(values, starts, ends, ins, xs, ws, m - 1);
    assert(foreach_end_outcome(1, starts[m - 1].0, EndInput::Mapped(ws[m - 1]), xs[m - 1], ends[m - 1]));
    assert(ws.subrange(0, m - 1).push(ws[m - 1]) =~= ws);
}

impl<const KIND: u8> ForEachLikeRegionalNode<KIND> {
    pub fn kind(&self) -> (r: ForEachKind)
        requires
            KIND < 5,
        ensures
            r == spec_kind_of(KIND),
    {
        ForEachKind::of(KIND)
    }

    /// A node whose types are not known yet.
    pub fn create() -> (r: Self)
        ensures
            r.input_ty is None,
            r.output_ty is None,
    {
        ForEachLikeRegionalNode { input_ty: None, output_ty: None }
    }

    /// The names of the inputs of the start node (`start`) or the end node.
    pub fn input_names(&self, start: bool) -> (r: Vec<String>)
        requires
            KIND < 5,
        ensures
            texts(r@) == foreach_input_names(spec_kind_of(KIND), start),
    {
        let r: Vec<String> = if start {
            vec!["values".to_owned()]
        } else {
            match ForEachKind::of(KIND) {
                ForEachKind::ForEach => Vec::new(),
                ForEachKind::ListMap => vec!["value".to_owned()],
                ForEachKind::Filter => vec!["condition".to_owned()],
                ForEachKind::FilterMap => vec!["value".to_owned(), "condition".to_owned()],
                ForEachKind::FlatMap => vec!["values".to_owned()],
            }
        };
        assert(texts(r@) =~= foreach_input_names(spec_kind_of(KIND), start));
        r
    }

    /// The names of the outputs of the start node (`start`) or the end node.
    pub fn output_names(&self, start: bool) -> (r: Vec<String>)
        requires
            KIND < 5,
        ensures
            texts(r@) == foreach_output_names(spec_kind_of(KIND), start),
    {
        let r: Vec<String> = if start {
            vec!["value".to_owned(), "index".to_owned(), "length".to_owned()]
        } else if ForEachKind::of(KIND) == ForEachKind::ForEach {
            Vec::new()
        } else {
            vec!["values".to_owned()]
        };
        assert(texts(r@) =~= foreach_output_names(spec_kind_of(KIND), start));
        r
    }

    /// The input ports of the start node (`start`) or the end node.
    pub fn inputs(&self, start: bool) -> (r: Vec<PortField>)
        requires
            KIND < 5,
        ensures
            r@ == foreach_inputs(spec_kind_of(KIND), start, self.input_ty, self.output_ty),
    {
        let r: Vec<PortField> = if start {
            vec![PortField::List(copy_type(&self.input_ty))]
        } else {
            match ForEachKind::of(KIND) {
                ForEachKind::ForEach => Vec::new(),
                ForEachKind::ListMap => vec![PortField::Value(copy_type(&self.output_ty))],
                ForEachKind::Filter => vec![PortField::Fixed(EDataType::Boolean)],
                ForEachKind::FilterMap => vec![
                    PortField::Value(copy_type(&self.output_ty)),
                    PortField::Fixed(EDataType::Boolean),
                ],
                ForEachKind::FlatMap => vec![PortField::List(copy_type(&self.output_ty))],
            }
        };
        assert(r@ =~= foreach_inputs(spec_kind_of(KIND), start, self.input_ty, self.output_ty));
        r
    }

    /// The output ports of the start node (`start`) or the end node.
    pub fn outputs(&self, start: bool) -> (r: Vec<PortField>)
        requires
            KIND < 5,
        ensures
            r@ == foreach_outputs(spec_kind_of(KIND), start, self.input_ty, self.output_ty),
    {
        let r: Vec<PortField> = if start {
            vec![
                PortField::Value(copy_type(&self.input_ty)),
                PortField::Fixed(EDataType::Number),
                PortField::Fixed(EDataType::Number),
            ]
        } else if is_map(KIND) {
            vec![PortField::List(copy_type(&self.output_ty))]
        } else if ForEachKind::of(KIND) == ForEachKind::Filter {
            vec![PortField::List(copy_type(&self.input_ty))]
        } else {
            Vec::new()
        };
        assert(r@ =~= foreach_outputs(spec_kind_of(KIND), start, self.input_ty, self.output_ty));
        r
    }

    /// The output port a value of type `ty` is taken from: the list leaving
    /// the end node, for every kind that gives one, when `ty` is a list.
    pub fn output_port_for(ty: &EDataType) -> (r: Option<usize>)
        requires
            KIND < 5,
        ensures
            r == if spec_kind_of(KIND) != ForEachKind::ForEach && ty is List {
                Some(0usize)
            } else {
                None::<usize>
            },
    {
        if ForEachKind::of(KIND) == ForEachKind::ForEach {
            return None;
        }
        match ty {
            EDataType::List { .. } => Some(0),
            _ => None,
        }
    }

    /// The input port a value of type `ty` goes to: the list going into the
    /// start node, when `ty` is a list.
    pub fn input_port_for(ty: &EDataType) -> (r: Option<usize>)
        ensures
            r == if ty is List {
                Some(0usize)
            } else {
                None::<usize>
            },
    {
        match ty {
            EDataType::List { .. } => Some(0),
            _ => None,
        }
    }

    /// After the types of one node of a filter changed, the input type that
    /// the node at the other end of its region is to get (`None`: nothing to
    /// pass on). Without a region graph (`graph_built` false) the node
    /// forgets its input type instead.
    pub fn types_changed(&mut self, graph_built: bool) -> (r: Option<EDataType>)
        requires
            KIND < 5,
        ensures
            final(self).output_ty == old(self).output_ty,
            spec_kind_of(KIND) != ForEachKind::Filter || old(self).input_ty is None ==> r is None && *final(self)
                == *old(self),
            spec_kind_of(KIND) == ForEachKind::Filter && old(self).input_ty is Some ==> if graph_built {
                r == old(self).input_ty && *final(self) == *old(self)
            } else {
                r is None && final(self).input_ty is None
            },
    {
        if ForEachKind::of(KIND) != ForEachKind::Filter {
            return None;
        }
        let ty = match &self.input_ty {
            Some(t) => t.copied(),
            None => {
                return None;
            },
        };
        if !graph_built {
            self.input_ty = None;
            return None;
        }
        Some(ty)
    }

    /// Whether the body of the loop runs (again).
    pub fn should_execute<V>(&self, state: &ForEachNodeState<V>) -> (r: bool)
        ensures
            r == (state.index < state.length),
    {
        state.index < state.length
    }

    /// The start node of a run over the list `values`: hands out the value
    /// at the current index (a filter also keeps a copy), the index, the
    /// length, and the variables.
    pub fn execute_start<V: Clone>(
        &self,
        state: Option<ForEachNodeState<V>>,
        values: &Vec<V>,
        variables: Vec<V>,
    ) -> (r: (ForEachNodeState<V>, StartOutputs<V>))
        requires
            KIND < 5,
            values@.len() > 0 ==> start_state(state, values@.len()).0 < values@.len(),
        ensures
            foreach_start_outcome(KIND, state, values@, variables, r),
    {
        let mut state = match state {
            Some(s) => s,
            None => ForEachNodeState {
                index: 0,
                length: values.len(),
                output: Vec::new(),
                input_value: None,
                values: None,
            },
        };
        let mut value: Option<V> = None;
        if values.len() > 0 {
            value = Some(values[state.index].clone());
            if KIND == 2 {
                state.input_value = Some(values[state.index].clone());
            }
        }
        let index = state.index;
        let length = state.length;
        let mut kept: Vec<V> = Vec::new();
        remember_variables(&mut state.values, variables, &mut kept);
        let variables = kept;
        (state, StartOutputs { value, index, length, variables })
    }

    /// The end node of a run: collects the run's result, then ends the loop
    /// (giving the list, for the kinds that give one, and the variables) or
    /// keeps the variables and runs again.
    pub fn execute_end<V>(&self, state: ForEachNodeState<V>, input: EndInput<V>, variables: Vec<V>) -> (r: EndResult<V>)
        requires
            KIND < 5,
            input_fits(spec_kind_of(KIND), input),
            state.index < usize::MAX,
            (KIND == 2 && state.length > 0 && keeps(input)) ==> state.input_value is Some,
        ensures
            foreach_end_outcome(KIND, state, input, variables, r),
    {
        let mut state = state;
        if state.length > 0 {
            match input {
                EndInput::ForEach => {},
                EndInput::Mapped(v) => {
                    state.output.push(v);
                },
                EndInput::Filter(c) => {
                    if c {
                        let v = state.input_value.take().unwrap();
                        state.output.push(v);
                    }
                },
                EndInput::FilterMap(v, c) => {
                    if c {
                        state.output.push(v);
                    }
                },
                EndInput::FlatMap(vs) => {
                    let mut vs = vs;
                    state.output.append(&mut vs);
                },
            }
        }
        state.index = state.index + 1;
        if state.index >= state.length {
            let list = if is_map(KIND) || is_filter(KIND) {
                Some(state.output)
            } else {
                None
            };
            EndResult::Done { list, variables }
        } else {
            state.values = Some(variables);
            EndResult::Rerun { state }
        }
    }
}

} // verus!

verus! {

/// The state of a running list constructor.
pub struct ConstructNodeState<V> {
    pub current: usize,
    pub repeats: usize,
    pub output: Vec<V>,
    pub values: Option<Vec<V>>,
}

/// What the end node of the list constructor does.
pub enum ConstructResult<V> {
    /// The list is built: the list and the variables.
    Done { list: Vec<V>, variables: Vec<V> },
    /// Run again, with the state kept.
    Rerun { state: ConstructNodeState<V> },
}

/// Builds a list of a given length, one value per run.
#[derive(Debug, Clone, PartialEq, Eq)]
pub struct ConstructListNode {
    pub output_ty: Option<EDataType>,
}

/// What the start node of the list constructor gives (`r`) for `state`.
pub open spec fn construct_start_outcome<V>(
    state: Option<ConstructNodeState<V>>,
    repeats: usize,
    variables: Vec<V>,
    r: (ConstructNodeState<V>, usize, Vec<V>),
) -> bool {
    &&& match state {
        Some(s) => r.0.current == s.current && r.0.repeats == s.repeats && r.0.output@ == s.output@ && r.1 == s.current
            && r.2 == match s.values {
            Some(v) => v,
            None => variables,
        },
        None => r.0.current == 0 && r.0.repeats == repeats && r.0.output@.len() == 0 && r.1 == 0 && r.2 == variables,
    }
    &&& r.0.values is None
}

/// What the end node of the list constructor gives (`r`) for `state`.
pub open spec fn construct_end_outcome<V>(state: ConstructNodeState<V>, value: V, variables: Vec<V>, r: ConstructResult<V>) -> bool {
    let output = if state.repeats > 0 {
        state.output@.push(value)
    } else {
        state.output@
    };
    match r {
        ConstructResult::Done { list, variables: vs } => state.current + 1 >= state.repeats && list@ == output && vs
            == variables,
        ConstructResult::Rerun { state: s } => state.current + 1 < state.repeats && s.current == state.current + 1
            && s.repeats == state.repeats && s.output@ == output && s.values == Some(variables),
    }
}

/// Run `i` of a list constructor hands out index `i` and the variables
/// given to the start node (first run) or kept from the run before.
pub open spec fn run_hands_out<V>(start: (ConstructNodeState<V>, usize, Vec<V>), i: int, ins: Seq<Vec<V>>, xs: Seq<Vec<V>>) -> bool {
    start.1 == i && start.2 == if i == 0 {
        ins[0]
    } else {
        xs[i - 1]
    }
}

/// The state a rerun keeps.
pub open spec fn rerun_state<V>(r: ConstructResult<V>) -> ConstructNodeState<V> {
    match r {
        ConstructResult::Rerun { state } => state,
        ConstructResult::Done { .. } => arbitrary(),
    }
}

/// Over all runs of a list constructor for `n > 0` values: run `i` hands
/// out index `i`, and the variables given to the start node (the first
/// run) or kept by the end node (later runs); every run but the last runs
/// again, and the last gives the list of the `n` values the runs gave, in
/// order. `starts[i]` and `ends[i]` are what the start and end node of run
/// `i` gave; `ins[i]` the variables handed to the start node, `xs[i]` those
/// handed to the end node, `ws[i]` the run's value.
pub proof fn law_construct_runs<V>(
    n: usize,
    starts: Seq<(ConstructNodeState<V>, usize, Vec<V>)>,
    ends: Seq<ConstructResult<V>>,
    ins: Seq<Vec<V>>,
    xs: Seq<Vec<V>>,
    ws: Seq<V>,
)
    requires
        n > 0,
        starts.len() == ends.len() && ends.len() == ins.len() && ins.len() == xs.len() && xs.len() == ws.len(),
        starts.len() > 0,
        construct_start_outcome(None, n, ins[0], starts[0]),
        forall|i: int| 0 < i < starts.len() ==> #[trigger] ends[i - 1] is Rerun && construct_start_outcome(
            Some(rerun_state(ends[i - 1])),
            n,
            ins[i],
            starts[i],
        ),
        forall|i: int| 0 <= i < starts.len() ==> construct_end_outcome(#[trigger] starts[i].0, ws[i], xs[i], ends[i]),
    ensures
        starts.len() <= n,
        forall|i: int| 0 <= i < starts.len() ==> run_hands_out(#[trigger] starts[i], i, ins, xs),
        starts.len() < n ==> ends.last() is Rerun,
        starts.len() == n ==> (ends.last() matches ConstructResult::Done { list, variables } && list@ == ws
            && list@.len() == n && variables == xs.last()),
{
    let m = starts.len();
    assert forall|i: int| 0 <= i < m implies starts[i].0.current == i && starts[i].0.repeats == n && starts[i].0.output@
        == ws.subrange(0, i) && starts[i].0.values is None && #[trigger] starts[i].1 == i by {
        lemma_construct_run(n, starts, ends, ins, xs, ws, i);
    }
    assert forall|i: int| 0 <= i < m implies run_hands_out(#[trigger] starts[i], i, ins, xs) by {
        lemma_construct_run(n, starts, ends, ins, xs, ws, i);
        if i > 0 {
            lemma_construct_run(n, starts, ends, ins, xs, ws, i - 1);
            assert(ends[i - 1] is Rerun);
            assert(construct_end_outcome(starts[i - 1].0, ws[i - 1], xs[i - 1], ends[i - 1]));
            assert(rerun_state(ends[i - 1]).values == Some(xs[i - 1]));
        }
    }
    lemma_construct_run(n, starts, ends, ins, xs, ws, m - 1);
    assert(construct_end_outcome(starts[m - 1].0, ws[m - 1], xs[m - 1], ends[m - 1]));
    assert(ws.subrange(0, m - 1).push(ws[m - 1]) =~= ws);
    if m > n {
        lemma_construct_run(n, starts, ends, ins, xs, ws, n as int);
    }
}

proof fn lemma_construct_run<V>(
    n: usize,
    starts: Seq<(ConstructNodeState<V>, usize, Vec<V>)>,
    ends: Seq<ConstructResult<V>>,
    ins: Seq<Vec<V>>,
    xs: Seq<Vec<V>>,
    ws: Seq<V>,
    i: int,
)
    requires
        n > 0,
        starts.len() == ends.len() && ends.len() == ins.len() && ins.len() == xs.len() && xs.len() == ws.len(),
        construct_start_outcome(None, n, ins[0], starts[0]),
        forall|i: int| 0 < i < starts.len() ==> #[trigger] ends[i - 1] is Rerun && construct_start_outcome(
            Some(rerun_state(ends[i - 1])),
            n,
            ins[i],
            starts[i],
        ),
        forall|i: int| 0 <= i < starts.len() ==> construct_end_outcome(#[trigger] starts[i].0, ws[i], xs[i], ends[i]),
        0 <= i < starts.len(),
    ensures
        starts[i].0.current == i,
        starts[i].0.repeats == n,
        starts[i].0.output@ == ws.subrange(0, i),
        starts[i].0.values is None,
        starts[i].1 == i,
        i < n,
    decreases i,
{
    if i == 0 {
        assert(ws.subrange(0, 0) =~= Seq::<V>::empty());
    } else {
        lemma_construct_run(n, starts, ends, ins, xs, ws, i - 1);
        assert(ends[i - 1] is Rerun);
        assert(construct_end_outcome(starts[i - 1].0, ws[i - 1], xs[i - 1], ends[i - 1]));
        assert(ws.subrange(0, i - 1).push(ws[i - 1]) =~= ws.subrange(0, i));
    }
}

impl ConstructListNode {
    /// A node whose type is not known yet.
    pub fn create() -> (r: Self)
        ensures
            r.output_ty is None,
    {
        ConstructListNode { output_ty: None }
    }

    /// Whether the body runs (again).
    pub fn should_execute<V>(&self, state: &ConstructNodeState<V>) -> (r: bool)
        ensures
            r == (state.current < state.repeats),
    {
        state.current < state.repeats
    }

    /// The start node of a run for a list of length `repeats`: hands out the
    /// index of the run and the variables.
    pub fn execute_start<V>(&self, state: Option<ConstructNodeState<V>>, repeats: usize, variables: Vec<V>) -> (r: (
        ConstructNodeState<V>,
        usize,
        Vec<V>,
    ))
        ensures
            construct_start_outcome(state, repeats, variables, r),
    {
        let mut state = match state {
            Some(s) => s,
            None => ConstructNodeState { current: 0, repeats, output: Vec::new(), values: None },
        };
        let index = state.current;
        let mut kept: Vec<V> = Vec::new();
        remember_variables(&mut state.values, variables, &mut kept);
        let variables = kept;
        (state, index, variables)
    }

    /// The end node of a run: takes the run's value, then gives the list and
    /// the variables once all runs are done, or keeps the variables and runs
    /// again.
    pub fn execute_end<V>(&self, state: ConstructNodeState<V>, value: V, variables: Vec<V>) -> (r: ConstructResult<V>)
        requires
            state.current < usize::MAX,
        ensures
            construct_end_outcome(state, value, variables, r),
    {
        let mut state = state;
        if state.repeats > 0 {
            state.output.push(value);
        }
        state.current = state.current + 1;
        if state.current >= state.repeats {
            ConstructResult::Done { list: state.output, variables }
        } else {
            state.values = Some(variables);
            ConstructResult::Rerun { state }
        }
    }
}

/// The two optional branches: run when a condition holds, or when an
/// optional value is there.
#[derive(Debug, Clone, Copy, PartialEq, Eq, Structural)]
pub enum ConditionalKind {
    If,
    MapOption,
}

impl ConditionalKind {
    /// The branch numbered `kind` (0 or 1).
    pub fn of(kind: u8) -> (r: Self)
        requires
            kind < 2,
        ensures
            r == (if kind == 0 { ConditionalKind::If } else { ConditionalKind::MapOption }),
    {
        match kind {
            0 => ConditionalKind::If,
            _ => ConditionalKind::MapOption,
        }
    }
}

/// How a value leaves an optional branch: wrapped as present, or as absent
/// (of the value's type).
pub enum Optional<V> {
    Present(V),
    AbsentOf(V),
}

/// The values leaving a branch: all present if it ran, all absent otherwise.
pub fn branch_outputs<V>(condition: bool, inputs: Vec<V>) -> (r: Vec<Optional<V>>)
    ensures
        r@.len() == inputs@.len(),
        forall|i: int| 0 <= i < inputs@.len() ==> #[trigger] r@[i] == if condition {
            Optional::Present(inputs@[i])
        } else {
            Optional::AbsentOf(inputs@[i])
        },
{
    let mut inputs = inputs;
    let ghost all = inputs@;
    let mut r: Vec<Optional<V>> = Vec::new();
    let ghost mut taken: Seq<V> = Seq::empty();
    while inputs.len() > 0
        invariant
            all == taken + inputs@,
            r@.len() == taken.len(),
            forall|i: int| 0 <= i < taken.len() ==> #[trigger] r@[i] == if condition {
                Optional::Present(taken[i])
            } else {
                Optional::AbsentOf(taken[i])
            },
        decreases inputs@.len(),
    {
        let ghost before = inputs@;
        let v = inputs.remove(0);
        assert(before =~= seq![v] + inputs@);
        let ghost r0 = r@;
        let ghost vv = v;
        if condition {
            r.push(Optional::Present(v));
        } else {
            r.push(Optional::AbsentOf(v));
        }
        proof {
            taken = taken.push(vv);
            assert(all =~= taken + inputs@);
        }
    }
    assert(taken =~= all);
    r
}

/// Why a step of a region found no state.
#[derive(Debug, Clone, Copy, PartialEq, Eq)]
pub enum RegionStateError {
    /// The end node of the region ran, but its start node did not.
    EndWithoutStart(u128),
}

/// The states that the start nodes of regions leave for their end nodes,
/// by region id.
pub struct RegionStates<T> {
    states: HashMap<u128, T>,
}

impl<T> RegionStates<T> {
    /// The state of each region whose start ran and whose end did not yet.
    pub closed spec fn states(&self) -> Map<u128, T> {
        self.states@
    }

    pub fn new() -> (r: Self)
        ensures
            r.states() == Map::<u128, T>::empty(),
    {
        RegionStates { states: HashMap::new() }
    }

    /// Keeps the state of `region`, or sets it to `init` when it has none.
    pub fn get_or_init(&mut self, region: u128, init: T)
        ensures
            final(self).states() == if old(self).states().contains_key(region) {
                old(self).states()
            } else {
                old(self).states().insert(region, init)
            },
    {
        if !self.states.contains_key(&region) {
            self.states.insert(region, init);
        }
    }

    /// The state of `region`; an end without a start has none.
    pub fn state(&self, region: u128) -> (r: Result<&T, RegionStateError>)
        ensures
            match self.states().get(region) {
                Some(x) => r == Ok::<&T, RegionStateError>(&x),
                None => r == Err::<&T, RegionStateError>(RegionStateError::EndWithoutStart(region)),
            },
    {
        match self.states.get(&region) {
            Some(x) => Ok(x),
            None => Err(RegionStateError::EndWithoutStart(region)),
        }
    }

    /// Drops the state of `region`.
    pub fn remove(&mut self, region: u128)
        ensures
            final(self).states() == old(self).states().remove(region),
    {
        self.states.remove(&region);
    }
}

/// An optional branch of kind `KIND`.
#[derive(Debug, Clone, PartialEq, Eq)]
pub struct ConditionalNode<const KIND: u8> {
    pub input_ty: Option<EDataType>,
}

impl<const KIND: u8> ConditionalNode<KIND> {
    /// The names of the inputs of the start node; the end node has no named
    /// inputs.
    pub fn input_names(&self, start: bool) -> (r: Vec<String>)
        requires
            KIND < 2,
            start,
        ensures
            texts(r@) == if KIND == 0 {
                seq!["condition"@]
            } else {
                seq!["option"@]
            },
    {
        let r: Vec<String> = match ConditionalKind::of(KIND) {
            ConditionalKind::If => vec!["condition".to_owned()],
            ConditionalKind::MapOption => vec!["option".to_owned()],
        };
        assert(texts(r@) =~= if KIND == 0 {
            seq!["condition"@]
        } else {
            seq!["option"@]
        });
        r
    }

    /// The names of the outputs of the start node; the end node has no named
    /// outputs.
    pub fn output_names(&self, start: bool) -> (r: Vec<String>)
        requires
            KIND < 2,
            start,
        ensures
            texts(r@) == if KIND == 0 {
                Seq::<Seq<char>>::empty()
            } else {
                seq!["value"@]
            },
    {
        let r: Vec<String> = match ConditionalKind::of(KIND) {
            ConditionalKind::If => Vec::new(),
            ConditionalKind::MapOption => vec!["value".to_owned()],
        };
        assert(texts(r@) =~= if KIND == 0 {
            Seq::<Seq<char>>::empty()
        } else {
            seq!["value"@]
        });
        r
    }

    /// On which sides the node has variables: (inputs, outputs); only the
    /// end node has them.
    pub fn allow_variables(&self, start: bool) -> (r: (bool, bool))
        ensures
            r == (!start, !start),
    {
        (!start, !start)
    }

    /// The input ports of the start node (`start`) or the end node: the
    /// condition, or the optional value.
    pub fn inputs(&self, start: bool) -> (r: Vec<PortField>)
        requires
            KIND < 2,
        ensures
            r@ == if !start {
                Seq::<PortField>::empty()
            } else if KIND == 0 {
                seq![PortField::Fixed(EDataType::Boolean)]
            } else {
                seq![PortField::Optional(self.input_ty)]
            },
    {
        let r: Vec<PortField> = if !start {
            Vec::new()
        } else {
            match ConditionalKind::of(KIND) {
                ConditionalKind::If => vec![PortField::Fixed(EDataType::Boolean)],
                ConditionalKind::MapOption => vec![PortField::Optional(copy_type(&self.input_ty))],
            }
        };
        assert(r@ =~= if !start {
            Seq::<PortField>::empty()
        } else if KIND == 0 {
            seq![PortField::Fixed(EDataType::Boolean)]
        } else {
            seq![PortField::Optional(self.input_ty)]
        });
        r
    }

    /// The output ports of the start node (`start`) or the end node: the
    /// value inside the option, for the optional branch.
    pub fn outputs(&self, start: bool) -> (r: Vec<PortField>)
        requires
            KIND < 2,
        ensures
            r@ == if start && KIND == 1 {
                seq![PortField::Value(self.input_ty)]
            } else {
                Seq::<PortField>::empty()
            },
    {
        let r: Vec<PortField> = if start && ConditionalKind::of(KIND) == ConditionalKind::MapOption {
            vec![PortField::Value(copy_type(&self.input_ty))]
        } else {
            Vec::new()
        };
        assert(r@ =~= if start && KIND == 1 {
            seq![PortField::Value(self.input_ty)]
        } else {
            Seq::<PortField>::empty()
        });
        r
    }

    pub fn kind(&self) -> (r: ConditionalKind)
        requires
            KIND < 2,
        ensures
            r == (if KIND == 0 { ConditionalKind::If } else { ConditionalKind::MapOption }),
    {
        ConditionalKind::of(KIND)
    }

    /// A node whose type is not known yet.
    pub fn create() -> (r: Self)
        ensures
            r.input_ty is None,
    {
        ConditionalNode { input_ty: None }
    }

    /// The start node of an `if` branch: whether the branch runs.
    pub fn execute_start_if(&self, condition: bool) -> (r: bool)
        ensures
            r == condition,
    {
        condition
    }

    /// The start node of a branch on an optional value: whether the branch
    /// runs (the value is there) and what it hands out (the value).
    pub fn execute_start_map<V>(&self, value: Option<V>) -> (r: (bool, Vec<V>))
        ensures
            r.0 == value is Some,
            r.1@ == match value {
                Some(v) => seq![v],
                None => Seq::<V>::empty(),
            },
    {
        let mut outputs: Vec<V> = Vec::new();
        let condition = value.is_some();
        if let Some(v) = value {
            outputs.push(v);
        }
        assert(outputs@ =~= match value {
            Some(v) => seq![v],
            None => Seq::<V>::empty(),
        });
        (condition, outputs)
    }

    /// The start node of an `if` branch of `region`, keeping whether the
    /// branch runs for the end node (a state already kept stays).
    pub fn start_if_in(&self, states: &mut RegionStates<bool>, region: u128, condition: bool)
        ensures
            final(states).states() == if old(states).states().contains_key(region) {
                old(states).states()
            } else {
                old(states).states().insert(region, condition)
            },
    {
        let c = self.execute_start_if(condition);
        states.get_or_init(region, c);
    }

    /// The start node of a branch of `region` on an optional value, keeping
    /// whether the value is there for the end node; it hands out the value.
    pub fn start_map_in<V>(&self, states: &mut RegionStates<bool>, region: u128, value: Option<V>) -> (r: Vec<V>)
        ensures
            final(states).states() == if old(states).states().contains_key(region) {
                old(states).states()
            } else {
                old(states).states().insert(region, value is Some)
            },
            r@ == match value {
                Some(v) => seq![v],
                None => Seq::<V>::empty(),
            },
    {
        let (c, out) = self.execute_start_map(value);
        states.get_or_init(region, c);
        out
    }

    /// The end node of `region`: its inputs leave present if the branch ran,
    /// absent otherwise, by the state its start node kept, which is then
    /// dropped. An end without a start is refused, and nothing changes.
    pub fn end_in<V>(&self, states: &mut RegionStates<bool>, region: u128, inputs: Vec<V>) -> (r: Result<
        Vec<Optional<V>>,
        RegionStateError,
    >)
        ensures
            old(states).states().contains_key(region) ==> {
                &&& final(states).states() == old(states).states().remove(region)
                &&& r matches Ok(out) && out@.len() == inputs@.len() && forall|i: int|
                    0 <= i < inputs@.len() ==> #[trigger] out@[i] == if old(states).states()[region] {
                        Optional::Present(inputs@[i])
                    } else {
                        Optional::AbsentOf(inputs@[i])
                    }
            },
            !old(states).states().contains_key(region) ==> {
                &&& r == Err::<Vec<Optional<V>>, RegionStateError>(RegionStateError::EndWithoutStart(region))
                &&& final(states).states() == old(states).states()
            },
    {
        let condition = match states.state(region) {
            Ok(c) => *c,
            Err(e) => {
                return Err(e);
            },
        };
        let out = self.execute_end(condition, inputs);
        states.remove(region);
        Ok(out)
    }

    /// The end node: its inputs leave present if the branch ran, absent
    /// otherwise.
    pub fn execute_end<V>(&self, condition: bool, inputs: Vec<V>) -> (r: Vec<Optional<V>>)
        ensures
            r@.len() == inputs@.len(),
            forall|i: int| 0 <= i < inputs@.len() ==> #[trigger] r@[i] == if condition {
                Optional::Present(inputs@[i])
            } else {
                Optional::AbsentOf(inputs@[i])
            },
    {
        branch_outputs(condition, inputs)
    }
}

} // verus!

verus! {

/// The first of `values` that is there or failed to be read (`None` when
/// all are absent).
pub open spec fn first_present<V, E>(values: Seq<Result<Option<V>, E>>) -> Option<Result<V, E>>
    decreases values.len(),
{
    if values.len() == 0 {
        None
    } else {
        match values[0] {
            Ok(None) => first_present(values.drop_first()),
            Ok(Some(v)) => Some(Ok(v)),
            Err(e) => Some(Err(e)),
        }
    }
}

/// How a coalescing node answers: with the first value there, or (with
/// `DEFAULT`) the default value of the type, or else an absent value.
pub enum Coalesced<V> {
    Value(V),
    DefaultOfType,
    Absent,
    Present(V),
}

/// Gives the first of its inputs that is there.
#[derive(Debug, Clone, PartialEq, Eq)]
pub struct Coalesce<const DEFAULT: bool> {
    pub output_ty: Option<EDataType>,
}

impl<const DEFAULT: bool> Coalesce<DEFAULT> {
    /// A node whose type is not known yet.
    pub fn create() -> (r: Self)
        ensures
            r.output_ty is None,
    {
        Coalesce { output_ty: None }
    }

    /// Picks the answer from the inputs, each read as optional (the first
    /// failed read among those before the first value is the error).
    pub fn execute<V, E>(&self, inputs: Vec<Result<Option<V>, E>>) -> (r: Result<Coalesced<V>, E>)
        ensures
            match first_present(inputs@) {
                Some(Err(e)) => r == Err::<Coalesced<V>, E>(e),
                Some(Ok(v)) => r == Ok::<Coalesced<V>, E>(if DEFAULT { Coalesced::Value(v) } else { Coalesced::Present(v) }),
                None => r == Ok::<Coalesced<V>, E>(if DEFAULT { Coalesced::DefaultOfType } else { Coalesced::Absent }),
            },
    {
        let mut rest = inputs;
        let ghost all = rest@;
        while rest.len() > 0
            invariant
                first_present(rest@) == first_present(all),
                all == inputs@,
            decreases rest@.len(),
        {
            let ghost before = rest@;
            let x = rest.remove(0);
            assert(rest@ =~= before.drop_first());
            assert(before[0] == x);
            match x {
                Ok(None) => {},
                Ok(Some(v)) => {
                    assert(first_present(before) == Some(Ok::<V, E>(v)));
                    return Ok(if DEFAULT { Coalesced::Value(v) } else { Coalesced::Present(v) });
                },
                Err(e) => {
                    assert(first_present(before) == Some(Err::<V, E>(e)));
                    return Err(e);
                },
            }
        }
        Ok(if DEFAULT { Coalesced::DefaultOfType } else { Coalesced::Absent })
    }
}

} // verus!

verus! {

/// What a loop has collected after runs with these end inputs (and, for a
/// filter, these values handed out by the start node).
pub open spec fn collect_runs<V>(kind: ForEachKind, handed: Seq<Option<V>>, inputs: Seq<EndInput<V>>) -> Seq<V>
    decreases inputs.len(),
{
    if inputs.len() == 0 {
        Seq::empty()
    } else {
        collect(kind, collect_runs(kind, handed.drop_last(), inputs.drop_last()), handed.last(), inputs.last())
    }
}

/// The values of `xs` whose condition in `cs` holds, in order.
pub open spec fn kept_values<V>(xs: Seq<V>, cs: Seq<bool>) -> Seq<V>
    decreases xs.len(),
{
    if xs.len() == 0 {
        Seq::empty()
    } else {
        let rest = kept_values(xs.drop_last(), cs.drop_last());
        if cs.last() {
            rest.push(xs.last())
        } else {
            rest
        }
    }
}

/// The lists of `ls` one after the other.
pub open spec fn concat<V>(ls: Seq<Seq<V>>) -> Seq<V>
    decreases ls.len(),
{
    if ls.len() == 0 {
        Seq::empty()
    } else {
        concat(ls.drop_last()) + ls.last()
    }
}

/// A map loop gives what its body gave in each run, in order.
pub proof fn law_map_collects_results<V>(handed: Seq<Option<V>>, results: Seq<V>)
    requires
        handed.len() == results.len(),
    ensures
        collect_runs(ForEachKind::ListMap, handed, results.map_values(|v: V| EndInput::Mapped(v))) == results,
    decreases results.len(),
{
    let ins = results.map_values(|v: V| EndInput::Mapped(v));
    if results.len() > 0 {
        assert(ins.drop_last() =~= results.drop_last().map_values(|v: V| EndInput::Mapped(v)));
        law_map_collects_results(handed.drop_last(), results.drop_last());
        assert(results.drop_last().push(results.last()) =~= results);
    } else {
        assert(ins.len() == 0);
    }
}

/// A filter loop keeps, in order, the values handed out in the runs whose
/// condition held.
pub proof fn law_filter_keeps_matching<V>(values: Seq<V>, conditions: Seq<bool>)
    requires
        values.len() == conditions.len(),
    ensures
        collect_runs(
            ForEachKind::Filter,
            values.map_values(|v: V| Some(v)),
            conditions.map_values(|c: bool| EndInput::<V>::Filter(c)),
        ) == kept_values(values, conditions),
    decreases values.len(),
{
    let h = values.map_values(|v: V| Some(v));
    let ins = conditions.map_values(|c: bool| EndInput::<V>::Filter(c));
    if values.len() > 0 {
        assert(h.drop_last() =~= values.drop_last().map_values(|v: V| Some(v)));
        assert(ins.drop_last() =~= conditions.drop_last().map_values(|c: bool| EndInput::<V>::Filter(c)));
        law_filter_keeps_matching(values.drop_last(), conditions.drop_last());
    } else {
        assert(ins.len() == 0);
    }
}

/// A flat-map loop gives the lists its body gave, one after the other.
pub proof fn law_flat_map_concatenates<V>(handed: Seq<Option<V>>, lists: Seq<Vec<V>>)
    requires
        handed.len() == lists.len(),
    ensures
        collect_runs(ForEachKind::FlatMap, handed, lists.map_values(|l: Vec<V>| EndInput::FlatMap(l))) == concat(
            lists.map_values(|l: Vec<V>| l@),
        ),
    decreases lists.len(),
{
    let ins = lists.map_values(|l: Vec<V>| EndInput::FlatMap(l));
    let vs = lists.map_values(|l: Vec<V>| l@);
    if lists.len() > 0 {
        assert(ins.drop_last() =~= lists.drop_last().map_values(|l: Vec<V>| EndInput::FlatMap(l)));
        assert(vs.drop_last() =~= lists.drop_last().map_values(|l: Vec<V>| l@));
        law_flat_map_concatenates(handed.drop_last(), lists.drop_last());
    } else {
        assert(ins.len() == 0);
        assert(vs.len() == 0);
    }
}

} // verus!

verus! {

/// A value file of the project, as the loop over stored items sees it: its
/// path, the id of its value's type, the value, and, for a value of an enum
/// type, its variant and the variant's data.
pub struct ValueFile<V> {
    pub path: String,
    pub ty: u128,
    pub value: V,
    pub variant: Option<(u128, V)>,
}

/// Why the stored items could not be listed.
#[derive(Debug, Clone, Copy, PartialEq, Eq)]
pub enum DbeItemError {
    /// A value of the type was not of an enum, though a variant was asked
    /// for.
    ExpectedEnum,
}

/// What the file `f` gives to a loop over the items of type `ty` (of
/// variant `expected`, when given): its path and value when its type is
/// `ty`; with a variant, the variant's data when its variant is `expected`.
pub open spec fn dbe_pick<V>(f: ValueFile<V>, ty: u128, expected: Option<u128>) -> Result<
    Option<(Seq<char>, V)>,
    DbeItemError,
> {
    if f.ty != ty {
        Ok(None)
    } else {
        match expected {
            None => Ok(Some((f.path@, f.value))),
            Some(v) => match f.variant {
                None => Err(DbeItemError::ExpectedEnum),
                Some((w, data)) => if w == v {
                    Ok(Some((f.path@, data)))
                } else {
                    Ok(None)
                },
            },
        }
    }
}

/// The items that `files` give, in their order; the first file that fails
/// fails the whole.
pub open spec fn dbe_picked<V>(files: Seq<ValueFile<V>>, ty: u128, expected: Option<u128>) -> Result<
    Seq<(Seq<char>, V)>,
    DbeItemError,
>
    decreases files.len(),
{
    if files.len() == 0 {
        Ok(Seq::empty())
    } else {
        match dbe_picked(files.drop_last(), ty, expected) {
            Err(e) => Err(e),
            Ok(acc) => match dbe_pick(files.last(), ty, expected) {
                Err(e) => Err(e),
                Ok(None) => Ok(acc),
                Ok(Some(x)) => Ok(acc.push(x)),
            },
        }
    }
}

pub open spec fn item_views<V>(v: Seq<(String, V)>) -> Seq<(Seq<char>, V)> {
    v.map_values(|x: (String, V)| (x.0@, x.1))
}

/// The stored items a loop over items of type `ty` (of variant `expected`,
/// when given) runs over (`ForEachDbeItem`'s start), from the project's
/// value files in the order they are given (the project's order of paths).
pub fn dbe_items<V>(input: Vec<ValueFile<V>>, ty: u128, expected: Option<u128>) -> (r: Result<
    Vec<(String, V)>,
    DbeItemError,
>)
    ensures
        match (r, dbe_picked(input@, ty, expected)) {
            (Ok(v), Ok(s)) => item_views(v@) == s,
            (Err(e), Err(s)) => e == s,
            _ => false,
        },
{
    let ghost all = input@;
    let mut files = input;
    let mut out: Vec<(String, V)> = Vec::new();
    let ghost mut k: int = 0;
    assert(all.subrange(0, 0) =~= Seq::<ValueFile<V>>::empty());
    assert(item_views(out@) =~= Seq::<(Seq<char>, V)>::empty());
    assert(files@ =~= all.subrange(0, all.len() as int));
    while files.len() > 0
        invariant
            0 <= k <= all.len(),
            files@ == all.subrange(k, all.len() as int),
            dbe_picked(all.subrange(0, k), ty, expected) == Ok::<Seq<(Seq<char>, V)>, DbeItemError>(item_views(out@)),
            all == input@,
        decreases files@.len(),
    {
        let f = files.remove(0);
        proof {
            assert(f == all[k]);
            assert(all.subrange(0, k + 1).drop_last() =~= all.subrange(0, k));
            assert(all.subrange(0, k + 1).last() == all[k]);
        }
        if f.ty == ty {
            match expected {
                None => {
                    let ghost before = out@;
                    out.push((f.path, f.value));
                    assert(item_views(out@) =~= item_views(before).push((all[k].path@, all[k].value)));
                },
                Some(v) => match f.variant {
                    None => {
                        proof {
                            assert(dbe_pick(all[k], ty, expected) == Err::<Option<(Seq<char>, V)>, DbeItemError>(
                                DbeItemError::ExpectedEnum,
                            ));
                            assert(dbe_picked(all.subrange(0, k + 1), ty, expected) == Err::<
                                Seq<(Seq<char>, V)>,
                                DbeItemError,
                            >(DbeItemError::ExpectedEnum));
                            lemma_dbe_err(all, ty, expected, k + 1, all.len() as int);
                            assert(all.subrange(0, all.len() as int) =~= all);
                        }
                        return Err(DbeItemError::ExpectedEnum);
                    },
                    Some((w, data)) => {
                        if w == v {
                            let ghost before = out@;
                            out.push((f.path, data));
                            assert(item_views(out@) =~= item_views(before).push((all[k].path@, (all[k].variant->0).1)));
                        }
                    },
                },
            }
        }
        proof {
            k = k + 1;
            assert(files@ =~= all.subrange(k, all.len() as int));
        }
    }
    assert(all.subrange(0, k) =~= all);
    Ok(out)
}

proof fn lemma_dbe_err<V>(all: Seq<ValueFile<V>>, ty: u128, expected: Option<u128>, i: int, j: int)
    requires
        0 <= i <= j <= all.len(),
        dbe_picked(all.subrange(0, i), ty, expected) is Err,
    ensures
        dbe_picked(all.subrange(0, j), ty, expected) == dbe_picked(all.subrange(0, i), ty, expected),
    decreases j - i,
{
    if j > i {
        lemma_dbe_err(all, ty, expected, i, j - 1);
        assert(all.subrange(0, j).drop_last() =~= all.subrange(0, j - 1));
    }
}

} // verus!

verus! {

/// Without a variant asked for, a loop over the stored items of type `ty`
/// runs over every file of that type, in order, each with its own value;
/// nothing fails, and the files' variants play no part.
pub proof fn law_items_without_variant_are_values<V>(files: Seq<ValueFile<V>>, ty: u128)
    ensures
        dbe_picked(files, ty, None) == Ok::<Seq<(Seq<char>, V)>, DbeItemError>(
            files.filter_map(|f: ValueFile<V>| if f.ty == ty {
                Some((f.path@, f.value))
            } else {
                None
            }),
        ),
    decreases files.len(),
{
    let pick = |f: ValueFile<V>| if f.ty == ty {
        Some((f.path@, f.value))
    } else {
        None
    };
    if files.len() > 0 {
        let rest = files.drop_last();
        law_items_without_variant_are_values(rest, ty);
        let acc = rest.filter_map(pick);
        assert(dbe_picked(rest, ty, None) == Ok::<Seq<(Seq<char>, V)>, DbeItemError>(acc));
        let last = files.last();
        if last.ty == ty {
            assert(acc.push((last.path@, last.value)) =~= acc + seq![(last.path@, last.value)]);
        }
    }
}

} // verus!
