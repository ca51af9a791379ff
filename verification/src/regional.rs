//! The first regional nodes: for each (with its own state), repeat, and the
//! conditional branch, as steps of a region that the graph runs again and
//! again.
use crate::generic_regional::{branch_outputs, remember_variables, Optional};
use crate::parsing::EDataType;
use vstd::prelude::*;

verus! {

/// The state of a running for-each loop.
pub struct ForEachState<V> {
    pub index: usize,
    pub length: usize,
    pub output: Vec<V>,
    /// What the end node received in the last run, handed out again.
    pub values: Option<Vec<V>>,
}

/// What the end node of a for-each loop does.
pub enum ForEachResult<V> {
    /// The loop is over: the collected list and the end node's other inputs.
    Done { list: Vec<V>, rest: Vec<V> },
    /// Run again, with the state kept.
    Rerun { state: ForEachState<V> },
}

/// Runs its region once for each value of a list and collects what the body
/// gives.
#[derive(Debug, Clone, PartialEq, Eq)]
pub struct ForEachRegionalNode {
    pub input_ty: Option<EDataType>,
    pub output_ty: Option<EDataType>,
}

impl ForEachRegionalNode {
    /// A node whose types are not known yet.
    pub fn create() -> (r: Self)
        ensures
            r.input_ty is None,
            r.output_ty is None,
    {
        ForEachRegionalNode { input_ty: None, output_ty: None }
    }

    /// Whether the body runs (again).
    pub fn should_execute<V>(&self, state: &ForEachState<V>) -> (r: bool)
        ensures
            r == (state.index < state.length),
    {
        state.index < state.length
    }

    /// The start node of a run over `values`: hands out the value at the
    /// current index, the index, and the values kept from the last run (or
    /// else its own extra inputs).
    pub fn execute_start<V: Clone>(&self, state: Option<ForEachState<V>>, values: &Vec<V>, rest: Vec<V>) -> (r: (
        ForEachState<V>,
        V,
        usize,
        Vec<V>,
    ))
        requires
            match state {
                Some(s) => s.index < values@.len(),
                None => values@.len() > 0,
            },
        ensures
            match state {
                Some(s) => r.0.index == s.index && r.0.length == s.length && r.0.output@ == s.output@ && r.2
                    == s.index && r.3 == match s.values {
                    Some(v) => v,
                    None => rest,
                },
                None => r.0.index == 0 && r.0.length == values@.len() && r.0.output@.len() == 0 && r.2 == 0 && r.3
                    == rest,
            },
            r.0.values is None,
            cloned(values@[r.2 as int], r.1),
    {
        let mut state = match state {
            Some(s) => s,
            None => ForEachState { index: 0, length: values.len(), output: Vec::new(), values: None },
        };
        let value = values[state.index].clone();
        let index = state.index;
        let mut variables: Vec<V> = Vec::new();
        remember_variables(&mut state.values, rest, &mut variables);
        (state, value, index, variables)
    }

    /// The end node of a run: collects the body's value (a copy of the first
    /// input), then gives the list and the other inputs once the list is
    /// done, or keeps all its inputs for the next run.
    pub fn execute_end<V: Clone>(&self, state: ForEachState<V>, inputs: Vec<V>) -> (r: ForEachResult<V>)
        requires
            inputs@.len() > 0,
            state.index < usize::MAX,
        ensures
            match r {
                ForEachResult::Done { list, rest } => state.index + 1 >= state.length && list@.len()
                    == state.output@.len() + 1 && list@.subrange(0, state.output@.len() as int) == state.output@
                    && cloned(inputs@[0], list@.last()) && rest@ == inputs@.drop_first(),
                ForEachResult::Rerun { state: s } => state.index + 1 < state.length && s.index == state.index + 1
                    && s.length == state.length && s.output@.len() == state.output@.len() + 1 && s.output@.subrange(
                    0,
                    state.output@.len() as int,
                ) == state.output@ && cloned(inputs@[0], s.output@.last()) && s.values == Some(inputs),
            },
    {
        let mut state = state;
        state.index = state.index + 1;
        let first = inputs[0].clone();
        let ghost before = state.output@;
        state.output.push(first);
        assert(state.output@.subrange(0, before.len() as int) =~= before);
        if state.index >= state.length {
            let mut inputs = inputs;
            let ghost all = inputs@;
            inputs.remove(0);
            assert(inputs@ =~= all.drop_first());
            ForEachResult::Done { list: state.output, rest: inputs }
        } else {
            state.values = Some(inputs);
            ForEachResult::Rerun { state }
        }
    }
}

/// The state of a running repeat loop.
pub struct RepeatNodeState<V> {
    pub repeats: u32,
    pub current: u32,
    pub values: Option<Vec<V>>,
}

/// What the end node of a repeat loop does.
pub enum RepeatResult<V> {
    /// The loop is over: the end node's inputs leave.
    Done { outputs: Vec<V> },
    /// Run again, with the state kept.
    Rerun { state: RepeatNodeState<V> },
}

/// Runs its region a given number of times.
#[derive(Debug, Clone, Copy, PartialEq, Eq)]
pub struct RepeatNode;

impl RepeatNode {
    pub fn create() -> (r: Self) {
        RepeatNode
    }

    /// Whether the body runs (again).
    pub fn should_execute<V>(&self, state: &RepeatNodeState<V>) -> (r: bool)
        ensures
            r == (state.current < state.repeats),
    {
        state.current < state.repeats
    }

    /// The start node of a run of `repeats` runs: hands out the number of the
    /// run and the variables.
    pub fn execute_start<V>(&self, state: Option<RepeatNodeState<V>>, repeats: u32, variables: Vec<V>) -> (r: (
        RepeatNodeState<V>,
        u32,
        Vec<V>,
    ))
        ensures
            match state {
                Some(s) => r.0.repeats == s.repeats && r.0.current == s.current && r.1 == s.current && r.2
                    == match s.values {
                    Some(v) => v,
                    None => variables,
                },
                None => r.0.repeats == repeats && r.0.current == 0 && r.1 == 0 && r.2 == variables,
            },
            r.0.values is None,
    {
        let mut state = match state {
            Some(s) => s,
            None => RepeatNodeState { repeats, current: 0, values: None },
        };
        let current = state.current;
        let mut kept: Vec<V> = Vec::new();
        remember_variables(&mut state.values, variables, &mut kept);
        let variables = kept;
        (state, current, variables)
    }

    /// The end node of a run: lets its inputs leave after the last run, or
    /// keeps them for the next.
    pub fn execute_end<V>(&self, state: RepeatNodeState<V>, inputs: Vec<V>) -> (r: RepeatResult<V>)
        requires
            state.current < u32::MAX,
        ensures
            match r {
                RepeatResult::Done { outputs } => state.current + 1 >= state.repeats && outputs == inputs,
                RepeatResult::Rerun { state: s } => state.current + 1 < state.repeats && s.current == state.current
                    + 1 && s.repeats == state.repeats && s.values == Some(inputs),
            },
    {
        let mut state = state;
        state.current = state.current + 1;
        if state.current >= state.repeats {
            RepeatResult::Done { outputs: inputs }
        } else {
            state.values = Some(inputs);
            RepeatResult::Rerun { state }
        }
    }
}

/// Runs its region only when a condition holds; the values leaving it are
/// optional.
#[derive(Debug, Clone, Copy, PartialEq, Eq)]
pub struct ConditionalNode;

impl ConditionalNode {
    pub fn create() -> (r: Self) {
        ConditionalNode
    }

    /// Whether the branch runs.
    pub fn should_execute(&self, condition: bool) -> (r: bool)
        ensures
            r == condition,
    {
        condition
    }

    /// The end node: its inputs leave present if the branch ran, absent
    /// otherwise.
    pub fn execute_end<V>(&self, condition: bool, inputs: Vec<V>) -> (r: Vec<Optional<V>>)
        ensures
            r@.len() == inputs@.len(),
            forall|i: int| 0 <= i < inputs@.len() ==> #[trigger] r@[i] == if condition {
                Optional::Present(inputs@[i])
            } else {
                Optional::AbsentOf(inputs@[i])
            },
    {
        branch_outputs(condition, inputs)
    }
}

/// The item type of the registered list `id`: the first entry for it among
/// `lists` (each a list id and its item type), from index `i` on.
pub open spec fn list_item_from(lists: Seq<(u128, EDataType)>, id: u128, i: int) -> Option<EDataType>
    decreases lists.len() - i,
{
    if i < 0 || i >= lists.len() {
        None
    } else if lists[i].0 == id {
        Some(lists[i].1)
    } else {
        list_item_from(lists, id, i + 1)
    }
}

/// The item type of the registered list `id`.
pub open spec fn list_item(lists: Seq<(u128, EDataType)>, id: u128) -> Option<EDataType> {
    list_item_from(lists, id, 0)
}

/// Looks up the item type of the registered list `id`.
pub fn find_list_item(lists: &Vec<(u128, EDataType)>, id: u128) -> (r: Option<EDataType>)
    ensures
        r == list_item(lists@, id),
{
    let mut i: usize = 0;
    while i < lists.len()
        invariant
            i <= lists@.len(),
            list_item(lists@, id) == list_item_from(lists@, id, i as int),
        decreases lists@.len() - i,
    {
        if lists[i].0 == id {
            return Some(lists[i].1.copied());
        }
        i = i + 1;
    }
    None
}

/// Why a wire to or from a for-each node was refused.
#[derive(Debug, Clone, Copy, PartialEq, Eq)]
pub enum ConnectError {
    /// The node has no such input; it has one.
    InvalidInput(usize),
    /// No list is registered under this id.
    UnknownList(u128),
    /// The type of the list going in is already known.
    InputTypeSet,
    /// The type of the values coming out is already known.
    OutputTypeSet,
    /// A list was expected.
    ExpectedList,
}

/// Whether an incoming wire may go on to the usual checks.
#[derive(Debug, Clone, Copy, PartialEq, Eq)]
pub enum ConnectFlow {
    /// Go on (the node may have taken a type from the wire).
    Continue,
    /// Refuse the wire.
    Refused,
}

impl ForEachRegionalNode {
    /// A wire comes into input `input` of the start node (`start`) or of the
    /// end node, carrying `incoming` (`None` when its type is not a specific
    /// one). The start node takes the item type of the incoming list, looked
    /// up among the registered `lists`; the end node takes the incoming type.
    /// A node whose type is known lets the wire go on unchanged.
    pub fn try_connect(
        &mut self,
        start: bool,
        input: usize,
        incoming: Option<EDataType>,
        lists: &Vec<(u128, EDataType)>,
    ) -> (r: Result<ConnectFlow, ConnectError>)
        ensures
            input != 0 ==> r == Err::<ConnectFlow, ConnectError>(ConnectError::InvalidInput(input))
                && *final(self) == *old(self),
            input == 0 && start ==> {
                &&& final(self).output_ty == old(self).output_ty
                &&& old(self).input_ty is Some ==> r == Ok::<ConnectFlow, ConnectError>(ConnectFlow::Continue)
                    && final(self).input_ty == old(self).input_ty
                &&& old(self).input_ty is None ==> match incoming {
                    Some(EDataType::List { id }) => match list_item(lists@, id) {
                        Some(t) => r == Ok::<ConnectFlow, ConnectError>(ConnectFlow::Continue)
                            && final(self).input_ty == Some(t),
                        None => r == Err::<ConnectFlow, ConnectError>(ConnectError::UnknownList(id))
                            && final(self).input_ty is None,
                    },
                    _ => r == Ok::<ConnectFlow, ConnectError>(ConnectFlow::Refused) && final(self).input_ty is None,
                }
            },
            input == 0 && !start ==> {
                &&& final(self).input_ty == old(self).input_ty
                &&& old(self).output_ty is Some ==> r == Ok::<ConnectFlow, ConnectError>(ConnectFlow::Continue)
                    && final(self).output_ty == old(self).output_ty
                &&& old(self).output_ty is None && incoming is None ==> r == Ok::<ConnectFlow, ConnectError>(
                    ConnectFlow::Refused,
                ) && final(self).output_ty is None
                &&& old(self).output_ty is None && incoming is Some ==> r == Ok::<ConnectFlow, ConnectError>(
                    ConnectFlow::Continue,
                ) && final(self).output_ty == incoming
            },
    {
        if input != 0 {
            return Err(ConnectError::InvalidInput(input));
        }
        if start {
            if self.input_ty.is_some() {
                return Ok(ConnectFlow::Continue);
            }
            let id = match incoming {
                Some(EDataType::List { id }) => id,
                _ => {
                    return Ok(ConnectFlow::Refused);
                },
            };
            match find_list_item(lists, id) {
                Some(t) => {
                    self.input_ty = Some(t);
                    Ok(ConnectFlow::Continue)
                },
                None => Err(ConnectError::UnknownList(id)),
            }
        } else {
            if self.output_ty.is_some() {
                return Ok(ConnectFlow::Continue);
            }
            match incoming {
                Some(t) => {
                    self.output_ty = Some(t);
                    Ok(ConnectFlow::Continue)
                },
                None => Ok(ConnectFlow::Refused),
            }
        }
    }

    /// Whether the start node (`start`) or the end node may be wired to
    /// input `to_input` of type `target` (`None` when it is not a specific
    /// one): only to input 0, only while the node's type on that side is
    /// unknown, and from the end node only to a list.
    pub fn can_output_to(&self, start: bool, to_input: usize, target: &Option<EDataType>) -> (r: Result<
        bool,
        ConnectError,
    >)
        ensures
            to_input != 0 ==> r == Err::<bool, ConnectError>(ConnectError::InvalidInput(to_input)),
            to_input == 0 && start ==> r == if self.input_ty is Some {
                Err::<bool, ConnectError>(ConnectError::InputTypeSet)
            } else {
                Ok::<bool, ConnectError>(true)
            },
            to_input == 0 && !start ==> r == if self.output_ty is Some {
                Err::<bool, ConnectError>(ConnectError::OutputTypeSet)
            } else {
                Ok::<bool, ConnectError>(*target matches Some(EDataType::List { .. }))
            },
    {
        if to_input != 0 {
            return Err(ConnectError::InvalidInput(to_input));
        }
        if start {
            if self.input_ty.is_some() {
                return Err(ConnectError::InputTypeSet);
            }
            Ok(true)
        } else {
            if self.output_ty.is_some() {
                return Err(ConnectError::OutputTypeSet);
            }
            match target {
                Some(EDataType::List { .. }) => Ok(true),
                _ => Ok(false),
            }
        }
    }

    /// The start node (`start`) or the end node was wired to input
    /// `to_input`, of type `incoming`: the start node takes that type as its
    /// input type; the end node, which must get a list, takes its item type,
    /// looked up among the registered `lists`. Only input 0 is accepted.
    pub fn connected_to_output(
        &mut self,
        start: bool,
        to_input: usize,
        incoming: EDataType,
        lists: &Vec<(u128, EDataType)>,
    ) -> (r: Result<(), ConnectError>)
        ensures
            r is Err ==> *final(self) == *old(self),
            to_input != 0 ==> r == Err::<(), ConnectError>(ConnectError::InvalidInput(to_input)),
            to_input == 0 && start ==> if old(self).input_ty is Some {
                r == Err::<(), ConnectError>(ConnectError::InputTypeSet)
            } else {
                r is Ok && final(self).input_ty == Some(incoming) && final(self).output_ty == old(self).output_ty
            },
            to_input == 0 && !start ==> if old(self).output_ty is Some {
                r == Err::<(), ConnectError>(ConnectError::OutputTypeSet)
            } else {
                match incoming {
                    EDataType::List { id } => match list_item(lists@, id) {
                        Some(t) => r is Ok && final(self).output_ty == Some(t) && final(self).input_ty
                            == old(self).input_ty,
                        None => r == Err::<(), ConnectError>(ConnectError::UnknownList(id)),
                    },
                    _ => r == Err::<(), ConnectError>(ConnectError::ExpectedList),
                }
            },
    {
        if to_input != 0 {
            return Err(ConnectError::InvalidInput(to_input));
        }
        if start {
            if self.input_ty.is_some() {
                return Err(ConnectError::InputTypeSet);
            }
            self.input_ty = Some(incoming);
            Ok(())
        } else {
            if self.output_ty.is_some() {
                return Err(ConnectError::OutputTypeSet);
            }
            let id = match incoming {
                EDataType::List { id } => id,
                _ => {
                    return Err(ConnectError::ExpectedList);
                },
            };
            match find_list_item(lists, id) {
                Some(t) => {
                    self.output_ty = Some(t);
                    Ok(())
                },
                None => Err(ConnectError::UnknownList(id)),
            }
        }
    }
}

} // verus!
