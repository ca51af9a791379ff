//! The variables of a node with variable inputs: a wire to the extra input
//! adds a variable of the incoming type; a wire to an untyped variable gives
//! it the incoming type.
use vstd::prelude::*;
use crate::parsing::EDataType;

verus! {

/// A variable of a node: its type once known, its id and its name.
pub struct NodeVariable {
    pub ty: Option<EDataType>,
    pub id: u128,
    pub name: String,
}

/// Why a variable could not be given a type.
#[derive(Debug, Clone, Copy, PartialEq, Eq)]
pub enum VariableError {
    /// The node has no variable at this index.
    Missing(usize),
}

/// The name a new variable gets.
pub open spec fn new_variable_name() -> Seq<char> {
    seq!['v', 'a', 'l', 'u', 'e']
}

/// Adds a variable of type `ty` with id `fresh_id`, named `value`, after the
/// others (a wire to the extra input of the node). The fresh id is drawn by
/// the caller.
pub fn connect_new_variable(vars: &mut Vec<NodeVariable>, ty: EDataType, fresh_id: u128)
    ensures
        final(vars)@.len() == old(vars)@.len() + 1,
        final(vars)@.drop_last() == old(vars)@,
        final(vars)@.last().ty == Some(ty),
        final(vars)@.last().id == fresh_id,
        final(vars)@.last().name@ == new_variable_name(),
{
    proof {
        reveal_strlit("value");
    }
    let name = "value".to_owned();
    assert(name@ =~= new_variable_name());
    vars.push(NodeVariable { ty: Some(ty), id: fresh_id, name });
    assert(vars@.drop_last() =~= old(vars)@);
}

/// Gives the variable at `index` the type `ty` when it has none yet (a wire
/// to an untyped variable); whether it did. A variable that has a type keeps
/// it; a missing one is refused.
pub fn type_variable(vars: &mut Vec<NodeVariable>, index: usize, ty: EDataType) -> (r: Result<bool, VariableError>)
    ensures
        index >= old(vars)@.len() ==> r == Err::<bool, VariableError>(VariableError::Missing(index)) && final(vars)@
            == old(vars)@,
        index < old(vars)@.len() && old(vars)@[index as int].ty is Some ==> r == Ok::<bool, VariableError>(false)
            && final(vars)@ == old(vars)@,
        index < old(vars)@.len() && old(vars)@[index as int].ty is None ==> {
            &&& r == Ok::<bool, VariableError>(true)
            &&& final(vars)@.len() == old(vars)@.len()
            &&& final(vars)@[index as int].ty == Some(ty)
            &&& final(vars)@[index as int].id == old(vars)@[index as int].id
            &&& final(vars)@[index as int].name == old(vars)@[index as int].name
            &&& forall|j: int| 0 <= j < old(vars)@.len() && j != index ==> #[trigger] final(vars)@[j] == old(vars)@[j]
        },
{
    if index >= vars.len() {
        return Err(VariableError::Missing(index));
    }
    if vars[index].ty.is_some() {
        return Ok(false);
    }
    vars[index].ty = Some(ty);
    Ok(true)
}

/// The type of the first variable from `i` on that has one.
pub open spec fn first_typed_from(vars: Seq<NodeVariable>, i: int) -> Option<EDataType>
    decreases vars.len() - i,
{
    if i < 0 || i >= vars.len() {
        None
    } else if vars[i].ty is Some {
        vars[i].ty
    } else {
        first_typed_from(vars, i + 1)
    }
}

/// The type all variables get: the master type, or else the type of the
/// first variable that has one.
pub open spec fn synced_type(master: Option<EDataType>, vars: Seq<NodeVariable>) -> Option<EDataType> {
    match master {
        Some(t) => Some(t),
        None => first_typed_from(vars, 0),
    }
}

/// Gives every variable the same type: the master type, or, when there is
/// none yet, the type of the first typed variable, which becomes the master
/// type. With neither, nothing changes.
pub fn sync_variable_types(master_type: &mut Option<EDataType>, vars: &mut Vec<NodeVariable>)
    ensures
        *final(master_type) == synced_type(*old(master_type), old(vars)@),
        synced_type(*old(master_type), old(vars)@) is None ==> final(vars)@ == old(vars)@,
        synced_type(*old(master_type), old(vars)@) is Some ==> {
            &&& final(vars)@.len() == old(vars)@.len()
            &&& forall|j: int|
                0 <= j < old(vars)@.len() ==> {
                    &&& (#[trigger] final(vars)@[j]).ty == synced_type(*old(master_type), old(vars)@)
                    &&& final(vars)@[j].id == old(vars)@[j].id
                    &&& final(vars)@[j].name == old(vars)@[j].name
                }
        },
{
    let ty = match master_type {
        Some(t) => t.copied(),
        None => {
            let mut i: usize = 0;
            let mut found: Option<EDataType> = None;
            while i < vars.len()
                invariant
                    i <= vars@.len(),
                    *master_type is None,
                    found is None ==> first_typed_from(vars@, 0) == first_typed_from(vars@, i as int),
                    found is Some ==> found == first_typed_from(vars@, 0),
                decreases vars@.len() - i,
            {
                if found.is_none() {
                    match &vars[i].ty {
                        Some(t) => {
                            found = Some(t.copied());
                        },
                        None => {},
                    }
                }
                i = i + 1;
            }
            match found {
                Some(t) => {
                    *master_type = Some(t.copied());
                    t
                },
                None => {
                    return ;
                },
            }
        },
    };
    let ghost before = vars@;
    let mut i: usize = 0;
    while i < vars.len()
        invariant
            i <= vars@.len(),
            vars@.len() == before.len(),
            Some(ty) == synced_type(*old(master_type), old(vars)@),
            before == old(vars)@,
            forall|j: int|
                0 <= j < before.len() ==> {
                    &&& (#[trigger] vars@[j]).id == before[j].id
                    &&& vars@[j].name == before[j].name
                    &&& (j < i ==> vars@[j].ty == Some(ty))
                    &&& (j >= i ==> vars@[j] == before[j])
                },
        decreases vars@.len() - i,
    {
        let ghost prev = vars@;
        vars[i].ty = Some(ty.copied());
        assert(forall|j: int| 0 <= j < prev.len() && j != i ==> #[trigger] vars@[j] == prev[j]);
        assert(vars@[i as int].id == prev[i as int].id && vars@[i as int].name == prev[i as int].name);
        i = i + 1;
    }
}

} // verus!
