use dbe_backend::generic_regional::{dbe_items, DbeItemError, ValueFile};
use dbe_backend::parsing::EDataType;
use dbe_backend::project_files::save_plan;
use dbe_backend::variables::{connect_new_variable, sync_variable_types, type_variable, NodeVariable, VariableError};

fn file(path: &str, ty: u128, value: u32, variant: Option<(u128, u32)>) -> ValueFile<u32> {
    ValueFile { path: path.to_string(), ty, value, variant }
}

#[test]
fn stored_items_of_a_type() {
    let files = vec![file("a.json", 1, 10, None), file("b.json", 2, 20, None), file("c.json", 1, 30, None)];
    assert_eq!(dbe_items(files, 1, None), Ok(vec![("a.json".to_string(), 10), ("c.json".to_string(), 30)]));
}

#[test]
fn stored_items_of_a_variant() {
    let files = vec![file("a.json", 1, 10, Some((5, 11))), file("b.json", 1, 20, Some((6, 21)))];
    assert_eq!(dbe_items(files, 1, Some(6)), Ok(vec![("b.json".to_string(), 21)]));
    let files = vec![file("a.json", 1, 10, None)];
    assert_eq!(dbe_items(files, 1, Some(6)), Err(DbeItemError::ExpectedEnum));
    let files = vec![file("a.json", 2, 10, None)];
    assert_eq!(dbe_items(files, 1, Some(6)), Ok(vec![]));
}

#[test]
fn saving_writes_files_and_markers() {
    let files = vec![("a.json".to_string(), false), ("out/b.json".to_string(), true)];
    let to_delete = vec!["a.json".to_string(), "old.json".to_string(), "out/b.json.generated".to_string()];
    let (writes, deletes) = save_plan(&files, &to_delete);
    assert_eq!(writes, vec!["a.json".to_string(), "out/b.json.generated".to_string(), "out/b.json".to_string()]);
    assert_eq!(deletes, vec!["old.json".to_string()]);
}

#[test]
fn variables_get_types_from_wires() {
    let mut vars: Vec<NodeVariable> = vec![];
    connect_new_variable(&mut vars, EDataType::Number, 7);
    assert_eq!(vars.len(), 1);
    assert_eq!(vars[0].ty, Some(EDataType::Number));
    assert_eq!(vars[0].id, 7);
    assert_eq!(vars[0].name, "value");
    vars.push(NodeVariable { ty: None, id: 8, name: "x".to_string() });
    assert_eq!(type_variable(&mut vars, 1, EDataType::String), Ok(true));
    assert_eq!(vars[1].ty, Some(EDataType::String));
    assert_eq!(type_variable(&mut vars, 1, EDataType::Boolean), Ok(false));
    assert_eq!(vars[1].ty, Some(EDataType::String));
    assert_eq!(type_variable(&mut vars, 5, EDataType::Boolean), Err(VariableError::Missing(5)));
}

fn var(ty: Option<EDataType>, id: u128) -> NodeVariable {
    NodeVariable { ty, id, name: format!("v{}", id) }
}

#[test]
fn variables_sync_to_the_first_type() {
    let mut master: Option<EDataType> = None;
    let mut vars = vec![var(None, 1), var(Some(EDataType::String), 2), var(Some(EDataType::Number), 3)];
    sync_variable_types(&mut master, &mut vars);
    assert_eq!(master, Some(EDataType::String));
    for v in &vars {
        assert_eq!(v.ty, Some(EDataType::String));
    }
    assert_eq!(vars[2].id, 3);
    assert_eq!(vars[2].name, "v3");
}

#[test]
fn variables_sync_to_the_master_type() {
    let mut master = Some(EDataType::List { id: 9 });
    let mut vars = vec![var(Some(EDataType::String), 1), var(None, 2)];
    sync_variable_types(&mut master, &mut vars);
    assert_eq!(master, Some(EDataType::List { id: 9 }));
    assert_eq!(vars[0].ty, Some(EDataType::List { id: 9 }));
    assert_eq!(vars[1].ty, Some(EDataType::List { id: 9 }));
}

#[test]
fn untyped_variables_stay_untyped() {
    let mut master: Option<EDataType> = None;
    let mut vars = vec![var(None, 1), var(None, 2)];
    sync_variable_types(&mut master, &mut vars);
    assert_eq!(master, None);
    assert_eq!(vars[0].ty, None);
    assert_eq!(vars[1].ty, None);
}
