use dbe_backend::generic_regional::{RegionStateError, RegionStates};
use dbe_backend::generic_regional::{
    end_inputs_before_variables, is_filter, is_map, remember_variables, Coalesce, Coalesced, ConditionalKind,
    ConditionalNode, ConstructListNode, ConstructResult, EndInput, EndResult, ForEachKind, ForEachLikeRegionalNode, PortField,
    Optional,
};
use dbe_backend::regional::{
    find_list_item, ConditionalNode as BranchNode, ConnectError, ConnectFlow, ForEachRegionalNode, ForEachResult, RepeatNode,
    RepeatResult,
};
use dbe_backend::parsing::EDataType;

/// Runs a list loop of kind `K` over `values`, the body answering with `body`.
fn run_loop<const K: u8>(values: Vec<i64>, body: impl Fn(i64) -> EndInput<i64>) -> (Option<Vec<i64>>, usize) {
    let node = ForEachLikeRegionalNode::<K>::create();
    let mut state = None;
    let mut runs = 0;
    loop {
        let (st, out) = node.execute_start(state.take(), &values, vec![]);
        runs += 1;
        let input = match out.value {
            Some(v) => body(v),
            None => body(0),
        };
        match node.execute_end(st, input, vec![]) {
            EndResult::Done { list, variables } => {
                assert!(variables.is_empty());
                return (list, runs);
            }
            EndResult::Rerun { state: s } => {
                assert!(node.should_execute(&s));
                state = Some(s);
            }
        }
    }
}

#[test]
fn kinds() {
    assert_eq!(ForEachKind::of(0), ForEachKind::ForEach);
    assert_eq!(ForEachKind::of(4), ForEachKind::FlatMap);
    assert!(is_map(1) && is_map(3) && is_map(4) && !is_map(0) && !is_map(2));
    assert!(is_filter(2) && is_filter(3) && !is_filter(1));
    assert_eq!(end_inputs_before_variables(ForEachKind::FilterMap), 2);
    assert_eq!(end_inputs_before_variables(ForEachKind::ForEach), 0);
    assert_eq!(ConditionalKind::of(1), ConditionalKind::MapOption);
}

#[test]
fn map_loop_collects_results() {
    let (list, runs) = run_loop::<1>(vec![1, 2, 3], |v| EndInput::Mapped(v * 10));
    assert_eq!(list, Some(vec![10, 20, 30]));
    assert_eq!(runs, 3);
}

#[test]
fn filter_loop_keeps_matching_values() {
    let (list, _) = run_loop::<2>(vec![1, 2, 3, 4], |v| EndInput::Filter(v % 2 == 0));
    assert_eq!(list, Some(vec![2, 4]));
}

#[test]
fn filter_map_and_flat_map() {
    let (list, _) = run_loop::<3>(vec![1, 2, 3], |v| EndInput::FilterMap(v + 1, v != 2));
    assert_eq!(list, Some(vec![2, 4]));
    let (list, _) = run_loop::<4>(vec![1, 2], |v| EndInput::FlatMap(vec![v, v]));
    assert_eq!(list, Some(vec![1, 1, 2, 2]));
}

#[test]
fn for_each_gives_no_list_and_empty_list_runs_once() {
    let (list, runs) = run_loop::<0>(vec![5, 6], |_| EndInput::ForEach);
    assert_eq!(list, None);
    assert_eq!(runs, 2);
    let (list, runs) = run_loop::<1>(vec![], |v| EndInput::Mapped(v));
    assert_eq!(list, Some(vec![]));
    assert_eq!(runs, 1);
}

#[test]
fn variables_are_handed_back() {
    let mut kept = Some(vec![7]);
    let mut outputs = vec![0];
    remember_variables(&mut kept, vec![1, 2], &mut outputs);
    assert_eq!(outputs, vec![0, 7]);
    assert_eq!(kept, None);
    remember_variables(&mut kept, vec![1, 2], &mut outputs);
    assert_eq!(outputs, vec![0, 7, 1, 2]);
    let mut fresh = vec![];
    remember_variables(&mut kept, vec![3], &mut fresh);
    assert_eq!(fresh, vec![3]);
}

#[test]
fn construct_list_builds_given_length() {
    let node = ConstructListNode::create();
    let mut state = None;
    loop {
        let (st, index, vars) = node.execute_start(state.take(), 3, vec![100i64]);
        match node.execute_end(st, index as i64 * 2, vars) {
            ConstructResult::Done { list, variables } => {
                assert_eq!(list, vec![0, 2, 4]);
                assert_eq!(variables, vec![100]);
                break;
            }
            ConstructResult::Rerun { state: s } => state = Some(s),
        }
    }
}

#[test]
fn branches_wrap_their_outputs() {
    let node = ConditionalNode::<1>::create();
    assert_eq!(node.execute_start_map(Some(3)), (true, vec![3]));
    assert_eq!(node.execute_start_map::<i32>(None), (false, vec![]));
    let out = node.execute_end(true, vec![1, 2]);
    assert!(matches!(out[..], [Optional::Present(1), Optional::Present(2)]));
    let out = BranchNode::create().execute_end(false, vec![4]);
    assert!(matches!(out[..], [Optional::AbsentOf(4)]));
    assert!(ConditionalNode::<0>::create().execute_start_if(true));
}

#[test]
fn coalesce_picks_first_present() {
    let node = Coalesce::<false>::create();
    let r = node.execute::<i32, String>(vec![Ok(None), Ok(Some(5)), Err("bad".to_string())]);
    assert!(matches!(r, Ok(Coalesced::Present(5))));
    let r = node.execute::<i32, String>(vec![Ok(None), Err("bad".to_string()), Ok(Some(5))]);
    assert!(matches!(r, Err(ref e) if e == "bad"));
    let r = Coalesce::<true>::create().execute::<i32, String>(vec![Ok(None)]);
    assert!(matches!(r, Ok(Coalesced::DefaultOfType)));
    let r = Coalesce::<false>::create().execute::<i32, String>(vec![]);
    assert!(matches!(r, Ok(Coalesced::Absent)));
}

#[test]
fn for_each_node_collects_and_repeats_variables() {
    let node = ForEachRegionalNode::create();
    let values = vec![3i64, 4];
    let (st, v, i, vars) = node.execute_start(None, &values, vec![9]);
    assert_eq!((v, i, vars), (3, 0, vec![9]));
    let st = match node.execute_end(st, vec![30, 9]) {
        ForEachResult::Rerun { state } => state,
        ForEachResult::Done { .. } => panic!("ended early"),
    };
    let (st, v, i, vars) = node.execute_start(Some(st), &values, vec![9]);
    assert_eq!((v, i, vars), (4, 1, vec![30, 9]));
    match node.execute_end(st, vec![40, 9]) {
        ForEachResult::Done { list, rest } => {
            assert_eq!(list, vec![30, 40]);
            assert_eq!(rest, vec![9]);
        }
        ForEachResult::Rerun { .. } => panic!("did not end"),
    }
}

#[test]
fn repeat_runs_given_times() {
    let node = RepeatNode::create();
    let mut state = None;
    let mut seen = vec![];
    loop {
        let (st, current, vars) = node.execute_start(state.take(), 3, vec![1i64]);
        seen.push(current);
        match node.execute_end(st, vars) {
            RepeatResult::Done { outputs } => {
                assert_eq!(outputs, vec![1]);
                break;
            }
            RepeatResult::Rerun { state: s } => state = Some(s),
        }
    }
    assert_eq!(seen, vec![0, 1, 2]);
}

#[test]
fn branch_state_lives_from_start_to_end() {
    let node: ConditionalNode<0> = ConditionalNode::create();
    let mut states: RegionStates<bool> = RegionStates::new();
    node.start_if_in(&mut states, 5, true);
    let out = node.end_in(&mut states, 5, vec![1, 2]).unwrap();
    assert!(matches!(out[0], Optional::Present(1)));
    assert!(matches!(out[1], Optional::Present(2)));
    assert!(matches!(node.end_in(&mut states, 5, vec![1]), Err(RegionStateError::EndWithoutStart(5))));
    let map: ConditionalNode<1> = ConditionalNode::create();
    let handed = map.start_map_in(&mut states, 6, None::<u32>);
    assert!(handed.is_empty());
    let out = map.end_in(&mut states, 6, vec![3u32]).unwrap();
    assert!(matches!(out[0], Optional::AbsentOf(3)));
}

fn registered_lists() -> Vec<(u128, EDataType)> {
    vec![(1, EDataType::Number), (2, EDataType::String), (1, EDataType::Boolean)]
}

#[test]
fn registered_list_items_are_found() {
    let lists = registered_lists();
    assert_eq!(find_list_item(&lists, 1), Some(EDataType::Number));
    assert_eq!(find_list_item(&lists, 2), Some(EDataType::String));
    assert_eq!(find_list_item(&lists, 3), None);
}

#[test]
fn for_each_start_takes_the_item_type_of_a_list() {
    let lists = registered_lists();
    let mut node = ForEachRegionalNode::create();
    assert_eq!(node.try_connect(true, 1, Some(EDataType::List { id: 2 }), &lists), Err(ConnectError::InvalidInput(1)));
    assert_eq!(node.try_connect(true, 0, Some(EDataType::Number), &lists), Ok(ConnectFlow::Refused));
    assert_eq!(node.try_connect(true, 0, None, &lists), Ok(ConnectFlow::Refused));
    assert_eq!(node.try_connect(true, 0, Some(EDataType::List { id: 7 }), &lists), Err(ConnectError::UnknownList(7)));
    assert_eq!(node.input_ty, None);
    assert_eq!(node.try_connect(true, 0, Some(EDataType::List { id: 2 }), &lists), Ok(ConnectFlow::Continue));
    assert_eq!(node.input_ty, Some(EDataType::String));
    assert_eq!(node.try_connect(true, 0, Some(EDataType::List { id: 1 }), &lists), Ok(ConnectFlow::Continue));
    assert_eq!(node.input_ty, Some(EDataType::String));
    assert_eq!(node.output_ty, None);
}

#[test]
fn for_each_end_takes_a_specific_type() {
    let lists = registered_lists();
    let mut node = ForEachRegionalNode::create();
    assert_eq!(node.try_connect(false, 0, None, &lists), Ok(ConnectFlow::Refused));
    assert_eq!(node.output_ty, None);
    assert_eq!(node.try_connect(false, 0, Some(EDataType::Boolean), &lists), Ok(ConnectFlow::Continue));
    assert_eq!(node.output_ty, Some(EDataType::Boolean));
    assert_eq!(node.try_connect(false, 0, Some(EDataType::Number), &lists), Ok(ConnectFlow::Continue));
    assert_eq!(node.output_ty, Some(EDataType::Boolean));
    assert_eq!(node.input_ty, None);
}

#[test]
fn for_each_outputs_only_while_untyped() {
    let mut node = ForEachRegionalNode::create();
    assert_eq!(node.can_output_to(true, 1, &None), Err(ConnectError::InvalidInput(1)));
    assert_eq!(node.can_output_to(true, 0, &None), Ok(true));
    assert_eq!(node.can_output_to(false, 0, &Some(EDataType::Number)), Ok(false));
    assert_eq!(node.can_output_to(false, 0, &Some(EDataType::List { id: 1 })), Ok(true));
    node.input_ty = Some(EDataType::Number);
    node.output_ty = Some(EDataType::Number);
    assert_eq!(node.can_output_to(true, 0, &None), Err(ConnectError::InputTypeSet));
    assert_eq!(node.can_output_to(false, 0, &None), Err(ConnectError::OutputTypeSet));
}

#[test]
fn for_each_outputs_take_types_from_their_targets() {
    let lists = registered_lists();
    let mut node = ForEachRegionalNode::create();
    assert_eq!(node.connected_to_output(false, 0, EDataType::Number, &lists), Err(ConnectError::ExpectedList));
    assert_eq!(node.connected_to_output(false, 0, EDataType::List { id: 5 }, &lists), Err(ConnectError::UnknownList(5)));
    assert_eq!(node.output_ty, None);
    assert_eq!(node.connected_to_output(false, 0, EDataType::List { id: 1 }, &lists), Ok(()));
    assert_eq!(node.output_ty, Some(EDataType::Number));
    assert_eq!(node.connected_to_output(false, 0, EDataType::List { id: 2 }, &lists), Err(ConnectError::OutputTypeSet));
    assert_eq!(node.connected_to_output(true, 0, EDataType::String, &lists), Ok(()));
    assert_eq!(node.input_ty, Some(EDataType::String));
    assert_eq!(node.connected_to_output(true, 0, EDataType::Number, &lists), Err(ConnectError::InputTypeSet));
    assert_eq!(node.connected_to_output(true, 2, EDataType::Number, &lists), Err(ConnectError::InvalidInput(2)));
}

#[test]
fn list_loops_offer_list_ports() {
    let list = EDataType::List { id: 3 };
    assert_eq!(ForEachLikeRegionalNode::<0>::output_port_for(&list), None);
    assert_eq!(ForEachLikeRegionalNode::<1>::output_port_for(&list), Some(0));
    assert_eq!(ForEachLikeRegionalNode::<4>::output_port_for(&list), Some(0));
    assert_eq!(ForEachLikeRegionalNode::<1>::output_port_for(&EDataType::Number), None);
    assert_eq!(ForEachLikeRegionalNode::<0>::input_port_for(&list), Some(0));
    assert_eq!(ForEachLikeRegionalNode::<0>::input_port_for(&EDataType::String), None);
}

#[test]
fn filters_pass_their_input_type_on() {
    let mut filter = ForEachLikeRegionalNode::<2>::create();
    assert_eq!(filter.types_changed(true), None);
    filter.input_ty = Some(EDataType::Number);
    assert_eq!(filter.types_changed(true), Some(EDataType::Number));
    assert_eq!(filter.input_ty, Some(EDataType::Number));
    assert_eq!(filter.types_changed(false), None);
    assert_eq!(filter.input_ty, None);
    let mut map = ForEachLikeRegionalNode::<1>::create();
    map.input_ty = Some(EDataType::Number);
    assert_eq!(map.types_changed(false), None);
    assert_eq!(map.input_ty, Some(EDataType::Number));
}

#[test]
fn list_loops_name_their_ports() {
    let map = ForEachLikeRegionalNode::<1>::create();
    assert_eq!(map.input_names(true), vec!["values".to_string()]);
    assert_eq!(map.input_names(false), vec!["value".to_string()]);
    assert_eq!(map.output_names(true), vec!["value".to_string(), "index".to_string(), "length".to_string()]);
    assert_eq!(map.output_names(false), vec!["values".to_string()]);
    let each = ForEachLikeRegionalNode::<0>::create();
    assert!(each.input_names(false).is_empty());
    assert!(each.output_names(false).is_empty());
    let filter_map = ForEachLikeRegionalNode::<3>::create();
    assert_eq!(filter_map.input_names(false), vec!["value".to_string(), "condition".to_string()]);
}

#[test]
fn branches_name_their_ports() {
    let branch = ConditionalNode::<0>::create();
    assert_eq!(branch.input_names(true), vec!["condition".to_string()]);
    assert!(branch.output_names(true).is_empty());
    let option = ConditionalNode::<1>::create();
    assert_eq!(option.input_names(true), vec!["option".to_string()]);
    assert_eq!(option.output_names(true), vec!["value".to_string()]);
}

#[test]
fn list_loops_describe_their_ports() {
    let mut filter = ForEachLikeRegionalNode::<2>::create();
    filter.input_ty = Some(EDataType::Number);
    assert_eq!(filter.inputs(true), vec![PortField::List(Some(EDataType::Number))]);
    assert_eq!(filter.inputs(false), vec![PortField::Fixed(EDataType::Boolean)]);
    assert_eq!(
        filter.outputs(true),
        vec![
            PortField::Value(Some(EDataType::Number)),
            PortField::Fixed(EDataType::Number),
            PortField::Fixed(EDataType::Number)
        ]
    );
    assert_eq!(filter.outputs(false), vec![PortField::List(Some(EDataType::Number))]);
    let mut map = ForEachLikeRegionalNode::<1>::create();
    map.output_ty = Some(EDataType::String);
    assert_eq!(map.inputs(false), vec![PortField::Value(Some(EDataType::String))]);
    assert_eq!(map.outputs(false), vec![PortField::List(Some(EDataType::String))]);
    let each = ForEachLikeRegionalNode::<0>::create();
    assert!(each.inputs(false).is_empty());
    assert!(each.outputs(false).is_empty());
    let flat = ForEachLikeRegionalNode::<4>::create();
    assert_eq!(flat.inputs(false), vec![PortField::List(None)]);
}

#[test]
fn branches_describe_their_ports() {
    let branch = ConditionalNode::<0>::create();
    assert_eq!(branch.inputs(true), vec![PortField::Fixed(EDataType::Boolean)]);
    assert!(branch.outputs(true).is_empty());
    assert!(branch.inputs(false).is_empty());
    assert_eq!(branch.allow_variables(true), (false, false));
    assert_eq!(branch.allow_variables(false), (true, true));
    let mut option = ConditionalNode::<1>::create();
    option.input_ty = Some(EDataType::String);
    assert_eq!(option.inputs(true), vec![PortField::Optional(Some(EDataType::String))]);
    assert_eq!(option.outputs(true), vec![PortField::Value(Some(EDataType::String))]);
    assert!(option.outputs(false).is_empty());
}
