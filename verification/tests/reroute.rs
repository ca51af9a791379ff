use dbe_backend::reroute::{InPinId, OutPinId, RerouteFactory, RerouteNode, SnarlCommand};
use dbe_backend::thing_item::ThingItemKind;

fn inp(node: usize, input: usize) -> InPinId {
    InPinId { node, input }
}

fn out(node: usize, output: usize) -> OutPinId {
    OutPinId { node, output }
}

#[test]
fn connecting_adds_and_retypes_inputs() {
    let mut n = RerouteFactory.create();
    assert_eq!(n.inputs_count(), 1);
    assert_eq!(n.outputs_count(), 0);
    let mut cmds = vec![];
    assert!(!n.try_connect(inp(5, 0), None, &mut cmds));
    assert_eq!(n.inputs_count(), 1);
    assert!(n.try_connect(inp(5, 0), Some(10), &mut cmds));
    assert!(n.try_connect(inp(5, 1), Some(20), &mut cmds));
    assert!(cmds.is_empty());
    assert_eq!(n.outputs_count(), 2);
    assert_eq!(n.input_type(1), Some(20));
    assert_eq!(n.input_type(2), None);
    assert!(n.try_connect(inp(5, 0), Some(30), &mut cmds));
    assert_eq!(cmds, vec![SnarlCommand::ReconnectOutput { id: out(5, 0) }]);
    assert_eq!(n.output_type(0), 30);
    assert!(n.try_connect(inp(5, 0), Some(30), &mut cmds));
    assert_eq!(cmds.len(), 1);
}

#[test]
fn disconnecting_moves_later_pins_down() {
    let mut n = RerouteNode::new();
    let mut cmds = vec![];
    for t in [1, 2, 3] {
        let len = n.outputs_count();
        assert!(n.try_connect(inp(7, len), Some(t), &mut cmds));
    }
    n.try_disconnect(out(1, 0), inp(7, 0), &mut cmds);
    assert_eq!(n.outputs_count(), 2);
    assert_eq!(n.output_type(0), 2);
    assert_eq!(n.output_type(1), 3);
    assert_eq!(
        cmds,
        vec![
            SnarlCommand::DisconnectRaw { from: out(1, 0), to: inp(7, 0) },
            SnarlCommand::DropOutputs { from: out(7, 0) },
            SnarlCommand::InputMovedRaw { from: inp(7, 1), to: inp(7, 0) },
            SnarlCommand::OutputMovedRaw { from: out(7, 1), to: out(7, 0) },
            SnarlCommand::InputMovedRaw { from: inp(7, 2), to: inp(7, 1) },
            SnarlCommand::OutputMovedRaw { from: out(7, 2), to: out(7, 1) },
            SnarlCommand::DeletePinValue { pin: inp(7, 2) },
        ]
    );
}

#[test]
fn disconnecting_the_last_input_moves_nothing() {
    let mut n = RerouteNode::new();
    let mut cmds = vec![];
    assert!(n.try_connect(inp(2, 0), Some(4), &mut cmds));
    assert!(n.try_connect(inp(2, 1), Some(5), &mut cmds));
    n.try_disconnect(out(0, 3), inp(2, 1), &mut cmds);
    assert_eq!(n.outputs_count(), 1);
    assert_eq!(n.output_type(0), 4);
    assert_eq!(
        cmds,
        vec![
            SnarlCommand::DisconnectRaw { from: out(0, 3), to: inp(2, 1) },
            SnarlCommand::DropOutputs { from: out(2, 1) },
            SnarlCommand::DeletePinValue { pin: inp(2, 1) },
        ]
    );
}

#[test]
fn factory_names() {
    assert_eq!(RerouteFactory.id(), "reroute");
    assert_eq!(RerouteFactory.categories(), vec!["utility"]);
}

#[test]
fn item_kinds_are_parsed_by_snake_case_name() {
    assert_eq!(ThingItemKind::from_name("boolean"), Some(ThingItemKind::Boolean));
    assert_eq!(ThingItemKind::from_name("map"), Some(ThingItemKind::MapKind));
    assert_eq!(ThingItemKind::from_name("generic"), Some(ThingItemKind::Generic));
    assert_eq!(ThingItemKind::from_name("Boolean"), None);
    assert_eq!("list".parse::<ThingItemKind>(), Ok(ThingItemKind::List));
    assert!("maps".parse::<ThingItemKind>().is_err());
}
