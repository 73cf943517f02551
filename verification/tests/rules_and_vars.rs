use graph_canvas::commands::{align_action, bookmark_slot, Action, AlignMode};
use graph_canvas::doc::{apply_auto_connect, auto_connect, pin_label, AutoConnect, Edge, GraphDoc, NodeInst, PaletteDragSource, PinType};
use graph_canvas::errors::{cycle_error, cycle_error_back, DomainError, ErrorAnchor, ErrorIndex, ErrorStep, GraphError};
use graph_canvas::rule::{
    rule_endpoints, rule_scope_label, rule_state_name, ANIM_ANY_STATE_TYPE_ID, ANIM_STATE_TYPE_ID, TRANSITION_FROM_PIN,
    TRANSITION_TO_PIN,
};
use graph_canvas::text::{decimal_string, parse_u64, resolve_node_ref, tokenize_comment, CommentToken};
use graph_canvas::vars::{trigger_pin_type, type_from_pick, type_pick, var_types, GraphDomain};

fn edge(from_node: u64, from_pin: &str, to_node: u64, to_pin: &str) -> Edge {
    Edge { from_node, from_pin: from_pin.into(), to_node, to_pin: to_pin.into() }
}

fn node(id: u64, type_id: &str, title: Option<&str>) -> NodeInst {
    NodeInst { id, type_id: type_id.to_string(), title: title.map(|t| t.to_string()) }
}

#[test]
fn vector_pins_carry_their_arity_in_the_label() {
    assert_eq!(pin_label("Position", &PinType::Vec2), "Position \u{b7}2");
    assert_eq!(pin_label("Position", &PinType::Vec3), "Position \u{b7}3");
    assert_eq!(pin_label("Position", &PinType::Vec4), "Position \u{b7}4");
    assert_eq!(pin_label("Position", &PinType::Float), "Position");
}

#[test]
fn the_type_picker_round_trips_the_script_types() {
    for ty in [
        PinType::Float,
        PinType::Int,
        PinType::String,
        PinType::Bool,
        PinType::Vec3,
        PinType::Entity,
        PinType::Array(Box::new(PinType::Float)),
        PinType::Array(Box::new(PinType::Entity)),
    ] {
        let (i, array) = type_pick(GraphDomain::Script, &ty);
        assert_eq!(type_from_pick(GraphDomain::Script, i, array), ty, "{ty:?}");
    }
    let domain = PinType::Domain("shader".into());
    assert_eq!(type_pick(GraphDomain::Script, &domain), (0, false));
}

#[test]
fn animation_graphs_offer_exactly_the_parameter_contract() {
    let labels: Vec<&str> = var_types(GraphDomain::Animation).iter().map(|(l, _)| *l).collect();
    assert_eq!(labels, vec!["Float", "Bool", "Trigger"]);
    let rule = GraphDomain::AnimationRule { owner: 4 };
    assert_eq!(var_types(rule).len(), 3);
    assert_eq!(type_pick(rule, &trigger_pin_type()), (2, false));
    assert_eq!(type_from_pick(rule, 2, true), PinType::Array(Box::new(trigger_pin_type())));
    assert_eq!(type_pick(rule, &PinType::Int), (0, false), "Int is not an animation parameter");
    assert_eq!(type_from_pick(rule, 9, false), PinType::Float, "past the end reads as Float");
    let scripts: Vec<&str> = var_types(GraphDomain::Script).iter().map(|(l, _)| *l).collect();
    assert_eq!(scripts, vec!["Float", "Int", "String", "Bool", "Vec3", "Entity"]);
}

#[test]
fn a_rule_is_named_after_its_two_states() {
    let doc = GraphDoc {
        nodes: vec![
            node(1, ANIM_STATE_TYPE_ID, Some("Idle")),
            node(2, ANIM_STATE_TYPE_ID, None),
            node(3, "anim_transition", None),
            node(4, ANIM_ANY_STATE_TYPE_ID, None),
            node(5, "other", None),
        ],
        edges: vec![edge(1, "out", 3, TRANSITION_FROM_PIN), edge(3, TRANSITION_TO_PIN, 2, "in")],
    };
    assert_eq!(rule_endpoints(&doc, 3), (Some(1), Some(2)));
    assert_eq!(rule_endpoints(&doc, 5), (None, None));
    assert_eq!(rule_state_name(&doc, Some(1)), "Idle");
    assert_eq!(rule_state_name(&doc, Some(2)), "State 2");
    assert_eq!(rule_state_name(&doc, Some(4)), "Any State");
    assert_eq!(rule_state_name(&doc, Some(5)), "Node 5");
    assert_eq!(rule_state_name(&doc, Some(77)), "?");
    assert_eq!(rule_state_name(&doc, None), "?");
    assert_eq!(rule_scope_label(&doc, 3), "rule: Idle \u{2192} State 2");
    assert_eq!(rule_scope_label(&doc, 5), "rule: ? \u{2192} ?");
}

#[test]
fn numbers_print_and_parse_like_std() {
    for n in [0u64, 7, 10, 99, 12345, u64::MAX] {
        assert_eq!(decimal_string(n), n.to_string());
        assert_eq!(parse_u64(&n.to_string()), Some(n));
    }
    assert_eq!(parse_u64("+42"), Some(42));
    assert_eq!(parse_u64("007"), Some(7));
    assert_eq!(parse_u64(""), None);
    assert_eq!(parse_u64("+"), None);
    assert_eq!(parse_u64("-1"), None);
    assert_eq!(parse_u64("4a"), None);
    assert_eq!(parse_u64(" 4"), None);
    assert_eq!(parse_u64("18446744073709551616"), None, "one past u64::MAX");
    assert_eq!(parse_u64("99999999999999999999x"), None);
}

#[test]
fn a_node_reference_resolves_by_id_then_by_slug() {
    let doc = GraphDoc { nodes: vec![node(12, "add_int", None), node(30, "print", None)], edges: vec![] };
    let titles = vec![(12, "Add Int".to_string()), (30, "Print Result!".to_string()), (31, "print result".to_string())];
    assert_eq!(resolve_node_ref(&doc, &titles, "12"), Some(12));
    assert_eq!(resolve_node_ref(&doc, &titles, "add-int"), Some(12));
    assert_eq!(resolve_node_ref(&doc, &titles, "Print-Result"), Some(30), "the first title wins");
    assert_eq!(resolve_node_ref(&doc, &titles, "99"), None, "an id that names no node");
    assert_eq!(resolve_node_ref(&doc, &titles, "nothing"), None);
}

#[test]
fn a_comment_keeps_one_break_per_line() {
    let text = "a\n\n b #c\n";
    let breaks = tokenize_comment(text).iter().filter(|t| matches!(t, CommentToken::Break)).count();
    assert_eq!(breaks, text.matches('\n').count());
}

#[test]
fn a_drop_on_a_data_input_replaces_its_wire() {
    let edges = vec![edge(1, "v", 2, "a"), edge(3, "w", 4, "b"), edge(5, "v", 2, "a")];
    let src = PaletteDragSource { node: 9, pin: "out".into(), output: true };
    assert_eq!(
        auto_connect(GraphDomain::Script, &edges, &[], &src, 2, "a", &PinType::Int),
        AutoConnect::Replace {
            disconnect: vec![(0, edge(1, "v", 2, "a")), (2, edge(5, "v", 2, "a"))],
            connect: edge(9, "out", 2, "a"),
        }
    );
    // A free input just gains the wire.
    assert_eq!(
        auto_connect(GraphDomain::Script, &edges, &[], &src, 2, "z", &PinType::Int),
        AutoConnect::Replace { disconnect: vec![], connect: edge(9, "out", 2, "z") }
    );
}

#[test]
fn exec_outputs_take_one_continuation_and_exec_inputs_fan_in() {
    let edges = vec![edge(1, "then", 2, "exec_in"), edge(7, "go", 8, "exec_in")];
    // Dragging off an input onto node 1's exec output: the output's old
    // continuation goes.
    let from_input = PaletteDragSource { node: 5, pin: "exec_in".into(), output: false };
    assert_eq!(
        auto_connect(GraphDomain::Script, &edges, &[], &from_input, 1, "then", &PinType::Exec),
        AutoConnect::Replace { disconnect: vec![(0, edge(1, "then", 2, "exec_in"))], connect: edge(1, "then", 5, "exec_in") }
    );
    // Dropping a new exec wire onto 8's input: the input keeps its arrival.
    let from_output = PaletteDragSource { node: 6, pin: "go".into(), output: true };
    assert_eq!(
        auto_connect(GraphDomain::Script, &edges, &[], &from_output, 8, "exec_in", &PinType::Exec),
        AutoConnect::Replace { disconnect: vec![], connect: edge(6, "go", 8, "exec_in") }
    );
    // Flow-like domain pins break nothing.
    let flow = vec!["flow".to_string()];
    assert_eq!(
        auto_connect(GraphDomain::Script, &edges, &flow, &from_output, 8, "exec_in", &PinType::Domain("flow".into())),
        AutoConnect::Flow { edge: edge(6, "go", 8, "exec_in"), try_transition: false }
    );
    // In an animation graph the host first offers it as a transition.
    assert_eq!(
        auto_connect(GraphDomain::Animation, &edges, &flow, &from_output, 8, "exec_in", &PinType::Domain("flow".into())),
        AutoConnect::Flow { edge: edge(6, "go", 8, "exec_in"), try_transition: true }
    );
}

fn ge(anchor: ErrorAnchor) -> GraphError {
    GraphError { anchor, message: "x".into(), cycle: None }
}

#[test]
fn f8_cycles_through_canvas_errors_and_skips_document_ones() {
    assert_eq!(cycle_error(&ErrorIndex::build(&[], &[], &[]), 0), ErrorStep::Nothing);
    let only_doc = ErrorIndex::build(&[ge(ErrorAnchor::Document)], &[], &[]);
    assert_eq!(cycle_error(&only_doc, 3), ErrorStep::OpenPopover);

    let wire = edge(1, "v", 2, "a");
    let ix = ErrorIndex::build(
        &[ge(ErrorAnchor::Document), ge(ErrorAnchor::Node(4)), ge(ErrorAnchor::Edge(wire.clone()))],
        &[],
        &[DomainError { node: Some(6), message: "refused".into(), region_node: Some(9) }],
    );
    assert_eq!(cycle_error(&ix, 0), ErrorStep::Visit { cursor: 1, error: 1, node: 4, edge: None, descend: None });
    assert_eq!(cycle_error(&ix, 1), ErrorStep::Visit { cursor: 2, error: 2, node: 2, edge: Some(wire), descend: None });
    assert_eq!(cycle_error(&ix, 2), ErrorStep::Visit { cursor: 0, error: 3, node: 6, edge: None, descend: Some((6, 9)) });
    assert_eq!(cycle_error(&ix, 4), cycle_error(&ix, 1), "the cursor wraps");
    assert_eq!(
        cycle_error(&ix, usize::MAX),
        ErrorStep::Visit { cursor: 1, error: 1, node: 4, edge: None, descend: None }
    );
}

#[test]
fn after_a_drop_the_input_holds_exactly_the_new_wire() {
    let edges = vec![edge(1, "v", 2, "a"), edge(3, "w", 4, "b"), edge(5, "v", 2, "a")];
    let src = PaletteDragSource { node: 9, pin: "out".into(), output: true };
    let (gone, added) = match auto_connect(GraphDomain::Script, &edges, &[], &src, 2, "a", &PinType::Int) {
        AutoConnect::Replace { disconnect, connect } => (disconnect, connect),
        other => panic!("expected a replacement, got {other:?}"),
    };
    let mut after: Vec<Edge> = edges
        .iter()
        .enumerate()
        .filter(|(i, _)| !gone.iter().any(|(g, _)| g == i))
        .map(|(_, e)| e.clone())
        .collect();
    after.push(added.clone());
    let into: Vec<&Edge> = after.iter().filter(|e| e.to_node == 2 && e.to_pin == "a").collect();
    assert_eq!(into, vec![&added]);
    assert!(after.contains(&edge(3, "w", 4, "b")));
}

#[test]
fn bookmark_recalls_name_their_slots() {
    assert_eq!(bookmark_slot(Action::BookmarkRecall1), 1);
    assert_eq!(bookmark_slot(Action::BookmarkRecall3), 3);
    assert_eq!(bookmark_slot(Action::BookmarkRecall5), 5);
    assert_eq!(bookmark_slot(Action::AlignTop), 0);
    assert_eq!(bookmark_slot(Action::Other), 0);
}

#[test]
fn only_the_direct_aligns_have_an_action() {
    assert_eq!(align_action(AlignMode::Top), Some(Action::AlignTop));
    assert_eq!(align_action(AlignMode::CenterVertically), Some(Action::AlignCenterV));
    assert_eq!(align_action(AlignMode::Right), Some(Action::AlignRight));
    assert_eq!(align_action(AlignMode::DistributeHorizontally), None);
    assert_eq!(align_action(AlignMode::DistributeVertically), None);
}

#[test]
fn applying_a_drop_removes_the_listed_wires_and_adds_the_new_one() {
    let mut edges = vec![edge(1, "v", 2, "a"), edge(3, "w", 4, "b"), edge(5, "v", 2, "a")];
    let src = PaletteDragSource { node: 9, pin: "out".into(), output: true };
    let plan = auto_connect(GraphDomain::Script, &edges, &[], &src, 2, "a", &PinType::Int);
    apply_auto_connect(&mut edges, &plan);
    assert_eq!(edges, vec![edge(3, "w", 4, "b"), edge(9, "out", 2, "a")]);
    let flow = vec!["flow".to_string()];
    let plan = auto_connect(GraphDomain::Script, &edges, &flow, &src, 4, "b", &PinType::Domain("flow".into()));
    apply_auto_connect(&mut edges, &plan);
    assert_eq!(edges, vec![edge(3, "w", 4, "b"), edge(9, "out", 2, "a"), edge(9, "out", 4, "b")]);
}

#[test]
fn shift_f8_steps_back_to_the_previous_error() {
    let ix = ErrorIndex::build(
        &[ge(ErrorAnchor::Node(1)), ge(ErrorAnchor::Document), ge(ErrorAnchor::Node(2)), ge(ErrorAnchor::Node(3))],
        &[],
        &[],
    );
    // F8 from cursor 0 visits node 1 and moves the cursor to 1.
    assert_eq!(cycle_error(&ix, 0), ErrorStep::Visit { cursor: 1, error: 0, node: 1, edge: None, descend: None });
    // Shift+F8 from there goes back to the one before: node 3, wrapping.
    assert_eq!(cycle_error_back(&ix, 1), ErrorStep::Visit { cursor: 0, error: 3, node: 3, edge: None, descend: None });
    assert_eq!(cycle_error_back(&ix, 0), ErrorStep::Visit { cursor: 2, error: 2, node: 2, edge: None, descend: None });
    let one = ErrorIndex::build(&[ge(ErrorAnchor::Node(7))], &[], &[]);
    assert_eq!(cycle_error_back(&one, 5), ErrorStep::Visit { cursor: 0, error: 0, node: 7, edge: None, descend: None });
    assert_eq!(cycle_error_back(&ErrorIndex::build(&[], &[], &[]), 3), ErrorStep::Nothing);
}
