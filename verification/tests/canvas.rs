use graph_canvas::budget::preview_slice;
use graph_canvas::doc::{
    converge_ranks, derive_tag, real_producer, validate_connection, Edge, GraphDoc, IncidentEdges, NodeDescriptor, NodeInst,
    PinDescriptor, PinType, REROUTE_IN, REROUTE_OUT, REROUTE_TYPE_ID,
};
use graph_canvas::exec_viz::{pin_value, wire_taken, GraphExecViz, PauseInfo};
use graph_canvas::lod::ZoomLod;
use graph_canvas::lod::ZoomLod::{L0, L1, L2, L3, L4};
use graph_canvas::status::BreakBadge::{Armed, Disabled, Hit, Invalid};
use graph_canvas::status::{break_badge, chip_state, preview_chip_state, ChipState, PreviewChipState};
use graph_canvas::text::flagged_value;

fn edge(from_node: u64, from_pin: &str, to_node: u64, to_pin: &str) -> Edge {
    Edge { from_node, from_pin: from_pin.into(), to_node, to_pin: to_pin.into() }
}

fn node(id: u64, type_id: &str) -> NodeInst {
    NodeInst { id, type_id: type_id.to_string(), title: None }
}

#[test]
fn converge_ranks_count_only_the_same_target_pin() {
    let to = |from: u64, node: u64, pin: &str| Edge {
        from_node: from,
        from_pin: "exec_out".into(),
        to_node: node,
        to_pin: pin.into(),
    };
    let edges = vec![
        to(1, 9, "exec_in"),
        to(2, 9, "exec_in"),
        to(3, 9, "other"),
        to(4, 9, "exec_in"),
        to(5, 8, "exec_in"),
    ];
    assert_eq!(converge_ranks(&edges), vec![0, 1, 0, 2, 0]);
    assert!(converge_ranks(&[]).is_empty());
}

#[test]
fn lod_gates_are_monotonic() {
    let gates: [(fn(ZoomLod) -> bool, &str); 5] = [
        (ZoomLod::inline_widgets, "inline_widgets"),
        (ZoomLod::values, "values"),
        (ZoomLod::pin_labels, "pin_labels"),
        (ZoomLod::rows, "rows"),
        (ZoomLod::glyphs, "glyphs"),
    ];
    for (g, name) in gates {
        let seq = [L4, L3, L2, L1, L0].map(g);
        for w in seq.windows(2) {
            assert!(w[0] <= w[1], "{name} is not monotonic across the ladder");
        }
    }
    assert!(!L1.inline_widgets() && L0.inline_widgets());
    assert!(!L2.pin_labels() && L1.pin_labels());
    assert!(!L3.rows() && L2.rows());
    assert!(!L3.glyphs() && L2.glyphs());
    assert!(L4.bar_only() && !L3.bar_only());
}

#[test]
fn tag_precedence_is_sub_pure_event_category() {
    let desc = |pure: bool, ins: Vec<PinType>, outs: Vec<PinType>| NodeDescriptor {
        inputs: ins
            .into_iter()
            .enumerate()
            .map(|(i, t)| PinDescriptor { name: format!("i{i}"), ty: t })
            .collect(),
        outputs: outs
            .into_iter()
            .enumerate()
            .map(|(i, t)| PinDescriptor { name: format!("o{i}"), ty: t })
            .collect(),
        pure,
    };

    let pure = desc(true, vec![PinType::Float], vec![PinType::Float]);
    assert_eq!(derive_tag(true, Some(&pure), Some("Gameplay")), "SUB");
    assert_eq!(derive_tag(false, Some(&pure), Some("Gameplay")), "PURE");
    let event = desc(false, vec![], vec![PinType::Exec]);
    assert_eq!(derive_tag(false, Some(&event), Some("Gameplay")), "EVENT");
    let flow = desc(false, vec![PinType::Exec], vec![PinType::Exec]);
    assert_eq!(derive_tag(false, Some(&flow), Some("Gameplay")), "GAMEP");
    assert_eq!(derive_tag(false, None, Some("Dev")), "DEV");
    assert_eq!(derive_tag(false, None, None), "");
}

#[test]
fn a_category_tag_counts_characters_not_bytes() {
    assert_eq!(derive_tag(false, None, Some("straße und mehr")), "STRASS");
    assert_eq!(derive_tag(false, None, Some("ßa")), "SSA");
}

#[test]
fn the_live_chip_names_all_four_states() {
    assert_eq!(chip_state(true, false, 3), ChipState::Live);
    assert_eq!(chip_state(true, true, 3), ChipState::Killed);
    assert_eq!(chip_state(false, false, 3), ChipState::Unbound(3));
    assert_eq!(chip_state(false, false, 0), ChipState::Absent);
    assert_eq!(chip_state(true, true, 1), ChipState::Killed);
    assert_eq!(chip_state(false, true, 2), ChipState::Unbound(2));
}

#[test]
fn the_preview_chip_names_all_four_states() {
    assert_eq!(preview_chip_state(true, false, 0), PreviewChipState::Bound);
    assert_eq!(preview_chip_state(true, true, 4), PreviewChipState::Refused);
    assert_eq!(preview_chip_state(false, true, 4), PreviewChipState::Unbound(4));
    assert_eq!(preview_chip_state(false, false, 0), PreviewChipState::Empty);
}

#[test]
fn the_breakpoint_badge_ladder_never_stacks() {
    assert_eq!(break_badge(Some(true), true, true, false), Some(Hit));
    assert_eq!(break_badge(Some(false), false, true, false), Some(Hit));
    assert_eq!(break_badge(None, false, true, false), None);
    assert_eq!(break_badge(Some(true), true, false, false), None);
    assert_eq!(break_badge(Some(false), true, false, false), None);
    assert_eq!(break_badge(Some(true), false, false, true), Some(Invalid));
    assert_eq!(break_badge(Some(true), false, false, false), Some(Armed));
    assert_eq!(break_badge(Some(false), false, false, false), Some(Disabled));
    assert_eq!(break_badge(Some(false), false, false, true), Some(Disabled));
    assert_eq!(break_badge(None, false, false, false), None);
}

#[test]
fn a_dangling_reference_is_marked_in_the_value_not_only_in_the_tint() {
    assert_eq!(flagged_value("mana", false), "mana ?");
    assert_eq!(flagged_value("mana", true), "mana");
    assert_eq!(flagged_value("", false), "", "an empty cell is not \"?\"");
}

#[test]
fn the_config_band_follows_the_existing_lod_ladder() {
    for lod in [L4, L3, L2, L1, L0] {
        assert_eq!(lod.config_band(), lod.rows(), "{lod:?}");
    }
    assert!(L0.inline_widgets(), "L0 — widgets live");
    assert!(!L1.inline_widgets() && L1.values(), "L1 — plain mono values");
    assert!(L2.config_band() && !L2.pin_labels(), "L2 — band, no row labels");
    assert!(!L3.config_band(), "L3 — title only, the band drops");
    for lod in [L2, L1] {
        assert!(lod.config_band() && !lod.inline_widgets());
    }
}

#[test]
fn preview_budget_rotates_and_caps() {
    assert_eq!(preview_slice(5, 0, 8), (0, 5));
    assert_eq!(preview_slice(5, 99, 8), (0, 5));

    let mut seen = vec![false; 20];
    for frame in 0..3u64 {
        let (start, take) = preview_slice(20, frame, 8);
        assert!(take <= 8, "the cap is never exceeded");
        for i in start..start + take {
            seen[i] = true;
        }
    }
    assert!(seen.iter().all(|s| *s), "every slot refreshed within 3 frames");
    assert_eq!(preview_slice(20, 3, 8), preview_slice(20, 0, 8));

    assert_eq!(preview_slice(0, 0, 8), (0, 0));
    assert_eq!(preview_slice(10, 0, 0), (0, 0));
}

#[test]
fn preview_windows_are_exact() {
    assert_eq!(preview_slice(20, 0, 8), (0, 8));
    assert_eq!(preview_slice(20, 1, 8), (8, 8));
    assert_eq!(preview_slice(20, 2, 8), (16, 4));
    assert_eq!(preview_slice(20, 5, 8), (16, 4));
    assert_eq!(preview_slice(9, 1, 8), (8, 1));
}

#[test]
fn a_value_resolves_through_reroutes() {
    let doc = GraphDoc {
        nodes: vec![node(1, "add_int"), node(2, REROUTE_TYPE_ID), node(3, "print")],
        edges: vec![edge(1, "result", 2, REROUTE_IN), edge(2, REROUTE_OUT, 3, "text")],
    };
    let mut viz = GraphExecViz::new("Duck".to_string());
    viz.set_value(1, "result", "7".into());
    assert_eq!(pin_value(&viz, &doc, 3, "text", false), Some("7"));
    assert_eq!(pin_value(&viz, &doc, 1, "result", true), Some("7"));
    assert_eq!(pin_value(&viz, &doc, 1, "a", false), None);
    assert_eq!(pin_value(&viz, &doc, 2, REROUTE_OUT, true), Some("7"));
}

#[test]
fn the_real_producer_skips_reroutes_and_gives_up_on_loops() {
    let doc = GraphDoc {
        nodes: vec![node(1, "add_int"), node(2, REROUTE_TYPE_ID), node(3, REROUTE_TYPE_ID), node(4, REROUTE_TYPE_ID)],
        edges: vec![
            edge(1, "result", 2, REROUTE_IN),
            edge(2, REROUTE_OUT, 3, REROUTE_IN),
            edge(4, REROUTE_OUT, 4, REROUTE_IN),
        ],
    };
    assert_eq!(real_producer(&doc, 3, REROUTE_OUT), Some((1, "result".to_string())));
    assert_eq!(real_producer(&doc, 1, "result"), Some((1, "result".to_string())));
    assert_eq!(real_producer(&doc, 4, REROUTE_OUT), None, "a reroute loop produces nothing");
    assert_eq!(real_producer(&doc, 99, "x"), None, "a missing node produces nothing");
    let unwired = GraphDoc { nodes: vec![node(5, REROUTE_TYPE_ID)], edges: vec![] };
    assert_eq!(real_producer(&unwired, 5, REROUTE_OUT), None, "an unwired reroute produces nothing");
}

#[test]
fn a_taken_wire_lights_both_halves_of_a_reroute() {
    let doc = GraphDoc {
        nodes: vec![node(1, "branch"), node(2, REROUTE_TYPE_ID), node(3, "print")],
        edges: vec![edge(1, "exec_out", 2, REROUTE_IN), edge(2, REROUTE_OUT, 3, "exec_in")],
    };
    let mut viz = GraphExecViz::new("Duck".to_string());
    assert!(!wire_taken(&viz, &doc, &doc.edges[1]));
    viz.mark_taken(1, "exec_out", 3);
    assert!(viz.is_taken(1, "exec_out", 3));
    assert!(!viz.is_taken(1, "exec_out", 2));
    assert!(wire_taken(&viz, &doc, &doc.edges[1]));
    viz.mark_taken(1, "exec_out", 3);
    assert_eq!(viz.taken.get(&1).map(|v| v.len()), Some(1), "marking twice records once");
}

#[test]
fn values_overwrite_and_the_newest_wins() {
    let mut v = GraphExecViz::new("Duck".to_string());
    v.set_value(3, "result", "1".into());
    v.set_value(3, "result", "2".into());
    assert_eq!(v.value(3, "result"), Some("2"), "the newest value wins");
    assert_eq!(v.value(3, "other"), None);
    assert_eq!(v.value(4, "result"), None);
}

#[test]
fn pause_and_invalid_marks_answer_per_node() {
    let mut v = GraphExecViz::new(String::new());
    assert!(!v.paused_on(5));
    v.paused = Some(PauseInfo { node: 5, activation: 2, hits: 1 });
    assert!(v.paused_on(5));
    assert!(!v.paused_on(6));
    v.invalid_breaks.insert(6);
    assert!(v.break_invalid(6));
    assert!(!v.break_invalid(5));
}

#[test]
fn wiring_rules_are_strict_and_symmetric() {
    let edges = vec![edge(1, "v", 2, "a")];
    let flow = vec!["flow".to_string()];
    let norm = edge(3, "out", 2, "b");
    // Normalized to output -> input whichever end was dragged.
    assert_eq!(
        validate_connection(&edges, &flow, 3, "out", true, &PinType::Int, false, 2, "b", false, &PinType::Int, false),
        Some(norm.clone())
    );
    assert_eq!(
        validate_connection(&edges, &flow, 2, "b", false, &PinType::Int, false, 3, "out", true, &PinType::Int, false),
        Some(norm)
    );
    // No implicit conversions…
    assert_eq!(
        validate_connection(&edges, &flow, 3, "out", true, &PinType::Int, false, 2, "b", false, &PinType::Float, false),
        None
    );
    // …but an untyped reroute end accepts anything.
    assert!(validate_connection(&edges, &flow, 3, "out", true, &PinType::Int, true, 2, "b", false, &PinType::Float, false).is_some());
    // Same node, or two outputs: never.
    assert_eq!(
        validate_connection(&edges, &flow, 2, "out", true, &PinType::Int, false, 2, "b", false, &PinType::Int, false),
        None
    );
    assert_eq!(
        validate_connection(&edges, &flow, 3, "out", true, &PinType::Int, false, 4, "x", true, &PinType::Int, false),
        None
    );
    // A data input takes one wire.
    assert_eq!(
        validate_connection(&edges, &flow, 3, "out", true, &PinType::Int, false, 2, "a", false, &PinType::Int, false),
        None
    );
    // Exec and flow-domain inputs fan in, but an identical wire is not a
    // second arrival.
    let exec = vec![edge(1, "then", 2, "exec_in"), edge(1, "go", 2, "enter")];
    assert!(validate_connection(&exec, &flow, 3, "then", true, &PinType::Exec, false, 2, "exec_in", false, &PinType::Exec, false).is_some());
    let fl = PinType::Domain("flow".to_string());
    assert!(validate_connection(&exec, &flow, 3, "go", true, &fl, false, 2, "enter", false, &fl, false).is_some());
    let other = PinType::Domain("pose".to_string());
    assert!(validate_connection(&exec, &flow, 3, "go", true, &other, false, 2, "enter", false, &other, false).is_none());
    assert_eq!(
        validate_connection(&exec, &flow, 1, "then", true, &PinType::Exec, false, 2, "exec_in", false, &PinType::Exec, false),
        None
    );
}

#[test]
fn incident_edges_index_each_pin_once() {
    let edges = vec![edge(1, "out", 2, "a"), edge(1, "out", 3, "a"), edge(4, "x", 2, "a"), edge(4, "y", 2, "b")];
    let ix = IncidentEdges::build(&edges);
    assert_eq!(ix.incoming.get(&2), Some(&vec!["a".to_string(), "b".to_string()]));
    assert_eq!(ix.incoming.get(&3), Some(&vec!["a".to_string()]));
    assert_eq!(ix.incoming.get(&1), None);
    assert_eq!(ix.outgoing.get(&1), Some(&vec!["out".to_string()]));
    assert_eq!(ix.outgoing.get(&4), Some(&vec!["x".to_string(), "y".to_string()]));
}

#[test]
fn an_untyped_reroute_accepts_any_type_from_either_direction() {
    let edges: Vec<Edge> = vec![];
    let flow: Vec<String> = vec![];
    assert!(
        validate_connection(
            &edges, &flow, 1, "o", true, &PinType::Float, false,
            7, REROUTE_IN, false, &PinType::Domain(String::new()), true,
        )
        .is_some(),
        "an untyped reroute is an absence of a type, not a mismatch"
    );
    assert!(
        validate_connection(
            &edges, &flow, 7, REROUTE_OUT, true, &PinType::Domain(String::new()), true,
            1, "i", false, &PinType::Float, false,
        )
        .is_some(),
        "and it works in the other direction too"
    );
    assert!(
        validate_connection(
            &edges, &flow, 1, "o", true, &PinType::Float, false,
            2, "i", false, &PinType::Exec, false,
        )
        .is_none(),
        "no implicit conversions; typing stays strict"
    );
}
