//! The animation canvas's transition rules, as the breadcrumb names them: a
//! transition node's two endpoint states and their display names.

use crate::doc::{edges_view, first_from, first_into, lemma_first_from, lemma_first_into, node_slot, GraphDoc, NodeInst};
use crate::text::{decimal, decimal_string};
use vstd::prelude::*;
use vstd::string::StringExecFns;

verus! {

/// The input pin a transition's source state wires into.
pub const TRANSITION_FROM_PIN: &'static str = "from";

/// The output pin a transition wires to its target state.
pub const TRANSITION_TO_PIN: &'static str = "to";

/// Type id of an animation state node.
pub const ANIM_STATE_TYPE_ID: &'static str = "anim_state";

/// Type id of the machine's "any state" node.
pub const ANIM_ANY_STATE_TYPE_ID: &'static str = "anim_any_state";

/// Source and target of transition `owner`: the node wired into its
/// from-pin and the node its to-pin wires to, first wire each.
pub open spec fn endpoints(doc: GraphDoc, owner: u64) -> (Option<u64>, Option<u64>) {
    let ev = edges_view(doc.edges@);
    (
        match first_into(ev, owner, TRANSITION_FROM_PIN@) {
            Some(j) => Some(ev[j].from_node),
            None => None,
        },
        match first_from(ev, owner, TRANSITION_TO_PIN@) {
            Some(j) => Some(ev[j].to_node),
            None => None,
        },
    )
}

/// Source and target of a transition, resolved through its pins.
pub fn rule_endpoints(doc: &GraphDoc, owner: u64) -> (r: (Option<u64>, Option<u64>))
    ensures
        r == endpoints(*doc, owner),
{
    let from_pin = String::from_str(TRANSITION_FROM_PIN);
    let to_pin = String::from_str(TRANSITION_TO_PIN);
    let ghost ev = edges_view(doc.edges@);
    proof {
        lemma_first_into(ev, owner, TRANSITION_FROM_PIN@);
        lemma_first_from(ev, owner, TRANSITION_TO_PIN@);
    }
    let from = match doc.edge_into(owner, &from_pin) {
        Some(e) => {
            assert(ev[first_into(ev, owner, TRANSITION_FROM_PIN@)->0] == e@);
            Some(e.from_node)
        },
        None => None,
    };
    let to = match doc.edge_from(owner, &to_pin) {
        Some(e) => {
            assert(ev[first_from(ev, owner, TRANSITION_TO_PIN@)->0] == e@);
            Some(e.to_node)
        },
        None => None,
    };
    (from, to)
}

/// A node's name in a scope label: its title when it has one, else a name
/// for its kind and id.
pub open spec fn node_name(n: NodeInst) -> Seq<char> {
    match n.title {
        Some(t) => t@,
        None => if n.type_id@ == ANIM_ANY_STATE_TYPE_ID@ {
            "Any State"@
        } else if n.type_id@ == ANIM_STATE_TYPE_ID@ {
            "State "@ + decimal(n.id as nat)
        } else {
            "Node "@ + decimal(n.id as nat)
        },
    }
}

/// A state's display name, `?` for an unwired endpoint or a missing node.
pub open spec fn state_name(doc: GraphDoc, id: Option<u64>) -> Seq<char> {
    match id {
        None => "?"@,
        Some(i) => match node_slot(doc.nodes@, i) {
            None => "?"@,
            Some(k) => node_name(doc.nodes@[k]),
        },
    }
}

/// A state's display name for the scope labels.
pub fn rule_state_name(doc: &GraphDoc, id: Option<u64>) -> (r: String)
    ensures
        r@ == state_name(*doc, id),
{
    let id = match id {
        Some(i) => i,
        None => return String::from_str("?"),
    };
    let n = match doc.node(id) {
        Some(n) => n,
        None => return String::from_str("?"),
    };
    if let Some(t) = &n.title {
        return t.clone();
    }
    let any = String::from_str(ANIM_ANY_STATE_TYPE_ID);
    let state = String::from_str(ANIM_STATE_TYPE_ID);
    if n.type_id == any {
        return String::from_str("Any State");
    }
    let mut out = if n.type_id == state {
        String::from_str("State ")
    } else {
        String::from_str("Node ")
    };
    let num = decimal_string(n.id);
    out.append(num.as_str());
    out
}

/// The breadcrumb's scope target for transition `owner`:
/// `rule: <from> → <to>`.
pub open spec fn scope_label(doc: GraphDoc, owner: u64) -> Seq<char> {
    let (from, to) = endpoints(doc, owner);
    "rule: "@ + state_name(doc, from) + " \u{2192} "@ + state_name(doc, to)
}

/// "rule: Idle → Locomotion" — the breadcrumb's non-file scope target.
pub fn rule_scope_label(doc: &GraphDoc, owner: u64) -> (r: String)
    ensures
        r@ == scope_label(*doc, owner),
{
    let (from, to) = rule_endpoints(doc, owner);
    let mut out = String::from_str("rule: ");
    let a = rule_state_name(doc, from);
    out.append(a.as_str());
    out.append(" \u{2192} ");
    let b = rule_state_name(doc, to);
    out.append(b.as_str());
    out
}

} // verus!
