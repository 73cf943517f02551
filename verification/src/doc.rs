//! The parts of a graph document the canvas logic reads: typed pins, the
//! edges between them, node instances, and the rules for wiring them.

use std::collections::BTreeMap;
use crate::text::{unicode_uppercase, uppercase};
use crate::vars::GraphDomain;
use vstd::prelude::*;
use vstd::string::{StrSliceExecFns, StringExecFns};

verus! {

broadcast use vstd::std_specs::btree::group_btree_axioms;

/// A pin's type. Typing is strict: there are no implicit conversions.
#[derive(Debug, PartialEq, Eq)]
pub enum PinType {
    Exec,
    Float,
    Int,
    Bool,
    String,
    Vec2,
    Vec3,
    Vec4,
    Color,
    Entity,
    Array(Box<PinType>),
    /// A type owned by a graph domain (animation flow, triggers, …), named by
    /// its kind.
    Domain(std::string::String),
}

/// A pin type as a mathematical value.
pub enum PinTypeModel {
    Exec,
    Float,
    Int,
    Bool,
    Str,
    Vec2,
    Vec3,
    Vec4,
    Color,
    Entity,
    Array(Box<PinTypeModel>),
    Domain(Seq<char>),
}

pub open spec fn type_model(t: PinType) -> PinTypeModel
    decreases t,
{
    match t {
        PinType::Exec => PinTypeModel::Exec,
        PinType::Float => PinTypeModel::Float,
        PinType::Int => PinTypeModel::Int,
        PinType::Bool => PinTypeModel::Bool,
        PinType::String => PinTypeModel::Str,
        PinType::Vec2 => PinTypeModel::Vec2,
        PinType::Vec3 => PinTypeModel::Vec3,
        PinType::Vec4 => PinTypeModel::Vec4,
        PinType::Color => PinTypeModel::Color,
        PinType::Entity => PinTypeModel::Entity,
        PinType::Array(inner) => PinTypeModel::Array(Box::new(type_model(*inner))),
        PinType::Domain(k) => PinTypeModel::Domain(k@),
    }
}

impl PinType {
    /// Structural type equality.
    pub fn same_as(&self, other: &PinType) -> (r: bool)
        ensures
            r == (type_model(*self) == type_model(*other)),
        decreases self,
    {
        match (self, other) {
            (PinType::Exec, PinType::Exec) => true,
            (PinType::Float, PinType::Float) => true,
            (PinType::Int, PinType::Int) => true,
            (PinType::Bool, PinType::Bool) => true,
            (PinType::String, PinType::String) => true,
            (PinType::Vec2, PinType::Vec2) => true,
            (PinType::Vec3, PinType::Vec3) => true,
            (PinType::Vec4, PinType::Vec4) => true,
            (PinType::Color, PinType::Color) => true,
            (PinType::Entity, PinType::Entity) => true,
            (PinType::Array(a), PinType::Array(b)) => {
                let r = (**a).same_as(&**b);
                proof {
                    if !r {
                        assert(type_model(**a) != type_model(**b));
                        assert(type_model(*self) != type_model(*other)) by {
                            if type_model(*self) == type_model(*other) {
                                assert(PinTypeModel::Array(Box::new(type_model(**a))) == PinTypeModel::Array(Box::new(type_model(**b))));
                            }
                        }
                    }
                }
                r
            },
            (PinType::Domain(a), PinType::Domain(b)) => *a == *b,
            _ => false,
        }
    }

    /// A structurally equal copy.
    pub fn duplicate(&self) -> (r: PinType)
        ensures
            type_model(r) == type_model(*self),
        decreases self,
    {
        match self {
            PinType::Exec => PinType::Exec,
            PinType::Float => PinType::Float,
            PinType::Int => PinType::Int,
            PinType::Bool => PinType::Bool,
            PinType::String => PinType::String,
            PinType::Vec2 => PinType::Vec2,
            PinType::Vec3 => PinType::Vec3,
            PinType::Vec4 => PinType::Vec4,
            PinType::Color => PinType::Color,
            PinType::Entity => PinType::Entity,
            PinType::Array(inner) => PinType::Array(Box::new((**inner).duplicate())),
            PinType::Domain(k) => PinType::Domain(k.clone()),
        }
    }

    /// Is this the exec (control-flow) type?
    pub fn is_exec(&self) -> (r: bool)
        ensures
            r == (*self is Exec),
    {
        match self {
            PinType::Exec => true,
            _ => false,
        }
    }
}

impl Clone for PinType {
    fn clone(&self) -> Self {
        self.duplicate()
    }
}

/// A wire: an output pin feeding an input pin.
#[derive(Debug, Clone, PartialEq, Eq)]
pub struct Edge {
    pub from_node: u64,
    pub from_pin: String,
    pub to_node: u64,
    pub to_pin: String,
}

/// An edge as a mathematical value.
pub struct EdgeView {
    pub from_node: u64,
    pub from_pin: Seq<char>,
    pub to_node: u64,
    pub to_pin: Seq<char>,
}

impl View for Edge {
    type V = EdgeView;

    open spec fn view(&self) -> EdgeView {
        EdgeView { from_node: self.from_node, from_pin: self.from_pin@, to_node: self.to_node, to_pin: self.to_pin@ }
    }
}

pub open spec fn edges_view(edges: Seq<Edge>) -> Seq<EdgeView> {
    edges.map_values(|e: Edge| e@)
}

impl Edge {
    /// A copy with the same endpoints.
    pub fn duplicate(&self) -> (r: Edge)
        ensures
            r@ == self@,
    {
        Edge {
            from_node: self.from_node,
            from_pin: self.from_pin.clone(),
            to_node: self.to_node,
            to_pin: self.to_pin.clone(),
        }
    }

    /// Same endpoints, pin for pin.
    pub fn same_as(&self, other: &Edge) -> (r: bool)
        ensures
            r == (self@ == other@),
    {
        self.from_node == other.from_node && self.to_node == other.to_node && self.from_pin == other.from_pin
            && self.to_pin == other.to_pin
    }
}

/// Count of `j < upto` whose edge lands on the same input pin as edge `i`.
pub open spec fn converge_rank_among(edges: Seq<EdgeView>, i: int, upto: int) -> nat
    decreases upto,
{
    if upto <= 0 {
        0
    } else {
        let j = upto - 1;
        converge_rank_among(edges, i, j) + if edges[j].to_node == edges[i].to_node && edges[j].to_pin
            == edges[i].to_pin {
            1nat
        } else {
            0nat
        }
    }
}

/// Indices `j < upto` of the edges landing on node `n`, ascending.
spec fn arrivals(edges: Seq<EdgeView>, n: u64, upto: int) -> Seq<usize>
    decreases upto,
{
    if upto <= 0 {
        seq![]
    } else {
        let prev = arrivals(edges, n, upto - 1);
        if edges[upto - 1].to_node == n { prev.push((upto - 1) as usize) } else { prev }
    }
}

/// Count of the arrivals in `b` that land on edge `i`'s pin.
spec fn pin_matches(edges: Seq<EdgeView>, i: int, b: Seq<usize>) -> nat
    decreases b.len(),
{
    if b.len() == 0 {
        0
    } else {
        pin_matches(edges, i, b.drop_last()) + if edges[b.last() as int].to_pin == edges[i].to_pin { 1nat } else { 0nat }
    }
}

proof fn lemma_arrivals_bounded(edges: Seq<EdgeView>, n: u64, upto: int)
    requires
        upto <= usize::MAX,
    ensures
        forall|t: int| 0 <= t < arrivals(edges, n, upto).len() ==> (#[trigger] arrivals(edges, n, upto)[t]) < upto,
    decreases upto,
{
    if upto > 0 {
        lemma_arrivals_bounded(edges, n, upto - 1);
        let prev = arrivals(edges, n, upto - 1);
        let cur = arrivals(edges, n, upto);
        assert forall|t: int| 0 <= t < cur.len() implies (#[trigger] cur[t]) < upto by {
            if t < prev.len() {
                assert(cur[t] == prev[t]);
            }
        }
    }
}

proof fn lemma_arrivals_count(edges: Seq<EdgeView>, i: int, upto: int)
    requires
        0 <= upto,
        upto <= usize::MAX,
    ensures
        pin_matches(edges, i, arrivals(edges, edges[i].to_node, upto)) == converge_rank_among(edges, i, upto),
    decreases upto,
{
    if upto > 0 {
        lemma_arrivals_count(edges, i, upto - 1);
        let n = edges[i].to_node;
        let prev = arrivals(edges, n, upto - 1);
        if edges[upto - 1].to_node == n {
            assert(prev.push((upto - 1) as usize).drop_last() =~= prev);
        }
    }
}

/// Each edge's rank among the edges landing on the *same* input pin,
/// indexed by edge index. Only exec inputs ever have more than one, so this
/// is 0 for every data wire and for every unshared exec wire.
pub fn converge_ranks(edges: &[Edge]) -> (ranks: Vec<usize>)
    ensures
        ranks@.len() == edges@.len(),
        forall|i: int| 0 <= i < edges@.len() ==> ranks@[i] == converge_rank_among(edges_view(edges@), i, i),
{
    let ghost ev = edges_view(edges@);
    // Earlier arrivals per target node, so each edge only looks at its own
    // node's arrivals rather than the whole document.
    let mut seen: BTreeMap<u64, Vec<usize>> = BTreeMap::new();
    let mut ranks: Vec<usize> = Vec::new();
    let mut i: usize = 0;
    while i < edges.len()
        invariant
            i <= edges.len(),
            ev == edges_view(edges@),
            ranks@.len() == i,
            forall|k: int| 0 <= k < i ==> ranks@[k] == converge_rank_among(ev, k, k),
            forall|n: u64| #[trigger] seen@.contains_key(n) ==> seen@[n]@ == arrivals(ev, n, i as int),
            forall|n: u64| !(#[trigger] seen@.contains_key(n)) ==> arrivals(ev, n, i as int).len() == 0,
        decreases edges.len() - i,
    {
        let node = edges[i].to_node;
        let ghost mine = arrivals(ev, node, i as int);
        proof {
            lemma_arrivals_bounded(ev, node, i as int);
        }
        let mut bucket: Vec<usize> = match seen.remove(&node) {
            Some(b) => b,
            None => Vec::new(),
        };
        assert(bucket@ =~= mine);
        let mut rank: usize = 0;
        let mut t: usize = 0;
        while t < bucket.len()
            invariant
                i < edges.len(),
                ev == edges_view(edges@),
                bucket@ == mine,
                forall|u: int| 0 <= u < mine.len() ==> (#[trigger] mine[u]) < i,
                t <= bucket.len(),
                rank == pin_matches(ev, i as int, mine.take(t as int)),
                rank <= t,
            decreases bucket.len() - t,
        {
            let j = bucket[t];
            assert(mine.take(t + 1).drop_last() =~= mine.take(t as int));
            assert(ev[j as int] == edges@[j as int]@);
            assert(ev[i as int] == edges@[i as int]@);
            if edges[j].to_pin == edges[i].to_pin {
                rank += 1;
            }
            t += 1;
        }
        assert(mine.take(mine.len() as int) =~= mine);
        proof {
            lemma_arrivals_count(ev, i as int, i as int);
        }
        ranks.push(rank);
        bucket.push(i);
        let ghost before = seen@;
        seen.insert(node, bucket);
        proof {
            assert(ev[i as int].to_node == node);
            assert forall|n: u64| #[trigger] seen@.contains_key(n) implies seen@[n]@ == arrivals(ev, n, i + 1) by {
                if n != node {
                    assert(before.contains_key(n));
                }
            }
            assert forall|n: u64| !(#[trigger] seen@.contains_key(n)) implies arrivals(ev, n, i + 1).len() == 0 by {
                assert(!before.contains_key(n));
            }
        }
        i += 1;
    }
    ranks
}

/// Where a wire between two pins would run, if it is legal: normalized to
/// output → input.
///
/// Typing is strict, but an untyped (`wild`) reroute endpoint accepts any
/// type. The input must be free unless it fans in: exec inputs and inputs of
/// a flow-like domain type take several wires, data inputs take one. An
/// identical wire is never a second arrival.
pub open spec fn connection(
    edges: Seq<EdgeView>,
    flow_kinds: Seq<Seq<char>>,
    a_node: u64,
    a_slug: Seq<char>,
    a_out: bool,
    a_ty: PinTypeModel,
    a_wild: bool,
    b_node: u64,
    b_slug: Seq<char>,
    b_out: bool,
    b_ty: PinTypeModel,
    b_wild: bool,
) -> Option<EdgeView> {
    if a_node == b_node || a_out == b_out {
        None
    } else if !a_wild && !b_wild && a_ty != b_ty {
        None
    } else {
        let e = if a_out {
            EdgeView { from_node: a_node, from_pin: a_slug, to_node: b_node, to_pin: b_slug }
        } else {
            EdgeView { from_node: b_node, from_pin: b_slug, to_node: a_node, to_pin: a_slug }
        };
        let to_ty = if a_out { b_ty } else { a_ty };
        let occupied = exists|j: int| 0 <= j < edges.len() && edges[j].to_node == e.to_node && edges[j].to_pin == e.to_pin;
        let fan_in = to_ty is Exec || (to_ty matches PinTypeModel::Domain(k) && flow_kinds.contains(k));
        if occupied && !fan_in {
            None
        } else if edges.contains(e) {
            None
        } else {
            Some(e)
        }
    }
}

fn contains_string(list: &[String], s: &String) -> (r: bool)
    ensures
        r == list@.map_values(|x: String| x@).contains(s@),
{
    let ghost lv = list@.map_values(|x: String| x@);
    let mut i: usize = 0;
    while i < list.len()
        invariant
            i <= list.len(),
            lv == list@.map_values(|x: String| x@),
            forall|k: int| 0 <= k < i ==> lv[k] != s@,
        decreases list.len() - i,
    {
        if list[i] == *s {
            assert(lv[i as int] == s@);
            return true;
        }
        i += 1;
    }
    false
}

/// If a wire between two pins is legal, the normalized edge (output →
/// input); see [`connection`]. `flow_kinds` names the domain types whose
/// inputs may fan in.
pub fn validate_connection(
    edges: &[Edge],
    flow_kinds: &[String],
    a_node: u64,
    a_slug: &str,
    a_out: bool,
    a_ty: &PinType,
    a_wild: bool,
    b_node: u64,
    b_slug: &str,
    b_out: bool,
    b_ty: &PinType,
    b_wild: bool,
) -> (r: Option<Edge>)
    ensures
        match r {
            Some(e) => connection(
                edges_view(edges@),
                flow_kinds@.map_values(|x: String| x@),
                a_node,
                a_slug@,
                a_out,
                type_model(*a_ty),
                a_wild,
                b_node,
                b_slug@,
                b_out,
                type_model(*b_ty),
                b_wild,
            ) == Some(e@),
            None => connection(
                edges_view(edges@),
                flow_kinds@.map_values(|x: String| x@),
                a_node,
                a_slug@,
                a_out,
                type_model(*a_ty),
                a_wild,
                b_node,
                b_slug@,
                b_out,
                type_model(*b_ty),
                b_wild,
            ) is None,
        },
{
    let ghost ev = edges_view(edges@);
    if a_node == b_node || a_out == b_out {
        return None;
    }
    if !a_wild && !b_wild && !a_ty.same_as(b_ty) {
        return None;
    }
    let (from_node, from_pin, to_node, to_pin) = if a_out {
        (a_node, String::from_str(a_slug), b_node, String::from_str(b_slug))
    } else {
        (b_node, String::from_str(b_slug), a_node, String::from_str(a_slug))
    };
    let to_ty = if a_out { b_ty } else { a_ty };
    let cand = Edge { from_node, from_pin, to_node, to_pin };
    let mut occupied = false;
    let mut identical = false;
    let mut i: usize = 0;
    while i < edges.len()
        invariant
            i <= edges.len(),
            ev == edges_view(edges@),
            occupied == exists|j: int| 0 <= j < i && ev[j].to_node == cand.to_node && ev[j].to_pin == cand.to_pin@,
            identical == exists|j: int| 0 <= j < i && ev[j] == cand@,
        decreases edges.len() - i,
    {
        let e = &edges[i];
        assert(ev[i as int] == e@);
        if e.to_node == cand.to_node && e.to_pin == cand.to_pin {
            occupied = true;
        }
        if e.same_as(&cand) {
            identical = true;
        }
        i += 1;
    }
    let fan_in = match to_ty {
        PinType::Exec => true,
        PinType::Domain(k) => contains_string(flow_kinds, k),
        _ => false,
    };
    proof {
        if identical {
            let j = choose|j: int| 0 <= j < edges.len() && ev[j] == cand@;
            assert(ev.contains(cand@));
        } else {
            assert(!ev.contains(cand@)) by {
                if ev.contains(cand@) {
                    let j = choose|j: int| 0 <= j < ev.len() && ev[j] == cand@;
                }
            }
        }
    }
    if occupied && !fan_in {
        return None;
    }
    if identical {
        return None;
    }
    Some(cand)
}

/// A wire's legality does not depend on which end the drag started from.
pub proof fn law_connection_is_symmetric(
    edges: Seq<EdgeView>,
    flow_kinds: Seq<Seq<char>>,
    a_node: u64,
    a_slug: Seq<char>,
    a_out: bool,
    a_ty: PinTypeModel,
    a_wild: bool,
    b_node: u64,
    b_slug: Seq<char>,
    b_out: bool,
    b_ty: PinTypeModel,
    b_wild: bool,
)
    ensures
        connection(edges, flow_kinds, a_node, a_slug, a_out, a_ty, a_wild, b_node, b_slug, b_out, b_ty, b_wild)
            == connection(edges, flow_kinds, b_node, b_slug, b_out, b_ty, b_wild, a_node, a_slug, a_out, a_ty, a_wild),
{
}

/// A legal wire always runs from an output to an input of another node, and
/// a data input (neither exec nor a flow-like domain type) never receives a
/// second wire.
pub proof fn law_connection_respects_single_wire_inputs(
    edges: Seq<EdgeView>,
    flow_kinds: Seq<Seq<char>>,
    a_node: u64,
    a_slug: Seq<char>,
    a_out: bool,
    a_ty: PinTypeModel,
    a_wild: bool,
    b_node: u64,
    b_slug: Seq<char>,
    b_out: bool,
    b_ty: PinTypeModel,
    b_wild: bool,
)
    ensures
        connection(edges, flow_kinds, a_node, a_slug, a_out, a_ty, a_wild, b_node, b_slug, b_out, b_ty, b_wild) matches Some(e) ==> {
            let to_ty = if a_out { b_ty } else { a_ty };
            &&& e.from_node != e.to_node
            &&& (if a_out { e.from_node == a_node && e.from_pin == a_slug } else { e.from_node == b_node && e.from_pin == b_slug })
            &&& !edges.contains(e)
            &&& (!(to_ty is Exec) && !(to_ty matches PinTypeModel::Domain(k) && flow_kinds.contains(k))) ==>
                forall|j: int| 0 <= j < edges.len() ==> !(edges[j].to_node == e.to_node && edges[j].to_pin == e.to_pin)
        },
{
}

/// Type id of the reroute node: a transparent dot that only passes a wire
/// through.
pub const REROUTE_TYPE_ID: &'static str = "reroute";

/// A reroute's input pin.
pub const REROUTE_IN: &'static str = "in";

/// A reroute's output pin.
pub const REROUTE_OUT: &'static str = "out";

/// A chain of reroutes is longer than this only if the document is degenerate.
pub const MAX_REROUTE_HOPS: usize = 64;

/// A node instance, as far as the canvas logic reads it.
#[derive(Debug, Clone, PartialEq, Eq)]
pub struct NodeInst {
    pub id: u64,
    pub type_id: String,
    /// The author's title, when one was given.
    pub title: Option<String>,
}

/// The nodes and wires of one graph document.
#[derive(Debug, Clone, PartialEq, Eq)]
pub struct GraphDoc {
    pub nodes: Vec<NodeInst>,
    pub edges: Vec<Edge>,
}

/// Index of the first node with this id.
pub open spec fn node_slot(nodes: Seq<NodeInst>, id: u64) -> Option<int>
    decreases nodes.len(),
{
    if nodes.len() == 0 {
        None
    } else {
        match node_slot(nodes.drop_last(), id) {
            Some(i) => Some(i),
            None => if nodes.last().id == id { Some(nodes.len() - 1) } else { None },
        }
    }
}

/// Index of the first edge landing on `node`'s pin `pin`.
pub open spec fn first_into(edges: Seq<EdgeView>, node: u64, pin: Seq<char>) -> Option<int>
    decreases edges.len(),
{
    if edges.len() == 0 {
        None
    } else {
        match first_into(edges.drop_last(), node, pin) {
            Some(i) => Some(i),
            None => if edges.last().to_node == node && edges.last().to_pin == pin {
                Some(edges.len() - 1)
            } else {
                None
            },
        }
    }
}

/// Walk back through at most `hops` reroutes from `(node, pin)` to the pin
/// that actually produces the value. `None` when the chain runs out of wire,
/// names a missing node, or is longer than `hops`.
pub open spec fn producer_within(
    nodes: Seq<NodeInst>,
    edges: Seq<EdgeView>,
    node: u64,
    pin: Seq<char>,
    hops: nat,
) -> Option<(u64, Seq<char>)>
    decreases hops,
{
    if hops == 0 {
        None
    } else {
        match node_slot(nodes, node) {
            None => None,
            Some(i) => if nodes[i].type_id@ != REROUTE_TYPE_ID@ {
                Some((node, pin))
            } else {
                match first_into(edges, node, REROUTE_IN@) {
                    None => None,
                    Some(j) => producer_within(nodes, edges, edges[j].from_node, edges[j].from_pin, (hops - 1) as nat),
                }
            },
        }
    }
}

pub proof fn lemma_node_slot(nodes: Seq<NodeInst>, id: u64)
    ensures
        node_slot(nodes, id) matches Some(i) ==> 0 <= i < nodes.len() && nodes[i].id == id && forall|k: int| 0 <= k < i ==> nodes[k].id != id,
        node_slot(nodes, id) is None ==> forall|k: int| 0 <= k < nodes.len() ==> nodes[k].id != id,
    decreases nodes.len(),
{
    if nodes.len() > 0 {
        lemma_node_slot(nodes.drop_last(), id);
        assert forall|k: int| 0 <= k < nodes.len() - 1 implies nodes[k] == nodes.drop_last()[k] by {}
    }
}

pub proof fn lemma_first_into(edges: Seq<EdgeView>, node: u64, pin: Seq<char>)
    ensures
        first_into(edges, node, pin) matches Some(i) ==> 0 <= i < edges.len() && edges[i].to_node == node && edges[i].to_pin == pin
            && forall|k: int| 0 <= k < i ==> !(edges[k].to_node == node && edges[k].to_pin == pin),
        first_into(edges, node, pin) is None ==> forall|k: int| 0 <= k < edges.len() ==> !(edges[k].to_node == node && edges[k].to_pin == pin),
    decreases edges.len(),
{
    if edges.len() > 0 {
        lemma_first_into(edges.drop_last(), node, pin);
        assert forall|k: int| 0 <= k < edges.len() - 1 implies edges[k] == edges.drop_last()[k] by {}
    }
}

/// Index of the first edge leaving `node`'s pin `pin`.
pub open spec fn first_from(edges: Seq<EdgeView>, node: u64, pin: Seq<char>) -> Option<int>
    decreases edges.len(),
{
    if edges.len() == 0 {
        None
    } else {
        match first_from(edges.drop_last(), node, pin) {
            Some(i) => Some(i),
            None => if edges.last().from_node == node && edges.last().from_pin == pin {
                Some(edges.len() - 1)
            } else {
                None
            },
        }
    }
}

pub proof fn lemma_first_from(edges: Seq<EdgeView>, node: u64, pin: Seq<char>)
    ensures
        first_from(edges, node, pin) matches Some(i) ==> 0 <= i < edges.len() && edges[i].from_node == node && edges[i].from_pin == pin
            && forall|k: int| 0 <= k < i ==> !(edges[k].from_node == node && edges[k].from_pin == pin),
        first_from(edges, node, pin) is None ==> forall|k: int| 0 <= k < edges.len() ==> !(edges[k].from_node == node && edges[k].from_pin == pin),
    decreases edges.len(),
{
    if edges.len() > 0 {
        lemma_first_from(edges.drop_last(), node, pin);
        assert forall|k: int| 0 <= k < edges.len() - 1 implies edges[k] == edges.drop_last()[k] by {}
    }
}

impl GraphDoc {
    /// The first node with this id.
    pub fn node(&self, id: u64) -> (r: Option<&NodeInst>)
        ensures
            match r {
                Some(n) => node_slot(self.nodes@, id) matches Some(i) && *n == self.nodes@[i],
                None => node_slot(self.nodes@, id) is None,
            },
    {
        proof {
            lemma_node_slot(self.nodes@, id);
        }
        let mut i: usize = 0;
        while i < self.nodes.len()
            invariant
                i <= self.nodes.len(),
                forall|k: int| 0 <= k < i ==> self.nodes@[k].id != id,
            decreases self.nodes.len() - i,
        {
            if self.nodes[i].id == id {
                proof {
                    lemma_node_slot(self.nodes@, id);
                    assert(node_slot(self.nodes@, id) == Some(i as int));
                }
                return Some(&self.nodes[i]);
            }
            i += 1;
        }
        None
    }

    /// The first wire landing on `node`'s pin `pin`.
    pub fn edge_into(&self, node: u64, pin: &String) -> (r: Option<&Edge>)
        ensures
            match r {
                Some(e) => first_into(edges_view(self.edges@), node, pin@) matches Some(j) && *e == self.edges@[j],
                None => first_into(edges_view(self.edges@), node, pin@) is None,
            },
    {
        let ghost ev = edges_view(self.edges@);
        proof {
            lemma_first_into(ev, node, pin@);
        }
        let mut i: usize = 0;
        while i < self.edges.len()
            invariant
                i <= self.edges.len(),
                ev == edges_view(self.edges@),
                forall|k: int| 0 <= k < i ==> !(ev[k].to_node == node && ev[k].to_pin == pin@),
            decreases self.edges.len() - i,
        {
            assert(ev[i as int] == self.edges@[i as int]@);
            if self.edges[i].to_node == node && self.edges[i].to_pin == *pin {
                proof {
                    lemma_first_into(ev, node, pin@);
                    assert(first_into(ev, node, pin@) == Some(i as int));
                }
                return Some(&self.edges[i]);
            }
            i += 1;
        }
        None
    }
}

impl GraphDoc {
    /// The first wire leaving `node`'s pin `pin`.
    pub fn edge_from(&self, node: u64, pin: &String) -> (r: Option<&Edge>)
        ensures
            match r {
                Some(e) => first_from(edges_view(self.edges@), node, pin@) matches Some(j) && *e == self.edges@[j],
                None => first_from(edges_view(self.edges@), node, pin@) is None,
            },
    {
        let ghost ev = edges_view(self.edges@);
        proof {
            lemma_first_from(ev, node, pin@);
        }
        let mut i: usize = 0;
        while i < self.edges.len()
            invariant
                i <= self.edges.len(),
                ev == edges_view(self.edges@),
                forall|k: int| 0 <= k < i ==> !(ev[k].from_node == node && ev[k].from_pin == pin@),
            decreases self.edges.len() - i,
        {
            assert(ev[i as int] == self.edges@[i as int]@);
            if self.edges[i].from_node == node && self.edges[i].from_pin == *pin {
                proof {
                    lemma_first_from(ev, node, pin@);
                    assert(first_from(ev, node, pin@) == Some(i as int));
                }
                return Some(&self.edges[i]);
            }
            i += 1;
        }
        None
    }
}

/// Walk back through reroutes to the pin that actually produces this value.
/// A reroute is transparent at run time, so the trace records the real
/// producer. `None` when the chain runs out of wire (an unwired reroute
/// produces nothing), names a missing node, or loops.
pub fn real_producer(doc: &GraphDoc, node: u64, pin: &str) -> (r: Option<(u64, String)>)
    ensures
        match r {
            Some((n, p)) => producer_within(doc.nodes@, edges_view(doc.edges@), node, pin@, MAX_REROUTE_HOPS as nat) == Some((n, p@)),
            None => producer_within(doc.nodes@, edges_view(doc.edges@), node, pin@, MAX_REROUTE_HOPS as nat) is None,
        },
{
    let ghost ev = edges_view(doc.edges@);
    let ghost start = producer_within(doc.nodes@, ev, node, pin@, MAX_REROUTE_HOPS as nat);
    let reroute = String::from_str(REROUTE_TYPE_ID);
    let reroute_in = String::from_str(REROUTE_IN);
    let mut cur = node;
    let mut cur_pin = String::from_str(pin);
    let mut hops: usize = 0;
    while hops < MAX_REROUTE_HOPS
        invariant
            hops <= MAX_REROUTE_HOPS,
            ev == edges_view(doc.edges@),
            reroute@ == REROUTE_TYPE_ID@,
            reroute_in@ == REROUTE_IN@,
            producer_within(doc.nodes@, ev, cur, cur_pin@, (MAX_REROUTE_HOPS - hops) as nat) == start,
            start == producer_within(doc.nodes@, ev, node, pin@, MAX_REROUTE_HOPS as nat),
        decreases MAX_REROUTE_HOPS - hops,
    {
        let ghost left = (MAX_REROUTE_HOPS - hops) as nat;
        assert(left > 0);
        proof {
            lemma_node_slot(doc.nodes@, cur);
        }
        let n = match doc.node(cur) {
            Some(n) => n,
            None => {
                assert(producer_within(doc.nodes@, ev, cur, cur_pin@, left) is None);
                return None;
            },
        };
        if !(n.type_id == reroute) {
            assert(producer_within(doc.nodes@, ev, cur, cur_pin@, left) == Some((cur, cur_pin@)));
            return Some((cur, cur_pin));
        }
        let up = match doc.edge_into(cur, &reroute_in) {
            Some(e) => e,
            None => {
                assert(producer_within(doc.nodes@, ev, cur, cur_pin@, left) is None);
                return None;
            },
        };
        proof {
            lemma_first_into(ev, cur, REROUTE_IN@);
            let j = first_into(ev, cur, REROUTE_IN@)->0;
            assert(ev[j] == doc.edges@[j]@);
            assert(producer_within(doc.nodes@, ev, cur, cur_pin@, left) == producer_within(doc.nodes@, ev, up.from_node, up.from_pin@, (left - 1) as nat));
        }
        cur = up.from_node;
        cur_pin = up.from_pin.clone();
        hops += 1;
    }
    None
}

/// A resolved producer is a node that exists and is not itself a reroute.
pub proof fn law_real_producer_is_not_a_reroute(
    nodes: Seq<NodeInst>,
    edges: Seq<EdgeView>,
    node: u64,
    pin: Seq<char>,
    hops: nat,
)
    ensures
        producer_within(nodes, edges, node, pin, hops) matches Some((n, _p)) ==> node_slot(nodes, n) matches Some(i)
            && nodes[i].type_id@ != REROUTE_TYPE_ID@,
    decreases hops,
{
    if hops > 0 {
        if let Some(i) = node_slot(nodes, node) {
            if nodes[i].type_id@ == REROUTE_TYPE_ID@ {
                if let Some(j) = first_into(edges, node, REROUTE_IN@) {
                    law_real_producer_is_not_a_reroute(nodes, edges, edges[j].from_node, edges[j].from_pin, (hops - 1) as nat);
                }
            }
        }
    }
}

/// The pin names as mathematical strings.
pub open spec fn pins_view(pins: Seq<String>) -> Seq<Seq<char>> {
    pins.map_values(|x: String| x@)
}

/// Some wire lands on `node`'s input `pin`.
pub open spec fn lands_on(edges: Seq<EdgeView>, node: u64, pin: Seq<char>) -> bool {
    exists|j: int| 0 <= j < edges.len() && edges[j].to_node == node && edges[j].to_pin == pin
}

/// Some wire leaves `node`'s output `pin`.
pub open spec fn leaves_from(edges: Seq<EdgeView>, node: u64, pin: Seq<char>) -> bool {
    exists|j: int| 0 <= j < edges.len() && edges[j].from_node == node && edges[j].from_pin == pin
}

/// `index` lists, per node, exactly the pins `wired` says are wired, once each.
pub open spec fn indexes(index: Map<u64, Vec<String>>, wired: spec_fn(u64, Seq<char>) -> bool) -> bool {
    &&& forall|n: u64| #[trigger] index.contains_key(n) <==> exists|p: Seq<char>| #[trigger] wired(n, p)
    &&& forall|n: u64| #[trigger] index.contains_key(n) ==> pins_view(index[n]@).no_duplicates()
    &&& forall|n: u64, p: Seq<char>| #[trigger] index.contains_key(n) ==> (pins_view(index[n]@).contains(p) <==> #[trigger] wired(n, p))
}

/// Which pins of which nodes have a wire on them, indexed once per frame so
/// the per-pin question is not asked of the whole edge list.
pub struct IncidentEdges {
    pub incoming: BTreeMap<u64, Vec<String>>,
    pub outgoing: BTreeMap<u64, Vec<String>>,
}

/// Record `pin` under `node` unless it is already there.
fn note_pin(index: &mut BTreeMap<u64, Vec<String>>, node: u64, pin: &String)
    ensures
        final(index)@.dom() == old(index)@.dom().insert(node),
        forall|n: u64| n != node && #[trigger] old(index)@.contains_key(n) ==> final(index)@[n] == old(index)@[n],
        ({
            let before = if old(index)@.contains_key(node) { pins_view(old(index)@[node]@) } else { seq![] };
            pins_view(final(index)@[node]@) == if before.contains(pin@) { before } else { before.push(pin@) }
        }),
{
    let ghost old_index = index@;
    let mut list: Vec<String> = match index.remove(&node) {
        Some(l) => l,
        None => Vec::new(),
    };
    let ghost before = pins_view(list@);
    assert(before == (if old_index.contains_key(node) { pins_view(old_index[node]@) } else { seq![] }));
    if !contains_string(&list, pin) {
        list.push(pin.clone());
        assert(pins_view(list@) =~= before.push(pin@));
    }
    index.insert(node, list);
}

proof fn lemma_note_keeps_index(
    old_i: Map<u64, Vec<String>>,
    new_i: Map<u64, Vec<String>>,
    node: u64,
    pin: Seq<char>,
    wired: spec_fn(u64, Seq<char>) -> bool,
    wired2: spec_fn(u64, Seq<char>) -> bool,
)
    requires
        indexes(old_i, wired),
        forall|n: u64, p: Seq<char>| #[trigger] wired2(n, p) <==> wired(n, p) || (n == node && p == pin),
        new_i.dom() == old_i.dom().insert(node),
        forall|n: u64| n != node && #[trigger] old_i.contains_key(n) ==> new_i[n] == old_i[n],
        ({
            let before = if old_i.contains_key(node) { pins_view(old_i[node]@) } else { seq![] };
            pins_view(new_i[node]@) == if before.contains(pin) { before } else { before.push(pin) }
        }),
    ensures
        indexes(new_i, wired2),
{
    let before = if old_i.contains_key(node) { pins_view(old_i[node]@) } else { seq![] };
    assert forall|n: u64| #[trigger] new_i.contains_key(n) <==> exists|p: Seq<char>| #[trigger] wired2(n, p) by {
        if n == node {
            assert(wired2(n, pin));
        } else if new_i.contains_key(n) {
            assert(old_i.contains_key(n));
            let p = choose|p: Seq<char>| #[trigger] wired(n, p);
            assert(wired2(n, p));
        } else if exists|p: Seq<char>| #[trigger] wired2(n, p) {
            let p = choose|p: Seq<char>| #[trigger] wired2(n, p);
            assert(wired(n, p));
        }
    }
    assert forall|n: u64| #[trigger] new_i.contains_key(n) implies pins_view(new_i[n]@).no_duplicates() by {
        if n == node {
            if !before.contains(pin) {
                assert forall|a: int, b: int| 0 <= a < b < before.push(pin).len() implies before.push(pin)[a] != before.push(pin)[b] by {
                    if b == before.len() {
                        assert(before.contains(before[a]));
                    }
                }
            }
        }
    }
    assert forall|n: u64, p: Seq<char>| #[trigger] new_i.contains_key(n) implies (pins_view(new_i[n]@).contains(p) <==> #[trigger] wired2(n, p)) by {
        if n == node {
            if old_i.contains_key(node) {
                assert(before.contains(p) <==> wired(n, p));
            } else {
                assert(!wired(n, p)) by {
                    if wired(n, p) {
                        assert(exists|q: Seq<char>| #[trigger] wired(n, q));
                    }
                }
            }
            if !before.contains(pin) {
                assert(before.push(pin).contains(p) <==> before.contains(p) || p == pin) by {
                    if before.push(pin).contains(p) {
                        let k = choose|k: int| 0 <= k < before.push(pin).len() && before.push(pin)[k] == p;
                        if k < before.len() {
                            assert(before[k] == p);
                        }
                    }
                    if before.contains(p) {
                        let k = choose|k: int| 0 <= k < before.len() && before[k] == p;
                        assert(before.push(pin)[k] == p);
                    }
                    if p == pin {
                        assert(before.push(pin)[before.len() as int] == p);
                    }
                }
            }
        } else {
            assert(old_i.contains_key(n));
        }
    }
}

impl IncidentEdges {
    /// Index every wire's two ends in one pass.
    pub fn build(edges: &[Edge]) -> (ix: IncidentEdges)
        ensures
            indexes(ix.incoming@, |n: u64, p: Seq<char>| lands_on(edges_view(edges@), n, p)),
            indexes(ix.outgoing@, |n: u64, p: Seq<char>| leaves_from(edges_view(edges@), n, p)),
    {
        let ghost ev = edges_view(edges@);
        let mut incoming: BTreeMap<u64, Vec<String>> = BTreeMap::new();
        let mut outgoing: BTreeMap<u64, Vec<String>> = BTreeMap::new();
        let mut i: usize = 0;
        while i < edges.len()
            invariant
                i <= edges.len(),
                ev == edges_view(edges@),
                indexes(incoming@, |n: u64, p: Seq<char>| lands_on(ev.take(i as int), n, p)),
                indexes(outgoing@, |n: u64, p: Seq<char>| leaves_from(ev.take(i as int), n, p)),
            decreases edges.len() - i,
        {
            let e = &edges[i];
            assert(ev[i as int] == e@);
            let ghost old_in = incoming@;
            let ghost old_out = outgoing@;
            note_pin(&mut incoming, e.to_node, &e.to_pin);
            note_pin(&mut outgoing, e.from_node, &e.from_pin);
            proof {
                let pre = ev.take(i as int);
                let post = ev.take(i + 1);
                assert(post =~= pre.push(e@));
                assert forall|n: u64, p: Seq<char>| lands_on(post, n, p) <==> lands_on(pre, n, p) || (n == e.to_node && p == e.to_pin@) by {
                    if lands_on(post, n, p) {
                        let j = choose|j: int| 0 <= j < post.len() && post[j].to_node == n && post[j].to_pin == p;
                        if j < pre.len() {
                            assert(pre[j] == post[j]);
                        }
                    }
                    if lands_on(pre, n, p) {
                        let j = choose|j: int| 0 <= j < pre.len() && pre[j].to_node == n && pre[j].to_pin == p;
                        assert(post[j] == pre[j]);
                    }
                    if n == e.to_node && p == e.to_pin@ {
                        assert(post[i as int] == e@);
                    }
                }
                assert forall|n: u64, p: Seq<char>| leaves_from(post, n, p) <==> leaves_from(pre, n, p) || (n == e.from_node && p == e.from_pin@) by {
                    if leaves_from(post, n, p) {
                        let j = choose|j: int| 0 <= j < post.len() && post[j].from_node == n && post[j].from_pin == p;
                        if j < pre.len() {
                            assert(pre[j] == post[j]);
                        }
                    }
                    if leaves_from(pre, n, p) {
                        let j = choose|j: int| 0 <= j < pre.len() && pre[j].from_node == n && pre[j].from_pin == p;
                        assert(post[j] == pre[j]);
                    }
                    if n == e.from_node && p == e.from_pin@ {
                        assert(post[i as int] == e@);
                    }
                }
                lemma_note_keeps_index(
                    old_in,
                    incoming@,
                    e.to_node,
                    e.to_pin@,
                    |n: u64, p: Seq<char>| lands_on(pre, n, p),
                    |n: u64, p: Seq<char>| lands_on(post, n, p),
                );
                lemma_note_keeps_index(
                    old_out,
                    outgoing@,
                    e.from_node,
                    e.from_pin@,
                    |n: u64, p: Seq<char>| leaves_from(pre, n, p),
                    |n: u64, p: Seq<char>| leaves_from(post, n, p),
                );
            }
            i += 1;
        }
        assert(ev.take(edges.len() as int) =~= ev);
        IncidentEdges { incoming, outgoing }
    }
}

// ---------------------------------------------------------------------------
// Header tags
// ---------------------------------------------------------------------------

/// A declared pin of a node type.
#[derive(Debug, Clone)]
pub struct PinDescriptor {
    pub name: String,
    pub ty: PinType,
}

/// What a node type declares, as far as the canvas reads it.
#[derive(Debug, Clone)]
pub struct NodeDescriptor {
    /// A pure node has no exec pins and is evaluated on demand.
    pub pure: bool,
    pub inputs: Vec<PinDescriptor>,
    pub outputs: Vec<PinDescriptor>,
}

/// Some pin in `pins` carries exec flow.
pub open spec fn any_exec(pins: Seq<PinDescriptor>) -> bool {
    exists|i: int| 0 <= i < pins.len() && #[trigger] pins[i].ty is Exec
}

/// The short tag a node header shows: `SUB` for a subgraph, `PURE` for a pure
/// node, `EVENT` for a node that starts flow (exec out, no exec in), and
/// otherwise the first five characters of its category, uppercased.
pub open spec fn tag_for(is_subgraph: bool, desc: Option<NodeDescriptor>, category: Option<Seq<char>>) -> Seq<char> {
    if is_subgraph {
        "SUB"@
    } else if desc matches Some(d) && d.pure {
        "PURE"@
    } else if desc matches Some(d) && any_exec(d.outputs@) && !any_exec(d.inputs@) {
        "EVENT"@
    } else {
        let c = match category {
            Some(c) => c,
            None => Seq::empty(),
        };
        unicode_uppercase(c.take(if c.len() < 5 { c.len() as int } else { 5 }))
    }
}

fn has_exec_pin(pins: &Vec<PinDescriptor>) -> (r: bool)
    ensures
        r == any_exec(pins@),
{
    for i in 0..pins.len()
        invariant
            forall|k: int| 0 <= k < i ==> !(#[trigger] pins@[k].ty is Exec),
    {
        if pins[i].ty.is_exec() {
            return true;
        }
    }
    false
}

/// The header tag of a node.
pub fn derive_tag(is_subgraph: bool, desc: Option<&NodeDescriptor>, category: Option<&str>) -> (r: String)
    ensures
        r@ == tag_for(
            is_subgraph,
            match desc {
                Some(d) => Some(*d),
                None => None,
            },
            match category {
                Some(c) => Some(c@),
                None => None,
            },
        ),
{
    if is_subgraph {
        return String::from_str("SUB");
    }
    if let Some(d) = desc {
        if d.pure {
            return String::from_str("PURE");
        }
        let exec_out = has_exec_pin(&d.outputs);
        let exec_in = has_exec_pin(&d.inputs);
        if exec_out && !exec_in {
            return String::from_str("EVENT");
        }
    }
    let c = match category {
        Some(c) => c,
        None => "",
    };
    proof {
        reveal_strlit("");
    }
    let n = c.unicode_len();
    let k = if n < 5 { n } else { 5 };
    let head = c.substring_char(0, k);
    let ghost cs: Seq<char> = match category {
        Some(c) => c@,
        None => Seq::empty(),
    };
    assert(c@ =~= cs);
    assert(head@ =~= cs.take(if cs.len() < 5 { cs.len() as int } else { 5 }));
    uppercase(head)
}

// ---------------------------------------------------------------------------
// Dropping a wire on a node body
// ---------------------------------------------------------------------------

/// The pin a wire is being dragged from.
#[derive(Debug, Clone, PartialEq, Eq)]
pub struct PaletteDragSource {
    pub node: u64,
    pub pin: String,
    pub output: bool,
}

/// What a drop on a node body does to the wires.
#[derive(Debug, Clone, PartialEq, Eq)]
pub enum AutoConnect {
    /// A flow-like domain pin fans in and out freely: add the wire, break
    /// nothing. In an animation graph (`try_transition`) the host first
    /// offers the drop as a state-to-state transition, and adds the bare wire
    /// only when it is not one.
    Flow { edge: Edge, try_transition: bool },
    /// Remove the wires the new one replaces (with their indices), then add
    /// it.
    Replace { disconnect: Vec<(usize, Edge)>, connect: Edge },
}

pub enum AutoConnectView {
    Flow { edge: EdgeView, try_transition: bool },
    Replace { disconnect: Seq<(int, EdgeView)>, connect: EdgeView },
}

pub open spec fn indexed_view(v: Seq<(usize, Edge)>) -> Seq<(int, EdgeView)> {
    v.map_values(|t: (usize, Edge)| (t.0 as int, t.1@))
}

impl View for AutoConnect {
    type V = AutoConnectView;

    open spec fn view(&self) -> AutoConnectView {
        match self {
            AutoConnect::Flow { edge, try_transition } => AutoConnectView::Flow { edge: edge@, try_transition: *try_transition },
            AutoConnect::Replace { disconnect, connect } => AutoConnectView::Replace {
                disconnect: indexed_view(disconnect@),
                connect: connect@,
            },
        }
    }
}

/// The wire a drop makes, normalized to output → input.
pub open spec fn dropped_edge(src_node: u64, src_pin: Seq<char>, src_output: bool, target: u64, slug: Seq<char>) -> EdgeView {
    if src_output {
        EdgeView { from_node: src_node, from_pin: src_pin, to_node: target, to_pin: slug }
    } else {
        EdgeView { from_node: target, from_pin: slug, to_node: src_node, to_pin: src_pin }
    }
}

/// Does `x` occupy the end of `e` that takes a single wire? An exec output
/// has one continuation; a data input has one value.
pub open spec fn competes(x: EdgeView, e: EdgeView, exec: bool) -> bool {
    if exec {
        x.from_node == e.from_node && x.from_pin == e.from_pin
    } else {
        x.to_node == e.to_node && x.to_pin == e.to_pin
    }
}

/// The wires among the first `n` that compete with `e`, with their indices.
pub open spec fn competing(edges: Seq<EdgeView>, e: EdgeView, exec: bool, n: nat) -> Seq<(int, EdgeView)>
    decreases n,
{
    if n == 0 {
        seq![]
    } else {
        let p = competing(edges, e, exec, (n - 1) as nat);
        if competes(edges[n - 1], e, exec) {
            p.push((n - 1, edges[n - 1]))
        } else {
            p
        }
    }
}

/// A drop on a node body wires to the pin the palette ranked best
/// (`slug`, of type `ty`). A flow-like domain pin just adds the wire. Any
/// other replaces what competes with it: a data input takes one wire, and an
/// exec *output* takes one continuation, while an exec input may fan in.
pub open spec fn auto_connect_plan(
    domain: GraphDomain,
    edges: Seq<EdgeView>,
    flow_kinds: Seq<Seq<char>>,
    src_node: u64,
    src_pin: Seq<char>,
    src_output: bool,
    target: u64,
    slug: Seq<char>,
    ty: PinTypeModel,
) -> AutoConnectView {
    let e = dropped_edge(src_node, src_pin, src_output, target, slug);
    if ty matches PinTypeModel::Domain(k) && flow_kinds.contains(k) {
        AutoConnectView::Flow { edge: e, try_transition: !(domain is Script) }
    } else {
        AutoConnectView::Replace { disconnect: competing(edges, e, ty is Exec, edges.len()), connect: e }
    }
}

/// Release on a node body wires to that node's chosen pin; says which wires
/// go and which one comes.
pub fn auto_connect(
    domain: GraphDomain,
    edges: &[Edge],
    flow_kinds: &[String],
    src: &PaletteDragSource,
    target: u64,
    pin_slug: &str,
    pin_ty: &PinType,
) -> (r: AutoConnect)
    ensures
        r@ == auto_connect_plan(
            domain,
            edges_view(edges@),
            flow_kinds@.map_values(|x: String| x@),
            src.node,
            src.pin@,
            src.output,
            target,
            pin_slug@,
            type_model(*pin_ty),
        ),
{
    let edge = if src.output {
        Edge { from_node: src.node, from_pin: src.pin.clone(), to_node: target, to_pin: String::from_str(pin_slug) }
    } else {
        Edge { from_node: target, from_pin: String::from_str(pin_slug), to_node: src.node, to_pin: src.pin.clone() }
    };
    let ghost e = dropped_edge(src.node, src.pin@, src.output, target, pin_slug@);
    assert(edge@ == e);
    if let PinType::Domain(k) = pin_ty {
        if contains_string(flow_kinds, k) {
            return AutoConnect::Flow { edge, try_transition: domain.is_animation() };
        }
    }
    let is_exec = pin_ty.is_exec();
    let ghost ev = edges_view(edges@);
    let mut disconnect: Vec<(usize, Edge)> = Vec::new();
    let mut i: usize = 0;
    while i < edges.len()
        invariant
            i <= edges@.len(),
            ev == edges_view(edges@),
            edge@ == e,
            indexed_view(disconnect@) == competing(ev, e, is_exec, i as nat),
        decreases edges.len() - i,
    {
        let x = &edges[i];
        assert(ev[i as int] == x@);
        let hit = if is_exec {
            x.from_node == edge.from_node && x.from_pin == edge.from_pin
        } else {
            x.to_node == edge.to_node && x.to_pin == edge.to_pin
        };
        if hit {
            let ghost before = disconnect@;
            disconnect.push((i, x.duplicate()));
            assert(indexed_view(disconnect@) =~= indexed_view(before).push((i as int, ev[i as int])));
        }
        i += 1;
    }
    AutoConnect::Replace { disconnect, connect: edge }
}

/// The wires among the first `n` whose index `gone` does not list.
pub open spec fn remaining(edges: Seq<EdgeView>, gone: Seq<(int, EdgeView)>, n: nat) -> Seq<EdgeView>
    decreases n,
{
    if n == 0 {
        seq![]
    } else {
        let p = remaining(edges, gone, (n - 1) as nat);
        if exists|k: int| 0 <= k < gone.len() && gone[k].0 == n - 1 {
            p
        } else {
            p.push(edges[n - 1])
        }
    }
}

proof fn lemma_competing_indices(edges: Seq<EdgeView>, e: EdgeView, exec: bool, n: nat)
    requires
        n <= edges.len(),
    ensures
        forall|k: int| 0 <= k < competing(edges, e, exec, n).len() ==> {
            let t = #[trigger] competing(edges, e, exec, n)[k];
            0 <= t.0 < n && t.1 == edges[t.0] && competes(edges[t.0], e, exec)
        },
        forall|j: int| 0 <= j < n && competes(edges[j], e, exec) ==> exists|k: int| 0 <= k < competing(edges, e, exec, n).len() && #[trigger] competing(edges, e, exec, n)[k].0 == j,
    decreases n,
{
    if n > 0 {
        lemma_competing_indices(edges, e, exec, (n - 1) as nat);
        let p = competing(edges, e, exec, (n - 1) as nat);
        let c = competing(edges, e, exec, n);
        assert forall|j: int| 0 <= j < n && competes(edges[j], e, exec) implies exists|k: int| 0 <= k < c.len() && #[trigger] c[k].0 == j by {
            if j < n - 1 {
                let k = choose|k: int| 0 <= k < p.len() && #[trigger] p[k].0 == j;
                assert(c[k] == p[k]);
            } else {
                assert(c[p.len() as int].0 == j);
            }
        }
    }
}

proof fn lemma_remaining_keeps_the_rest(edges: Seq<EdgeView>, e: EdgeView, exec: bool, n: nat)
    requires
        n <= edges.len(),
    ensures
        forall|i: int| 0 <= i < remaining(edges, competing(edges, e, exec, edges.len()), n).len()
            ==> !competes(#[trigger] remaining(edges, competing(edges, e, exec, edges.len()), n)[i], e, exec),
        forall|j: int| 0 <= j < n && !competes(edges[j], e, exec) ==> remaining(edges, competing(edges, e, exec, edges.len()), n).contains(edges[j]),
    decreases n,
{
    let gone = competing(edges, e, exec, edges.len());
    lemma_competing_indices(edges, e, exec, edges.len());
    if n > 0 {
        lemma_remaining_keeps_the_rest(edges, e, exec, (n - 1) as nat);
        let p = remaining(edges, gone, (n - 1) as nat);
        let r = remaining(edges, gone, n);
        let listed = exists|k: int| 0 <= k < gone.len() && gone[k].0 == n - 1;
        if !competes(edges[n - 1], e, exec) {
            assert(!listed) by {
                if listed {
                    let k = choose|k: int| 0 <= k < gone.len() && gone[k].0 == n - 1;
                    assert(competes(edges[gone[k].0], e, exec));
                }
            }
        } else {
            assert(listed) by {
                let k = choose|k: int| 0 <= k < gone.len() && #[trigger] gone[k].0 == n - 1;
            }
        }
        assert forall|j: int| 0 <= j < n && !competes(edges[j], e, exec) implies r.contains(edges[j]) by {
            if j < n - 1 {
                let i = choose|i: int| 0 <= i < p.len() && p[i] == edges[j];
                assert(r[i] == p[i]);
            } else {
                assert(r[p.len() as int] == edges[j]);
            }
        }
    }
}

/// A drop on a node body leaves exactly one wire on the end that takes one:
/// once its plan is applied, nothing else competes with the new wire, and
/// every wire that did not compete is still there.
pub proof fn law_auto_connect_leaves_one_wire(
    domain: GraphDomain,
    edges: Seq<EdgeView>,
    flow_kinds: Seq<Seq<char>>,
    src_node: u64,
    src_pin: Seq<char>,
    src_output: bool,
    target: u64,
    slug: Seq<char>,
    ty: PinTypeModel,
)
    ensures
        auto_connect_plan(domain, edges, flow_kinds, src_node, src_pin, src_output, target, slug, ty) matches AutoConnectView::Replace { disconnect, connect } ==> {
            let after = applied(edges, auto_connect_plan(domain, edges, flow_kinds, src_node, src_pin, src_output, target, slug, ty));
            &&& forall|i: int| 0 <= i < after.len() && competes(#[trigger] after[i], connect, ty is Exec) ==> after[i] == connect
            &&& forall|j: int| 0 <= j < edges.len() && !competes(edges[j], connect, ty is Exec) ==> #[trigger] after.contains(edges[j])
        },
{
    let e = dropped_edge(src_node, src_pin, src_output, target, slug);
    let exec = ty is Exec;
    if auto_connect_plan(domain, edges, flow_kinds, src_node, src_pin, src_output, target, slug, ty) is Replace {
        lemma_remaining_keeps_the_rest(edges, e, exec, edges.len());
        let rest = remaining(edges, competing(edges, e, exec, edges.len()), edges.len());
        let after = rest.push(e);
        assert forall|i: int| 0 <= i < after.len() && competes(#[trigger] after[i], e, exec) implies after[i] == e by {
            if i < rest.len() {
                assert(after[i] == rest[i]);
            }
        }
        assert forall|j: int| 0 <= j < edges.len() && !competes(edges[j], e, exec) implies #[trigger] after.contains(edges[j]) by {
            let i = choose|i: int| 0 <= i < rest.len() && rest[i] == edges[j];
            assert(after[i] == rest[i]);
        }
    }
}

/// Does `gone` list index `i`?
fn lists_index(gone: &Vec<(usize, Edge)>, i: usize) -> (r: bool)
    ensures
        r == exists|k: int| 0 <= k < indexed_view(gone@).len() && indexed_view(gone@)[k].0 == i,
{
    let mut k: usize = 0;
    while k < gone.len()
        invariant
            k <= gone@.len(),
            forall|q: int| 0 <= q < k ==> indexed_view(gone@)[q].0 != i,
        decreases gone@.len() - k,
    {
        if gone[k].0 == i {
            assert(indexed_view(gone@)[k as int].0 == i);
            return true;
        }
        k += 1;
    }
    false
}

/// The wires once a drop's plan is carried out: for a replacement the
/// listed wires are gone and the new one comes last; a flow wire is simply
/// added (in an animation graph, once the host has found it is not a
/// transition).
pub open spec fn applied(edges: Seq<EdgeView>, plan: AutoConnectView) -> Seq<EdgeView> {
    match plan {
        AutoConnectView::Flow { edge, .. } => edges.push(edge),
        AutoConnectView::Replace { disconnect, connect } => remaining(edges, disconnect, edges.len()).push(connect),
    }
}

/// Carry out a drop's plan on the document's wires.
pub fn apply_auto_connect(edges: &mut Vec<Edge>, plan: &AutoConnect)
    ensures
        edges_view(final(edges)@) == applied(edges_view(old(edges)@), plan@),
{
    match plan {
        AutoConnect::Flow { edge, .. } => {
            let ghost before = edges_view(edges@);
            edges.push(edge.duplicate());
            assert(edges_view(edges@) =~= before.push(edge@));
        },
        AutoConnect::Replace { disconnect, connect } => {
            let ghost ev = edges_view(edges@);
            let ghost gone = indexed_view(disconnect@);
            let mut out: Vec<Edge> = Vec::new();
            let mut i: usize = 0;
            while i < edges.len()
                invariant
                    i <= edges@.len(),
                    ev == edges_view(edges@),
                    gone == indexed_view(disconnect@),
                    edges_view(out@) == remaining(ev, gone, i as nat),
                decreases edges@.len() - i,
            {
                if !lists_index(disconnect, i) {
                    let ghost before = edges_view(out@);
                    out.push(edges[i].duplicate());
                    assert(edges_view(out@) =~= before.push(ev[i as int]));
                }
                i += 1;
            }
            let ghost before = edges_view(out@);
            out.push(connect.duplicate());
            assert(edges_view(out@) =~= before.push(connect@));
            *edges = out;
        },
    }
}

// ---------------------------------------------------------------------------
// Pin labels
// ---------------------------------------------------------------------------

/// A pin's row label. Vector pins share one shape across Vec2/3/4, so their
/// label carries the arity: `Position ·3`.
pub open spec fn labelled(label: Seq<char>, ty: PinTypeModel) -> Seq<char> {
    match ty {
        PinTypeModel::Vec2 => label + " \u{b7}2"@,
        PinTypeModel::Vec3 => label + " \u{b7}3"@,
        PinTypeModel::Vec4 => label + " \u{b7}4"@,
        _ => label,
    }
}

/// The label a pin row shows.
pub fn pin_label(label: &str, ty: &PinType) -> (r: String)
    ensures
        r@ == labelled(label@, type_model(*ty)),
{
    let mut out = String::from_str(label);
    match ty {
        PinType::Vec2 => out.append(" \u{b7}2"),
        PinType::Vec3 => out.append(" \u{b7}3"),
        PinType::Vec4 => out.append(" \u{b7}4"),
        _ => {},
    }
    out
}

// ---------------------------------------------------------------------------
// Laws
// ---------------------------------------------------------------------------

/// Lands on the same input pin as `t`.
pub open spec fn same_pin(t: EdgeView) -> spec_fn(EdgeView) -> bool {
    |e: EdgeView| e.to_node == t.to_node && e.to_pin == t.to_pin
}

proof fn lemma_rank_counts(edges: Seq<EdgeView>, i: int, upto: int)
    requires
        0 <= upto <= edges.len(),
        0 <= i < edges.len(),
    ensures
        converge_rank_among(edges, i, upto) == edges.take(upto).filter(same_pin(edges[i])).len(),
    decreases upto,
{
    if upto > 0 {
        lemma_rank_counts(edges, i, upto - 1);
        let p = edges.take(upto - 1);
        assert(edges.take(upto) =~= p.push(edges[upto - 1]));
        p.lemma_filter_push(edges[upto - 1], same_pin(edges[i]));
    } else {
        reveal(Seq::filter);
        assert(edges.take(0) =~= Seq::<EdgeView>::empty());
    }
}

/// An edge's converge rank is the number of earlier edges landing on the
/// same input pin, wherever they come from.
pub proof fn law_converge_rank_counts_earlier_arrivals(edges: Seq<EdgeView>, i: int)
    requires
        0 <= i < edges.len(),
    ensures
        converge_rank_among(edges, i, i) == edges.take(i).filter(same_pin(edges[i])).len(),
{
    lemma_rank_counts(edges, i, i);
}

proof fn lemma_rank_same_pin(edges: Seq<EdgeView>, i: int, k: int, upto: int)
    requires
        0 <= i < edges.len(),
        0 <= k < edges.len(),
        edges[i].to_node == edges[k].to_node,
        edges[i].to_pin == edges[k].to_pin,
    ensures
        converge_rank_among(edges, i, upto) == converge_rank_among(edges, k, upto),
    decreases upto,
{
    if upto > 0 {
        lemma_rank_same_pin(edges, i, k, upto - 1);
    }
}

proof fn lemma_rank_grows(edges: Seq<EdgeView>, i: int, lo: int, hi: int)
    requires
        lo <= hi,
    ensures
        converge_rank_among(edges, i, lo) <= converge_rank_among(edges, i, hi),
    decreases hi - lo,
{
    if lo < hi {
        lemma_rank_grows(edges, i, lo, hi - 1);
    }
}

/// Wires converging on one input pin get distinct ranks, rising in order:
/// no two of them are drawn on top of each other.
pub proof fn law_converge_ranks_rise_along_a_pin(edges: Seq<EdgeView>, i: int, k: int)
    requires
        0 <= i < k < edges.len(),
        edges[i].to_node == edges[k].to_node,
        edges[i].to_pin == edges[k].to_pin,
    ensures
        converge_rank_among(edges, i, i) < converge_rank_among(edges, k, k),
{
    lemma_rank_same_pin(edges, i, k, i);
    lemma_rank_grows(edges, k, i + 1, k);
}

/// Typing is strict: two typed ends of different types never connect. An
/// untyped reroute end is no mismatch: into a free input, any type connects.
pub proof fn law_connection_typing_is_strict(
    edges: Seq<EdgeView>,
    flow_kinds: Seq<Seq<char>>,
    a_node: u64,
    a_slug: Seq<char>,
    a_out: bool,
    a_ty: PinTypeModel,
    a_wild: bool,
    b_node: u64,
    b_slug: Seq<char>,
    b_out: bool,
    b_ty: PinTypeModel,
    b_wild: bool,
)
    ensures
        !a_wild && !b_wild && a_ty != b_ty ==> connection(edges, flow_kinds, a_node, a_slug, a_out, a_ty, a_wild, b_node, b_slug, b_out, b_ty, b_wild) is None,
        (a_wild || b_wild || a_ty == b_ty) && a_node != b_node && a_out != b_out && edges.len() == 0 ==> connection(
            edges,
            flow_kinds,
            a_node,
            a_slug,
            a_out,
            a_ty,
            a_wild,
            b_node,
            b_slug,
            b_out,
            b_ty,
            b_wild,
        ) == Some(
            if a_out {
                EdgeView { from_node: a_node, from_pin: a_slug, to_node: b_node, to_pin: b_slug }
            } else {
                EdgeView { from_node: b_node, from_pin: b_slug, to_node: a_node, to_pin: a_slug }
            },
        ),
{
}

/// `gone` lists, with their indices, exactly the wires of `edges` on the
/// single-wire end of `e`: for an exec pin the output it leaves, for any
/// other the input it lands on.
pub open spec fn lists_exactly_the_rivals(edges: Seq<EdgeView>, exec: bool, gone: Seq<(int, EdgeView)>, e: EdgeView) -> bool {
    &&& forall|j: int| 0 <= j < edges.len() && (if exec {
        edges[j].from_node == e.from_node && edges[j].from_pin == e.from_pin
    } else {
        edges[j].to_node == e.to_node && edges[j].to_pin == e.to_pin
    }) ==> exists|k: int| 0 <= k < gone.len() && #[trigger] gone[k] == (j, edges[j])
    &&& forall|k: int| 0 <= k < gone.len() ==> 0 <= (#[trigger] gone[k]).0 < edges.len() && gone[k].1 == edges[gone[k].0] && (if exec {
        gone[k].1.from_node == e.from_node && gone[k].1.from_pin == e.from_pin
    } else {
        gone[k].1.to_node == e.to_node && gone[k].1.to_pin == e.to_pin
    })
}

/// A domain pin whose kind `flow_kinds` names.
pub open spec fn flow_like(ty: PinTypeModel, flow_kinds: Seq<Seq<char>>) -> bool {
    match ty {
        PinTypeModel::Domain(k) => flow_kinds.contains(k),
        _ => false,
    }
}

/// Only a flow-like domain pin (its kind named in `flow_kinds`) lets a drop
/// add its wire without replacing anything. Every other drop replaces: the
/// new wire runs output to input between the dragged pin and the chosen one,
/// and the wires listed to go are, with their indices, exactly those already
/// on its single-wire end — the input it lands on, or for an exec pin the
/// output it leaves.
pub proof fn law_auto_connect_replaces_unless_flow(
    domain: GraphDomain,
    edges: Seq<EdgeView>,
    flow_kinds: Seq<Seq<char>>,
    src_node: u64,
    src_pin: Seq<char>,
    src_output: bool,
    target: u64,
    slug: Seq<char>,
    ty: PinTypeModel,
)
    ensures
        (auto_connect_plan(domain, edges, flow_kinds, src_node, src_pin, src_output, target, slug, ty) is Flow)
            <==> flow_like(ty, flow_kinds),
        !flow_like(ty, flow_kinds) ==> (auto_connect_plan(domain, edges, flow_kinds, src_node, src_pin, src_output, target, slug, ty) matches AutoConnectView::Replace { disconnect, connect }
            && connect == (if src_output {
                EdgeView { from_node: src_node, from_pin: src_pin, to_node: target, to_pin: slug }
            } else {
                EdgeView { from_node: target, from_pin: slug, to_node: src_node, to_pin: src_pin }
            }) && lists_exactly_the_rivals(edges, ty is Exec, disconnect, connect)),
{
    let e = dropped_edge(src_node, src_pin, src_output, target, slug);
    let exec = ty is Exec;
    if !flow_like(ty, flow_kinds) {
        lemma_competing_indices(edges, e, exec, edges.len());
        let d = competing(edges, e, exec, edges.len());
        assert forall|j: int| 0 <= j < edges.len() && (if ty is Exec {
            edges[j].from_node == e.from_node && edges[j].from_pin == e.from_pin
        } else {
            edges[j].to_node == e.to_node && edges[j].to_pin == e.to_pin
        }) implies exists|k: int| 0 <= k < d.len() && #[trigger] d[k] == (j, edges[j]) by {
            assert(competes(edges[j], e, exec));
            let k = choose|k: int| 0 <= k < d.len() && #[trigger] d[k].0 == j;
            assert(d[k] == (j, edges[j]));
        }
        assert(auto_connect_plan(domain, edges, flow_kinds, src_node, src_pin, src_output, target, slug, ty)
            == AutoConnectView::Replace { disconnect: d, connect: e });
        assert forall|k: int| 0 <= k < d.len() implies 0 <= (#[trigger] d[k]).0 < edges.len() && d[k].1 == edges[d[k].0] && (if exec {
            d[k].1.from_node == e.from_node && d[k].1.from_pin == e.from_pin
        } else {
            d[k].1.to_node == e.to_node && d[k].1.to_pin == e.to_pin
        }) by {
            assert(competes(edges[d[k].0], e, exec));
        }
        assert(lists_exactly_the_rivals(edges, exec, d, e));
    }
}

} // verus!
