//! The variables strip's type picker: which types a graph's variables may be
//! declared with, and the two controls (picker index, array box) that stand
//! for a declared type.

use crate::doc::{type_model, PinType, PinTypeModel};
use vstd::prelude::*;

verus! {

/// What kind of graph a canvas edits.
#[derive(Debug, Clone, Copy, PartialEq, Eq, Structural)]
pub enum GraphDomain {
    Script,
    Animation,
    /// One transition's rule, edited in place; `owner` is the transition.
    AnimationRule { owner: u64 },
}

impl GraphDomain {
    /// An animation graph, or a rule inside one.
    pub fn is_animation(&self) -> (r: bool)
        ensures
            r == !(*self is Script),
    {
        match self {
            GraphDomain::Script => false,
            _ => true,
        }
    }
}

/// The domain kind of the animation parameter type `Trigger`: a one-shot.
pub const TRIGGER_KIND: &'static str = "trigger";

/// The one-shot parameter type of animation graphs.
pub fn trigger_pin_type() -> (r: PinType)
    ensures
        type_model(r) == PinTypeModel::Domain(TRIGGER_KIND@),
{
    PinType::Domain(String::from_str(TRIGGER_KIND))
}

/// The types a variable may be declared with, in picker order. Scripts get
/// the six plain types; animation graphs (and rules inside them) get exactly
/// the parameter contract: Float, Bool and Trigger.
pub open spec fn var_type_list(d: GraphDomain) -> Seq<(Seq<char>, PinTypeModel)> {
    match d {
        GraphDomain::Script => seq![
            ("Float"@, PinTypeModel::Float),
            ("Int"@, PinTypeModel::Int),
            ("String"@, PinTypeModel::Str),
            ("Bool"@, PinTypeModel::Bool),
            ("Vec3"@, PinTypeModel::Vec3),
            ("Entity"@, PinTypeModel::Entity),
        ],
        _ => seq![
            ("Float"@, PinTypeModel::Float),
            ("Bool"@, PinTypeModel::Bool),
            ("Trigger"@, PinTypeModel::Domain(TRIGGER_KIND@)),
        ],
    }
}

/// The picker's rows for a domain, `(label, type)`.
pub fn var_types(domain: GraphDomain) -> (r: Vec<(&'static str, PinType)>)
    ensures
        r@.len() == var_type_list(domain).len(),
        forall|k: int| 0 <= k < r@.len() ==> (#[trigger] r@[k]).0@ == var_type_list(domain)[k].0 && type_model(r@[k].1) == var_type_list(domain)[k].1,
{
    match domain {
        GraphDomain::Script => {
            let r = vec![
                ("Float", PinType::Float),
                ("Int", PinType::Int),
                ("String", PinType::String),
                ("Bool", PinType::Bool),
                ("Vec3", PinType::Vec3),
                ("Entity", PinType::Entity),
            ];
            r
        },
        _ => {
            let t = trigger_pin_type();
            let r = vec![("Float", PinType::Float), ("Bool", PinType::Bool), ("Trigger", t)];
            r
        },
    }
}

/// A declared type split into its element and whether it is an array.
pub open spec fn element_of(t: PinTypeModel) -> (PinTypeModel, bool) {
    match t {
        PinTypeModel::Array(inner) => (*inner, true),
        _ => (t, false),
    }
}

/// Index of the first row of `list` declaring type `t`.
pub open spec fn row_of(list: Seq<(Seq<char>, PinTypeModel)>, t: PinTypeModel) -> Option<int>
    decreases list.len(),
{
    if list.len() == 0 {
        None
    } else {
        match row_of(list.drop_last(), t) {
            Some(i) => Some(i),
            None => if list.last().1 == t { Some(list.len() - 1) } else { None },
        }
    }
}

proof fn lemma_row_of(list: Seq<(Seq<char>, PinTypeModel)>, t: PinTypeModel)
    ensures
        row_of(list, t) matches Some(i) ==> 0 <= i < list.len() && list[i].1 == t && forall|k: int| 0 <= k < i ==> list[k].1 != t,
        row_of(list, t) is None ==> forall|k: int| 0 <= k < list.len() ==> list[k].1 != t,
    decreases list.len(),
{
    if list.len() > 0 {
        lemma_row_of(list.drop_last(), t);
        assert forall|k: int| 0 <= k < list.len() - 1 implies list[k] == list.drop_last()[k] by {}
    }
}

/// What the two controls show for a declared type: the row of its element
/// (row 0 when the picker cannot express it) and the array box.
pub open spec fn pick_of(d: GraphDomain, t: PinTypeModel) -> (int, bool) {
    let (e, array) = element_of(t);
    (
        match row_of(var_type_list(d), e) {
            Some(i) => i,
            None => 0,
        },
        array,
    )
}

/// The type the two controls stand for: the picked row's type (Float past
/// the end), wrapped in an array when the box is ticked.
pub open spec fn type_of_pick(d: GraphDomain, index: int, array: bool) -> PinTypeModel {
    let list = var_type_list(d);
    let base = if 0 <= index < list.len() { list[index].1 } else { PinTypeModel::Float };
    if array {
        PinTypeModel::Array(Box::new(base))
    } else {
        base
    }
}

/// Split a declared type into what the two controls hold. A type the picker
/// cannot express answers row 0: the row's tag still shows the truth, and
/// touching the picker is then an explicit retype.
pub fn type_pick(domain: GraphDomain, ty: &PinType) -> (r: (usize, bool))
    ensures
        (r.0 as int, r.1) == pick_of(domain, type_model(*ty)),
{
    let (elem, array): (&PinType, bool) = match ty {
        PinType::Array(inner) => (&**inner, true),
        other => (other, false),
    };
    assert(element_of(type_model(*ty)) == (type_model(*elem), array));
    let list = var_types(domain);
    let ghost spec_list = var_type_list(domain);
    proof {
        lemma_row_of(spec_list, type_model(*elem));
    }
    let mut i: usize = 0;
    while i < list.len()
        invariant
            i <= list@.len(),
            list@.len() == spec_list.len(),
            spec_list == var_type_list(domain),
            element_of(type_model(*ty)) == (type_model(*elem), array),
            forall|k: int| 0 <= k < list@.len() ==> (#[trigger] list@[k]).0@ == spec_list[k].0 && type_model(list@[k].1) == spec_list[k].1,
            forall|k: int| 0 <= k < i ==> spec_list[k].1 != type_model(*elem),
        decreases list.len() - i,
    {
        if list[i].1.same_as(elem) {
            assert(spec_list[i as int].1 == type_model(list@[i as int].1));
            proof {
                lemma_row_of(spec_list, type_model(*elem));
            }
            return (i, array);
        }
        assert(spec_list[i as int].1 == type_model(list@[i as int].1));
        i += 1;
    }
    (0, array)
}

/// Rebuild a declared type from the two controls.
pub fn type_from_pick(domain: GraphDomain, index: usize, array: bool) -> (r: PinType)
    ensures
        type_model(r) == type_of_pick(domain, index as int, array),
{
    let list = var_types(domain);
    let ty = if index < list.len() {
        assert(type_model(list@[index as int].1) == var_type_list(domain)[index as int].1);
        list[index].1.duplicate()
    } else {
        PinType::Float
    };
    if array {
        let r = PinType::Array(Box::new(ty));
        assert(type_model(r) == PinTypeModel::Array(Box::new(type_model(ty))));
        r
    } else {
        ty
    }
}

/// The picker round-trips every type it can express: splitting a declared
/// type into the two controls and rebuilding it gives the declaration back,
/// whenever its element is one of the domain's types.
pub proof fn law_type_pick_round_trips(d: GraphDomain, t: PinTypeModel)
    requires
        row_of(var_type_list(d), element_of(t).0) is Some,
    ensures
        type_of_pick(d, pick_of(d, t).0, pick_of(d, t).1) == t,
{
    lemma_row_of(var_type_list(d), element_of(t).0);
}

} // verus!
