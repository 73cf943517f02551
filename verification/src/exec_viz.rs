//! Execution visualization data, in **document space**: the bridge between
//! a running instance's trace and the graph canvas.
//!
//! Everything is keyed by the **producing pin** — `(source node, output
//! pin)` — because that is what a wire is from the trace's point of view:
//! one output feeding three inputs is one truth, not three.
//!
//! This record holds the session's discrete facts (which exec wires have
//! fired, the last value across each pin, the kill and pause state, the
//! unresolvable breakpoints). The continuous channels — pulse intensities,
//! firing rates, value ages and wait bars — are floating-point and live with
//! the host beside it.

use crate::doc::{edges_view, first_into, producer_within, real_producer, Edge, GraphDoc, MAX_REROUTE_HOPS};
use std::collections::{BTreeMap, BTreeSet};
use vstd::prelude::*;

verus! {

broadcast use vstd::std_specs::btree::group_btree_axioms;

/// The runtime error that stopped an instance, anchored to the node that
/// raised it.
#[derive(Debug, Clone, PartialEq, Eq)]
pub struct KillInfo {
    /// Document node the error names, when it could be resolved.
    pub node: Option<u64>,
    /// One mono line, already phrased for a reader.
    pub reason: String,
}

/// What the PAUSED banner asked the runtime for.
#[derive(Debug, Clone, Copy, PartialEq, Eq, Structural)]
pub enum DebugRequest {
    Resume,
    Step,
    Stop,
}

/// The instance is parked on a breakpoint: one per instance, never per
/// activation.
#[derive(Debug, Clone, Copy, PartialEq, Eq, Structural)]
pub struct PauseInfo {
    /// Document node the activation parked *before* firing.
    pub node: u64,
    /// Which activation, so two consecutive pauses on one node differ.
    pub activation: u64,
    /// How many times this session has parked on that node.
    pub hits: u32,
}

/// The first text recorded for `pin` among `rows`.
pub open spec fn row_lookup(rows: Seq<(String, String)>, pin: Seq<char>) -> Option<Seq<char>>
    decreases rows.len(),
{
    if rows.len() == 0 {
        None
    } else {
        match row_lookup(rows.drop_last(), pin) {
            Some(t) => Some(t),
            None => if rows.last().0@ == pin { Some(rows.last().1@) } else { None },
        }
    }
}

/// The last value recorded across `(node, pin)`.
pub open spec fn value_of(values: Map<u64, Vec<(String, String)>>, node: u64, pin: Seq<char>) -> Option<Seq<char>> {
    if values.contains_key(node) {
        row_lookup(values[node]@, pin)
    } else {
        None
    }
}

/// Has the exec edge `(from, pin) -> to` been travelled?
pub open spec fn taken_in(taken: Map<u64, Vec<(String, u64)>>, from: u64, pin: Seq<char>, to: u64) -> bool {
    taken.contains_key(from) && exists|k: int| 0 <= k < taken[from]@.len() && taken[from]@[k].0@ == pin && taken[from]@[k].1 == to
}

/// What the canvas knows about a live instance this frame.
#[derive(Debug, Clone, PartialEq, Eq)]
pub struct GraphExecViz {
    /// The bound entity's display name. Empty means "bound but unnamed",
    /// never "unbound" — an unbound tab has no record at all.
    pub instance: String,
    /// The bound entity's handle, so the picker can mark the current row.
    pub instance_id: u64,
    /// Exec edges that have fired at some point this session, by source
    /// node: `(output pin, target node)`.
    pub taken: BTreeMap<u64, Vec<(String, u64)>>,
    /// The last value that crossed each output pin, by source node:
    /// `(output pin, text)`.
    pub values: BTreeMap<u64, Vec<(String, String)>>,
    /// Set when this instance was stopped by a runtime error.
    pub killed: Option<KillInfo>,
    /// Set while this instance sits on a breakpoint.
    pub paused: Option<PauseInfo>,
    /// Armed document nodes that resolve to nothing the interpreter can pause
    /// before; drawn as the invalid state rather than pretending to fire.
    pub invalid_breaks: BTreeSet<u64>,
}

impl GraphExecViz {
    /// A fresh record for a bound instance: nothing fired, nothing recorded.
    pub fn new(instance: String) -> (r: Self)
        ensures
            r.instance@ == instance@,
            r.instance_id == 0,
            r.killed is None,
            r.paused is None,
            r.invalid_breaks@.is_empty(),
            forall|node: u64, pin: Seq<char>| value_of(r.values@, node, pin) is None,
            forall|from: u64, pin: Seq<char>, to: u64| !taken_in(r.taken@, from, pin, to),
    {
        GraphExecViz {
            instance,
            instance_id: 0,
            taken: BTreeMap::new(),
            values: BTreeMap::new(),
            killed: None,
            paused: None,
            invalid_breaks: BTreeSet::new(),
        }
    }

    /// Record a last value. Later writes win, and the trace hands them over
    /// oldest-first, so the newest firing is what remains.
    pub fn set_value(&mut self, node: u64, pin: &str, text: String)
        ensures
            value_of(final(self).values@, node, pin@) == Some(text@),
            forall|n: u64, p: Seq<char>| !(n == node && p == pin@) ==> value_of(final(self).values@, n, p) == value_of(old(self).values@, n, p),
            final(self).taken@ == old(self).taken@,
            final(self).instance == old(self).instance,
            final(self).instance_id == old(self).instance_id,
            final(self).killed == old(self).killed,
            final(self).paused == old(self).paused,
            final(self).invalid_breaks == old(self).invalid_breaks,
    {
        let ghost old_values = self.values@;
        let key = String::from_str(pin);
        let mut rows: Vec<(String, String)> = match self.values.remove(&node) {
            Some(r) => r,
            None => Vec::new(),
        };
        let ghost before = rows@;
        assert(old_values.contains_key(node) ==> before == old_values[node]@);
        let mut k: usize = 0;
        let mut hit = false;
        while k < rows.len() && !hit
            invariant
                k <= rows.len(),
                rows@ == before,
                key@ == pin@,
                hit ==> k < rows.len() && rows@[k as int].0@ == pin@,
                forall|j: int| 0 <= j < k ==> rows@[j].0@ != pin@,
            decreases rows.len() - k, if hit { 0int } else { 1int },
        {
            if rows[k].0 == key {
                hit = true;
            } else {
                k += 1;
            }
        }
        proof {
            lemma_row_lookup_first(before, pin@);
        }
        if hit {
            let ghost idx = k as int;
            let old_pin = rows[k].0.clone();
            rows[k] = (old_pin, text);
            proof {
                lemma_row_lookup_update(before, idx, rows@[idx], pin@);
            }
        } else {
            rows.push((key, text));
            proof {
                lemma_row_lookup_push(before, rows@[rows@.len() - 1], pin@);
            }
        }
        let ghost new_rows = rows@;
        self.values.insert(node, rows);
        proof {
            assert forall|n: u64, p: Seq<char>| !(n == node && p == pin@) implies value_of(self.values@, n, p) == value_of(old_values, n, p) by {
                if n == node {
                    if hit {
                        lemma_row_lookup_update(before, k as int, new_rows[k as int], p);
                    } else {
                        lemma_row_lookup_push(before, new_rows[new_rows.len() - 1], p);
                    }
                    if !old_values.contains_key(node) {
                        assert(before.len() == 0);
                    }
                }
            }
        }
    }

    /// The last value that crossed one output pin.
    pub fn value(&self, node: u64, pin: &str) -> (r: Option<&str>)
        ensures
            match r {
                Some(t) => value_of(self.values@, node, pin@) == Some(t@),
                None => value_of(self.values@, node, pin@) is None,
            },
    {
        let rows = match self.values.get(&node) {
            Some(r) => r,
            None => return None,
        };
        proof {
            lemma_row_lookup_first(rows@, pin@);
        }
        let key = String::from_str(pin);
        let mut k: usize = 0;
        while k < rows.len()
            invariant
                k <= rows.len(),
                key@ == pin@,
                self.values@.contains_key(node),
                self.values@[node] == *rows,
                forall|j: int| 0 <= j < k ==> rows@[j].0@ != pin@,
            decreases rows.len() - k,
        {
            if rows[k].0 == key {
                proof {
                    lemma_row_lookup_first(rows@, pin@);
                }
                return Some(rows[k].1.as_str());
            }
            k += 1;
        }
        None
    }

    /// Is this the node the instance is parked on?
    pub fn paused_on(&self, node: u64) -> (r: bool)
        ensures
            r == (self.paused matches Some(p) && p.node == node),
    {
        match self.paused {
            Some(p) => p.node == node,
            None => false,
        }
    }

    /// Is this armed mark unresolvable?
    pub fn break_invalid(&self, node: u64) -> (r: bool)
        ensures
            r == self.invalid_breaks@.contains(node),
    {
        self.invalid_breaks.contains(&node)
    }

    /// Record that an exec edge has been travelled this session.
    pub fn mark_taken(&mut self, from: u64, pin: &str, to: u64)
        ensures
            taken_in(final(self).taken@, from, pin@, to),
            forall|f: u64, p: Seq<char>, t: u64| #[trigger] taken_in(final(self).taken@, f, p, t) <==> taken_in(old(self).taken@, f, p, t) || (f == from && p == pin@ && t == to),
            final(self).values@ == old(self).values@,
            final(self).instance == old(self).instance,
            final(self).instance_id == old(self).instance_id,
            final(self).killed == old(self).killed,
            final(self).paused == old(self).paused,
            final(self).invalid_breaks == old(self).invalid_breaks,
    {
        let ghost old_taken = self.taken@;
        let key = String::from_str(pin);
        let mut rows: Vec<(String, u64)> = match self.taken.remove(&from) {
            Some(r) => r,
            None => Vec::new(),
        };
        let ghost before = rows@;
        assert(old_taken.contains_key(from) ==> before == old_taken[from]@);
        if !has_taken_row(&rows, &key, to) {
            rows.push((key, to));
        }
        let ghost after = rows@;
        self.taken.insert(from, rows);
        proof {
            assert(self.taken@[from]@ == after);
            assert forall|f: u64, p: Seq<char>, t: u64| #[trigger] taken_in(self.taken@, f, p, t) <==> taken_in(old_taken, f, p, t) || (f == from && p == pin@ && t == to) by {
                if f != from {
                    assert(self.taken@.contains_key(f) == old_taken.contains_key(f));
                    if old_taken.contains_key(f) {
                        assert(self.taken@[f] == old_taken[f]);
                    }
                } else {
                    if taken_in(self.taken@, f, p, t) {
                        let k = choose|k: int| 0 <= k < after.len() && after[k].0@ == p && after[k].1 == t;
                        if k < before.len() {
                            assert(after[k] == before[k]);
                        }
                    }
                    if taken_in(old_taken, f, p, t) {
                        let k = choose|k: int| 0 <= k < old_taken[from]@.len() && old_taken[from]@[k].0@ == p && old_taken[from]@[k].1 == t;
                        assert(after[k] == before[k]);
                    }
                    if p == pin@ && t == to && after.len() > before.len() {
                        assert(after[before.len() as int].0@ == p);
                    }
                }
            }
        }
    }

    /// Has this exec edge fired at any point this session? The unfired answer
    /// is what dims.
    pub fn is_taken(&self, from: u64, pin: &str, to: u64) -> (r: bool)
        ensures
            r == taken_in(self.taken@, from, pin@, to),
    {
        match self.taken.get(&from) {
            Some(rows) => {
                let key = String::from_str(pin);
                has_taken_row(rows, &key, to)
            },
            None => false,
        }
    }
}

fn has_taken_row(rows: &Vec<(String, u64)>, pin: &String, to: u64) -> (r: bool)
    ensures
        r == exists|k: int| 0 <= k < rows@.len() && rows@[k].0@ == pin@ && rows@[k].1 == to,
{
    let mut k: usize = 0;
    while k < rows.len()
        invariant
            k <= rows.len(),
            forall|j: int| 0 <= j < k ==> !(rows@[j].0@ == pin@ && rows@[j].1 == to),
        decreases rows.len() - k,
    {
        if rows[k].1 == to && rows[k].0 == *pin {
            return true;
        }
        k += 1;
    }
    false
}

proof fn lemma_row_lookup_first(rows: Seq<(String, String)>, pin: Seq<char>)
    ensures
        row_lookup(rows, pin) is None <==> forall|j: int| 0 <= j < rows.len() ==> rows[j].0@ != pin,
        forall|k: int| 0 <= k < rows.len() && rows[k].0@ == pin && (forall|j: int| 0 <= j < k ==> rows[j].0@ != pin) ==> row_lookup(rows, pin) == Some(rows[k].1@),
    decreases rows.len(),
{
    if rows.len() > 0 {
        let init = rows.drop_last();
        lemma_row_lookup_first(init, pin);
        assert forall|j: int| 0 <= j < init.len() implies init[j] == rows[j] by {}
    }
}

proof fn lemma_row_lookup_update(rows: Seq<(String, String)>, idx: int, row: (String, String), pin: Seq<char>)
    requires
        0 <= idx < rows.len(),
        row.0@ == rows[idx].0@,
        forall|j: int| 0 <= j < idx ==> rows[j].0@ != rows[idx].0@,
    ensures
        row_lookup(rows.update(idx, row), pin) == if pin == row.0@ { Some(row.1@) } else { row_lookup(rows, pin) },
{
    let q = rows.update(idx, row);
    lemma_row_lookup_first(rows, pin);
    lemma_row_lookup_first(q, pin);
    assert(q[idx] == row);
    if pin == row.0@ {
        assert forall|j: int| 0 <= j < idx implies q[j].0@ != pin by {
            assert(q[j] == rows[j]);
        }
    } else {
        if row_lookup(rows, pin) is None {
            assert forall|j: int| 0 <= j < q.len() implies q[j].0@ != pin by {
                if j != idx {
                    assert(q[j] == rows[j]);
                } else {
                    assert(q[j].0@ == rows[idx].0@);
                }
            }
        } else {
            let k = choose|k: int| 0 <= k < rows.len() && rows[k].0@ == pin;
            let first = first_index(rows, pin, k);
            assert(q[first] == rows[first]);
            assert(first != idx);
            assert forall|j: int| 0 <= j < first implies q[j].0@ != pin by {
                if j != idx {
                    assert(q[j] == rows[j]);
                } else {
                    assert(q[j].0@ == rows[idx].0@);
                }
            }
            assert(row_lookup(rows, pin) == Some(rows[first].1@));
            assert(row_lookup(q, pin) == Some(q[first].1@));
        }
    }
}

/// The first row naming `pin`, given that some row at or before `k` does.
proof fn first_index(rows: Seq<(String, String)>, pin: Seq<char>, k: int) -> (f: int)
    requires
        0 <= k < rows.len(),
        rows[k].0@ == pin,
    ensures
        0 <= f <= k,
        rows[f].0@ == pin,
        forall|j: int| 0 <= j < f ==> rows[j].0@ != pin,
    decreases k,
{
    if exists|j: int| 0 <= j < k && rows[j].0@ == pin {
        let j = choose|j: int| 0 <= j < k && rows[j].0@ == pin;
        first_index(rows, pin, j)
    } else {
        k
    }
}

proof fn lemma_row_lookup_push(rows: Seq<(String, String)>, row: (String, String), pin: Seq<char>)
    requires
        forall|j: int| 0 <= j < rows.len() ==> rows[j].0@ != row.0@,
    ensures
        row_lookup(rows.push(row), pin) == if pin == row.0@ { Some(row.1@) } else { row_lookup(rows, pin) },
{
    assert(rows.push(row).drop_last() =~= rows);
    lemma_row_lookup_first(rows, pin);
}



// ---------------------------------------------------------------------------
// Reading the record through the document
// ---------------------------------------------------------------------------

/// The producing pin behind `(node, pin)`, through reroutes.
pub open spec fn producer_of(doc: GraphDoc, node: u64, pin: Seq<char>) -> Option<(u64, Seq<char>)> {
    producer_within(doc.nodes@, edges_view(doc.edges@), node, pin, MAX_REROUTE_HOPS as nat)
}

/// The value shown at a pin. An output reads its own producer's record; an
/// input borrows the value of the first wire landing on it, and an unwired
/// input has none.
pub open spec fn shown_value(viz: GraphExecViz, doc: GraphDoc, node: u64, slug: Seq<char>, output: bool) -> Option<Seq<char>> {
    let src = if output {
        producer_of(doc, node, slug)
    } else {
        match first_into(edges_view(doc.edges@), node, slug) {
            Some(j) => producer_of(doc, doc.edges@[j].from_node, doc.edges@[j].from_pin@),
            None => None,
        }
    };
    match src {
        Some((n, p)) => value_of(viz.values@, n, p),
        None => None,
    }
}

/// The last value that crossed this pin. An input pin borrows its wire's
/// value: only the producer side is recorded.
pub fn pin_value<'a>(viz: &'a GraphExecViz, doc: &GraphDoc, node: u64, slug: &str, output: bool) -> (r: Option<&'a str>)
    ensures
        match r {
            Some(t) => shown_value(*viz, *doc, node, slug@, output) == Some(t@),
            None => shown_value(*viz, *doc, node, slug@, output) is None,
        },
{
    let src = if output {
        real_producer(doc, node, slug)
    } else {
        let key = String::from_str(slug);
        match doc.edge_into(node, &key) {
            Some(e) => {
                proof {
                    let j = first_into(edges_view(doc.edges@), node, slug@)->0;
                    assert(*e == doc.edges@[j]);
                }
                real_producer(doc, e.from_node, e.from_pin.as_str())
            },
            None => None,
        }
    };
    match src {
        Some((n, p)) => viz.value(n, p.as_str()),
        None => None,
    }
}

/// Has this exec wire been travelled this session? Resolved against the real
/// producer, so both halves of a rerouted wire answer from one record.
pub fn wire_taken(viz: &GraphExecViz, doc: &GraphDoc, e: &Edge) -> (r: bool)
    ensures
        r == (producer_of(*doc, e.from_node, e.from_pin@) matches Some((n, p)) && taken_in(viz.taken@, n, p, e.to_node)),
{
    match real_producer(doc, e.from_node, e.from_pin.as_str()) {
        Some((n, p)) => viz.is_taken(n, p.as_str(), e.to_node),
        None => false,
    }
}

} // verus!
