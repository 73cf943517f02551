//! Anchored errors: every validation error resolved to the thing it is
//! *about* — a node, a pin, a wire, a ghost row, or the document — once per
//! frame, so the geometry pass and the paint pass read one index.

use crate::doc::{Edge, EdgeView};
use std::collections::{BTreeMap, BTreeSet};
use vstd::prelude::*;

verus! {

broadcast use vstd::std_specs::btree::group_btree_axioms;

/// What an error is about.
#[derive(Debug, Clone, PartialEq, Eq)]
pub enum ErrorAnchor {
    Node(u64),
    Pin { node: u64, pin: String, output: bool },
    Edge(Edge),
    /// A pin the node's descriptor no longer declares but a wire still uses:
    /// drawn as a ghost row so the wire keeps a landing spot.
    GhostPin { node: u64, pin: String, output: bool },
    Document,
}

pub enum AnchorView {
    Node(u64),
    Pin { node: u64, pin: Seq<char>, output: bool },
    Edge(EdgeView),
    GhostPin { node: u64, pin: Seq<char>, output: bool },
    Document,
}

impl View for ErrorAnchor {
    type V = AnchorView;

    open spec fn view(&self) -> AnchorView {
        match self {
            ErrorAnchor::Node(n) => AnchorView::Node(*n),
            ErrorAnchor::Pin { node, pin, output } => AnchorView::Pin { node: *node, pin: pin@, output: *output },
            ErrorAnchor::Edge(e) => AnchorView::Edge(e@),
            ErrorAnchor::GhostPin { node, pin, output } => AnchorView::GhostPin { node: *node, pin: pin@, output: *output },
            ErrorAnchor::Document => AnchorView::Document,
        }
    }
}

impl ErrorAnchor {
    pub fn duplicate(&self) -> (r: ErrorAnchor)
        ensures
            r@ == self@,
    {
        match self {
            ErrorAnchor::Node(n) => ErrorAnchor::Node(*n),
            ErrorAnchor::Pin { node, pin, output } => ErrorAnchor::Pin { node: *node, pin: pin.clone(), output: *output },
            ErrorAnchor::Edge(e) => ErrorAnchor::Edge(e.duplicate()),
            ErrorAnchor::GhostPin { node, pin, output } => ErrorAnchor::GhostPin { node: *node, pin: pin.clone(), output: *output },
            ErrorAnchor::Document => ErrorAnchor::Document,
        }
    }

    pub fn is_document(&self) -> (r: bool)
        ensures
            r == (self@ is Document),
    {
        match self {
            ErrorAnchor::Document => true,
            _ => false,
        }
    }
}

/// A document validation error, as the canvas reads it: where it is
/// anchored, its reader-facing text, and the cycle it names, if any.
#[derive(Debug, Clone, PartialEq, Eq)]
pub struct GraphError {
    pub anchor: ErrorAnchor,
    pub message: String,
    pub cycle: Option<Vec<String>>,
}

/// A domain compiler's refusal, anchored editor-side.
#[derive(Debug, Clone, PartialEq, Eq)]
pub struct DomainError {
    /// The node the refusal names, when it could be resolved.
    pub node: Option<u64>,
    pub message: String,
    /// A node *inside* the named node's rule region, when the refusal is
    /// about one.
    pub region_node: Option<u64>,
}

/// One entry of the anchored-error UI: a document error or a domain
/// compiler's refusal, same badge, same count chip, same F8.
#[derive(Debug, Clone, PartialEq, Eq)]
pub enum IndexedError {
    Graph(GraphError),
    Domain(DomainError),
}

pub enum IndexedErrorView {
    Graph { anchor: AnchorView, message: Seq<char>, cycle: Option<Seq<Seq<char>>> },
    Domain { node: Option<u64>, message: Seq<char>, region_node: Option<u64> },
}

pub open spec fn strings_view(v: Seq<String>) -> Seq<Seq<char>> {
    v.map_values(|s: String| s@)
}

impl View for IndexedError {
    type V = IndexedErrorView;

    open spec fn view(&self) -> IndexedErrorView {
        match self {
            IndexedError::Graph(e) => IndexedErrorView::Graph {
                anchor: e.anchor@,
                message: e.message@,
                cycle: match e.cycle {
                    Some(c) => Some(strings_view(c@)),
                    None => None,
                },
            },
            IndexedError::Domain(e) => IndexedErrorView::Domain { node: e.node, message: e.message@, region_node: e.region_node },
        }
    }
}

/// Where an error is anchored: a domain refusal naming a node anchors there,
/// one naming nothing anchors to the document.
pub open spec fn anchor_of(e: IndexedErrorView) -> AnchorView {
    match e {
        IndexedErrorView::Graph { anchor, .. } => anchor,
        IndexedErrorView::Domain { node, .. } => match node {
            Some(id) => AnchorView::Node(id),
            None => AnchorView::Document,
        },
    }
}

pub open spec fn text_of(e: IndexedErrorView) -> Seq<char> {
    match e {
        IndexedErrorView::Graph { message, .. } => message,
        IndexedErrorView::Domain { message, .. } => message,
    }
}

pub open spec fn cycle_of(e: IndexedErrorView) -> Option<Seq<Seq<char>>> {
    match e {
        IndexedErrorView::Graph { cycle, .. } => cycle,
        IndexedErrorView::Domain { .. } => None,
    }
}

fn clone_strings(v: &Vec<String>) -> (r: Vec<String>)
    ensures
        strings_view(r@) == strings_view(v@),
{
    let mut r: Vec<String> = Vec::new();
    let mut i: usize = 0;
    while i < v.len()
        invariant
            i <= v.len(),
            strings_view(r@) == strings_view(v@.take(i as int)),
        decreases v.len() - i,
    {
        let ghost before = r@;
        let c = v[i].clone();
        r.push(c);
        assert(r@ == before.push(v@[i as int]));
        assert(v@.take(i + 1) =~= v@.take(i as int).push(v@[i as int]));
        assert(strings_view(r@) =~= strings_view(before).push(v@[i as int]@));
        assert(strings_view(v@.take(i + 1)) =~= strings_view(v@.take(i as int)).push(v@[i as int]@));
        i += 1;
    }
    assert(v@.take(v.len() as int) =~= v@);
    r
}

impl IndexedError {
    pub fn duplicate(&self) -> (r: IndexedError)
        ensures
            r@ == self@,
    {
        match self {
            IndexedError::Graph(e) => IndexedError::Graph(GraphError {
                anchor: e.anchor.duplicate(),
                message: e.message.clone(),
                cycle: match &e.cycle {
                    Some(c) => Some(clone_strings(c)),
                    None => None,
                },
            }),
            IndexedError::Domain(e) => IndexedError::Domain(DomainError {
                node: e.node,
                message: e.message.clone(),
                region_node: e.region_node,
            }),
        }
    }

    /// What this error is about.
    pub fn anchor(&self) -> (r: ErrorAnchor)
        ensures
            r@ == anchor_of(self@),
    {
        match self {
            IndexedError::Graph(e) => e.anchor.duplicate(),
            IndexedError::Domain(e) => match e.node {
                Some(id) => ErrorAnchor::Node(id),
                None => ErrorAnchor::Document,
            },
        }
    }

    /// The reader-facing line.
    pub fn text(&self) -> (r: String)
        ensures
            r@ == text_of(self@),
    {
        match self {
            IndexedError::Graph(e) => e.message.clone(),
            IndexedError::Domain(e) => e.message.clone(),
        }
    }

    /// The dependency cycle this error names, if it is a cycle error.
    pub fn cycle_chain(&self) -> (r: Option<&Vec<String>>)
        ensures
            match r {
                Some(c) => cycle_of(self@) == Some(strings_view(c@)),
                None => cycle_of(self@) is None,
            },
    {
        match self {
            IndexedError::Graph(e) => match &e.cycle {
                Some(c) => Some(c),
                None => None,
            },
            IndexedError::Domain(_) => None,
        }
    }
}

/// Every error of the frame, in the order the count chip cycles them: the
/// document's own errors, then reference errors, then domain refusals.
pub open spec fn all_errors(doc: Seq<GraphError>, refs: Seq<GraphError>, domain: Seq<DomainError>) -> Seq<IndexedErrorView> {
    doc.map_values(|e: GraphError| IndexedError::Graph(e)@) + refs.map_values(|e: GraphError| IndexedError::Graph(e)@)
        + domain.map_values(|e: DomainError| IndexedError::Domain(e)@)
}

/// Some error among `all` is anchored at `a`.
pub open spec fn anchored_at(all: Seq<IndexedErrorView>, a: AnchorView) -> bool {
    exists|i: int| 0 <= i < all.len() && anchor_of(all[i]) == a
}

/// The ghost rows node `n` grows: each `(pin, output)` a ghost anchor names,
/// once, in first-mention order.
pub open spec fn ghost_rows(all: Seq<IndexedErrorView>, n: u64) -> Seq<(Seq<char>, bool)>
    decreases all.len(),
{
    if all.len() == 0 {
        seq![]
    } else {
        let prev = ghost_rows(all.drop_last(), n);
        match anchor_of(all.last()) {
            AnchorView::GhostPin { node, pin, output } => if node == n && !prev.contains((pin, output)) {
                prev.push((pin, output))
            } else {
                prev
            },
            _ => prev,
        }
    }
}

/// Errors with nowhere on the canvas to live.
pub open spec fn is_document_level() -> spec_fn(IndexedErrorView) -> bool {
    |e: IndexedErrorView| anchor_of(e) is Document
}

pub open spec fn errors_view(v: Seq<IndexedError>) -> Seq<IndexedErrorView> {
    v.map_values(|e: IndexedError| e@)
}

pub open spec fn pin_keys_view(v: Seq<(u64, String, bool)>) -> Seq<(u64, Seq<char>, bool)> {
    v.map_values(|t: (u64, String, bool)| (t.0, t.1@, t.2))
}

pub open spec fn rows_view(v: Seq<(String, bool)>) -> Seq<(Seq<char>, bool)> {
    v.map_values(|t: (String, bool)| (t.0@, t.1))
}

/// This frame's errors, resolved to the thing each one is *about*.
pub struct ErrorIndex {
    /// Nodes carrying a border and a gutter badge.
    pub nodes: BTreeSet<u64>,
    /// Pins carrying an error ring, `(node, slug, is_output)`, once each.
    pub pins: Vec<(u64, String, bool)>,
    /// Wires drawn in the error colour with an x at their midpoint, once each.
    pub edges: Vec<Edge>,
    /// Ghost rows to append, `node -> [(slug, is_output)]`.
    pub ghosts: BTreeMap<u64, Vec<(String, bool)>>,
    /// Errors with nowhere on the canvas to live.
    pub document: Vec<IndexedError>,
    /// Every error, in a stable order, for the count chip's cycle.
    pub ordered: Vec<IndexedError>,
}

/// `ix` is the index of exactly the errors `all`.
pub open spec fn indexes_errors(ix: ErrorIndex, all: Seq<IndexedErrorView>) -> bool {
    &&& errors_view(ix.ordered@) == all
    &&& errors_view(ix.document@) == all.filter(is_document_level())
    &&& forall|n: u64| ix.nodes@.contains(n) <==> #[trigger] anchored_at(all, AnchorView::Node(n))
    &&& pin_keys_view(ix.pins@).no_duplicates()
    &&& forall|t: (u64, Seq<char>, bool)| pin_keys_view(ix.pins@).contains(t) <==> #[trigger] anchored_at(
        all,
        AnchorView::Pin { node: t.0, pin: t.1, output: t.2 },
    )
    &&& crate::doc::edges_view(ix.edges@).no_duplicates()
    &&& forall|ev: EdgeView| crate::doc::edges_view(ix.edges@).contains(ev) <==> #[trigger] anchored_at(all, AnchorView::Edge(ev))
    &&& forall|n: u64| #[trigger] ix.ghosts@.contains_key(n) <==> ghost_rows(all, n).len() > 0
    &&& forall|n: u64| #[trigger] ix.ghosts@.contains_key(n) ==> rows_view(ix.ghosts@[n]@) == ghost_rows(all, n)
}

proof fn lemma_anchored_push(all: Seq<IndexedErrorView>, e: IndexedErrorView, a: AnchorView)
    ensures
        anchored_at(all.push(e), a) <==> anchored_at(all, a) || anchor_of(e) == a,
{
    let q = all.push(e);
    if anchored_at(q, a) {
        let i = choose|i: int| 0 <= i < q.len() && anchor_of(q[i]) == a;
        if i < all.len() {
            assert(all[i] == q[i]);
        }
    }
    if anchored_at(all, a) {
        let i = choose|i: int| 0 <= i < all.len() && anchor_of(all[i]) == a;
        assert(q[i] == all[i]);
    }
    if anchor_of(e) == a {
        assert(q[all.len() as int] == e);
    }
}

proof fn lemma_push_distinct<T>(s: Seq<T>, x: T)
    requires
        s.no_duplicates(),
        !s.contains(x),
    ensures
        s.push(x).no_duplicates(),
        forall|y: T| s.push(x).contains(y) <==> s.contains(y) || y == x,
{
    let q = s.push(x);
    assert forall|a: int, b: int| 0 <= a < b < q.len() implies q[a] != q[b] by {
        if b == s.len() {
            assert(s.contains(s[a]));
        }
    }
    assert forall|y: T| q.contains(y) <==> s.contains(y) || y == x by {
        if q.contains(y) {
            let k = choose|k: int| 0 <= k < q.len() && q[k] == y;
            if k < s.len() {
                assert(s[k] == y);
            }
        }
        if s.contains(y) {
            let k = choose|k: int| 0 <= k < s.len() && s[k] == y;
            assert(q[k] == y);
        }
        if y == x {
            assert(q[s.len() as int] == y);
        }
    }
}

impl ErrorIndex {
    /// The index of no errors at all.
    pub fn new() -> (ix: ErrorIndex)
        ensures
            indexes_errors(ix, seq![]),
    {
        let ix = ErrorIndex {
            nodes: BTreeSet::new(),
            pins: Vec::new(),
            edges: Vec::new(),
            ghosts: BTreeMap::new(),
            document: Vec::new(),
            ordered: Vec::new(),
        };
        assert(errors_view(ix.ordered@) =~= seq![]);
        assert(errors_view(ix.document@) =~= Seq::<IndexedErrorView>::empty().filter(is_document_level())) by {
            reveal(Seq::filter);
        }
        assert(pin_keys_view(ix.pins@) =~= seq![]);
        assert(crate::doc::edges_view(ix.edges@) =~= seq![]);
        ix
    }

    fn has_pin(&self, node: u64, pin: &String, output: bool) -> (r: bool)
        ensures
            r == pin_keys_view(self.pins@).contains((node, pin@, output)),
    {
        let ghost pv = pin_keys_view(self.pins@);
        let mut i: usize = 0;
        while i < self.pins.len()
            invariant
                i <= self.pins.len(),
                pv == pin_keys_view(self.pins@),
                forall|k: int| 0 <= k < i ==> pv[k] != (node, pin@, output),
            decreases self.pins.len() - i,
        {
            let t = &self.pins[i];
            if t.0 == node && t.1 == *pin && t.2 == output {
                assert(pv[i as int] == (node, pin@, output));
                return true;
            }
            i += 1;
        }
        false
    }

    fn has_edge(&self, e: &Edge) -> (r: bool)
        ensures
            r == crate::doc::edges_view(self.edges@).contains(e@),
    {
        let ghost ev = crate::doc::edges_view(self.edges@);
        let mut i: usize = 0;
        while i < self.edges.len()
            invariant
                i <= self.edges.len(),
                ev == crate::doc::edges_view(self.edges@),
                forall|k: int| 0 <= k < i ==> ev[k] != e@,
            decreases self.edges.len() - i,
        {
            assert(ev[i as int] == self.edges@[i as int]@);
            if self.edges[i].same_as(e) {
                return true;
            }
            i += 1;
        }
        false
    }

    /// Add one error to the index.
    fn index_one(&mut self, e: IndexedError, Ghost(all): Ghost<Seq<IndexedErrorView>>)
        requires
            indexes_errors(*old(self), all),
        ensures
            indexes_errors(*final(self), all.push(e@)),
    {
        let ghost ev = e@;
        let ghost post = all.push(ev);
        assert(post.drop_last() =~= all);
        assert(post.last() == ev);
        proof {
            assert forall|a: AnchorView| #[trigger] anchored_at(post, a) <==> anchored_at(all, a) || anchor_of(ev) == a by {
                lemma_anchored_push(all, ev, a);
            }
        }
        let anchor = e.anchor();
        match anchor {
            ErrorAnchor::Node(id) => {
                self.nodes.insert(id);
            },
            ErrorAnchor::Pin { node, pin, output } => {
                if !self.has_pin(node, &pin, output) {
                    let ghost before = pin_keys_view(self.pins@);
                    self.pins.push((node, pin, output));
                    proof {
                        assert(pin_keys_view(self.pins@) =~= before.push((node, anchor_of(ev)->Pin_pin, output)));
                        lemma_push_distinct(before, (node, anchor_of(ev)->Pin_pin, output));
                    }
                }
            },
            ErrorAnchor::Edge(edge) => {
                if !self.has_edge(&edge) {
                    let ghost before = crate::doc::edges_view(self.edges@);
                    let ghost edv = edge@;
                    self.edges.push(edge);
                    proof {
                        assert(crate::doc::edges_view(self.edges@) =~= before.push(edv));
                        lemma_push_distinct(before, edv);
                    }
                }
            },
            ErrorAnchor::GhostPin { node, pin, output } => {
                let ghost gv = (pin@, output);
                let mut rows: Vec<(String, bool)> = match self.ghosts.remove(&node) {
                    Some(r) => r,
                    None => Vec::new(),
                };
                let ghost before = rows_view(rows@);
                assert(before == ghost_rows(all, node));
                let mut found = false;
                let mut k: usize = 0;
                while k < rows.len()
                    invariant
                        k <= rows.len(),
                        before == rows_view(rows@),
                        gv == (pin@, output),
                        found == exists|j: int| 0 <= j < k && before[j] == gv,
                    decreases rows.len() - k,
                {
                    assert(before[k as int] == (rows@[k as int].0@, rows@[k as int].1));
                    let same_out = rows[k].1 == output;
                    let same_pin = rows[k].0 == pin;
                    if same_out && same_pin {
                        found = true;
                    }
                    assert((same_out && same_pin) == (before[k as int] == gv));
                    k += 1;
                }
                assert(found == before.contains(gv));
                if !found {
                    rows.push((pin, output));
                    assert(rows_view(rows@) =~= before.push(gv));
                }
                self.ghosts.insert(node, rows);
            },
            ErrorAnchor::Document => {
                let ghost before = errors_view(self.document@);
                let d = e.duplicate();
                self.document.push(d);
                proof {
                    assert(errors_view(self.document@) =~= before.push(ev));
                    all.lemma_filter_push(ev, is_document_level());
                }
            },
        }
        proof {
            if !(anchor_of(ev) is Document) {
                all.lemma_filter_push(ev, is_document_level());
            }
        }
        let ghost before_ordered = errors_view(self.ordered@);
        self.ordered.push(e);
        assert(errors_view(self.ordered@) =~= before_ordered.push(ev));
        proof {
            assert forall|n: u64| #[trigger] self.ghosts@.contains_key(n) <==> ghost_rows(post, n).len() > 0 by {
                assert(ghost_rows(post, n).len() >= ghost_rows(all, n).len());
            }
        }
    }

    /// Index this frame's errors: the document's own, then reference errors,
    /// then domain refusals.
    pub fn build(doc_errors: &[GraphError], ref_errors: &[GraphError], domain_errors: &[DomainError]) -> (ix: ErrorIndex)
        ensures
            indexes_errors(ix, all_errors(doc_errors@, ref_errors@, domain_errors@)),
    {
        let mut ix = ErrorIndex::new();
        let ghost mut all: Seq<IndexedErrorView> = seq![];
        let mut i: usize = 0;
        while i < doc_errors.len()
            invariant
                i <= doc_errors.len(),
                all == doc_errors@.take(i as int).map_values(|e: GraphError| IndexedError::Graph(e)@),
                indexes_errors(ix, all),
            decreases doc_errors.len() - i,
        {
            let e = IndexedError::Graph(GraphError {
                anchor: doc_errors[i].anchor.duplicate(),
                message: doc_errors[i].message.clone(),
                cycle: match &doc_errors[i].cycle {
                    Some(c) => Some(clone_strings(c)),
                    None => None,
                },
            });
            assert(e@ == IndexedError::Graph(doc_errors@[i as int])@);
            ix.index_one(e, Ghost(all));
            proof {
                all = all.push(IndexedError::Graph(doc_errors@[i as int])@);
                assert(all =~= doc_errors@.take(i + 1).map_values(|e: GraphError| IndexedError::Graph(e)@));
            }
            i += 1;
        }
        assert(doc_errors@.take(doc_errors.len() as int) =~= doc_errors@);
        let ghost first = all;
        let mut i: usize = 0;
        while i < ref_errors.len()
            invariant
                i <= ref_errors.len(),
                all == first + ref_errors@.take(i as int).map_values(|e: GraphError| IndexedError::Graph(e)@),
                indexes_errors(ix, all),
            decreases ref_errors.len() - i,
        {
            let e = IndexedError::Graph(GraphError {
                anchor: ref_errors[i].anchor.duplicate(),
                message: ref_errors[i].message.clone(),
                cycle: match &ref_errors[i].cycle {
                    Some(c) => Some(clone_strings(c)),
                    None => None,
                },
            });
            assert(e@ == IndexedError::Graph(ref_errors@[i as int])@);
            ix.index_one(e, Ghost(all));
            proof {
                all = all.push(IndexedError::Graph(ref_errors@[i as int])@);
                assert(all =~= first + ref_errors@.take(i + 1).map_values(|e: GraphError| IndexedError::Graph(e)@));
            }
            i += 1;
        }
        assert(ref_errors@.take(ref_errors.len() as int) =~= ref_errors@);
        let ghost second = all;
        let mut i: usize = 0;
        while i < domain_errors.len()
            invariant
                i <= domain_errors.len(),
                all == second + domain_errors@.take(i as int).map_values(|e: DomainError| IndexedError::Domain(e)@),
                indexes_errors(ix, all),
            decreases domain_errors.len() - i,
        {
            let e = IndexedError::Domain(DomainError {
                node: domain_errors[i].node,
                message: domain_errors[i].message.clone(),
                region_node: domain_errors[i].region_node,
            });
            assert(e@ == IndexedError::Domain(domain_errors@[i as int])@);
            ix.index_one(e, Ghost(all));
            proof {
                all = all.push(IndexedError::Domain(domain_errors@[i as int])@);
                assert(all =~= second + domain_errors@.take(i + 1).map_values(|e: DomainError| IndexedError::Domain(e)@));
            }
            i += 1;
        }
        assert(domain_errors@.take(domain_errors.len() as int) =~= domain_errors@);
        assert(all =~= all_errors(doc_errors@, ref_errors@, domain_errors@));
        ix
    }

    /// How many errors the count chip reports.
    pub fn total(&self) -> (r: usize)
        ensures
            r == self.ordered@.len(),
    {
        self.ordered.len()
    }

    /// No errors at all.
    pub fn is_empty(&self) -> (r: bool)
        ensures
            r == (self.ordered@.len() == 0),
    {
        self.ordered.len() == 0
    }

    /// The ghost rows node `node` grows, possibly none.
    pub fn ghosts_for(&self, node: u64) -> (r: &[(String, bool)])
        ensures
            self.ghosts@.contains_key(node) ==> r@ == self.ghosts@[node]@,
            !self.ghosts@.contains_key(node) ==> r@.len() == 0,
    {
        match self.ghosts.get(&node) {
            Some(v) => v.as_slice(),
            None => &[],
        }
    }
}

// ---------------------------------------------------------------------------
// Stepping through errors
// ---------------------------------------------------------------------------

/// What one step of the error cycle asks the canvas to do.
#[derive(Debug, Clone, PartialEq, Eq)]
pub enum ErrorStep {
    /// There are no errors.
    Nothing,
    /// Every error is document-level: there is nothing on the canvas to
    /// frame, so the list opens instead.
    OpenPopover,
    /// Frame `node` for error `error` (an index into the ordered list) and
    /// move the cursor on. An error about a wire selects `edge` rather than
    /// the node; a refusal about a node inside a transition's rule descends
    /// into that rule, `(owner, inner)`.
    Visit { cursor: usize, error: usize, node: u64, edge: Option<Edge>, descend: Option<(u64, u64)> },
}

pub enum ErrorStepView {
    Nothing,
    OpenPopover,
    Visit { cursor: int, error: int, node: u64, edge: Option<EdgeView>, descend: Option<(u64, u64)> },
}

impl View for ErrorStep {
    type V = ErrorStepView;

    open spec fn view(&self) -> ErrorStepView {
        match self {
            ErrorStep::Nothing => ErrorStepView::Nothing,
            ErrorStep::OpenPopover => ErrorStepView::OpenPopover,
            ErrorStep::Visit { cursor, error, node, edge, descend } => ErrorStepView::Visit {
                cursor: *cursor as int,
                error: *error as int,
                node: *node,
                edge: match edge {
                    Some(e) => Some(e@),
                    None => None,
                },
                descend: *descend,
            },
        }
    }
}

/// The positions, in order, of the errors that are anchored on the canvas.
pub open spec fn canvas_slots(all: Seq<IndexedErrorView>) -> Seq<int>
    decreases all.len(),
{
    if all.len() == 0 {
        seq![]
    } else {
        let p = canvas_slots(all.drop_last());
        if anchor_of(all.last()) is Document {
            p
        } else {
            p.push(all.len() - 1)
        }
    }
}

proof fn lemma_canvas_slots(all: Seq<IndexedErrorView>)
    ensures
        forall|k: int| 0 <= k < canvas_slots(all).len() ==> 0 <= #[trigger] canvas_slots(all)[k] < all.len()
            && !(anchor_of(all[canvas_slots(all)[k]]) is Document),
        canvas_slots(all).len() <= all.len(),
    decreases all.len(),
{
    if all.len() > 0 {
        lemma_canvas_slots(all.drop_last());
        let p = canvas_slots(all.drop_last());
        assert forall|k: int| 0 <= k < p.len() implies all[p[k]] == all.drop_last()[p[k]] by {}
    }
}

/// The node an error on the canvas is about: the node itself, a pin's or a
/// ghost row's node, or the node a wire lands on.
pub open spec fn anchor_node(a: AnchorView) -> u64 {
    match a {
        AnchorView::Node(id) => id,
        AnchorView::Pin { node, .. } => node,
        AnchorView::GhostPin { node, .. } => node,
        AnchorView::Edge(e) => e.to_node,
        AnchorView::Document => 0,
    }
}

/// One step of the error cycle from `cursor` (F8 steps forward).
pub open spec fn error_step(all: Seq<IndexedErrorView>, cursor: int) -> ErrorStepView {
    let slots = canvas_slots(all);
    if all.len() == 0 {
        ErrorStepView::Nothing
    } else if slots.len() == 0 {
        ErrorStepView::OpenPopover
    } else {
        let j = slots[cursor % (slots.len() as int)];
        let a = anchor_of(all[j]);
        ErrorStepView::Visit {
            cursor: (cursor + 1) % (slots.len() as int),
            error: j,
            node: anchor_node(a),
            edge: match a {
                AnchorView::Edge(e) => Some(e),
                _ => None,
            },
            descend: match all[j] {
                IndexedErrorView::Domain { node: Some(owner), region_node: Some(inner), .. } => Some((owner, inner)),
                _ => None,
            },
        }
    }
}

/// Step to the next anchored error: which error, which node to select and
/// frame, and where the cursor goes next. Document-level errors are skipped;
/// when there are only those, the error list opens instead.
pub fn cycle_error(errors: &ErrorIndex, cursor: usize) -> (r: ErrorStep)
    ensures
        r@ == error_step(errors_view(errors.ordered@), cursor as int),
{
    let ghost all = errors_view(errors.ordered@);
    if errors.ordered.len() == 0 {
        return ErrorStep::Nothing;
    }
    let mut slots: Vec<usize> = Vec::new();
    let mut k: usize = 0;
    while k < errors.ordered.len()
        invariant
            k <= errors.ordered@.len(),
            all == errors_view(errors.ordered@),
            slots@.map_values(|x: usize| x as int) == canvas_slots(all.take(k as int)),
        decreases errors.ordered.len() - k,
    {
        assert(all.take(k + 1).drop_last() =~= all.take(k as int));
        assert(all[k as int] == errors.ordered@[k as int]@);
        let a = errors.ordered[k].anchor();
        if !a.is_document() {
            let ghost before = slots@;
            slots.push(k);
            assert(slots@.map_values(|x: usize| x as int) =~= before.map_values(|x: usize| x as int).push(k as int));
        }
        k += 1;
    }
    assert(all.take(errors.ordered.len() as int) =~= all);
    let ghost sv = slots@.map_values(|x: usize| x as int);
    proof {
        lemma_canvas_slots(all);
    }
    if slots.len() == 0 {
        return ErrorStep::OpenPopover;
    }
    let i = cursor % slots.len();
    let next = (i + 1) % slots.len();
    assert(next == (cursor + 1) % (slots.len() as int)) by (nonlinear_arith)
        requires
            i == (cursor as int) % (slots.len() as int),
            next == (i + 1) % (slots.len() as int),
            slots.len() > 0,
    ;
    let j = slots[i];
    assert(sv[i as int] == j as int);
    let e = &errors.ordered[j];
    assert(all[j as int] == e@);
    let a = e.anchor();
    let node = match &a {
        ErrorAnchor::Node(id) => *id,
        ErrorAnchor::Pin { node, .. } => *node,
        ErrorAnchor::GhostPin { node, .. } => *node,
        ErrorAnchor::Edge(edge) => edge.to_node,
        ErrorAnchor::Document => 0,
    };
    let edge = match &a {
        ErrorAnchor::Edge(edge) => Some(edge.duplicate()),
        _ => None,
    };
    let descend = match e {
        IndexedError::Domain(d) => match (d.node, d.region_node) {
            (Some(owner), Some(inner)) => Some((owner, inner)),
            _ => None,
        },
        IndexedError::Graph(_) => None,
    };
    ErrorStep::Visit { cursor: next, error: j, node, edge, descend }
}

/// Where a backward step (Shift+F8) puts the cursor before stepping: back
/// two, so that the forward step lands on the error before the last one
/// visited.
pub open spec fn back_cursor(cursor: int, n: int) -> int {
    if n > 0 {
        (cursor + (if n >= 2 { n - 2 } else { 0 })) % n
    } else {
        cursor
    }
}

/// How many errors are anchored on the canvas.
fn canvas_count(errors: &ErrorIndex) -> (r: usize)
    ensures
        r == canvas_slots(errors_view(errors.ordered@)).len(),
{
    let ghost all = errors_view(errors.ordered@);
    let mut n: usize = 0;
    let mut k: usize = 0;
    while k < errors.ordered.len()
        invariant
            k <= errors.ordered@.len(),
            all == errors_view(errors.ordered@),
            n == canvas_slots(all.take(k as int)).len(),
            n <= k,
        decreases errors.ordered.len() - k,
    {
        assert(all.take(k + 1).drop_last() =~= all.take(k as int));
        assert(all[k as int] == errors.ordered@[k as int]@);
        let a = errors.ordered[k].anchor();
        if !a.is_document() {
            n += 1;
        }
        k += 1;
    }
    assert(all.take(errors.ordered.len() as int) =~= all);
    n
}

/// One backward step of the error cycle (Shift+F8): step back two, then
/// forward one.
pub fn cycle_error_back(errors: &ErrorIndex, cursor: usize) -> (r: ErrorStep)
    ensures
        r@ == error_step(
            errors_view(errors.ordered@),
            back_cursor(cursor as int, canvas_slots(errors_view(errors.ordered@)).len() as int),
        ),
{
    let n = canvas_count(errors);
    if n == 0 {
        return cycle_error(errors, cursor);
    }
    let c = cursor % n;
    let back: usize = if n >= 2 { n - 2 } else { 0 };
    let b = if c >= n - back { c - (n - back) } else { c + back };
    assert(b == (cursor + back) % (n as int)) by (nonlinear_arith)
        requires
            c == (cursor as int) % (n as int),
            n > 0,
            back < n,
            b == (if c >= n - back { c - (n - back) } else { c + back }),
    ;
    cycle_error(errors, b)
}

/// Shift+F8 after F8 visits the error before the one F8 just visited.
pub proof fn law_error_back_step_visits_the_previous(all: Seq<IndexedErrorView>, cursor: int)
    requires
        cursor >= 0,
        canvas_slots(all).len() > 0,
    ensures
        visits(all, cursor, canvas_slots(all)[cursor % (canvas_slots(all).len() as int)]),
        visits(
            all,
            back_cursor((cursor + 1) % (canvas_slots(all).len() as int), canvas_slots(all).len() as int),
            canvas_slots(all)[(cursor + canvas_slots(all).len() - 1) % (canvas_slots(all).len() as int)],
        ),
{
    let n = canvas_slots(all).len() as int;
    lemma_canvas_slots(all);
    let b = back_cursor((cursor + 1) % n, n);
    assert(b == (cursor + n - 1) % n) by (nonlinear_arith)
        requires
            n > 0,
            cursor >= 0,
            b == ((cursor + 1) % n + (if n >= 2 { n - 2 } else { 0 })) % n,
    ;
    assert(b % n == b) by (nonlinear_arith)
        requires
            n > 0,
            b == (cursor + n - 1) % n,
    ;
    assert(0 <= cursor % n < n) by (nonlinear_arith)
        requires
            n > 0,
    ;
    assert(0 <= b < n) by (nonlinear_arith)
        requires
            n > 0,
            b == (cursor + n - 1) % n,
    ;
}

/// The error cycle never stops on a document-level error: whatever it
/// visits is anchored somewhere on the canvas, and is one of the errors.
pub proof fn law_error_cycle_skips_document_errors(all: Seq<IndexedErrorView>, cursor: int)
    requires
        cursor >= 0,
    ensures
        error_step(all, cursor) matches ErrorStepView::Visit { error, .. } ==> 0 <= error < all.len() && !(anchor_of(all[error]) is Document),
{
    lemma_canvas_slots(all);
    let slots = canvas_slots(all);
    if slots.len() > 0 {
        let i = cursor % (slots.len() as int);
        assert(0 <= i < slots.len());
    }
}

/// A step from `cursor` visits error `j`.
pub open spec fn visits(all: Seq<IndexedErrorView>, cursor: int, j: int) -> bool {
    error_step(all, cursor) matches ErrorStepView::Visit { error, .. } && error == j
}

/// Within one turn of the cycle every error anchored on the canvas is
/// visited: for each one there is a cursor below the number of such errors
/// that visits it.
pub proof fn law_error_cycle_reaches_every_canvas_error(all: Seq<IndexedErrorView>, j: int)
    requires
        0 <= j < all.len(),
        !(anchor_of(all[j]) is Document),
    ensures
        exists|c: int| 0 <= c < canvas_slots(all).len() && #[trigger] visits(all, c, j),
{
    lemma_slot_of(all, j);
    let c = choose|c: int| 0 <= c < canvas_slots(all).len() && canvas_slots(all)[c] == j;
    let n = canvas_slots(all).len() as int;
    assert(c % n == c) by (nonlinear_arith)
        requires
            0 <= c < n,
    ;
    assert(visits(all, c, j));
}

proof fn lemma_slot_of(all: Seq<IndexedErrorView>, j: int)
    requires
        0 <= j < all.len(),
        !(anchor_of(all[j]) is Document),
    ensures
        exists|c: int| 0 <= c < canvas_slots(all).len() && canvas_slots(all)[c] == j,
    decreases all.len(),
{
    let p = canvas_slots(all.drop_last());
    if j == all.len() - 1 {
        assert(canvas_slots(all)[p.len() as int] == j);
    } else {
        assert(all.drop_last()[j] == all[j]);
        lemma_slot_of(all.drop_last(), j);
        let c = choose|c: int| 0 <= c < p.len() && p[c] == j;
        assert(canvas_slots(all)[c] == j);
    }
}

/// What an F8 step frames is what the visited error is about: the node of a
/// node error, the owning node of a pin or ghost-row error, the node a wire
/// lands on (with that wire selected), or the node a domain refusal names.
/// A refusal that also names a node inside that node's rule descends into
/// it; nothing else does.
pub proof fn law_error_step_frames_the_anchor(all: Seq<IndexedErrorView>, cursor: int)
    requires
        cursor >= 0,
    ensures
        error_step(all, cursor) matches ErrorStepView::Visit { error, node, edge, descend, .. } ==> {
            &&& 0 <= error < all.len()
            &&& match all[error] {
                IndexedErrorView::Graph { anchor, .. } => match anchor {
                    AnchorView::Node(id) => node == id && edge is None,
                    AnchorView::Pin { node: n, .. } => node == n && edge is None,
                    AnchorView::GhostPin { node: n, .. } => node == n && edge is None,
                    AnchorView::Edge(e) => node == e.to_node && edge == Some(e),
                    AnchorView::Document => false,
                },
                IndexedErrorView::Domain { node: named, .. } => named == Some(node) && edge is None,
            }
            &&& descend == match all[error] {
                IndexedErrorView::Domain { node: Some(owner), region_node: Some(inner), .. } => Some((owner, inner)),
                _ => None,
            }
        },
{
    lemma_canvas_slots(all);
    let slots = canvas_slots(all);
    if slots.len() > 0 {
        let n = slots.len() as int;
        assert(0 <= cursor % n < n) by (nonlinear_arith)
            requires
                n > 0,
        ;
    }
}

} // verus!
