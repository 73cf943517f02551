//! Layered auto-layout — the discrete half of a Sugiyama-shaped pass.
//!
//! Ranking (which column a node sits in) and ordering (which row it takes
//! inside its column) are decided here on node ids alone; turning the result
//! into world positions is the host's floating-point business.

use std::collections::{BTreeMap, BTreeSet};
use vstd::prelude::*;
use vstd::relations::total_ordering;

verus! {

broadcast use vstd::std_specs::btree::group_btree_axioms;

/// A directed dependency: `from` must sit left of `to`.
#[derive(Debug, Clone, Copy, PartialEq, Eq, Structural)]
pub struct LayoutEdge {
    pub from: u64,
    pub to: u64,
}

/// An edge takes part in ranking when it joins two distinct known nodes.
pub open spec fn keeps(ids: Set<u64>, e: LayoutEdge) -> bool {
    e.from != e.to && ids.contains(e.from) && ids.contains(e.to)
}

/// `a` feeds `b` directly: some kept edge runs from `a` to `b`.
pub open spec fn feeds(ids: Set<u64>, edges: Seq<LayoutEdge>, a: u64, b: u64) -> bool {
    exists|j: int| 0 <= j < edges.len() && keeps(ids, edges[j]) && edges[j].from == a && edges[j].to == b
}

/// `w` is a walk along kept edges (a single known node is a walk of no edges).
pub open spec fn is_walk(ids: Set<u64>, edges: Seq<LayoutEdge>, w: Seq<u64>) -> bool {
    &&& w.len() >= 1
    &&& ids.contains(w[0])
    &&& forall|i: int| 0 <= i < w.len() - 1 ==> #[trigger] feeds(ids, edges, w[i], w[i + 1])
}

/// No walk along the kept edges returns to where it started.
pub open spec fn acyclic(ids: Set<u64>, edges: Seq<LayoutEdge>) -> bool {
    forall|w: Seq<u64>| #[trigger] is_walk(ids, edges, w) && w.len() >= 2 ==> w[0] != w.last()
}

/// No walk along the kept edges visits more than `|ids|` nodes.
pub open spec fn walks_fit(ids: Set<u64>, edges: Seq<LayoutEdge>) -> bool {
    forall|w: Seq<u64>| #[trigger] is_walk(ids, edges, w) ==> w.len() <= ids.len()
}

/// `b` can be reached from `a` along the kept edges of `es`; every known
/// node reaches itself.
pub open spec fn reaches(ids: Set<u64>, es: Seq<LayoutEdge>, a: u64, b: u64) -> bool {
    exists|w: Seq<u64>| #[trigger] is_walk(ids, es, w) && w[0] == a && w.last() == b
}

/// The edges the layout ranks by, in the order given: a kept edge is taken
/// unless its target already reaches its source along the edges taken
/// before it — that is, unless it would close a cycle, in which case it is
/// ignored.
pub open spec fn dag_of(ids: Set<u64>, edges: Seq<LayoutEdge>) -> Seq<LayoutEdge>
    decreases edges.len(),
{
    if edges.len() == 0 {
        seq![]
    } else {
        let p = dag_of(ids, edges.drop_last());
        let e = edges.last();
        if keeps(ids, e) && !reaches(ids, p, e.to, e.from) {
            p.push(e)
        } else {
            p
        }
    }
}

/// The edges that take part in ranking, in the order given.
pub open spec fn kept_edges(ids: Set<u64>, edges: Seq<LayoutEdge>) -> Seq<LayoutEdge>
    decreases edges.len(),
{
    if edges.len() == 0 {
        seq![]
    } else {
        let p = kept_edges(ids, edges.drop_last());
        if keeps(ids, edges.last()) {
            p.push(edges.last())
        } else {
            p
        }
    }
}

proof fn lemma_walk_prefix(ids: Set<u64>, edges: Seq<LayoutEdge>, w: Seq<u64>)
    requires
        is_walk(ids, edges, w),
        w.len() >= 2,
    ensures
        is_walk(ids, edges, w.drop_last()),
        feeds(ids, edges, w[w.len() - 2], w[w.len() - 1]),
{
    let p = w.drop_last();
    assert forall|i: int| 0 <= i < p.len() - 1 implies #[trigger] feeds(ids, edges, p[i], p[i + 1]) by {
        assert(feeds(ids, edges, w[i], w[i + 1]));
    }
    assert(feeds(ids, edges, w[w.len() - 2], w[(w.len() - 2) + 1]));
}

proof fn lemma_walk_extend(ids: Set<u64>, edges: Seq<LayoutEdge>, w: Seq<u64>, b: u64)
    requires
        is_walk(ids, edges, w),
        feeds(ids, edges, w.last(), b),
    ensures
        is_walk(ids, edges, w.push(b)),
{
    let q = w.push(b);
    assert forall|i: int| 0 <= i < q.len() - 1 implies #[trigger] feeds(ids, edges, q[i], q[i + 1]) by {
        if i < w.len() - 1 {
            assert(feeds(ids, edges, w[i], w[i + 1]));
        }
    }
}

proof fn lemma_walk_last_known(ids: Set<u64>, edges: Seq<LayoutEdge>, w: Seq<u64>)
    requires
        is_walk(ids, edges, w),
    ensures
        ids.contains(w.last()),
{
    if w.len() >= 2 {
        lemma_walk_prefix(ids, edges, w);
        let j = choose|j: int| 0 <= j < edges.len() && keeps(ids, edges[j]) && edges[j].from == w[w.len() - 2] && edges[j].to == w[w.len() - 1];
    }
}

/// Under a fixed point of the relaxation, a walk ending at `w.last()` is
/// never longer than the rank there.
proof fn lemma_fixpoint_bounds_walks(
    ids: Set<u64>,
    edges: Seq<LayoutEdge>,
    r: Map<u64, usize>,
    w: Seq<u64>,
)
    requires
        is_walk(ids, edges, w),
        r.dom() == ids,
        forall|a: u64, b: u64| #[trigger] feeds(ids, edges, a, b) ==> r[b] >= r[a] + 1,
    ensures
        r[w.last()] + 1 >= w.len(),
    decreases w.len(),
{
    if w.len() >= 2 {
        lemma_walk_prefix(ids, edges, w);
        lemma_fixpoint_bounds_walks(ids, edges, r, w.drop_last());
    }
}

#[verifier::opaque]
spec fn witnessed(ids: Set<u64>, edges: Seq<LayoutEdge>, r: Map<u64, usize>) -> bool {
    forall|v: u64| #[trigger] r.contains_key(v) ==> exists|w: Seq<u64>| #[trigger] is_walk(ids, edges, w) && w.last() == v && w.len() == r[v] + 1
}

#[verifier::opaque]
spec fn walks_bounded(ids: Set<u64>, edges: Seq<LayoutEdge>, r: Map<u64, usize>, bound: int) -> bool {
    forall|w: Seq<u64>| #[trigger] is_walk(ids, edges, w) && w.len() <= bound ==> r[w.last()] + 1 >= w.len()
}

#[verifier::opaque]
spec fn all_walks_bounded(ids: Set<u64>, edges: Seq<LayoutEdge>, r: Map<u64, usize>) -> bool {
    forall|w: Seq<u64>| #[trigger] is_walk(ids, edges, w) ==> r[w.last()] + 1 >= w.len()
}

#[verifier::opaque]
spec fn kept_sound(ids: Set<u64>, edges: Seq<LayoutEdge>, kept: Seq<LayoutEdge>) -> bool {
    forall|k: int| 0 <= k < kept.len() ==> #[trigger] keeps(ids, kept[k]) && edges.contains(kept[k])
}

#[verifier::opaque]
spec fn kept_complete(ids: Set<u64>, edges: Seq<LayoutEdge>, kept: Seq<LayoutEdge>, upto: int) -> bool {
    forall|q: int| 0 <= q < upto && #[trigger] keeps(ids, edges[q]) ==> kept.contains(edges[q])
}

/// Every edge of the pass so far has pushed its target past its source's
/// rank at the start of the pass.
#[verifier::opaque]
spec fn pass_progress(kept: Seq<LayoutEdge>, old_r: Map<u64, usize>, r: Map<u64, usize>, upto: int) -> bool {
    forall|q: int| 0 <= q < upto ==> r[#[trigger] kept[q].to] >= old_r[kept[q].from] + 1
}

proof fn lemma_kept_feeds(ids: Set<u64>, edges: Seq<LayoutEdge>, kept: Seq<LayoutEdge>, k: int)
    requires
        kept_sound(ids, edges, kept),
        0 <= k < kept.len(),
    ensures
        feeds(ids, edges, kept[k].from, kept[k].to),
        keeps(ids, kept[k]),
{
    reveal(kept_sound);
    assert(keeps(ids, kept[k]) && edges.contains(kept[k]));
    let j = choose|j: int| 0 <= j < edges.len() && edges[j] == kept[k];
    assert(keeps(ids, edges[j]));
}

proof fn lemma_feeds_kept(ids: Set<u64>, edges: Seq<LayoutEdge>, kept: Seq<LayoutEdge>, a: u64, b: u64) -> (k: int)
    requires
        kept_complete(ids, edges, kept, edges.len() as int),
        feeds(ids, edges, a, b),
    ensures
        0 <= k < kept.len(),
        kept[k].from == a,
        kept[k].to == b,
{
    reveal(kept_complete);
    let j = choose|j: int| 0 <= j < edges.len() && keeps(ids, edges[j]) && edges[j].from == a && edges[j].to == b;
    assert(keeps(ids, edges[j]));
    choose|k: int| 0 <= k < kept.len() && kept[k] == edges[j]
}

/// A rank is witnessed by a walk, so under acyclicity one more step still
/// fits below the node count.
proof fn lemma_step_fits(ids: Set<u64>, edges: Seq<LayoutEdge>, r: Map<u64, usize>, a: u64, b: u64)
    requires
        witnessed(ids, edges, r),
        r.contains_key(a),
        feeds(ids, edges, a, b),
        walks_fit(ids, edges),
    ensures
        r[a] + 1 < ids.len(),
{
    reveal(witnessed);
    let wa = choose|w: Seq<u64>| #[trigger] is_walk(ids, edges, w) && w.last() == a && w.len() == r[a] + 1;
    lemma_walk_extend(ids, edges, wa, b);
    assert(is_walk(ids, edges, wa.push(b)));
}

proof fn lemma_raise_witnessed(ids: Set<u64>, edges: Seq<LayoutEdge>, r: Map<u64, usize>, a: u64, b: u64)
    requires
        witnessed(ids, edges, r),
        r.contains_key(a),
        r.contains_key(b),
        feeds(ids, edges, a, b),
        r[a] + 1 <= usize::MAX,
    ensures
        witnessed(ids, edges, r.insert(b, (r[a] + 1) as usize)),
{
    reveal(witnessed);
    let r2 = r.insert(b, (r[a] + 1) as usize);
    let wa = choose|w: Seq<u64>| #[trigger] is_walk(ids, edges, w) && w.last() == a && w.len() == r[a] + 1;
    lemma_walk_extend(ids, edges, wa, b);
    assert forall|v: u64| #[trigger] r2.contains_key(v) implies exists|w: Seq<u64>| #[trigger] is_walk(ids, edges, w) && w.last() == v && w.len() == r2[v] + 1 by {
        if v == b {
            assert(is_walk(ids, edges, wa.push(b)) && wa.push(b).last() == v);
        } else {
            assert(r.contains_key(v));
        }
    }
}

/// Bellman–Ford's step: a full pass extends the bound by one edge.
proof fn lemma_pass_extends(
    ids: Set<u64>,
    edges: Seq<LayoutEdge>,
    kept: Seq<LayoutEdge>,
    old_r: Map<u64, usize>,
    r: Map<u64, usize>,
    bound: int,
)
    requires
        kept_complete(ids, edges, kept, edges.len() as int),
        walks_bounded(ids, edges, old_r, bound),
        pass_progress(kept, old_r, r, kept.len() as int),
        old_r.dom() == ids,
        r.dom() == ids,
        forall|v: u64| #[trigger] r.contains_key(v) ==> r[v] >= old_r[v],
    ensures
        walks_bounded(ids, edges, r, bound + 1),
{
    reveal(walks_bounded);
    reveal(pass_progress);
    assert forall|w: Seq<u64>| #[trigger] is_walk(ids, edges, w) && w.len() <= bound + 1 implies r[w.last()] + 1 >= w.len() by {
        lemma_walk_last_known(ids, edges, w);
        assert(r.contains_key(w.last()));
        if w.len() >= bound + 1 && w.len() >= 2 {
            lemma_walk_prefix(ids, edges, w);
            let p = w.drop_last();
            assert(is_walk(ids, edges, p));
            let k = lemma_feeds_kept(ids, edges, kept, w[w.len() - 2], w[w.len() - 1]);
            assert(r[kept[k].to] >= old_r[kept[k].from] + 1);
        }
    }
}

proof fn lemma_fixpoint(
    ids: Set<u64>,
    edges: Seq<LayoutEdge>,
    kept: Seq<LayoutEdge>,
    r: Map<u64, usize>,
)
    requires
        kept_complete(ids, edges, kept, edges.len() as int),
        pass_progress(kept, r, r, kept.len() as int),
        r.dom() == ids,
    ensures
        all_walks_bounded(ids, edges, r),
{
    reveal(all_walks_bounded);
    reveal(pass_progress);
    assert forall|a: u64, b: u64| #[trigger] feeds(ids, edges, a, b) implies r[b] >= r[a] + 1 by {
        let k = lemma_feeds_kept(ids, edges, kept, a, b);
        assert(r[kept[k].to] >= r[kept[k].from] + 1);
    }
    assert forall|w: Seq<u64>| #[trigger] is_walk(ids, edges, w) implies r[w.last()] + 1 >= w.len() by {
        lemma_fixpoint_bounds_walks(ids, edges, r, w);
    }
}

/// The distinct node ids, and every one of them at rank 0.
fn collect_ids(nodes: &[u64]) -> (r: (BTreeSet<u64>, BTreeMap<u64, usize>))
    ensures
        r.0@ == nodes@.to_set(),
        r.1@.dom() == nodes@.to_set(),
        forall|v: u64| #[trigger] r.1@.contains_key(v) ==> r.1@[v] == 0,
{
    let mut ids: BTreeSet<u64> = BTreeSet::new();
    let mut rank: BTreeMap<u64, usize> = BTreeMap::new();
    let mut i: usize = 0;
    while i < nodes.len()
        invariant
            i <= nodes.len(),
            forall|v: u64| ids@.contains(v) <==> exists|k: int| 0 <= k < i && nodes@[k] == v,
            rank@.dom() == ids@,
            forall|v: u64| #[trigger] rank@.contains_key(v) ==> rank@[v] == 0,
        decreases nodes.len() - i,
    {
        let id = nodes[i];
        ids.insert(id);
        rank.insert(id, 0);
        assert forall|v: u64| ids@.contains(v) <==> exists|k: int| 0 <= k < i + 1 && nodes@[k] == v by {
            if v == id {
                assert(nodes@[i as int] == v);
            }
        }
        i += 1;
    }
    let ghost s = nodes@.to_set();
    assert(ids@ =~= s) by {
        assert forall|v: u64| ids@.contains(v) <==> s.contains(v) by {
            if s.contains(v) {
                let k = choose|k: int| 0 <= k < nodes@.len() && nodes@[k] == v;
                assert(ids@.contains(v));
            }
        }
    }
    (ids, rank)
}

/// One relaxation pass over the kept edges: lift each target to one past its
/// source, never to the node count or beyond. Returns whether anything moved.
fn relax_pass(
    kept: &Vec<LayoutEdge>,
    rank: &mut BTreeMap<u64, usize>,
    n: usize,
    passes: usize,
    Ghost(s): Ghost<Set<u64>>,
    Ghost(edges): Ghost<Seq<LayoutEdge>>,
) -> (changed: bool)
    requires
        n == s.len(),
        passes == (if n > 1 { n } else { 1 }),
        kept_sound(s, edges, kept@),
        old(rank)@.dom() == s,
        forall|v: u64| #[trigger] old(rank)@.contains_key(v) ==> old(rank)@[v] < passes,
        witnessed(s, edges, old(rank)@),
    ensures
        final(rank)@.dom() == s,
        forall|v: u64| #[trigger] final(rank)@.contains_key(v) ==> final(rank)@[v] < passes,
        forall|v: u64| #[trigger] final(rank)@.contains_key(v) ==> final(rank)@[v] >= old(rank)@[v],
        witnessed(s, edges, final(rank)@),
        !changed ==> final(rank)@ == old(rank)@,
        walks_fit(s, edges) ==> pass_progress(kept@, old(rank)@, final(rank)@, kept@.len() as int),
{
    let ghost old_r = rank@;
    let mut changed = false;
    let mut k: usize = 0;
    proof {
        reveal(pass_progress);
    }
    while k < kept.len()
        invariant
            n == s.len(),
            passes == (if n > 1 { n } else { 1 }),
            k <= kept.len(),
            kept_sound(s, edges, kept@),
            old_r.dom() == s,
            rank@.dom() == s,
            forall|v: u64| #[trigger] rank@.contains_key(v) ==> rank@[v] < passes,
            forall|v: u64| #[trigger] rank@.contains_key(v) ==> rank@[v] >= old_r[v],
            witnessed(s, edges, rank@),
            !changed ==> rank@ == old_r,
            walks_fit(s, edges) ==> pass_progress(kept@, old_r, rank@, k as int),
        decreases kept.len() - k,
    {
        let e = kept[k];
        proof {
            lemma_kept_feeds(s, edges, kept@, k as int);
        }
        let rf: usize = match rank.get(&e.from) {
            Some(x) => *x,
            None => 0,
        };
        let rt: usize = match rank.get(&e.to) {
            Some(x) => *x,
            None => 0,
        };
        assert(rank@.contains_key(e.from) && rank@.contains_key(e.to));
        assert(rf == rank@[e.from] && rt == rank@[e.to]);
        let want = rf + 1;
        proof {
            if walks_fit(s, edges) {
                lemma_step_fits(s, edges, rank@, e.from, e.to);
            }
        }
        let ghost before = rank@;
        if want > rt && want < n {
            proof {
                lemma_raise_witnessed(s, edges, rank@, e.from, e.to);
            }
            rank.insert(e.to, want);
            changed = true;
            proof {
                assert forall|v: u64| #[trigger] rank@.contains_key(v) implies rank@[v] >= old_r[v] by {
                    assert(before.contains_key(v));
                }
                assert forall|v: u64| #[trigger] rank@.contains_key(v) implies rank@[v] < passes by {
                    assert(before.contains_key(v));
                }
            }
        }
        proof {
            reveal(pass_progress);
            if walks_fit(s, edges) {
                assert forall|q: int| 0 <= q < k + 1 implies rank@[#[trigger] kept@[q].to] >= old_r[kept@[q].from] + 1 by {
                    lemma_kept_feeds(s, edges, kept@, q);
                    if q < k {
                        assert(before[kept@[q].to] >= old_r[kept@[q].from] + 1);
                        assert(before.contains_key(kept@[q].to));
                    } else {
                        assert(before.contains_key(e.from));
                    }
                }
            }
        }
        k += 1;
    }
    changed
}

// ---------------------------------------------------------------------------
// Breaking cycles
// ---------------------------------------------------------------------------

/// The edges `layered_ranks` ranks by: the kept edges, less each one that
/// would close a cycle.
pub open spec fn ranked_edges(nodes: Seq<u64>, edges: Seq<LayoutEdge>) -> Seq<LayoutEdge> {
    dag_of(nodes.to_set(), edges)
}

proof fn lemma_single_walk(ids: Set<u64>, es: Seq<LayoutEdge>, v: u64)
    requires
        ids.contains(v),
    ensures
        is_walk(ids, es, seq![v]),
        reaches(ids, es, v, v),
{
    let w = seq![v];
    assert(is_walk(ids, es, w) && w[0] == v && w.last() == v);
}

/// A walk carries over to an edge set that feeds at least as much.
proof fn lemma_walk_transfer(ids: Set<u64>, es1: Seq<LayoutEdge>, es2: Seq<LayoutEdge>, w: Seq<u64>)
    requires
        is_walk(ids, es1, w),
        forall|a: u64, b: u64| #[trigger] feeds(ids, es1, a, b) ==> feeds(ids, es2, a, b),
    ensures
        is_walk(ids, es2, w),
{
    assert forall|i: int| 0 <= i < w.len() - 1 implies #[trigger] feeds(ids, es2, w[i], w[i + 1]) by {
        assert(feeds(ids, es1, w[i], w[i + 1]));
    }
}

proof fn lemma_feeds_push(ids: Set<u64>, es: Seq<LayoutEdge>, e: LayoutEdge)
    ensures
        forall|a: u64, b: u64| #[trigger] feeds(ids, es, a, b) ==> feeds(ids, es.push(e), a, b),
{
    assert forall|a: u64, b: u64| #[trigger] feeds(ids, es, a, b) implies feeds(ids, es.push(e), a, b) by {
        let j = choose|j: int| 0 <= j < es.len() && keeps(ids, es[j]) && es[j].from == a && es[j].to == b;
        assert(es.push(e)[j] == es[j]);
    }
}

proof fn lemma_reaches_push(ids: Set<u64>, es: Seq<LayoutEdge>, e: LayoutEdge, a: u64, b: u64)
    requires
        reaches(ids, es, a, b),
    ensures
        reaches(ids, es.push(e), a, b),
{
    let w = choose|w: Seq<u64>| #[trigger] is_walk(ids, es, w) && w[0] == a && w.last() == b;
    lemma_feeds_push(ids, es, e);
    lemma_walk_transfer(ids, es, es.push(e), w);
}

/// Two walks join end to start.
proof fn lemma_reaches_trans(ids: Set<u64>, es: Seq<LayoutEdge>, a: u64, b: u64, c: u64)
    requires
        reaches(ids, es, a, b),
        reaches(ids, es, b, c),
    ensures
        reaches(ids, es, a, c),
{
    let w1 = choose|w: Seq<u64>| #[trigger] is_walk(ids, es, w) && w[0] == a && w.last() == b;
    let w2 = choose|w: Seq<u64>| #[trigger] is_walk(ids, es, w) && w[0] == b && w.last() == c;
    let w = w1 + w2.drop_first();
    assert forall|i: int| 0 <= i < w.len() - 1 implies #[trigger] feeds(ids, es, w[i], w[i + 1]) by {
        if i < w1.len() - 1 {
            assert(w[i] == w1[i] && w[i + 1] == w1[i + 1]);
            assert(feeds(ids, es, w1[i], w1[i + 1]));
        } else {
            let k = i - (w1.len() - 1);
            if i == w1.len() - 1 {
                assert(w[i] == w1.last());
            } else {
                assert(w[i] == w2[k]);
            }
            assert(w[i + 1] == w2[k + 1]);
            assert(feeds(ids, es, w2[k], w2[k + 1]));
        }
    }
    if w2.len() == 1 {
        assert(w =~= w1);
    } else {
        assert(w.last() == w2.last());
    }
    assert(is_walk(ids, es, w) && w[0] == a && w.last() == c);
}

/// A walk along `es` plus `e` either stays on `es`, or goes through `e`: its
/// start reaches `e.from` on `es`, and `e.to` reaches its end on `es`.
proof fn lemma_walk_through(ids: Set<u64>, es: Seq<LayoutEdge>, e: LayoutEdge, w: Seq<u64>)
    requires
        is_walk(ids, es.push(e), w),
        keeps(ids, e),
    ensures
        is_walk(ids, es, w) || (reaches(ids, es, w[0], e.from) && reaches(ids, es, e.to, w.last())),
    decreases w.len(),
{
    let es2 = es.push(e);
    if w.len() == 1 {
        assert(is_walk(ids, es, w));
    } else {
        lemma_walk_prefix(ids, es2, w);
        let p = w.drop_last();
        lemma_walk_through(ids, es, e, p);
        let x = w[w.len() - 2];
        let y = w.last();
        let j = choose|j: int| 0 <= j < es2.len() && keeps(ids, es2[j]) && es2[j].from == x && es2[j].to == y;
        if j < es.len() {
            assert(es2[j] == es[j]);
            assert(feeds(ids, es, x, y));
            if is_walk(ids, es, p) {
                lemma_walk_extend(ids, es, p, y);
                assert(p.push(y) =~= w);
            } else {
                let wx = choose|v: Seq<u64>| #[trigger] is_walk(ids, es, v) && v[0] == e.to && v.last() == x;
                lemma_walk_extend(ids, es, wx, y);
                let wy = wx.push(y);
                assert(is_walk(ids, es, wy) && wy[0] == e.to && wy.last() == y);
                assert(p[0] == w[0]);
            }
        } else {
            assert(es2[j] == e);
            lemma_single_walk(ids, es, e.to);
            if is_walk(ids, es, p) {
                assert(is_walk(ids, es, p) && p[0] == w[0] && p.last() == e.from);
            } else {
                assert(p[0] == w[0]);
            }
        }
    }
}

/// Taking an edge whose target does not reach its source closes no cycle.
proof fn lemma_push_acyclic(ids: Set<u64>, es: Seq<LayoutEdge>, e: LayoutEdge)
    requires
        acyclic(ids, es),
        keeps(ids, e),
        !reaches(ids, es, e.to, e.from),
    ensures
        acyclic(ids, es.push(e)),
{
    assert forall|w: Seq<u64>| #[trigger] is_walk(ids, es.push(e), w) && w.len() >= 2 implies w[0] != w.last() by {
        lemma_walk_through(ids, es, e, w);
        if w[0] == w.last() && !is_walk(ids, es, w) {
            lemma_reaches_trans(ids, es, e.to, w.last(), e.from);
        }
    }
}

proof fn lemma_walk_nodes_known(ids: Set<u64>, es: Seq<LayoutEdge>, w: Seq<u64>)
    requires
        is_walk(ids, es, w),
    ensures
        forall|i: int| 0 <= i < w.len() ==> ids.contains(#[trigger] w[i]),
{
    assert forall|i: int| 0 <= i < w.len() implies ids.contains(#[trigger] w[i]) by {
        if i > 0 {
            let k = i - 1;
            assert(feeds(ids, es, w[k], w[k + 1]));
            let j = choose|j: int| 0 <= j < es.len() && keeps(ids, es[j]) && es[j].from == w[k] && es[j].to == w[k + 1];
        }
    }
}

proof fn lemma_subwalk(ids: Set<u64>, es: Seq<LayoutEdge>, w: Seq<u64>, lo: int, hi: int)
    requires
        is_walk(ids, es, w),
        0 <= lo < hi <= w.len(),
    ensures
        is_walk(ids, es, w.subrange(lo, hi)),
{
    lemma_walk_nodes_known(ids, es, w);
    let c = w.subrange(lo, hi);
    assert(c[0] == w[lo]);
    assert forall|i: int| 0 <= i < c.len() - 1 implies #[trigger] feeds(ids, es, c[i], c[i + 1]) by {
        let k = lo + i;
        assert(c[i] == w[k] && c[i + 1] == w[k + 1]);
        assert(feeds(ids, es, w[k], w[k + 1]));
    }
}

/// Without cycles a walk never revisits a node, so it visits at most `|ids|`.
proof fn lemma_acyclic_walks_fit(ids: Set<u64>, es: Seq<LayoutEdge>)
    requires
        acyclic(ids, es),
        ids.finite(),
    ensures
        walks_fit(ids, es),
{
    assert forall|w: Seq<u64>| #[trigger] is_walk(ids, es, w) implies w.len() <= ids.len() by {
        lemma_walk_nodes_known(ids, es, w);
        assert forall|i: int, j: int| 0 <= i < w.len() && 0 <= j < w.len() && i != j implies w[i] != w[j] by {
            if w[i] == w[j] {
                let lo = if i < j { i } else { j };
                let hi = if i < j { j } else { i };
                lemma_subwalk(ids, es, w, lo, hi + 1);
                let c = w.subrange(lo, hi + 1);
                assert(c[0] == w[lo] && c.last() == w[hi] && c.len() >= 2);
            }
        }
        assert(w.no_duplicates());
        w.unique_seq_to_set();
        assert forall|x: u64| w.to_set().contains(x) implies ids.contains(x) by {
            assert(w.contains(x));
            let i = choose|i: int| 0 <= i < w.len() && w[i] == x;
        }
        vstd::set_lib::lemma_len_subset(w.to_set(), ids);
    }
}

/// Each taken edge is kept, and the taken edges form no cycle.
proof fn lemma_dag_of(ids: Set<u64>, edges: Seq<LayoutEdge>)
    ensures
        forall|k: int| 0 <= k < dag_of(ids, edges).len() ==> keeps(ids, #[trigger] dag_of(ids, edges)[k]),
        acyclic(ids, dag_of(ids, edges)),
    decreases edges.len(),
{
    if edges.len() == 0 {
        assert forall|w: Seq<u64>| #[trigger] is_walk(ids, seq![], w) && w.len() >= 2 implies w[0] != w.last() by {
            let z: int = 0;
            assert(feeds(ids, seq![], w[z], w[z + 1]));
        }
    } else {
        let d = edges.drop_last();
        lemma_dag_of(ids, d);
        let p = dag_of(ids, d);
        let e = edges.last();
        if keeps(ids, e) && !reaches(ids, p, e.to, e.from) {
            lemma_push_acyclic(ids, p, e);
            assert forall|k: int| 0 <= k < p.push(e).len() implies keeps(ids, #[trigger] p.push(e)[k]) by {
                if k < p.len() {
                    assert(p.push(e)[k] == p[k]);
                }
            }
        }
    }
}

/// Every kept edge left out closes a cycle: its target reaches its source
/// along the edges taken.
proof fn lemma_dropped_close_cycles(ids: Set<u64>, edges: Seq<LayoutEdge>)
    ensures
        forall|j: int| 0 <= j < edges.len() && #[trigger] keeps(ids, edges[j]) && !dag_of(ids, edges).contains(edges[j])
            ==> reaches(ids, dag_of(ids, edges), edges[j].to, edges[j].from),
    decreases edges.len(),
{
    if edges.len() > 0 {
        let d = edges.drop_last();
        lemma_dropped_close_cycles(ids, d);
        let p = dag_of(ids, d);
        let g = dag_of(ids, edges);
        let e = edges.last();
        assert forall|j: int| 0 <= j < edges.len() && #[trigger] keeps(ids, edges[j]) && !g.contains(edges[j]) implies reaches(ids, g, edges[j].to, edges[j].from) by {
            let x = edges[j];
            if g != p {
                assert(g == p.push(e));
                if p.contains(x) {
                    let k = choose|k: int| 0 <= k < p.len() && p[k] == x;
                    assert(g[k] == x);
                }
                if j < d.len() {
                    assert(d[j] == x);
                    lemma_reaches_push(ids, p, e, x.to, x.from);
                } else {
                    assert(g[p.len() as int] == x);
                }
            } else {
                if j < d.len() {
                    assert(d[j] == x);
                } else {
                    assert(x == e);
                }
            }
        }
    }
}

proof fn lemma_kept_in_edges(ids: Set<u64>, edges: Seq<LayoutEdge>)
    ensures
        forall|a: u64, b: u64| #[trigger] feeds(ids, kept_edges(ids, edges), a, b) ==> feeds(ids, edges, a, b),
    decreases edges.len(),
{
    if edges.len() > 0 {
        let d = edges.drop_last();
        lemma_kept_in_edges(ids, d);
        let k = kept_edges(ids, edges);
        let kd = kept_edges(ids, d);
        assert forall|a: u64, b: u64| #[trigger] feeds(ids, k, a, b) implies feeds(ids, edges, a, b) by {
            let j = choose|j: int| 0 <= j < k.len() && keeps(ids, k[j]) && k[j].from == a && k[j].to == b;
            if j < kd.len() {
                assert(k[j] == kd[j]);
                assert(feeds(ids, kd, a, b));
                let q = choose|q: int| 0 <= q < d.len() && keeps(ids, d[q]) && d[q].from == a && d[q].to == b;
                assert(edges[q] == d[q]);
            } else {
                assert(k[j] == edges.last());
                assert(edges[edges.len() - 1] == edges.last());
            }
        }
    }
}

/// On an acyclic graph no edge closes a cycle, so every kept edge is taken.
proof fn lemma_acyclic_keeps_all(ids: Set<u64>, edges: Seq<LayoutEdge>)
    requires
        acyclic(ids, edges),
    ensures
        dag_of(ids, edges) == kept_edges(ids, edges),
    decreases edges.len(),
{
    if edges.len() > 0 {
        let d = edges.drop_last();
        let e = edges.last();
        assert(d.push(e) =~= edges);
        lemma_feeds_push(ids, d, e);
        assert forall|w: Seq<u64>| #[trigger] is_walk(ids, d, w) && w.len() >= 2 implies w[0] != w.last() by {
            lemma_walk_transfer(ids, d, edges, w);
        }
        lemma_acyclic_keeps_all(ids, d);
        if keeps(ids, e) && reaches(ids, dag_of(ids, d), e.to, e.from) {
            let w = choose|w: Seq<u64>| #[trigger] is_walk(ids, kept_edges(ids, d), w) && w[0] == e.to && w.last() == e.from;
            lemma_kept_in_edges(ids, d);
            lemma_walk_transfer(ids, kept_edges(ids, d), d, w);
            lemma_walk_transfer(ids, d, edges, w);
            assert(edges[edges.len() - 1] == e);
            assert(feeds(ids, edges, e.from, e.to));
            lemma_walk_extend(ids, edges, w, e.to);
            let c = w.push(e.to);
            assert(c[0] == e.to && c.last() == e.to && c.len() >= 2);
        }
    }
}

/// How many edges end outside `seen`.
spec fn open_ends(es: Seq<LayoutEdge>, seen: Set<u64>) -> nat
    decreases es.len(),
{
    if es.len() == 0 {
        0
    } else {
        open_ends(es.drop_last(), seen) + (if seen.contains(es.last().to) { 0nat } else { 1nat })
    }
}

proof fn lemma_unreached_shrinks(es: Seq<LayoutEdge>, s: Set<u64>, t: Set<u64>)
    requires
        s.subset_of(t),
    ensures
        open_ends(es, t) <= open_ends(es, s),
        (exists|k: int| 0 <= k < es.len() && !s.contains(es[k].to) && t.contains(es[k].to)) ==> open_ends(es, t) < open_ends(es, s),
    decreases es.len(),
{
    if es.len() > 0 {
        let d = es.drop_last();
        lemma_unreached_shrinks(d, s, t);
        if exists|k: int| 0 <= k < es.len() && !s.contains(es[k].to) && t.contains(es[k].to) {
            let k = choose|k: int| 0 <= k < es.len() && !s.contains(es[k].to) && t.contains(es[k].to);
            if k < d.len() {
                assert(d[k] == es[k]);
            }
        }
    }
}

/// The walk's nodes all lie in `seen`, when `seen` holds its start and is
/// closed under the edges.
proof fn lemma_closed_holds_walk(ids: Set<u64>, es: Seq<LayoutEdge>, seen: Set<u64>, w: Seq<u64>)
    requires
        is_walk(ids, es, w),
        seen.contains(w[0]),
        forall|k: int| 0 <= k < es.len() && seen.contains(#[trigger] es[k].from) ==> seen.contains(es[k].to),
    ensures
        seen.contains(w.last()),
    decreases w.len(),
{
    if w.len() >= 2 {
        lemma_walk_prefix(ids, es, w);
        lemma_closed_holds_walk(ids, es, seen, w.drop_last());
        let x = w[w.len() - 2];
        let j = choose|j: int| 0 <= j < es.len() && keeps(ids, es[j]) && es[j].from == x && es[j].to == w[w.len() - 1];
    }
}

/// Does `a` reach `b` along `es`? Grows the set reached from `a` until no
/// edge leads out of it.
fn reaches_exec(es: &Vec<LayoutEdge>, a: u64, b: u64, Ghost(ids): Ghost<Set<u64>>) -> (r: bool)
    requires
        ids.contains(a),
        forall|k: int| 0 <= k < es@.len() ==> keeps(ids, #[trigger] es@[k]),
    ensures
        r == reaches(ids, es@, a, b),
{
    let mut seen: BTreeSet<u64> = BTreeSet::new();
    seen.insert(a);
    proof {
        lemma_single_walk(ids, es@, a);
    }
    let mut done = false;
    while !done
        invariant
            ids.contains(a),
            forall|k: int| 0 <= k < es@.len() ==> keeps(ids, #[trigger] es@[k]),
            seen@.contains(a),
            forall|x: u64| #[trigger] seen@.contains(x) ==> reaches(ids, es@, a, x),
            done ==> forall|k: int| 0 <= k < es@.len() && seen@.contains(#[trigger] es@[k].from) ==> seen@.contains(es@[k].to),
        decreases open_ends(es@, seen@), (if done { 0int } else { 1int }),
    {
        let ghost before = seen@;
        let mut changed = false;
        let mut j: usize = 0;
        while j < es.len()
            invariant
                j <= es@.len(),
                ids.contains(a),
                forall|k: int| 0 <= k < es@.len() ==> keeps(ids, #[trigger] es@[k]),
                before.subset_of(seen@),
                seen@.contains(a),
                forall|x: u64| #[trigger] seen@.contains(x) ==> reaches(ids, es@, a, x),
                forall|k: int| 0 <= k < j && before.contains(#[trigger] es@[k].from) ==> seen@.contains(es@[k].to),
                changed ==> exists|k: int| 0 <= k < es@.len() && !before.contains(es@[k].to) && seen@.contains(es@[k].to),
                !changed ==> seen@ == before,
            decreases es@.len() - j,
        {
            let e = es[j];
            assert(es@[j as int] == e);
            let ghost at_start = seen@;
            if seen.contains(&e.from) && !seen.contains(&e.to) {
                proof {
                    let wf = choose|w: Seq<u64>| #[trigger] is_walk(ids, es@, w) && w[0] == a && w.last() == e.from;
                    assert(keeps(ids, es@[j as int]));
                    assert(feeds(ids, es@, wf.last(), e.to));
                    lemma_walk_extend(ids, es@, wf, e.to);
                    let wt = wf.push(e.to);
                    assert(is_walk(ids, es@, wt) && wt[0] == a && wt.last() == e.to);
                }
                seen.insert(e.to);
                changed = true;
            }
            assert(at_start.subset_of(seen@));
            j += 1;
        }
        if !changed {
            done = true;
        } else {
            proof {
                lemma_unreached_shrinks(es@, before, seen@);
            }
        }
    }
    if seen.contains(&b) {
        true
    } else {
        proof {
            if reaches(ids, es@, a, b) {
                let w = choose|w: Seq<u64>| #[trigger] is_walk(ids, es@, w) && w[0] == a && w.last() == b;
                lemma_closed_holds_walk(ids, es@, seen@, w);
            }
        }
        false
    }
}

/// The kept edges, less each one that would close a cycle with those taken
/// before it.
fn break_cycles(ids: &BTreeSet<u64>, edges: &[LayoutEdge]) -> (dag: Vec<LayoutEdge>)
    ensures
        dag@ == dag_of(ids@, edges@),
{
    let ghost s = ids@;
    let mut dag: Vec<LayoutEdge> = Vec::new();
    let mut i: usize = 0;
    while i < edges.len()
        invariant
            i <= edges@.len(),
            ids@ == s,
            dag@ == dag_of(s, edges@.take(i as int)),
        decreases edges@.len() - i,
    {
        let e = edges[i];
        assert(edges@.take(i + 1).drop_last() =~= edges@.take(i as int));
        assert(edges@.take(i + 1).last() == e);
        proof {
            lemma_dag_of(s, edges@.take(i as int));
        }
        if e.from != e.to && ids.contains(&e.from) && ids.contains(&e.to) {
            if !reaches_exec(&dag, e.to, e.from, Ghost(s)) {
                dag.push(e);
            }
        }
        i += 1;
    }
    assert(edges@.take(edges@.len() as int) =~= edges@);
    dag
}

/// Relax the taken edges pass after pass until nothing moves: on edges
/// without cycles this gives every node the longest path into it.
fn rank_dag(n: usize, rank: BTreeMap<u64, usize>, dag: &Vec<LayoutEdge>, Ghost(s): Ghost<Set<u64>>) -> (r: BTreeMap<u64, usize>)
    requires
        n == s.len(),
        forall|k: int| 0 <= k < dag@.len() ==> keeps(s, #[trigger] dag@[k]),
        walks_fit(s, dag@),
        rank@.dom() == s,
        forall|v: u64| #[trigger] rank@.contains_key(v) ==> rank@[v] == 0,
    ensures
        r@.dom() == s,
        witnessed(s, dag@, r@),
        all_walks_bounded(s, dag@, r@),
{
    let ghost g = dag@;
    let mut rank = rank;
    proof {
        reveal(kept_sound);
        reveal(kept_complete);
        assert forall|k: int| 0 <= k < g.len() implies #[trigger] keeps(s, g[k]) && g.contains(g[k]) by {}
    }
    assert(witnessed(s, g, rank@)) by {
        reveal(witnessed);
        assert forall|v: u64| #[trigger] rank@.contains_key(v) implies exists|w: Seq<u64>| #[trigger] is_walk(s, g, w) && w.last() == v && w.len() == rank@[v] + 1 by {
            assert(is_walk(s, g, seq![v]));
        }
    }
    let passes: usize = if n > 1 { n } else { 1 };
    let mut pass: usize = 0;
    let mut stable = false;
    proof {
        reveal(walks_bounded);
    }
    while pass < passes && !stable
        invariant
            n == s.len(),
            passes == (if n > 1 { n } else { 1 }),
            pass <= passes,
            dag@ == g,
            kept_sound(s, g, g),
            kept_complete(s, g, g, g.len() as int),
            walks_fit(s, g),
            rank@.dom() == s,
            forall|v: u64| #[trigger] rank@.contains_key(v) ==> rank@[v] < passes,
            witnessed(s, g, rank@),
            walks_bounded(s, g, rank@, pass + 1),
            stable ==> all_walks_bounded(s, g, rank@),
        decreases passes - pass, (if stable { 0int } else { 1int }),
    {
        let ghost old_r = rank@;
        let changed = relax_pass(dag, &mut rank, n, passes, Ghost(s), Ghost(g));
        proof {
            if !changed {
                lemma_fixpoint(s, g, g, rank@);
            } else {
                lemma_pass_extends(s, g, g, old_r, rank@, pass + 1);
            }
        }
        if !changed {
            stable = true;
        } else {
            pass += 1;
        }
    }
    proof {
        if !stable {
            reveal(walks_bounded);
            reveal(all_walks_bounded);
            assert forall|w: Seq<u64>| #[trigger] is_walk(s, g, w) implies rank@[w.last()] + 1 >= w.len() by {
                assert(w.len() <= s.len());
            }
        }
    }
    rank
}

/// What the longest-path ranks say about the edges they rank by.
proof fn lemma_rank_consequences(s: Set<u64>, g: Seq<LayoutEdge>, r: Map<u64, usize>)
    requires
        r.dom() == s,
        forall|k: int| 0 <= k < g.len() ==> keeps(s, #[trigger] g[k]),
        walks_fit(s, g),
        witnessed(s, g, r),
        all_walks_bounded(s, g, r),
    ensures
        forall|v: u64| #[trigger] r.contains_key(v) ==> r[v] < s.len(),
        forall|v: u64| #[trigger] r.contains_key(v) ==> exists|w: Seq<u64>| #[trigger] is_walk(s, g, w) && w.last() == v && w.len() == r[v] + 1,
        forall|w: Seq<u64>| #[trigger] is_walk(s, g, w) ==> r[w.last()] + 1 >= w.len(),
        forall|j: int| 0 <= j < g.len() ==> r[#[trigger] g[j].from] < r[g[j].to],
{
    reveal(witnessed);
    reveal(all_walks_bounded);
    assert forall|v: u64| #[trigger] r.contains_key(v) implies r[v] < s.len() by {
        let w = choose|w: Seq<u64>| #[trigger] is_walk(s, g, w) && w.last() == v && w.len() == r[v] + 1;
    }
    assert forall|j: int| 0 <= j < g.len() implies r[#[trigger] g[j].from] < r[g[j].to] by {
        let a = g[j].from;
        let b = g[j].to;
        assert(keeps(s, g[j]));
        assert(r.contains_key(a));
        let wa = choose|w: Seq<u64>| #[trigger] is_walk(s, g, w) && w.last() == a && w.len() == r[a] + 1;
        assert(feeds(s, g, a, b));
        lemma_walk_extend(s, g, wa, b);
        assert(is_walk(s, g, wa.push(b)));
        assert(wa.push(b).last() == b);
    }
}

/// Rank every node by the **longest path** from a source.
///
/// Longest path rather than shortest: a node sits to the right of
/// *everything* that feeds it, so an edge never points backwards.
/// Self-edges and edges naming unknown nodes are ignored, and so is an edge
/// that would close a cycle (in the order the edges are given): the ranking
/// stays finite and readable, which is what an author wants from a cyclic
/// graph rather than a refusal.
pub fn layered_ranks(nodes: &[u64], edges: &[LayoutEdge]) -> (rank: BTreeMap<u64, usize>)
    ensures
        rank@.dom() == nodes@.to_set(),
        // Every rank is below the node count.
        forall|v: u64| #[trigger] rank@.contains_key(v) ==> rank@[v] < nodes@.to_set().len(),
        // Every rank is witnessed by a walk of that many ranked edges ending
        // there, and no walk along them is longer: the rank is the longest
        // path into the node.
        forall|v: u64| #[trigger] rank@.contains_key(v) ==> exists|w: Seq<u64>| #[trigger] is_walk(nodes@.to_set(), ranked_edges(nodes@, edges@), w) && w.last() == v && w.len() == rank@[v] + 1,
        forall|w: Seq<u64>| #[trigger] is_walk(nodes@.to_set(), ranked_edges(nodes@, edges@), w) ==> rank@[w.last()] + 1 >= w.len(),
        // So every ranked edge points strictly rightwards…
        forall|j: int| 0 <= j < ranked_edges(nodes@, edges@).len() ==> rank@[#[trigger] ranked_edges(nodes@, edges@)[j].from] < rank@[ranked_edges(nodes@, edges@)[j].to],
        // …every kept edge left out closes a cycle of ranked edges…
        forall|j: int| 0 <= j < edges@.len() && #[trigger] keeps(nodes@.to_set(), edges@[j]) && !ranked_edges(nodes@, edges@).contains(edges@[j])
            ==> reaches(nodes@.to_set(), ranked_edges(nodes@, edges@), edges@[j].to, edges@[j].from),
        // …and on an acyclic graph none is left out.
        acyclic(nodes@.to_set(), edges@) ==> ranked_edges(nodes@, edges@) == kept_edges(nodes@.to_set(), edges@),
{
    let ghost s = nodes@.to_set();
    let (ids, rank) = collect_ids(nodes);
    let n = ids.len();
    let dag = break_cycles(&ids, edges);
    let ghost g = dag@;
    proof {
        vstd::seq_lib::seq_to_set_is_finite(nodes@);
        lemma_dag_of(s, edges@);
        lemma_acyclic_walks_fit(s, g);
    }
    let rank = rank_dag(n, rank, &dag, Ghost(s));
    proof {
        lemma_rank_consequences(s, g, rank@);
        lemma_dropped_close_cycles(s, edges@);
        if acyclic(s, edges@) {
            lemma_acyclic_keeps_all(s, edges@);
        }
        assert(ranked_edges(nodes@, edges@) == g);
    }
    rank
}

// ---------------------------------------------------------------------------
// Ordering within columns: barycenter sweeps
// ---------------------------------------------------------------------------

/// How many barycenter sweeps to run; each sweep is a forward and a backward
/// pass. Two take most of the crossings out without chasing the NP-hard
/// optimum.
pub const SWEEPS: usize = 2;

/// One column of the layout: its rank and its members, top to bottom.
#[derive(Debug, Clone, PartialEq, Eq)]
pub struct LayoutColumn {
    pub rank: usize,
    pub members: Vec<u64>,
}

/// A column as mathematics: its rank and its member sequence.
pub open spec fn column_view(c: LayoutColumn) -> (usize, Seq<u64>) {
    (c.rank, c.members@)
}

pub open spec fn columns_view(cols: Seq<LayoutColumn>) -> Seq<(usize, Seq<u64>)> {
    cols.map_values(|c: LayoutColumn| column_view(c))
}

/// Position of `id` in a reference column; the last occurrence wins.
pub open spec fn last_index(r: Seq<u64>, id: u64) -> Option<int>
    decreases r.len(),
{
    if r.len() == 0 {
        None
    } else if r.last() == id {
        Some(r.len() - 1)
    } else {
        last_index(r.drop_last(), id)
    }
}

/// The node on the far end of `e` from `id`, looking left (`forward`) or
/// right.
pub open spec fn far_end(e: LayoutEdge, id: u64, forward: bool) -> Option<u64> {
    if forward {
        if e.to == id { Some(e.from) } else { None }
    } else {
        if e.from == id { Some(e.to) } else { None }
    }
}

/// `(sum, count)` of the reference-column positions of `id`'s neighbours
/// over `edges` (every edge counts, parallel ones included).
pub open spec fn bary_tally(edges: Seq<LayoutEdge>, reference: Seq<u64>, id: u64, forward: bool) -> (int, int)
    decreases edges.len(),
{
    if edges.len() == 0 {
        (0, 0)
    } else {
        let (s, c) = bary_tally(edges.drop_last(), reference, id, forward);
        match far_end(edges.last(), id, forward) {
            Some(o) => match last_index(reference, o) {
                Some(i) => (s + i, c + 1),
                None => (s, c),
            },
            None => (s, c),
        }
    }
}

/// Barycenter `sa / ca` is at most `sb / cb`; a node with no neighbours has
/// no barycenter and sorts after every node that has one.
pub open spec fn bary_le(sa: int, ca: int, sb: int, cb: int) -> bool {
    if ca == 0 {
        cb == 0
    } else if cb == 0 {
        true
    } else {
        sa * cb <= sb * ca
    }
}

/// `a` sorts no later than `b`: smaller barycenter first, ties by id.
pub open spec fn bary_before(edges: Seq<LayoutEdge>, reference: Seq<u64>, forward: bool, a: u64, b: u64) -> bool {
    let (sa, ca) = bary_tally(edges, reference, a, forward);
    let (sb, cb) = bary_tally(edges, reference, b, forward);
    if bary_le(sa, ca, sb, cb) && bary_le(sb, cb, sa, ca) {
        a <= b
    } else {
        bary_le(sa, ca, sb, cb)
    }
}

/// A column reordered against its neighbour column: sorted by barycenter,
/// ties broken by id.
pub open spec fn reordered(members: Seq<u64>, reference: Seq<u64>, edges: Seq<LayoutEdge>, forward: bool) -> Seq<u64> {
    members.sort_by(bary_leq(edges, reference, forward))
}

/// [`bary_before`] as a relation.
pub open spec fn bary_leq(edges: Seq<LayoutEdge>, reference: Seq<u64>, forward: bool) -> spec_fn(u64, u64) -> bool {
    |a: u64, b: u64| bary_before(edges, reference, forward, a, b)
}

proof fn lemma_tally_nonneg(edges: Seq<LayoutEdge>, reference: Seq<u64>, id: u64, forward: bool)
    ensures
        bary_tally(edges, reference, id, forward).0 >= 0,
        bary_tally(edges, reference, id, forward).1 >= 0,
        bary_tally(edges, reference, id, forward).1 == 0 ==> bary_tally(edges, reference, id, forward).0 == 0,
    decreases edges.len(),
{
    if edges.len() > 0 {
        lemma_tally_nonneg(edges.drop_last(), reference, id, forward);
        lemma_last_index_range(reference, far_end(edges.last(), id, forward).unwrap_or(0));
    }
}

proof fn lemma_last_index_range(r: Seq<u64>, id: u64)
    ensures
        last_index(r, id) matches Some(i) ==> 0 <= i < r.len() && r[i] == id,
        last_index(r, id) is None ==> !r.contains(id),
    decreases r.len(),
{
    if r.len() > 0 {
        lemma_last_index_range(r.drop_last(), id);
        if r.last() != id && last_index(r, id) is None {
            assert forall|k: int| 0 <= k < r.len() implies r[k] != id by {
                if k < r.len() - 1 {
                    assert(r.drop_last()[k] == r[k]);
                }
            }
        }
    }
}

proof fn lemma_bary_le_trans(sa: int, ca: int, sb: int, cb: int, sc: int, cc: int)
    requires
        ca >= 0, cb >= 0, cc >= 0, sa >= 0, sb >= 0, sc >= 0,
        bary_le(sa, ca, sb, cb),
        bary_le(sb, cb, sc, cc),
    ensures
        bary_le(sa, ca, sc, cc),
{
    if ca > 0 && cb > 0 && cc > 0 {
        assert(sa * cc <= sc * ca) by (nonlinear_arith)
            requires
                sa * cb <= sb * ca,
                sb * cc <= sc * cb,
                ca > 0, cb > 0, cc > 0,
        ;
    }
}

/// The barycenter order is a total order on ids, so "the sorted column" is
/// one well-defined sequence.
proof fn lemma_bary_total(edges: Seq<LayoutEdge>, reference: Seq<u64>, forward: bool)
    ensures
        total_ordering(bary_leq(edges, reference, forward)),
{
    let leq = bary_leq(edges, reference, forward);
    assert forall|x: u64, y: u64, z: u64| #[trigger] leq(x, y) && #[trigger] leq(y, z) implies leq(x, z) by {
        lemma_tally_nonneg(edges, reference, x, forward);
        lemma_tally_nonneg(edges, reference, y, forward);
        lemma_tally_nonneg(edges, reference, z, forward);
        let (sx, cx) = bary_tally(edges, reference, x, forward);
        let (sy, cy) = bary_tally(edges, reference, y, forward);
        let (sz, cz) = bary_tally(edges, reference, z, forward);
        lemma_bary_le_trans(sx, cx, sy, cy, sz, cz);
        if bary_le(sz, cz, sx, cx) {
            lemma_bary_le_trans(sz, cz, sx, cx, sy, cy);
            lemma_bary_le_trans(sy, cy, sz, cz, sx, cx);
        }
    }
    assert forall|x: u64, y: u64| #[trigger] leq(x, y) || #[trigger] leq(y, x) by {
        lemma_tally_nonneg(edges, reference, x, forward);
        lemma_tally_nonneg(edges, reference, y, forward);
        let (sx, cx) = bary_tally(edges, reference, x, forward);
        let (sy, cy) = bary_tally(edges, reference, y, forward);
        if cx > 0 && cy > 0 {
            assert(sx * cy <= sy * cx || sy * cx <= sx * cy) by (nonlinear_arith);
        }
    }
    assert forall|x: u64, y: u64| #[trigger] leq(x, y) && #[trigger] leq(y, x) implies x == y by {
        lemma_tally_nonneg(edges, reference, x, forward);
        lemma_tally_nonneg(edges, reference, y, forward);
    }
    assert forall|x: u64| #[trigger] leq(x, x) by {
        lemma_tally_nonneg(edges, reference, x, forward);
        let (sx, cx) = bary_tally(edges, reference, x, forward);
        if cx > 0 {
            assert(sx * cx <= sx * cx);
        }
    }
}

/// The tally of a run of edges is the sum of the tallies of its parts:
/// every neighbour edge found in the reference column counts, each once.
pub proof fn law_tally_adds_up(e1: Seq<LayoutEdge>, e2: Seq<LayoutEdge>, reference: Seq<u64>, id: u64, forward: bool)
    ensures
        bary_tally(e1 + e2, reference, id, forward).0 == bary_tally(e1, reference, id, forward).0 + bary_tally(e2, reference, id, forward).0,
        bary_tally(e1 + e2, reference, id, forward).1 == bary_tally(e1, reference, id, forward).1 + bary_tally(e2, reference, id, forward).1,
    decreases e2.len(),
{
    if e2.len() == 0 {
        assert(e1 + e2 =~= e1);
    } else {
        law_tally_adds_up(e1, e2.drop_last(), reference, id, forward);
        assert((e1 + e2).drop_last() =~= e1 + e2.drop_last());
        assert((e1 + e2).last() == e2.last());
    }
}

/// One edge contributes its far end's position in the reference column
/// (its last occurrence there) and a count of one when it joins `id` to a
/// node of that column — from the left when looking `forward`, to the
/// right otherwise — and nothing at all otherwise.
pub proof fn law_tally_of_one_edge(e: LayoutEdge, reference: Seq<u64>, id: u64, forward: bool)
    ensures
        ({
            let other = if forward { e.from } else { e.to };
            let joined = if forward { e.to == id } else { e.from == id };
            if joined && reference.contains(other) {
                let (s, c) = bary_tally(seq![e], reference, id, forward);
                &&& c == 1
                &&& 0 <= s < reference.len()
                &&& reference[s] == other
                &&& forall|q: int| s < q < reference.len() ==> reference[q] != other
            } else {
                bary_tally(seq![e], reference, id, forward) == (0int, 0int)
            }
        }),
{
    let other = if forward { e.from } else { e.to };
    lemma_last_index_range(reference, other);
    assert(seq![e].drop_last() =~= Seq::<LayoutEdge>::empty());
    assert(seq![e].last() == e);
    assert(bary_tally(Seq::<LayoutEdge>::empty(), reference, id, forward) == (0int, 0int));
    if reference.contains(other) {
        let k = choose|k: int| 0 <= k < reference.len() && reference[k] == other;
        lemma_last_index_found(reference, other, k);
    }
}

proof fn lemma_last_index_found(r: Seq<u64>, id: u64, k: int)
    requires
        0 <= k < r.len(),
        r[k] == id,
    ensures
        last_index(r, id) matches Some(i) && k <= i < r.len() && r[i] == id && forall|q: int| i < q < r.len() ==> r[q] != id,
    decreases r.len(),
{
    if r.last() != id {
        assert(r.drop_last()[k] == r[k]);
        lemma_last_index_found(r.drop_last(), id, k);
        let i = last_index(r.drop_last(), id)->0;
        assert forall|q: int| i < q < r.len() implies r[q] != id by {
            if q < r.len() - 1 {
                assert(r[q] == r.drop_last()[q]);
            }
        }
    }
}

/// A reordered column holds the same nodes, sorted by the mean position of
/// their neighbours in the reference column (sum over count): a smaller
/// mean first, nodes with no neighbour there last, equal means by id.
pub proof fn law_reordered_by_mean(members: Seq<u64>, reference: Seq<u64>, edges: Seq<LayoutEdge>, forward: bool)
    ensures
        reordered(members, reference, edges, forward).to_multiset() == members.to_multiset(),
        forall|i: int, j: int| 0 <= i < j < reordered(members, reference, edges, forward).len() ==> {
            let a = #[trigger] reordered(members, reference, edges, forward)[i];
            let b = #[trigger] reordered(members, reference, edges, forward)[j];
            let (sa, ca) = bary_tally(edges, reference, a, forward);
            let (sb, cb) = bary_tally(edges, reference, b, forward);
            &&& ca == 0 ==> cb == 0
            &&& ca > 0 && cb > 0 ==> sa * cb <= sb * ca
            &&& (ca == 0 || sa * cb == sb * ca) && (cb == 0 <==> ca == 0) ==> a <= b
        },
{
    let leq = bary_leq(edges, reference, forward);
    lemma_bary_total(edges, reference, forward);
    members.lemma_sort_by_ensures(leq);
    let r = reordered(members, reference, edges, forward);
    assert forall|i: int, j: int| 0 <= i < j < r.len() implies {
        let a = #[trigger] r[i];
        let b = #[trigger] r[j];
        let (sa, ca) = bary_tally(edges, reference, a, forward);
        let (sb, cb) = bary_tally(edges, reference, b, forward);
        &&& ca == 0 ==> cb == 0
        &&& ca > 0 && cb > 0 ==> sa * cb <= sb * ca
        &&& (ca == 0 || sa * cb == sb * ca) && (cb == 0 <==> ca == 0) ==> a <= b
    } by {
        assert(leq(r[i], r[j]));
        lemma_tally_nonneg(edges, reference, r[i], forward);
        lemma_tally_nonneg(edges, reference, r[j], forward);
    }
}

fn last_index_of(reference: &Vec<u64>, id: u64) -> (r: Option<usize>)
    ensures
        match r {
            Some(i) => last_index(reference@, id) == Some(i as int),
            None => last_index(reference@, id) is None,
        },
{
    let mut i = reference.len();
    assert(reference@.subrange(0, i as int) =~= reference@);
    while i > 0
        invariant
            i <= reference.len(),
            last_index(reference@, id) == last_index(reference@.subrange(0, i as int), id),
        decreases i,
    {
        let ghost sub = reference@.subrange(0, i as int);
        if reference[i - 1] == id {
            return Some(i - 1);
        }
        assert(sub.drop_last() =~= reference@.subrange(0, i - 1));
        i -= 1;
    }
    None
}

/// `(sum, count)` of `id`'s neighbour positions in `reference`.
fn tally(edges: &[LayoutEdge], reference: &Vec<u64>, id: u64, forward: bool) -> (r: (u128, u128))
    ensures
        r.0 as int == bary_tally(edges@, reference@, id, forward).0,
        r.1 as int == bary_tally(edges@, reference@, id, forward).1,
        r.1 <= edges.len(),
{
    let mut sum: u128 = 0;
    let mut count: u128 = 0;
    let mut k: usize = 0;
    assert(edges@.take(0) =~= Seq::<LayoutEdge>::empty());
    while k < edges.len()
        invariant
            k <= edges.len(),
            sum as int == bary_tally(edges@.take(k as int), reference@, id, forward).0,
            count as int == bary_tally(edges@.take(k as int), reference@, id, forward).1,
            count <= k,
            sum <= k * reference.len(),
        decreases edges.len() - k,
    {
        let e = edges[k];
        assert(edges@.take(k + 1).drop_last() =~= edges@.take(k as int));
        assert(edges@.take(k + 1).last() == e);
        let other: Option<u64> = if forward {
            if e.to == id { Some(e.from) } else { None }
        } else {
            if e.from == id { Some(e.to) } else { None }
        };
        if let Some(o) = other {
            if let Some(i) = last_index_of(reference, o) {
                proof {
                    lemma_last_index_range(reference@, o);
                    assert(sum + i <= (k + 1) * reference.len()) by (nonlinear_arith)
                        requires
                            sum <= k * reference.len(),
                            i < reference.len(),
                    ;
                    assert((k + 1) * reference.len() <= u64::MAX * u64::MAX) by (nonlinear_arith)
                        requires
                            k + 1 <= usize::MAX,
                            reference.len() <= usize::MAX,
                            usize::MAX <= u64::MAX,
                    ;
                }
                sum = sum + i as u128;
                count = count + 1;
            }
        }
        proof {
            assert(sum <= (k + 1) * reference.len()) by (nonlinear_arith)
                requires
                    sum <= k * reference.len() || sum <= (k + 1) * reference.len(),
            ;
        }
        k += 1;
    }
    assert(edges@.take(edges.len() as int) =~= edges@);
    (sum, count)
}

/// `sa / ca <= sb / cb`, decided without overflow by comparing quotients and
/// then cross-multiplied remainders.
fn bary_le_exec(sa: u128, ca: u128, sb: u128, cb: u128) -> (r: bool)
    requires
        ca <= u64::MAX,
        cb <= u64::MAX,
    ensures
        r == bary_le(sa as int, ca as int, sb as int, cb as int),
{
    if ca == 0 {
        cb == 0
    } else if cb == 0 {
        true
    } else {
        let qa = sa / ca;
        let ra = sa % ca;
        let qb = sb / cb;
        let rb = sb % cb;
        proof {
            assert(ra * cb < 0x1_0000_0000_0000_0000_0000_0000_0000_0000) by (nonlinear_arith)
                requires
                    ra < ca,
                    ca <= u64::MAX,
                    cb <= u64::MAX,
            ;
            assert(rb * ca < 0x1_0000_0000_0000_0000_0000_0000_0000_0000) by (nonlinear_arith)
                requires
                    rb < cb,
                    ca <= u64::MAX,
                    cb <= u64::MAX,
            ;
            lemma_quotient_compare(sa as int, ca as int, sb as int, cb as int, qa as int, ra as int, qb as int, rb as int);
        }
        if qa != qb {
            qa < qb
        } else {
            ra * cb <= rb * ca
        }
    }
}

proof fn lemma_quotient_compare(sa: int, ca: int, sb: int, cb: int, qa: int, ra: int, qb: int, rb: int)
    requires
        ca > 0,
        cb > 0,
        sa >= 0,
        sb >= 0,
        qa == sa / ca,
        ra == sa % ca,
        qb == sb / cb,
        rb == sb % cb,
    ensures
        (sa * cb <= sb * ca) == (if qa != qb { qa < qb } else { ra * cb <= rb * ca }),
{
    assert(sa == qa * ca + ra && 0 <= ra < ca) by (nonlinear_arith)
        requires
            ca > 0,
            qa == sa / ca,
            ra == sa % ca,
    ;
    assert(sb == qb * cb + rb && 0 <= rb < cb) by (nonlinear_arith)
        requires
            cb > 0,
            qb == sb / cb,
            rb == sb % cb,
    ;
    assert(sa * cb == qa * ca * cb + ra * cb) by (nonlinear_arith)
        requires
            sa == qa * ca + ra,
    ;
    assert(sb * ca == qb * ca * cb + rb * ca) by (nonlinear_arith)
        requires
            sb == qb * cb + rb,
    ;
    if qa < qb {
        assert(sa * cb < sb * ca) by (nonlinear_arith)
            requires
                sa * cb == qa * ca * cb + ra * cb,
                sb * ca == qb * ca * cb + rb * ca,
                qa < qb,
                0 <= ra < ca,
                0 <= rb,
                ca > 0,
                cb > 0,
        ;
    } else if qa > qb {
        assert(sa * cb > sb * ca) by (nonlinear_arith)
            requires
                sa * cb == qa * ca * cb + ra * cb,
                sb * ca == qb * ca * cb + rb * ca,
                qa > qb,
                0 <= rb < cb,
                0 <= ra,
                ca > 0,
                cb > 0,
        ;
    }
}

/// The column order decided by [`bary_before`], on tallies already computed.
fn before_exec(a: u64, ka: (u128, u128), b: u64, kb: (u128, u128)) -> (r: bool)
    requires
        ka.1 <= u64::MAX,
        kb.1 <= u64::MAX,
    ensures
        r == (if bary_le(ka.0 as int, ka.1 as int, kb.0 as int, kb.1 as int) && bary_le(kb.0 as int, kb.1 as int, ka.0 as int, ka.1 as int) {
            a <= b
        } else {
            bary_le(ka.0 as int, ka.1 as int, kb.0 as int, kb.1 as int)
        }),
{
    let ab = bary_le_exec(ka.0, ka.1, kb.0, kb.1);
    let ba = bary_le_exec(kb.0, kb.1, ka.0, ka.1);
    if ab && ba {
        a <= b
    } else {
        ab
    }
}

/// Sort a column against its neighbour column by barycenter, ties by id.
fn reorder(members: &Vec<u64>, reference: &Vec<u64>, edges: &[LayoutEdge], forward: bool) -> (out: Vec<u64>)
    ensures
        out@ == reordered(members@, reference@, edges@, forward),
{
    let ghost leq = bary_leq(edges@, reference@, forward);
    proof {
        lemma_bary_total(edges@, reference@, forward);
    }
    let mut out: Vec<u64> = Vec::new();
    let mut keys: Vec<(u128, u128)> = Vec::new();
    let mut i: usize = 0;
    proof {
        broadcast use vstd::seq_lib::group_to_multiset_ensures;
        assert(members@.take(0) =~= out@);
    }
    while i < members.len()
        invariant
            i <= members.len(),
            total_ordering(leq),
            leq == bary_leq(edges@, reference@, forward),
            out@.len() == keys@.len(),
            out@.to_multiset() == members@.take(i as int).to_multiset(),
            vstd::relations::sorted_by(out@, leq),
            forall|j: int| 0 <= j < keys@.len() ==> (#[trigger] keys@[j]).0 as int == bary_tally(edges@, reference@, out@[j], forward).0
                && keys@[j].1 as int == bary_tally(edges@, reference@, out@[j], forward).1
                && keys@[j].1 <= edges.len(),
        decreases members.len() - i,
    {
        let m = members[i];
        let km = tally(edges, reference, m, forward);
        let mut p: usize = 0;
        while p < out.len() && before_exec(out[p], keys[p], m, km)
            invariant
                p <= out.len(),
                out@.len() == keys@.len(),
                km.0 as int == bary_tally(edges@, reference@, m, forward).0,
                km.1 as int == bary_tally(edges@, reference@, m, forward).1,
                km.1 <= edges.len(),
                forall|j: int| 0 <= j < keys@.len() ==> (#[trigger] keys@[j]).0 as int == bary_tally(edges@, reference@, out@[j], forward).0
                    && keys@[j].1 as int == bary_tally(edges@, reference@, out@[j], forward).1
                    && keys@[j].1 <= edges.len(),
                forall|j: int| 0 <= j < p ==> #[trigger] bary_before(edges@, reference@, forward, out@[j], m),
            decreases out.len() - p,
        {
            assert(keys@[p as int].1 <= edges.len());
            p += 1;
        }
        let ghost old_out = out@;
        proof {
            if p < old_out.len() {
                assert(keys@[p as int].1 <= edges.len());
                assert(!leq(old_out[p as int], m));
                assert(leq(m, old_out[p as int]));
            }
            assert forall|j: int| 0 <= j < p implies #[trigger] leq(old_out[j], m) by {
                assert(bary_before(edges@, reference@, forward, old_out[j], m));
            }
        }
        out.insert(p, m);
        keys.insert(p, km);
        proof {
            let no = out@;
            assert(no == old_out.insert(p as int, m));
            assert forall|a: int, b: int| 0 <= a < b < no.len() implies #[trigger] leq(no[a], no[b]) by {
                if b < p {
                    assert(leq(old_out[a], old_out[b]));
                } else if b == p {
                    assert(leq(old_out[a], m));
                } else if a < p {
                    assert(leq(old_out[a], old_out[b - 1]));
                } else if a == p {
                    assert(leq(m, old_out[p as int]));
                    if b - 1 > p {
                        assert(leq(old_out[p as int], old_out[b - 1]));
                    }
                } else {
                    assert(leq(old_out[a - 1], old_out[b - 1]));
                }
            }
            assert(members@.take(i + 1) =~= members@.take(i as int).push(m));
            vstd::seq_lib::to_multiset_insert(old_out, p as int, m);
            members@.take(i as int).to_multiset_ensures();
            assert forall|j: int| 0 <= j < keys@.len() implies (#[trigger] keys@[j]).0 as int == bary_tally(edges@, reference@, out@[j], forward).0
                && keys@[j].1 as int == bary_tally(edges@, reference@, out@[j], forward).1
                && keys@[j].1 <= edges.len() by {
            }
        }
        i += 1;
    }
    proof {
        assert(members@.take(members.len() as int) =~= members@);
        members@.lemma_sort_by_ensures(leq);
        vstd::seq_lib::lemma_sorted_unique(out@, members@.sort_by(leq), leq);
    }
    out
}

/// The nodes of rank `r`, in input order.
pub open spec fn rank_class(nodes: Seq<u64>, rank: Map<u64, usize>, r: nat) -> Seq<u64> {
    nodes.filter(has_rank(rank, r))
}

/// The predicate "sits at rank `r`".
pub open spec fn has_rank(rank: Map<u64, usize>, r: nat) -> spec_fn(u64) -> bool {
    |v: u64| rank[v] == r
}

/// The non-empty rank classes for ranks below `upto`, in increasing rank.
pub open spec fn ranked_columns(nodes: Seq<u64>, rank: Map<u64, usize>, upto: nat) -> Seq<(usize, Seq<u64>)>
    decreases upto,
{
    if upto == 0 {
        seq![]
    } else {
        let prev = ranked_columns(nodes, rank, (upto - 1) as nat);
        let m = rank_class(nodes, rank, (upto - 1) as nat);
        if m.len() > 0 {
            prev.push(((upto - 1) as usize, m))
        } else {
            prev
        }
    }
}

/// The column a sweep measures column `p` against: the one immediately to
/// its left (forward) or right (backward), when its rank is adjacent.
pub open spec fn neighbour_slot(cols: Seq<(usize, Seq<u64>)>, p: int, forward: bool) -> Option<int> {
    if forward {
        if p > 0 && cols[p - 1].0 + 1 == cols[p].0 { Some(p - 1) } else { None }
    } else {
        if p + 1 < cols.len() && cols[p + 1].0 == cols[p].0 + 1 { Some(p + 1) } else { None }
    }
}

/// Column `p` re-sorted against its neighbour, if it has one.
pub open spec fn reorder_slot(cols: Seq<(usize, Seq<u64>)>, edges: Seq<LayoutEdge>, forward: bool, p: int) -> Seq<(usize, Seq<u64>)> {
    match neighbour_slot(cols, p, forward) {
        Some(q) => cols.update(p, (cols[p].0, reordered(cols[p].1, cols[q].1, edges, forward))),
        None => cols,
    }
}

/// The first `k` steps of one sweep: left to right when `forward`, right to
/// left otherwise, each step seeing the steps before it.
pub open spec fn sweep_prefix(cols: Seq<(usize, Seq<u64>)>, edges: Seq<LayoutEdge>, forward: bool, k: nat) -> Seq<(usize, Seq<u64>)>
    decreases k,
{
    if k == 0 {
        cols
    } else {
        reorder_slot(
            sweep_prefix(cols, edges, forward, (k - 1) as nat),
            edges,
            forward,
            if forward { k - 1 } else { cols.len() - k },
        )
    }
}

pub open spec fn sweep(cols: Seq<(usize, Seq<u64>)>, edges: Seq<LayoutEdge>, forward: bool) -> Seq<(usize, Seq<u64>)> {
    sweep_prefix(cols, edges, forward, cols.len())
}

/// `done` sweeps, alternating forward and backward, starting forward.
pub open spec fn sweeps(cols: Seq<(usize, Seq<u64>)>, edges: Seq<LayoutEdge>, done: nat) -> Seq<(usize, Seq<u64>)>
    decreases done,
{
    if done == 0 {
        cols
    } else {
        let prev = sweeps(cols, edges, (done - 1) as nat);
        sweep(prev, edges, (done - 1) % 2 == 0)
    }
}

proof fn lemma_sweep_prefix_len(cols: Seq<(usize, Seq<u64>)>, edges: Seq<LayoutEdge>, forward: bool, k: nat)
    requires
        k <= cols.len(),
    ensures
        sweep_prefix(cols, edges, forward, k).len() == cols.len(),
    decreases k,
{
    if k > 0 {
        lemma_sweep_prefix_len(cols, edges, forward, (k - 1) as nat);
    }
}

proof fn lemma_sweeps_len(cols: Seq<(usize, Seq<u64>)>, edges: Seq<LayoutEdge>, done: nat)
    ensures
        sweeps(cols, edges, done).len() == cols.len(),
    decreases done,
{
    if done > 0 {
        lemma_sweeps_len(cols, edges, (done - 1) as nat);
        let prev = sweeps(cols, edges, (done - 1) as nat);
        lemma_sweep_prefix_len(prev, edges, (done - 1) % 2 == 0, prev.len());
    }
}

/// Same ranks in the same slots, and each slot holds the same nodes.
pub open spec fn same_contents(a: Seq<(usize, Seq<u64>)>, b: Seq<(usize, Seq<u64>)>) -> bool {
    &&& a.len() == b.len()
    &&& forall|i: int| 0 <= i < a.len() ==> (#[trigger] a[i]).0 == b[i].0 && a[i].1.to_multiset() == b[i].1.to_multiset()
}

proof fn lemma_reorder_slot_contents(cols: Seq<(usize, Seq<u64>)>, edges: Seq<LayoutEdge>, forward: bool, p: int)
    requires
        0 <= p < cols.len(),
    ensures
        same_contents(reorder_slot(cols, edges, forward, p), cols),
{
    if let Some(q) = neighbour_slot(cols, p, forward) {
        lemma_bary_total(edges, cols[q].1, forward);
        cols[p].1.lemma_sort_by_ensures(bary_leq(edges, cols[q].1, forward));
    }
}

proof fn lemma_sweep_prefix_contents(cols: Seq<(usize, Seq<u64>)>, edges: Seq<LayoutEdge>, forward: bool, k: nat)
    requires
        k <= cols.len(),
    ensures
        same_contents(sweep_prefix(cols, edges, forward, k), cols),
    decreases k,
{
    if k > 0 {
        lemma_sweep_prefix_contents(cols, edges, forward, (k - 1) as nat);
        let prev = sweep_prefix(cols, edges, forward, (k - 1) as nat);
        let p = if forward { k - 1 } else { cols.len() - k };
        lemma_reorder_slot_contents(prev, edges, forward, p);
    }
}

proof fn lemma_sweeps_contents(cols: Seq<(usize, Seq<u64>)>, edges: Seq<LayoutEdge>, done: nat)
    ensures
        same_contents(sweeps(cols, edges, done), cols),
    decreases done,
{
    if done > 0 {
        lemma_sweeps_contents(cols, edges, (done - 1) as nat);
        let prev = sweeps(cols, edges, (done - 1) as nat);
        lemma_sweep_prefix_contents(prev, edges, (done - 1) % 2 == 0, prev.len());
    }
}

proof fn lemma_ranked_columns_shape(nodes: Seq<u64>, rank: Map<u64, usize>, upto: nat)
    requires
        upto <= usize::MAX,
    ensures
        forall|i: int| 0 <= i < ranked_columns(nodes, rank, upto).len() ==> {
            let c = #[trigger] ranked_columns(nodes, rank, upto)[i];
            &&& c.0 < upto
            &&& c.1 == rank_class(nodes, rank, c.0 as nat)
            &&& c.1.len() > 0
        },
        forall|i: int, j: int| 0 <= i < j < ranked_columns(nodes, rank, upto).len() ==>
            (#[trigger] ranked_columns(nodes, rank, upto)[i]).0 < (#[trigger] ranked_columns(nodes, rank, upto)[j]).0,
        forall|r: nat| r < upto && #[trigger] rank_class(nodes, rank, r).len() > 0 ==> exists|i: int| 0 <= i < ranked_columns(nodes, rank, upto).len() && (#[trigger] ranked_columns(nodes, rank, upto)[i]).0 == r,
    decreases upto,
{
    if upto > 0 {
        lemma_ranked_columns_shape(nodes, rank, (upto - 1) as nat);
        let prev = ranked_columns(nodes, rank, (upto - 1) as nat);
        let cur = ranked_columns(nodes, rank, upto);
        assert forall|r: nat| r < upto && #[trigger] rank_class(nodes, rank, r).len() > 0 implies exists|i: int| 0 <= i < cur.len() && (#[trigger] cur[i]).0 == r by {
            if r < upto - 1 {
                let i = choose|i: int| 0 <= i < prev.len() && (#[trigger] prev[i]).0 == r;
                assert(cur[i] == prev[i]);
            } else {
                let m = rank_class(nodes, rank, (upto - 1) as nat);
                assert(r == upto - 1);
                assert(m.len() > 0);
                assert(cur == prev.push(((upto - 1) as usize, m)));
                assert(cur[cur.len() - 1].0 == r);
            }
        }
        assert forall|i: int, j: int| 0 <= i < j < cur.len() implies (#[trigger] cur[i]).0 < (#[trigger] cur[j]).0 by {
            assert(prev.len() == cur.len() || prev.len() + 1 == cur.len());
            if j < prev.len() {
                assert(prev[i].0 < prev[j].0);
            } else {
                assert(prev[i].0 < upto - 1);
            }
        }
    }
}

/// One barycenter sweep over the columns, in place.
fn sweep_exec(cols: &mut Vec<LayoutColumn>, edges: &[LayoutEdge], forward: bool)
    ensures
        columns_view(final(cols)@) == sweep(columns_view(old(cols)@), edges@, forward),
{
    let ghost orig = columns_view(cols@);
    let len = cols.len();
    let mut k: usize = 0;
    while k < len
        invariant
            k <= len,
            len == cols@.len(),
            orig.len() == len,
            columns_view(cols@) == sweep_prefix(orig, edges@, forward, k as nat),
        decreases len - k,
    {
        let ghost cur = columns_view(cols@);
        proof {
            lemma_sweep_prefix_len(orig, edges@, forward, k as nat);
        }
        let p: usize = if forward { k } else { len - 1 - k };
        let q: Option<usize> = if forward {
            if p > 0 && cols[p].rank > 0 && cols[p - 1].rank == cols[p].rank - 1 { Some(p - 1) } else { None }
        } else {
            if p + 1 < len && cols[p].rank < usize::MAX && cols[p + 1].rank == cols[p].rank + 1 { Some(p + 1) } else { None }
        };
        assert(cur[p as int] == column_view(cols@[p as int]));
        proof {
            if p > 0 {
                assert(cur[p - 1] == column_view(cols@[p - 1]));
            }
            if p + 1 < len {
                assert(cur[p + 1] == column_view(cols@[p + 1]));
            }
            if !forward && p + 1 < len && cols@[p + 1].rank == cols@[p as int].rank + 1 {
                assert(cols@[p as int].rank < usize::MAX);
            }
        }
        assert(q matches Some(qq) ==> neighbour_slot(cur, p as int, forward) == Some(qq as int));
        assert(q is None ==> neighbour_slot(cur, p as int, forward) is None);
        match q {
            Some(qq) => {
                let members = reorder(&cols[p].members, &cols[qq].members, edges, forward);
                let r = cols[p].rank;
                cols[p] = LayoutColumn { rank: r, members };
                proof {
                    assert(columns_view(cols@) =~= cur.update(p as int, (cur[p as int].0, reordered(cur[p as int].1, cur[qq as int].1, edges@, forward))));
                }
            },
            None => {},
        }
        assert(columns_view(cols@) == reorder_slot(cur, edges@, forward, p as int));
        k += 1;
    }
}

/// The nodes of rank `r`, in input order.
fn collect_class(nodes: &[u64], rank: &BTreeMap<u64, usize>, r: usize) -> (m: Vec<u64>)
    requires
        forall|i: int| 0 <= i < nodes@.len() ==> rank@.contains_key(#[trigger] nodes@[i]),
    ensures
        m@ == rank_class(nodes@, rank@, r as nat),
{
    let mut m: Vec<u64> = Vec::new();
    let mut i: usize = 0;
    assert(nodes@.take(0) =~= Seq::<u64>::empty());
    while i < nodes.len()
        invariant
            i <= nodes.len(),
            forall|i: int| 0 <= i < nodes@.len() ==> rank@.contains_key(#[trigger] nodes@[i]),
            m@ == nodes@.take(i as int).filter(has_rank(rank@, r as nat)),
        decreases nodes.len() - i,
    {
        let v = nodes[i];
        assert(rank@.contains_key(nodes@[i as int]));
        let rv: usize = match rank.get(&v) {
            Some(x) => *x,
            None => 0,
        };
        assert(nodes@.take(i + 1) =~= nodes@.take(i as int).push(v));
        proof {
            nodes@.take(i as int).lemma_filter_push(v, has_rank(rank@, r as nat));
        }
        if rv == r {
            m.push(v);
        }
        i += 1;
    }
    assert(nodes@.take(nodes.len() as int) =~= nodes@);
    m
}

/// Columns by rank, each ordered by barycenter sweeps against its
/// neighbours so crossed wires come out parallel.
///
/// Columns hold the nodes of one rank in input order to start with, lowest
/// rank first; then [`SWEEPS`] forward-and-backward sweeps each re-sort every
/// column against the column beside it.
pub fn layout_order(nodes: &[u64], edges: &[LayoutEdge], rank: &BTreeMap<u64, usize>) -> (cols: Vec<LayoutColumn>)
    requires
        forall|i: int| 0 <= i < nodes@.len() ==> rank@.contains_key(#[trigger] nodes@[i]) && rank@[nodes@[i]] < nodes@.len(),
    ensures
        columns_view(cols@) == sweeps(ranked_columns(nodes@, rank@, nodes@.len()), edges@, (2 * SWEEPS) as nat),
        // Every column holds exactly the nodes of its rank, ranks ascend, and
        // every occupied rank has its column: no node is lost or duplicated.
        forall|i: int| 0 <= i < cols@.len() ==> (#[trigger] cols@[i]).members@.to_multiset()
            == rank_class(nodes@, rank@, cols@[i].rank as nat).to_multiset() && cols@[i].members@.len() > 0,
        forall|i: int, j: int| 0 <= i < j < cols@.len() ==> (#[trigger] cols@[i]).rank < (#[trigger] cols@[j]).rank,
        forall|r: nat| #[trigger] rank_class(nodes@, rank@, r).len() > 0 ==> exists|i: int| 0 <= i < cols@.len() && (#[trigger] cols@[i]).rank == r,
{
    let mut cols: Vec<LayoutColumn> = Vec::new();
    let mut r: usize = 0;
    assert(columns_view(cols@) =~= ranked_columns(nodes@, rank@, 0));
    while r < nodes.len()
        invariant
            r <= nodes.len(),
            forall|i: int| 0 <= i < nodes@.len() ==> rank@.contains_key(#[trigger] nodes@[i]) && rank@[nodes@[i]] < nodes@.len(),
            columns_view(cols@) == ranked_columns(nodes@, rank@, r as nat),
        decreases nodes.len() - r,
    {
        let m = collect_class(nodes, rank, r);
        if m.len() > 0 {
            let ghost before = cols@;
            cols.push(LayoutColumn { rank: r, members: m });
            assert(columns_view(cols@) =~= columns_view(before).push((r, m@)));
        }
        r += 1;
    }
    let ghost initial = columns_view(cols@);
    let mut done: usize = 0;
    while done < 2 * SWEEPS
        invariant
            done <= 2 * SWEEPS,
            columns_view(cols@) == sweeps(initial, edges@, done as nat),
        decreases 2 * SWEEPS - done,
    {
        sweep_exec(&mut cols, edges, done % 2 == 0);
        done += 1;
    }
    proof {
        let init = ranked_columns(nodes@, rank@, nodes@.len());
        let fin = columns_view(cols@);
        lemma_sweeps_contents(init, edges@, (2 * SWEEPS) as nat);
        lemma_ranked_columns_shape(nodes@, rank@, nodes@.len());
        assert forall|i: int| 0 <= i < cols@.len() implies (#[trigger] cols@[i]).members@.to_multiset()
            == rank_class(nodes@, rank@, cols@[i].rank as nat).to_multiset() && cols@[i].members@.len() > 0 by {
            assert(fin[i] == column_view(cols@[i]));
            assert(init[i].1 == rank_class(nodes@, rank@, init[i].0 as nat));
            vstd::seq_lib::to_multiset_len(cols@[i].members@);
            vstd::seq_lib::to_multiset_len(init[i].1);
        }
        assert forall|i: int, j: int| 0 <= i < j < cols@.len() implies (#[trigger] cols@[i]).rank < (#[trigger] cols@[j]).rank by {
            assert(fin[i] == column_view(cols@[i]));
            assert(fin[j] == column_view(cols@[j]));
            assert(init[i].0 < init[j].0);
        }
        assert forall|r: nat| #[trigger] rank_class(nodes@, rank@, r).len() > 0 implies exists|i: int| 0 <= i < cols@.len() && (#[trigger] cols@[i]).rank == r by {
            // A non-empty class holds some node, whose rank is below the node count.
            let cls = rank_class(nodes@, rank@, r);
            assert(cls.contains(cls[0]));
            nodes@.lemma_filter_contains_rev(has_rank(rank@, r), cls[0]);
            assert(nodes@.contains(cls[0]));
            let k = choose|k: int| 0 <= k < nodes@.len() && nodes@[k] == cls[0];
            assert(rank@[nodes@[k]] < nodes@.len());
            let i = choose|i: int| 0 <= i < init.len() && (#[trigger] init[i]).0 == r;
            assert(fin[i] == column_view(cols@[i]));
        }
    }
    cols
}

} // verus!
