//! Per-frame budgets: how much of a large graph one frame may pay for.

use vstd::prelude::*;

verus! {

/// Hard ceiling on segments the crossing broadphase may consider.
pub const CROSSING_SEGMENT_CAP: usize = 2_000;

/// Preview slots actually rendered per frame, round-robin by frame index.
pub const PREVIEW_BUDGET_PER_FRAME: usize = 8;

/// Number of frames one full rotation over `count` slots takes at `budget`
/// slots per frame: `ceil(count / budget)`.
pub open spec fn rotation_len(count: nat, budget: nat) -> nat
    recommends
        budget > 0,
{
    ((count + budget - 1) / (budget as int)) as nat
}

/// The `(start, take)` window of slots that frame `frame` renders.
pub open spec fn window_of(count: nat, frame: nat, budget: nat) -> (nat, nat) {
    if count == 0 || budget == 0 {
        (0, 0)
    } else if count <= budget {
        (0, count)
    } else {
        let start = (frame % rotation_len(count, budget)) * budget;
        let rest = (count - start) as nat;
        (start, if budget <= rest { budget } else { rest })
    }
}

proof fn lemma_window_in_range(count: nat, frame: nat, budget: nat)
    requires
        budget > 0,
        count > budget,
    ensures
        rotation_len(count, budget) > 1,
        (frame % rotation_len(count, budget)) * budget < count,
{
    let w = rotation_len(count, budget);
    let k = frame % w;
    assert(w >= 2) by (nonlinear_arith)
        requires
            w == (count + budget - 1) / (budget as int),
            count > budget,
            budget > 0,
    ;
    assert(k < w) by (nonlinear_arith)
        requires
            k == frame % w,
            w > 0,
    ;
    assert(k * budget < count) by (nonlinear_arith)
        requires
            k < w,
            w == (count + budget - 1) / (budget as int),
            budget > 0,
            count > budget,
    ;
}

/// The window `preview_slice` gives frame `frame`. The frame index is taken
/// as a `usize`, so beyond `usize::MAX` it wraps.
pub open spec fn slice_window(count: usize, frame: u64, budget: usize) -> (nat, nat) {
    window_of(count as nat, frame as usize as nat, budget as nat)
}

/// Which of `count` preview slots this frame is allowed to render.
///
/// Round-robin by frame index: every slot is refreshed within
/// `ceil(count / budget)` frames, and no frame pays for more than the budget.
pub fn preview_slice(count: usize, frame: u64, budget: usize) -> (r: (usize, usize))
    ensures
        (r.0 as nat, r.1 as nat) == slice_window(count, frame, budget),
        r.1 <= budget,
        r.0 + r.1 <= count,
{
    if count == 0 || budget == 0 {
        return (0, 0);
    }
    if count <= budget {
        return (0, count);
    }
    let windows = (count - 1) / budget + 1;
    let f = frame as usize;
    proof {
        assert((count - 1) / (budget as int) + 1 == (count + budget - 1) / (budget as int))
            by (nonlinear_arith)
            requires
                budget > 0,
                count > 0,
        ;
        lemma_window_in_range(count as nat, f as nat, budget as nat);
    }
    let k = f % windows;
    let start = k * budget;
    let rest = count - start;
    (start, if budget <= rest { budget } else { rest })
}

/// Whether frame `frame` renders slot `slot`.
pub open spec fn renders(count: nat, frame: nat, budget: nat, slot: nat) -> bool {
    let (start, take) = window_of(count, frame, budget);
    start <= slot < start + take
}

/// The rotation repeats: a frame one full rotation later renders the same
/// window.
pub proof fn law_preview_rotation_is_periodic(count: nat, frame: nat, budget: nat)
    requires
        budget > 0,
    ensures
        window_of(count, frame + rotation_len(count, budget), budget)
            == window_of(count, frame, budget),
{
    if count > budget {
        let w = rotation_len(count, budget);
        lemma_window_in_range(count, frame, budget);
        assert((frame + w) % w == frame % w) by (nonlinear_arith)
            requires
                w > 0,
        ;
    }
}

/// Every slot is refreshed within `ceil(count / budget)` consecutive frames,
/// whichever frame the rotation is observed from.
pub proof fn law_preview_every_slot_within_one_rotation(
    count: nat,
    frame: nat,
    budget: nat,
    slot: nat,
)
    requires
        budget > 0,
        slot < count,
    ensures
        exists|later: nat|
            frame <= later < frame + rotation_len(count, budget) && #[trigger] renders(
                count,
                later,
                budget,
                slot,
            ),
{
    let w = rotation_len(count, budget);
    if count <= budget {
        assert(w >= 1) by (nonlinear_arith)
            requires
                w == (count + budget - 1) / (budget as int),
                count >= 1,
                budget > 0,
        ;
        assert(renders(count, frame + 0, budget, slot));
    } else {
        lemma_window_in_range(count, frame, budget);
        let j = slot / budget;
        assert(j < w && j * budget <= slot < j * budget + budget) by (nonlinear_arith)
            requires
                j == slot / budget,
                slot < count,
                w == (count + budget - 1) / (budget as int),
                budget > 0,
        ;
        let f = frame % w;
        assert(f < w) by (nonlinear_arith)
            requires
                f == frame % w,
                w > 0,
        ;
        let k: nat = if j >= f { (j - f) as nat } else { (j + w - f) as nat };
        assert((frame + k) % w == j) by (nonlinear_arith)
            requires
                f == frame % w,
                w > 0,
                j < w,
                f < w,
                k == (if j >= f { j - f } else { j + w - f }),
        ;
        assert(renders(count, frame + k, budget, slot));
    }
}

/// Within any `ceil(count / budget)` consecutive frames each slot is
/// rendered by exactly one frame: with the law above, the windows of one
/// rotation partition the slots.
pub proof fn law_preview_each_slot_once_per_rotation(
    count: nat,
    budget: nat,
    slot: nat,
    first: nat,
    f1: nat,
    f2: nat,
)
    requires
        budget > 0,
        slot < count,
        first <= f1 < first + rotation_len(count, budget),
        first <= f2 < first + rotation_len(count, budget),
        renders(count, f1, budget, slot),
        renders(count, f2, budget, slot),
    ensures
        f1 == f2,
{
    let w = rotation_len(count, budget);
    if count <= budget {
        assert(w == 1) by (nonlinear_arith)
            requires
                w == (count + budget - 1) / (budget as int),
                1 <= count <= budget,
        ;
    } else {
        lemma_window_in_range(count, f1, budget);
        lemma_window_in_range(count, f2, budget);
        let k1 = f1 % w;
        let k2 = f2 % w;
        assert(k1 * budget <= slot < k1 * budget + budget);
        assert(k2 * budget <= slot < k2 * budget + budget);
        assert(k1 == k2) by (nonlinear_arith)
            requires
                k1 * budget <= slot < k1 * budget + budget,
                k2 * budget <= slot < k2 * budget + budget,
                budget > 0,
        ;
        assert(f1 == f2) by (nonlinear_arith)
            requires
                f1 % w == f2 % w,
                first <= f1 < first + w,
                first <= f2 < first + w,
                w > 0,
        ;
    }
}

/// The rotation laws for the frames `preview_slice` is given: a frame one
/// rotation later gets the same window, and within one rotation each slot
/// is rendered by exactly one frame. Frames are taken as `usize`, so the
/// frames must fit in one.
pub proof fn law_preview_slice_rotation(count: usize, budget: usize, slot: usize, first: u64, f1: u64, f2: u64)
    requires
        budget > 0,
        first + rotation_len(count as nat, budget as nat) <= usize::MAX,
        first + rotation_len(count as nat, budget as nat) <= u64::MAX,
    ensures
        slice_window(count, (first + rotation_len(count as nat, budget as nat)) as u64, budget) == slice_window(count, first, budget),
        slot < count ==> exists|f: u64| first <= f < first + rotation_len(count as nat, budget as nat) && #[trigger] slice_window(count, f, budget).0 <= slot
            < slice_window(count, f, budget).0 + slice_window(count, f, budget).1,
        slot < count && first <= f1 < first + rotation_len(count as nat, budget as nat) && first <= f2 < first + rotation_len(count as nat, budget as nat)
            && slice_window(count, f1, budget).0 <= slot < slice_window(count, f1, budget).0 + slice_window(count, f1, budget).1
            && slice_window(count, f2, budget).0 <= slot < slice_window(count, f2, budget).0 + slice_window(count, f2, budget).1 ==> f1 == f2,
{
    let w = rotation_len(count as nat, budget as nat);
    law_preview_rotation_is_periodic(count as nat, first as nat, budget as nat);
    assert((first + w) as u64 as usize as nat == first + w);
    assert(first as usize as nat == first);
    if slot < count {
        law_preview_every_slot_within_one_rotation(count as nat, first as nat, budget as nat, slot as nat);
        let later = choose|later: nat| first <= later < first + w && #[trigger] renders(count as nat, later, budget as nat, slot as nat);
        let f = later as u64;
        assert(f as usize as nat == later);
        assert(slice_window(count, f, budget) == window_of(count as nat, later, budget as nat));
        if first <= f1 < first + w && first <= f2 < first + w {
            assert(f1 as usize as nat == f1);
            assert(f2 as usize as nat == f2);
            if renders(count as nat, f1 as nat, budget as nat, slot as nat) && renders(count as nat, f2 as nat, budget as nat, slot as nat) {
                law_preview_each_slot_once_per_rotation(count as nat, budget as nat, slot as nat, first as nat, f1 as nat, f2 as nat);
            }
        }
    }
}

} // verus!
