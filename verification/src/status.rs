//! The small state ladders the live-session chrome reads: the LIVE and
//! PREVIEW chips, the breakpoint badge, and the dangling-reference mark.

use vstd::prelude::*;

verus! {

/// What the LIVE chip is saying.
#[derive(Debug, Clone, Copy, PartialEq, Eq, Structural)]
pub enum ChipState {
    /// Bound to a live instance.
    Live,
    /// Bound to one that died; the canvas keeps its last trace.
    Killed,
    /// `n` instances exist and none is picked.
    Unbound(usize),
    /// Nothing is running: edit mode leaves no residue at all.
    Absent,
}

/// The LIVE chip's state machine: bound-and-alive, bound-and-dead,
/// running-but-unbound, nothing at all.
pub fn chip_state(bound: bool, killed: bool, instances: usize) -> (r: ChipState)
    ensures
        r == (if bound {
            if killed { ChipState::Killed } else { ChipState::Live }
        } else if instances > 0 {
            ChipState::Unbound(instances)
        } else {
            ChipState::Absent
        }),
{
    match (bound, killed) {
        (true, true) => ChipState::Killed,
        (true, false) => ChipState::Live,
        (false, _) => {
            if instances > 0 {
                ChipState::Unbound(instances)
            } else {
                ChipState::Absent
            }
        },
    }
}

/// What the PREVIEW chip says: the LIVE chip's ladder in preview vocabulary.
#[derive(Debug, Clone, Copy, PartialEq, Eq, Structural)]
pub enum PreviewChipState {
    Bound,
    Refused,
    Unbound(usize),
    Empty,
}

/// Bound (driving), bound-but-refused, candidates-but-unbound, nothing.
pub fn preview_chip_state(bound: bool, refused: bool, instances: usize) -> (r: PreviewChipState)
    ensures
        r == (if bound {
            if refused { PreviewChipState::Refused } else { PreviewChipState::Bound }
        } else if instances > 0 {
            PreviewChipState::Unbound(instances)
        } else {
            PreviewChipState::Empty
        }),
{
    match (bound, refused) {
        (true, true) => PreviewChipState::Refused,
        (true, false) => PreviewChipState::Bound,
        (false, _) => {
            if instances > 0 {
                PreviewChipState::Unbound(instances)
            } else {
                PreviewChipState::Empty
            }
        },
    }
}

/// The badge a node's breakpoint mark draws.
#[derive(Debug, Clone, Copy, PartialEq, Eq, Structural)]
pub enum BreakBadge {
    /// Execution is parked here.
    Hit,
    /// Armed and resolvable.
    Armed,
    /// Armed but resolves to nothing that can fire.
    Invalid,
    /// Kept, not armed.
    Disabled,
}

/// The badge the gutter shows for a node's mark, given what the bound
/// instance is doing.
pub open spec fn badge_for(mark: Option<bool>, errored: bool, paused_here: bool, invalid: bool) -> Option<BreakBadge> {
    if paused_here && mark is Some {
        Some(BreakBadge::Hit)
    } else if errored {
        None
    } else {
        match mark {
            Some(true) => if invalid { Some(BreakBadge::Invalid) } else { Some(BreakBadge::Armed) },
            Some(false) => Some(BreakBadge::Disabled),
            None => None,
        }
    }
}

/// The gutter's precedence ladder: hit > error > invalid > armed > disabled,
/// one slot, never stacked. `mark` is the node's breakpoint (`Some(armed)`).
/// `None` means "no breakpoint badge" — the caller falls through to the error
/// disc.
pub fn break_badge(mark: Option<bool>, errored: bool, paused_here: bool, invalid: bool) -> (r: Option<BreakBadge>)
    ensures
        r == badge_for(mark, errored, paused_here, invalid),
{
    if paused_here && mark.is_some() {
        Some(BreakBadge::Hit)
    } else if errored {
        None
    } else {
        match mark {
            Some(true) => if invalid { Some(BreakBadge::Invalid) } else { Some(BreakBadge::Armed) },
            Some(false) => Some(BreakBadge::Disabled),
            None => None,
        }
    }
}

/// A hit needs a mark and outranks everything, an error hides every
/// resting mark, a disabled mark is never invalid (it arms nothing, so
/// nothing can fail to resolve), and no mark means no badge.
pub proof fn law_break_badge_ladder(mark: Option<bool>, errored: bool, paused_here: bool, invalid: bool)
    ensures
        badge_for(mark, errored, paused_here, invalid) == Some(BreakBadge::Hit) <==> paused_here && mark is Some,
        errored && !paused_here ==> badge_for(mark, errored, paused_here, invalid) is None,
        mark == Some(false) && !paused_here && !errored ==> badge_for(mark, errored, paused_here, invalid) == Some(BreakBadge::Disabled),
        mark is None ==> badge_for(mark, errored, paused_here, invalid) is None,
{
}

} // verus!
