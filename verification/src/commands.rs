//! The canvas's keyboard commands, as far as the canvas decides on them:
//! the bookmark recall slots and the direct-align actions.

use vstd::prelude::*;

verus! {

/// A bound command of the canvas. The keymap binds many more; every one
/// this library does not decide on is `Other`.
#[derive(Debug, Clone, Copy, PartialEq, Eq, Structural)]
pub enum Action {
    BookmarkRecall1,
    BookmarkRecall2,
    BookmarkRecall3,
    BookmarkRecall4,
    BookmarkRecall5,
    AlignTop,
    AlignLeft,
    AlignBottom,
    AlignRight,
    AlignCenterH,
    AlignCenterV,
    Other,
}

/// How a selection is aligned or spread out.
#[derive(Debug, Clone, Copy, PartialEq, Eq, Structural)]
pub enum AlignMode {
    Top,
    Left,
    Bottom,
    Right,
    CenterHorizontally,
    CenterVertically,
    DistributeHorizontally,
    DistributeVertically,
}

/// The bookmark slot a recall action names, 1 to 5; 0 for anything else.
pub open spec fn slot_of(action: Action) -> nat {
    match action {
        Action::BookmarkRecall1 => 1,
        Action::BookmarkRecall2 => 2,
        Action::BookmarkRecall3 => 3,
        Action::BookmarkRecall4 => 4,
        Action::BookmarkRecall5 => 5,
        _ => 0,
    }
}

/// Slot number behind a bookmark recall action.
pub fn bookmark_slot(action: Action) -> (r: usize)
    ensures
        r == slot_of(action),
{
    match action {
        Action::BookmarkRecall1 => 1,
        Action::BookmarkRecall2 => 2,
        Action::BookmarkRecall3 => 3,
        Action::BookmarkRecall4 => 4,
        Action::BookmarkRecall5 => 5,
        _ => 0,
    }
}

/// The direct-align action for an align mode; distributing has none.
pub open spec fn action_for(mode: AlignMode) -> Option<Action> {
    match mode {
        AlignMode::Top => Some(Action::AlignTop),
        AlignMode::Left => Some(Action::AlignLeft),
        AlignMode::Bottom => Some(Action::AlignBottom),
        AlignMode::Right => Some(Action::AlignRight),
        AlignMode::CenterHorizontally => Some(Action::AlignCenterH),
        AlignMode::CenterVertically => Some(Action::AlignCenterV),
        AlignMode::DistributeHorizontally => None,
        AlignMode::DistributeVertically => None,
    }
}

/// The direct-align action behind an `AlignMode`, if one exists.
pub fn align_action(mode: AlignMode) -> (r: Option<Action>)
    ensures
        r == action_for(mode),
{
    match mode {
        AlignMode::Top => Some(Action::AlignTop),
        AlignMode::Left => Some(Action::AlignLeft),
        AlignMode::Bottom => Some(Action::AlignBottom),
        AlignMode::Right => Some(Action::AlignRight),
        AlignMode::CenterHorizontally => Some(Action::AlignCenterH),
        AlignMode::CenterVertically => Some(Action::AlignCenterV),
        AlignMode::DistributeHorizontally | AlignMode::DistributeVertically => None,
    }
}

} // verus!
