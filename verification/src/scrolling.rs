//! Which scroll area a scrollbar drives, and which of them scroll smoothly.

use vstd::prelude::*;

verus! {

/// The area that a scrollbar moves.
#[derive(Clone, Copy, Debug, Eq, PartialEq, Structural)]
pub enum ScrollbarTarget {
    Files,
    DiffVertical,
    SourcePicker,
}

/// An area that scrolls smoothly.
#[derive(Clone, Copy, Debug, Eq, PartialEq, Structural)]
pub enum SmoothScrollTarget {
    Files,
    Diff,
}

/// The smooth scrolling of an area, when it has one: the file list and the diff do, the
/// source picker does not.
pub open spec fn smooth_target_of(t: ScrollbarTarget) -> Option<SmoothScrollTarget> {
    match t {
        ScrollbarTarget::Files => Some(SmoothScrollTarget::Files),
        ScrollbarTarget::DiffVertical => Some(SmoothScrollTarget::Diff),
        ScrollbarTarget::SourcePicker => None,
    }
}

/// The scrollbar of a smoothly scrolling area.
pub open spec fn scrollbar_target_of(t: SmoothScrollTarget) -> ScrollbarTarget {
    match t {
        SmoothScrollTarget::Files => ScrollbarTarget::Files,
        SmoothScrollTarget::Diff => ScrollbarTarget::DiffVertical,
    }
}

impl ScrollbarTarget {
    /// The smooth scrolling of the area, when it has one.
    pub fn smooth_target(self) -> (r: Option<SmoothScrollTarget>)
        ensures
            r == smooth_target_of(self),
    {
        match self {
            ScrollbarTarget::Files => Some(SmoothScrollTarget::Files),
            ScrollbarTarget::DiffVertical => Some(SmoothScrollTarget::Diff),
            ScrollbarTarget::SourcePicker => None,
        }
    }
}

impl SmoothScrollTarget {
    /// The scrollbar of the area.
    pub fn scrollbar_target(self) -> (r: ScrollbarTarget)
        ensures
            r == scrollbar_target_of(self),
    {
        match self {
            SmoothScrollTarget::Files => ScrollbarTarget::Files,
            SmoothScrollTarget::Diff => ScrollbarTarget::DiffVertical,
        }
    }
}

/// A smoothly scrolling area and its scrollbar lead back to each other.
pub proof fn lemma_scroll_targets_round_trip(t: ScrollbarTarget, s: SmoothScrollTarget)
    ensures
        smooth_target_of(t) matches Some(x) ==> scrollbar_target_of(x) == t,
        smooth_target_of(scrollbar_target_of(s)) == Some(s),
{
}

} // verus!
