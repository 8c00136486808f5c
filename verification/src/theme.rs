//! The colour theme and the icons whose shape follows the interface's state.

use vstd::prelude::*;

use crate::rows::{ContextExpandDirection, ContextGapPosition};

verus! {

/// The colour theme of the viewer.
#[derive(Clone, Copy, Debug, Eq, Hash, PartialEq, Structural)]
pub enum ThemeMode {
    Dark,
    Light,
}

/// The icon of the theme switch.
#[derive(Clone, Copy, Debug, Eq, PartialEq, Structural)]
pub enum ThemeIcon {
    Moon,
    Sun,
}

/// The way an expand-context arrow points.
#[derive(Clone, Copy, Debug, Eq, PartialEq, Structural)]
pub enum ExpandIconDirection {
    Up,
    Down,
}

impl ThemeMode {
    /// The other theme: what the theme switch turns this one into.
    pub fn toggled(self) -> (r: Self)
        ensures
            r != self,
            r == match self {
                ThemeMode::Dark => ThemeMode::Light,
                ThemeMode::Light => ThemeMode::Dark,
            },
    {
        match self {
            ThemeMode::Dark => ThemeMode::Light,
            ThemeMode::Light => ThemeMode::Dark,
        }
    }
}

/// The other theme.
pub open spec fn toggled_mode(m: ThemeMode) -> ThemeMode {
    match m {
        ThemeMode::Dark => ThemeMode::Light,
        ThemeMode::Light => ThemeMode::Dark,
    }
}

/// Switching the theme twice gives back the theme one started with.
pub proof fn lemma_toggle_twice(m: ThemeMode)
    ensures
        toggled_mode(toggled_mode(m)) == m,
        toggled_mode(m) != m,
{
}

impl ThemeIcon {
    /// The icon the theme switch shows: a moon in the dark theme, a sun in the light one.
    pub fn for_mode(mode: ThemeMode) -> (r: Self)
        ensures
            r == (if mode == ThemeMode::Dark {
                ThemeIcon::Moon
            } else {
                ThemeIcon::Sun
            }),
    {
        match mode {
            ThemeMode::Dark => ThemeIcon::Moon,
            ThemeMode::Light => ThemeIcon::Sun,
        }
    }
}

impl ExpandIconDirection {
    /// The arrow of a button that reveals context in the given direction.
    pub fn for_direction(direction: ContextExpandDirection) -> (r: Self)
        ensures
            r == (match direction {
                ContextExpandDirection::Up => ExpandIconDirection::Up,
                ContextExpandDirection::Down => ExpandIconDirection::Down,
            }),
    {
        match direction {
            ContextExpandDirection::Up => ExpandIconDirection::Up,
            ContextExpandDirection::Down => ExpandIconDirection::Down,
        }
    }
}

/// The directions in which a hidden run of context can be revealed: upwards above
/// the first hunk, downwards below the last, both ways between two hunks.
pub fn expand_directions(position: ContextGapPosition) -> (r: Vec<ContextExpandDirection>)
    ensures
        r@ == match position {
            ContextGapPosition::Leading => seq![ContextExpandDirection::Up],
            ContextGapPosition::Middle => seq![ContextExpandDirection::Down, ContextExpandDirection::Up],
            ContextGapPosition::Trailing => seq![ContextExpandDirection::Down],
        },
{
    let r = match position {
        ContextGapPosition::Leading => vec![ContextExpandDirection::Up],
        ContextGapPosition::Middle => vec![ContextExpandDirection::Down, ContextExpandDirection::Up],
        ContextGapPosition::Trailing => vec![ContextExpandDirection::Down],
    };
    assert(r@ =~= match position {
        ContextGapPosition::Leading => seq![ContextExpandDirection::Up],
        ContextGapPosition::Middle => seq![ContextExpandDirection::Down, ContextExpandDirection::Up],
        ContextGapPosition::Trailing => seq![ContextExpandDirection::Down],
    });
    r
}

} // verus!
