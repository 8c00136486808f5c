//! Text selected with the mouse: across code rows, or within a file header's path.

use vstd::prelude::*;
use std::ops::Range;

verus! {

/// The column a selection runs in: the one column of the unified layout, or a side of the split one.
#[derive(Clone, Copy, Debug, PartialEq, Eq, Structural)]
pub enum TextLane {
    Unified,
    Old,
    New,
}

/// A place in the text: a row, a column, and a byte offset within the row's text.
#[derive(Clone, Copy, Debug, PartialEq, Eq, Structural)]
pub struct TextPoint {
    pub display_index: usize,
    pub lane: TextLane,
    pub offset: usize,
}

/// A selection from where the drag started (`anchor`) to where it is (`head`).
#[derive(Clone, Copy, Debug, PartialEq, Eq, Structural)]
pub struct TextSelection {
    pub anchor: TextPoint,
    pub head: TextPoint,
    pub dragging: bool,
}

/// A selection within the path shown in a file header.
#[derive(Clone, Copy, Debug, PartialEq, Eq, Structural)]
pub struct HeaderTextSelection {
    pub file_index: usize,
    pub sticky_header: bool,
    pub anchor: usize,
    pub head: usize,
    pub dragging: bool,
}

/// `a` held to at most `b`.
pub open spec fn at_most(a: usize, b: usize) -> usize {
    if a < b {
        a
    } else {
        b
    }
}

/// The selected part of a header text of `text_len` bytes: between the two ends, held to
/// the text; none when the ends meet or nothing of the text lies between them.
pub open spec fn header_range(anchor: usize, head: usize, text_len: usize) -> Option<Range<usize>> {
    let low = if anchor < head {
        anchor
    } else {
        head
    };
    let high = if anchor < head {
        head
    } else {
        anchor
    };
    let start = at_most(low, text_len);
    let end = at_most(high, text_len);
    if anchor == head || start >= end {
        None
    } else {
        Some(Range { start, end })
    }
}

impl HeaderTextSelection {
    /// The selected part of the header text, as `header_range` describes it.
    pub fn range(self, text_len: usize) -> (r: Option<Range<usize>>)
        ensures
            r == header_range(self.anchor, self.head, text_len),
    {
        if self.anchor == self.head {
            return None;
        }
        let low = if self.anchor < self.head {
            self.anchor
        } else {
            self.head
        };
        let high = if self.anchor < self.head {
            self.head
        } else {
            self.anchor
        };
        let start = if low < text_len {
            low
        } else {
            text_len
        };
        let end = if high < text_len {
            high
        } else {
            text_len
        };
        if start < end {
            Some(start..end)
        } else {
            None
        }
    }
}

/// Whether `a` comes no later than `b`: by row, then by offset.
pub open spec fn point_le(a: TextPoint, b: TextPoint) -> bool {
    a.display_index < b.display_index || (a.display_index == b.display_index && a.offset <= b.offset)
}

/// The selection's ends, the earlier first.
pub open spec fn ordered_points(s: TextSelection) -> (TextPoint, TextPoint) {
    if point_le(s.anchor, s.head) {
        (s.anchor, s.head)
    } else {
        (s.head, s.anchor)
    }
}

/// The selected part of row `display_index`'s text of `text_len` bytes in the lane: none
/// when the selection is in another lane, is empty or misses the row; on its first row from
/// its start, on its last row up to its end, whole on the rows between, offsets held to the text.
pub open spec fn row_range(s: TextSelection, display_index: usize, lane: TextLane, text_len: usize) -> Option<Range<usize>> {
    let (start, end) = ordered_points(s);
    if s.anchor.lane != lane || s.head.lane != lane || s.anchor == s.head {
        None
    } else if display_index < start.display_index || display_index > end.display_index {
        None
    } else if start.display_index == end.display_index {
        Some(Range { start: at_most(start.offset, text_len), end: at_most(end.offset, text_len) })
    } else if display_index == start.display_index {
        Some(Range { start: at_most(start.offset, text_len), end: text_len })
    } else if display_index == end.display_index {
        Some(Range { start: 0, end: at_most(end.offset, text_len) })
    } else {
        Some(Range { start: 0, end: text_len })
    }
}

impl TextSelection {
    /// The selection's ends, the earlier first.
    pub fn ordered(self) -> (r: (TextPoint, TextPoint))
        ensures
            r == ordered_points(self),
    {
        if self.anchor.display_index < self.head.display_index || (self.anchor.display_index
            == self.head.display_index && self.anchor.offset <= self.head.offset) {
            (self.anchor, self.head)
        } else {
            (self.head, self.anchor)
        }
    }

    /// The selected part of a row's text, as `row_range` describes it.
    pub fn range_for(self, display_index: usize, lane: TextLane, text_len: usize) -> (r: Option<Range<usize>>)
        ensures
            r == row_range(self, display_index, lane, text_len),
    {
        if self.anchor.lane != lane || self.head.lane != lane || self.anchor == self.head {
            return None;
        }
        let (start, end) = self.ordered();
        if display_index < start.display_index || display_index > end.display_index {
            return None;
        }
        let first = if start.offset < text_len {
            start.offset
        } else {
            text_len
        };
        let last = if end.offset < text_len {
            end.offset
        } else {
            text_len
        };
        if start.display_index == end.display_index {
            Some(first..last)
        } else if display_index == start.display_index {
            Some(first..text_len)
        } else if display_index == end.display_index {
            Some(0..last)
        } else {
            Some(0..text_len)
        }
    }
}

/// Whether the selection reaches the start and the end of a line of `text_len` bytes.
pub fn selection_padding_edges(selection: &Range<usize>, text_len: usize) -> (r: (bool, bool))
    ensures
        r == (selection.start == 0, selection.end == text_len),
{
    (selection.start == 0, selection.end == text_len)
}

/// The selections of the view: a selection within a file header's path, a selection of
/// code, or neither.
#[derive(Clone, Copy, Debug, PartialEq, Eq, Structural)]
pub struct SelectionState {
    pub header: Option<HeaderTextSelection>,
    pub text: Option<TextSelection>,
}

/// What ending a drag asks of the view.
#[derive(Clone, Copy, Debug, PartialEq, Eq, Structural)]
pub enum FinishOutcome {
    /// Nothing changed.
    Unchanged,
    /// The selections changed, and the view redraws them.
    Changed,
    /// A file header was clicked without a drag: that file folds or unfolds.
    ToggleFile { file_index: usize, sticky_header: bool },
}

/// The state after a drag ends, and what the view does: a header clicked without a drag
/// loses its selection and toggles its file; a code selection of nothing is dropped; a
/// selection still being dragged stops being dragged; otherwise nothing changes.
pub open spec fn finished(st: SelectionState) -> (SelectionState, FinishOutcome) {
    match st.header {
        Some(h) => if h.anchor == h.head {
            (
                SelectionState { header: None, text: st.text },
                FinishOutcome::ToggleFile { file_index: h.file_index, sticky_header: h.sticky_header },
            )
        } else if h.dragging {
            (
                SelectionState { header: Some(HeaderTextSelection { dragging: false, ..h }), text: st.text },
                FinishOutcome::Changed,
            )
        } else {
            (st, FinishOutcome::Unchanged)
        },
        None => match st.text {
            None => (st, FinishOutcome::Unchanged),
            Some(t) => if t.anchor == t.head {
                (SelectionState { header: None, text: None }, FinishOutcome::Changed)
            } else if t.dragging {
                (
                    SelectionState { header: None, text: Some(TextSelection { dragging: false, ..t }) },
                    FinishOutcome::Changed,
                )
            } else {
                (st, FinishOutcome::Unchanged)
            },
        },
    }
}

impl SelectionState {
    /// At most one of the two selections is there.
    pub open spec fn wf(self) -> bool {
        !(self.header is Some && self.text is Some)
    }

    /// No selection.
    pub fn new() -> (r: Self)
        ensures
            r == (SelectionState { header: None, text: None }),
    {
        SelectionState { header: None, text: None }
    }

    /// A press in the code starts a code selection at the point pressed, and drops any
    /// header selection.
    pub fn begin_text(&mut self, point: TextPoint)
        ensures
            *final(self) == (SelectionState {
                header: None,
                text: Some(TextSelection { anchor: point, head: point, dragging: true }),
            }),
    {
        self.header = None;
        self.text = Some(TextSelection { anchor: point, head: point, dragging: true });
    }

    /// A press in a file header starts a header selection at the offset pressed, and drops
    /// any code selection.
    pub fn begin_header(&mut self, file_index: usize, sticky_header: bool, offset: usize)
        ensures
            *final(self) == (SelectionState {
                header: Some(
                    HeaderTextSelection { file_index, sticky_header, anchor: offset, head: offset, dragging: true },
                ),
                text: None,
            }),
    {
        self.text = None;
        self.header = Some(
            HeaderTextSelection { file_index, sticky_header, anchor: offset, head: offset, dragging: true },
        );
    }

    /// Whether a header selection is being dragged; the drag then moves it, not the code
    /// selection.
    pub fn dragging_header(&self) -> (r: Option<usize>)
        ensures
            r == (match self.header {
                Some(h) => if h.dragging {
                    Some(h.file_index)
                } else {
                    None
                },
                None => None,
            }),
    {
        match self.header {
            Some(h) => if h.dragging {
                Some(h.file_index)
            } else {
                None
            },
            None => None,
        }
    }

    /// Moves the end of a header selection being dragged to `head`; says whether it moved.
    pub fn drag_header_to(&mut self, head: usize) -> (changed: bool)
        ensures
            match old(self).header {
                Some(h) => if h.dragging && h.head != head {
                    &&& changed
                    &&& *final(self) == (SelectionState {
                        header: Some(HeaderTextSelection { head, ..h }),
                        text: old(self).text,
                    })
                } else {
                    !changed && *final(self) == *old(self)
                },
                None => !changed && *final(self) == *old(self),
            },
    {
        match self.header {
            Some(h) => {
                if h.dragging && h.head != head {
                    self.header = Some(HeaderTextSelection { head, ..h });
                    true
                } else {
                    false
                }
            },
            None => false,
        }
    }

    /// Moves the end of a code selection being dragged to `point`, unless a header
    /// selection is being dragged; says whether it moved.
    pub fn drag_text_to(&mut self, point: TextPoint) -> (changed: bool)
        ensures
            match (old(self).header, old(self).text) {
                (Some(h), _) if h.dragging => !changed && *final(self) == *old(self),
                (_, Some(t)) if t.dragging && t.head != point => {
                    &&& changed
                    &&& *final(self) == (SelectionState {
                        header: old(self).header,
                        text: Some(TextSelection { head: point, ..t }),
                    })
                },
                _ => !changed && *final(self) == *old(self),
            },
    {
        if let Some(h) = self.header {
            if h.dragging {
                return false;
            }
        }
        match self.text {
            Some(t) => {
                if t.dragging && t.head != point {
                    self.text = Some(TextSelection { head: point, ..t });
                    true
                } else {
                    false
                }
            },
            None => false,
        }
    }

    /// Ends a drag, as `finished` describes it.
    pub fn finish(&mut self) -> (r: FinishOutcome)
        ensures
            (*final(self), r) == finished(*old(self)),
    {
        match self.header {
            Some(h) => {
                if h.anchor == h.head {
                    self.header = None;
                    FinishOutcome::ToggleFile { file_index: h.file_index, sticky_header: h.sticky_header }
                } else if h.dragging {
                    self.header = Some(HeaderTextSelection { dragging: false, ..h });
                    FinishOutcome::Changed
                } else {
                    FinishOutcome::Unchanged
                }
            },
            None => match self.text {
                None => FinishOutcome::Unchanged,
                Some(t) => {
                    if t.anchor == t.head {
                        self.text = None;
                        FinishOutcome::Changed
                    } else if t.dragging {
                        self.text = Some(TextSelection { dragging: false, ..t });
                        FinishOutcome::Changed
                    } else {
                        FinishOutcome::Unchanged
                    }
                },
            },
        }
    }
}

/// Ending a drag leaves nothing being dragged and at most one selection, and ending it a
/// second time changes nothing.
pub proof fn lemma_finish_settles(st: SelectionState)
    requires
        st.wf(),
    ensures
        finished(st).0.wf(),
        !(finished(st).0.header matches Some(h) && h.dragging),
        !(finished(st).0.text matches Some(t) && t.dragging),
        finished(finished(st).0) == (finished(st).0, FinishOutcome::Unchanged),
{
}

/// A selection reads the same whichever way it was dragged: swapping its ends changes no
/// row's range, and every range it gives lies within the row's text, start before end.
pub proof fn lemma_row_range_either_direction(s: TextSelection, display_index: usize, lane: TextLane, text_len: usize)
    ensures
        row_range(s, display_index, lane, text_len) == row_range(
            TextSelection { anchor: s.head, head: s.anchor, dragging: s.dragging },
            display_index,
            lane,
            text_len,
        ),
        row_range(s, display_index, lane, text_len) matches Some(r) ==> r.start <= r.end <= text_len,
{
}

/// A header selection reads the same whichever way it was dragged, and lies within the text.
pub proof fn lemma_header_range_either_direction(anchor: usize, head: usize, text_len: usize)
    ensures
        header_range(anchor, head, text_len) == header_range(head, anchor, text_len),
        header_range(anchor, head, text_len) matches Some(r) ==> r.start < r.end <= text_len,
{
}

} // verus!
