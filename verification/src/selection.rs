//! The selection that is active in the editor.

use vstd::prelude::*;
use crate::buffer::{Buffer, BufferError};
use crate::byte_range::{ByteRange, Region};

verus! {

/// The end of a selection at which the editor shows the cursor.
#[derive(Clone, Copy, Debug, PartialEq, Eq, Structural)]
pub enum CursorDirection {
    Start,
    End,
}

/// A selection as a mathematical value.
pub struct SelectionView {
    /// The region that is selected.
    pub range: Region,
    /// The region at which an extension began, while one is under way.
    pub initial_range: Option<Region>,
}

impl SelectionView {
    /// Each region of the selection is valid.
    pub open spec fn valid(self) -> bool {
        &&& self.range.valid()
        &&& self.initial_range matches Some(initial) ==> initial.valid()
    }

    /// The region from the first byte to the last that the selection and
    /// the start of its extension cover between them.
    pub open spec fn extended_range(self) -> Region {
        match self.initial_range {
            None => self.range,
            Some(initial) => Region {
                start: if initial.start < self.range.start {
                    initial.start
                } else {
                    self.range.start
                },
                end: if initial.end > self.range.end {
                    initial.end
                } else {
                    self.range.end
                },
            },
        }
    }

    /// The same selection, moved onto `range`: what does not depend on the
    /// position is kept.
    pub open spec fn moved_to(self, range: Region) -> SelectionView {
        SelectionView { range, initial_range: self.initial_range }
    }
}

/// The region that is active in the editor, with the region at which the
/// user began to extend it, if an extension is under way.
///
/// A movement replaces the selection by a new one; none changes it in place.
#[derive(Clone, Copy, Debug, PartialEq, Eq, Structural)]
pub struct Selection {
    range: ByteRange,
    initial_range: Option<ByteRange>,
}

impl View for Selection {
    type V = SelectionView;

    closed spec fn view(&self) -> SelectionView {
        SelectionView {
            range: self.range@,
            initial_range: match self.initial_range {
                None => None,
                Some(initial) => Some(initial@),
            },
        }
    }
}

/// What `found` holds, as a mathematical value.
pub open spec fn found_view(found: Option<Selection>) -> Option<SelectionView> {
    match found {
        None => None,
        Some(selection) => Some(selection@),
    }
}

impl Default for Selection {
    /// The empty selection at the start of the content.
    fn default() -> (out: Selection)
        ensures
            out@ == (SelectionView { range: Region { start: 0, end: 0 }, initial_range: None }),
    {
        Selection::new(ByteRange::new(0..0).unwrap())
    }
}

impl Selection {
    /// The selection of `range`, with no extension under way.
    pub fn new(range: ByteRange) -> (out: Selection)
        ensures
            out@ == (SelectionView { range: range@, initial_range: None }),
    {
        Selection { range, initial_range: None }
    }

    /// The same selection with `initial_range` as the region at which its
    /// extension began; with `None` it is no longer extended.
    pub fn set_initial_range(self, initial_range: Option<ByteRange>) -> (out: Selection)
        ensures
            out@.range == self@.range,
            match initial_range {
                None => out@.initial_range is None,
                Some(initial) => out@.initial_range == Some(initial@),
            },
    {
        Selection { range: self.range, initial_range }
    }

    /// The region that is selected.
    pub fn range(&self) -> (out: ByteRange)
        ensures
            out@ == self@.range,
    {
        self.range
    }

    /// The region at which the extension began, while one is under way.
    pub fn initial_range(&self) -> (out: Option<ByteRange>)
        ensures
            match out {
                None => self@.initial_range is None,
                Some(initial) => self@.initial_range == Some(initial@),
            },
    {
        self.initial_range
    }

    /// The region that the selection covers together with the start of its
    /// extension.
    pub fn extended_range(&self) -> (out: ByteRange)
        ensures
            out@ == self@.extended_range(),
            self@.valid(),
    {
        let start = self.range.start();
        let end = self.range.end();
        match self.initial_range {
            None => self.range,
            Some(initial) => {
                let first = if initial.start() < start {
                    initial.start()
                } else {
                    start
                };
                let last = if initial.end() > end {
                    initial.end()
                } else {
                    end
                };
                ByteRange::new(first..last).unwrap()
            },
        }
    }
}

impl ByteRange {
    /// The selection that `selection` becomes when it is moved onto this
    /// range in `buffer`: the range is new, the state of the extension is
    /// kept. A range that ends behind the content is an error.
    pub fn to_selection(self, buffer: &Buffer, selection: &Selection) -> (out: Result<
        Selection,
        BufferError,
    >)
        ensures
            self@.end <= buffer@.text.len() ==> (out matches Ok(moved) && moved@
                == selection@.moved_to(self@)),
            self@.end > buffer@.text.len() ==> (out matches Err(error) && buffer@.lacks_byte(
                self@.end,
                error,
            )),
    {
        let end = self.end();
        let len_bytes = buffer.len_bytes();
        if end > len_bytes {
            Err(BufferError::ByteOutOfRange { byte: end, len_bytes })
        } else {
            Ok(Selection { range: self, initial_range: selection.initial_range })
        }
    }
}

} // verus!
