//! A text buffer: its content, its lines, and for each line the lines that
//! enclose it syntactically.
//!
//! All offsets count bytes. The buffer does not parse: whoever makes it hands
//! in, for each line, the lines on which the constructs around it begin.

use vstd::prelude::*;
use crate::byte_range::ByteRange;
use crate::text_lines::{
    lemma_line_of_unique, lemma_line_starts, len_lines, line_end, line_of, line_region,
    line_start, line_starts, NEWLINE,
};

verus! {

/// Why a buffer could not answer.
#[derive(Clone, Copy, Debug, PartialEq, Eq, Structural)]
pub enum BufferError {
    /// A byte offset behind the end of the content.
    ByteOutOfRange { byte: usize, len_bytes: usize },
    /// A line index that the buffer does not have.
    LineOutOfRange { line: usize, len_lines: usize },
    /// A table of parent lines that does not have one entry for each line.
    ParentLinesMismatch { entries: usize, len_lines: usize },
}

/// What a buffer holds, as a mathematical value.
pub struct BufferView {
    /// The content, byte by byte.
    pub text: Seq<u8>,
    /// For each line, the lines that enclose it, in the order in which the
    /// buffer was given them.
    pub parent_lines: Seq<Seq<usize>>,
}

impl BufferView {
    /// `error` says that the buffer has no line `line`.
    pub open spec fn lacks_line(self, line: int, error: BufferError) -> bool {
        error matches BufferError::LineOutOfRange { line: asked, len_lines: lines } && asked
            == line && lines == len_lines(self.text)
    }

    /// `error` says that the offset `byte` lies behind the content.
    pub open spec fn lacks_byte(self, byte: int, error: BufferError) -> bool {
        error matches BufferError::ByteOutOfRange { byte: asked, len_bytes: bytes } && asked
            == byte && bytes == self.text.len()
    }

    /// The parent lines of `line`; a line without an entry has none.
    pub open spec fn parent_lines_of(self, line: int) -> Seq<usize> {
        if 0 <= line < self.parent_lines.len() {
            self.parent_lines[line]
        } else {
            Seq::empty()
        }
    }
}

/// A text buffer. Its content is fixed when it is made; with the content it
/// keeps the offset at which each line starts.
pub struct Buffer {
    text: Vec<u8>,
    starts: Vec<usize>,
    parent_lines: Vec<Vec<usize>>,
}

impl View for Buffer {
    type V = BufferView;

    closed spec fn view(&self) -> BufferView {
        BufferView { text: self.text@, parent_lines: self.parent_lines.deep_view() }
    }
}

/// `starts` lists the line starts of `text`.
spec fn is_line_index(starts: Seq<usize>, text: Seq<u8>) -> bool {
    &&& starts.len() == len_lines(text)
    &&& forall|i: int| 0 <= i < starts.len() ==> #[trigger] starts[i] as int == line_starts(text)[i]
}

/// Lists the offsets at which the lines of `text` start.
fn index_lines(text: &Vec<u8>) -> (starts: Vec<usize>)
    ensures
        is_line_index(starts@, text@),
{
    let mut starts: Vec<usize> = Vec::new();
    starts.push(0);
    let mut i: usize = 0;
    assert(text@.take(0) =~= Seq::<u8>::empty());
    while i < text.len()
        invariant
            i <= text.len(),
            is_line_index(starts@, text@.take(i as int)),
        decreases text.len() - i,
    {
        assert(text@.take(i + 1).drop_last() =~= text@.take(i as int));
        if text[i] == NEWLINE {
            starts.push(i + 1);
        }
        i += 1;
    }
    assert(text@.take(text.len() as int) =~= text@);
    starts
}

impl Buffer {
    #[verifier::type_invariant]
    spec fn indexed(self) -> bool {
        &&& is_line_index(self.starts@, self.text@)
        &&& self.parent_lines@.len() == self.starts@.len()
    }

    /// A buffer of plain text: no line has a parent line.
    pub fn new(text: Vec<u8>) -> (out: Buffer)
        ensures
            out@.text == text@,
            out@.parent_lines == Seq::new(len_lines(text@), |line: int| Seq::<usize>::empty()),
    {
        let starts = index_lines(&text);
        let mut parent_lines: Vec<Vec<usize>> = Vec::new();
        let mut i: usize = 0;
        while i < starts.len()
            invariant
                i <= starts.len(),
                parent_lines@.len() == i,
                forall|j: int| 0 <= j < i ==> (#[trigger] parent_lines@[j])@.len() == 0,
            decreases starts.len() - i,
        {
            parent_lines.push(Vec::new());
            i += 1;
        }
        let out = Buffer { text, starts, parent_lines };
        assert(out@.parent_lines =~~= Seq::new(
            len_lines(text@),
            |line: int| Seq::<usize>::empty(),
        ));
        out
    }

    /// A buffer of text with its syntax: entry `i` of `parent_lines` lists
    /// the lines that enclose line `i`. The table is rejected unless it has
    /// one entry for each line of the text.
    pub fn with_parent_lines(text: Vec<u8>, parent_lines: Vec<Vec<usize>>) -> (out: Result<
        Buffer,
        BufferError,
    >)
        ensures
            parent_lines@.len() == len_lines(text@) ==> (out matches Ok(buffer) && buffer@.text
                == text@ && buffer@.parent_lines == parent_lines.deep_view()),
            parent_lines@.len() != len_lines(text@) ==> (out matches Err(
                BufferError::ParentLinesMismatch { entries, len_lines: lines },
            ) && entries == parent_lines@.len() && lines == len_lines(text@)),
    {
        let starts = index_lines(&text);
        if parent_lines.len() == starts.len() {
            Ok(Buffer { text, starts, parent_lines })
        } else {
            Err(
                BufferError::ParentLinesMismatch {
                    entries: parent_lines.len(),
                    len_lines: starts.len(),
                },
            )
        }
    }

    /// The number of bytes of content.
    pub fn len_bytes(&self) -> (out: usize)
        ensures
            out == self@.text.len(),
    {
        self.text.len()
    }

    /// The number of lines. Content that is empty or ends with a newline has
    /// a last line without bytes, which is counted.
    pub fn len_lines(&self) -> (out: usize)
        ensures
            out == len_lines(self@.text),
            out >= 1,
    {
        proof {
            use_type_invariant(self);
            lemma_line_starts(self@.text);
        }
        self.starts.len()
    }

    /// The offset of the first byte of line `line`.
    pub fn line_to_byte(&self, line: usize) -> (out: Result<usize, BufferError>)
        ensures
            line < len_lines(self@.text) ==> (out matches Ok(offset) && offset == line_start(
                self@.text,
                line as int,
            )),
            line >= len_lines(self@.text) ==> (out matches Err(error) && self@.lacks_line(
                line as int,
                error,
            )),
    {
        proof {
            use_type_invariant(self);
        }
        if line < self.starts.len() {
            Ok(self.starts[line])
        } else {
            Err(BufferError::LineOutOfRange { line, len_lines: self.starts.len() })
        }
    }

    /// The number of bytes of line `line`, its newline included.
    pub fn byte_length_of_line(&self, line: usize) -> (out: Result<usize, BufferError>)
        ensures
            line < len_lines(self@.text) ==> (out matches Ok(length) && length == line_end(
                self@.text,
                line as int,
            ) - line_start(self@.text, line as int)),
            line >= len_lines(self@.text) ==> (out matches Err(error) && self@.lacks_line(
                line as int,
                error,
            )),
    {
        match self.line_to_byte_range(line) {
            Ok(range) => Ok(range.len()),
            Err(error) => Err(error),
        }
    }

    /// The bytes of line `line`, its newline included.
    pub fn line_to_byte_range(&self, line: usize) -> (out: Result<ByteRange, BufferError>)
        ensures
            line < len_lines(self@.text) ==> (out matches Ok(range) && range@ == line_region(
                self@.text,
                line as int,
            )),
            line >= len_lines(self@.text) ==> (out matches Err(error) && self@.lacks_line(
                line as int,
                error,
            )),
    {
        proof {
            use_type_invariant(self);
            lemma_line_starts(self@.text);
        }
        if line >= self.starts.len() {
            return Err(BufferError::LineOutOfRange { line, len_lines: self.starts.len() });
        }
        let start = self.starts[line];
        let end = if line + 1 < self.starts.len() {
            self.starts[line + 1]
        } else {
            self.text.len()
        };
        Ok(ByteRange::new(start..end).unwrap())
    }

    /// The line that holds the byte at `offset`. The offset one past the
    /// content is in range and belongs to the last line.
    pub fn char_to_line(&self, offset: usize) -> (out: Result<usize, BufferError>)
        ensures
            offset <= self@.text.len() ==> (out matches Ok(line) && line == line_of(
                self@.text,
                offset as int,
            )),
            offset > self@.text.len() ==> (out matches Err(error) && self@.lacks_byte(
                offset as int,
                error,
            )),
    {
        proof {
            use_type_invariant(self);
            lemma_line_starts(self@.text);
        }
        if offset > self.text.len() {
            return Err(BufferError::ByteOutOfRange { byte: offset, len_bytes: self.text.len() });
        }
        // The line is the last one that starts at or before the offset: line
        // `low` does, line `high` and those behind it do not.
        let mut low: usize = 0;
        let mut high: usize = self.starts.len();
        while high - low > 1
            invariant
                low < high <= self.starts.len(),
                is_line_index(self.starts@, self.text@),
                self.starts@[low as int] <= offset,
                high < self.starts.len() ==> offset < self.starts@[high as int],
            decreases high - low,
        {
            let middle = low + (high - low) / 2;
            if self.starts[middle] <= offset {
                low = middle;
            } else {
                high = middle;
            }
        }
        proof {
            lemma_line_of_unique(self@.text, offset as int, low as int);
        }
        Ok(low)
    }

    /// The lines that enclose line `line`, in the order in which the buffer
    /// was given them.
    pub fn get_parent_lines(&self, line: usize) -> (out: Result<&Vec<usize>, BufferError>)
        ensures
            line < len_lines(self@.text) ==> (out matches Ok(parents) && parents@
                == self@.parent_lines_of(line as int)),
            line >= len_lines(self@.text) ==> (out matches Err(error) && self@.lacks_line(
                line as int,
                error,
            )),
    {
        proof {
            use_type_invariant(self);
        }
        if line < self.parent_lines.len() {
            assert(self.parent_lines@[line as int].deep_view() =~= self.parent_lines@[line
                as int]@);
            Ok(&self.parent_lines[line])
        } else {
            Err(BufferError::LineOutOfRange { line, len_lines: self.starts.len() })
        }
    }

    /// The content that `range` covers.
    pub fn slice(&self, range: &ByteRange) -> (out: Result<Vec<u8>, BufferError>)
        ensures
            range@.end <= self@.text.len() ==> (out matches Ok(bytes) && bytes@
                == self@.text.subrange(range@.start, range@.end)),
            range@.end > self@.text.len() ==> (out matches Err(error) && self@.lacks_byte(
                range@.end,
                error,
            )),
    {
        let start = range.start();
        let end = range.end();
        if end > self.text.len() {
            return Err(BufferError::ByteOutOfRange { byte: end, len_bytes: self.text.len() });
        }
        let mut bytes: Vec<u8> = Vec::new();
        let mut i: usize = start;
        while i < end
            invariant
                start <= i <= end <= self.text@.len(),
                bytes@ == self.text@.subrange(start as int, i as int),
            decreases end - i,
        {
            bytes.push(self.text[i]);
            i += 1;
            assert(bytes@ =~= self.text@.subrange(start as int, i as int));
        }
        Ok(bytes)
    }
}

} // verus!
