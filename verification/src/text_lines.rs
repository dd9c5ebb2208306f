//! How a byte string divides into lines.
//!
//! A line ends with the newline byte, which belongs to the line that it ends.
//! The bytes behind the last newline form the last line. When the content is
//! empty or ends with a newline, that last line holds no byte; it is a line
//! all the same, and it is counted.

use vstd::prelude::*;
use crate::byte_range::Region;

verus! {

/// The byte that ends a line.
pub const NEWLINE: u8 = 10;

/// The offsets at which the lines of `text` start, in ascending order: offset
/// 0, and each offset that follows a newline.
pub open spec fn line_starts(text: Seq<u8>) -> Seq<int>
    decreases text.len(),
{
    if text.len() == 0 {
        seq![0int]
    } else {
        let before = line_starts(text.drop_last());
        if text.last() == NEWLINE {
            before.push(text.len() as int)
        } else {
            before
        }
    }
}

/// The number of lines of `text`, the last line included even if it holds no
/// byte.
pub open spec fn len_lines(text: Seq<u8>) -> nat {
    line_starts(text).len()
}

/// The offset of the first byte of line `line`.
pub open spec fn line_start(text: Seq<u8>, line: int) -> int
    recommends
        0 <= line < len_lines(text),
{
    line_starts(text)[line]
}

/// The offset one past the last byte of line `line`, its newline included.
pub open spec fn line_end(text: Seq<u8>, line: int) -> int
    recommends
        0 <= line < len_lines(text),
{
    if line + 1 < len_lines(text) {
        line_starts(text)[line + 1]
    } else {
        text.len() as int
    }
}

/// The bytes of line `line`, its newline included.
pub open spec fn line_region(text: Seq<u8>, line: int) -> Region
    recommends
        0 <= line < len_lines(text),
{
    Region { start: line_start(text, line), end: line_end(text, line) }
}

/// The line that holds the byte at `offset`: the number of newlines before
/// that offset. The offset one past the content belongs to the last line.
pub open spec fn line_of(text: Seq<u8>, offset: int) -> int
    recommends
        0 <= offset <= text.len(),
{
    len_lines(text.take(offset)) - 1
}

/// The line starts begin with 0, ascend strictly, stay within the content,
/// and each but the first follows a newline.
pub proof fn lemma_line_starts(text: Seq<u8>)
    ensures
        len_lines(text) >= 1,
        line_starts(text)[0] == 0,
        forall|i: int|
            0 <= i < len_lines(text) ==> 0 <= #[trigger] line_starts(text)[i] <= text.len(),
        forall|i: int, j: int|
            0 <= i < j < len_lines(text) ==> #[trigger] line_starts(text)[i]
                < #[trigger] line_starts(text)[j],
        forall|i: int|
            1 <= i < len_lines(text) ==> text[#[trigger] line_starts(text)[i] - 1] == NEWLINE,
    decreases text.len(),
{
    if text.len() > 0 {
        lemma_line_starts(text.drop_last());
    }
}

/// Every offset that follows a newline starts a line.
pub proof fn lemma_line_starts_complete(text: Seq<u8>, offset: int)
    requires
        0 < offset <= text.len(),
        text[offset - 1] == NEWLINE,
    ensures
        line_starts(text).contains(offset),
    decreases text.len(),
{
    if offset == text.len() {
        assert(line_starts(text).last() == offset);
    } else {
        lemma_line_starts_complete(text.drop_last(), offset);
        let before = line_starts(text.drop_last());
        let i = choose|i: int| 0 <= i < before.len() && before[i] == offset;
        assert(line_starts(text)[i] == offset);
    }
}

/// The last line holds no byte exactly when the content is empty or ends
/// with a newline.
pub proof fn lemma_last_line(text: Seq<u8>)
    ensures
        line_region(text, len_lines(text) - 1).within(text.len() as int),
        line_region(text, len_lines(text) - 1).is_empty() <==> (text.len() == 0 || text.last()
            == NEWLINE),
{
    lemma_line_starts(text);
    if text.len() > 0 && text.last() != NEWLINE {
        lemma_line_starts(text.drop_last());
    }
}

/// Every line but the last holds at least its newline, which is its last
/// byte, and ends where the next line starts.
pub proof fn lemma_inner_line(text: Seq<u8>, line: int)
    requires
        0 <= line < len_lines(text) - 1,
    ensures
        0 <= line_start(text, line) < line_end(text, line) <= text.len(),
        line_end(text, line) == line_start(text, line + 1),
        text[line_end(text, line) - 1] == NEWLINE,
{
    lemma_line_starts(text);
}

/// The lines of a prefix of the content are the lines of the whole that
/// start within the prefix.
pub proof fn lemma_line_starts_prefix(text: Seq<u8>, offset: int)
    requires
        0 <= offset <= text.len(),
    ensures
        len_lines(text.take(offset)) <= len_lines(text),
        forall|i: int|
            0 <= i < len_lines(text.take(offset)) ==> #[trigger] line_starts(text)[i]
                == line_starts(text.take(offset))[i],
        forall|i: int|
            len_lines(text.take(offset)) <= i < len_lines(text) ==> #[trigger] line_starts(
                text,
            )[i] > offset,
    decreases text.len(),
{
    if offset == text.len() {
        assert(text.take(offset) =~= text);
    } else {
        let shorter = text.drop_last();
        assert(text.take(offset) =~= shorter.take(offset));
        lemma_line_starts_prefix(shorter, offset);
    }
}

/// The line of an offset starts at or before the offset, and the line after
/// it, if there is one, starts behind the offset.
pub proof fn lemma_line_of(text: Seq<u8>, offset: int)
    requires
        0 <= offset <= text.len(),
    ensures
        0 <= line_of(text, offset) < len_lines(text),
        line_start(text, line_of(text, offset)) <= offset <= line_end(text, line_of(text, offset)),
        line_of(text, offset) + 1 < len_lines(text) ==> offset < line_end(
            text,
            line_of(text, offset),
        ),
{
    let prefix = text.take(offset);
    lemma_line_starts_prefix(text, offset);
    lemma_line_starts(prefix);
    lemma_line_starts(text);
}

/// Only one line starts at or before an offset while its successor starts
/// behind it: the line of that offset.
pub proof fn lemma_line_of_unique(text: Seq<u8>, offset: int, line: int)
    requires
        0 <= offset <= text.len(),
        0 <= line < len_lines(text),
        line_start(text, line) <= offset,
        line + 1 < len_lines(text) ==> offset < line_start(text, line + 1),
    ensures
        line == line_of(text, offset),
{
    lemma_line_of(text, offset);
    lemma_line_starts(text);
    let found = line_of(text, offset);
    if line < found {
        assert(line_starts(text)[line + 1] <= line_starts(text)[found]);
    } else if found < line {
        assert(line_starts(text)[found + 1] <= line_starts(text)[line]);
    }
}

/// An offset further on is not on an earlier line.
pub proof fn lemma_line_of_ascends(text: Seq<u8>, near: int, far: int)
    requires
        0 <= near <= far <= text.len(),
    ensures
        line_of(text, near) <= line_of(text, far),
{
    lemma_line_of(text, near);
    lemma_line_of(text, far);
    lemma_line_starts(text);
    let near_line = line_of(text, near);
    let far_line = line_of(text, far);
    if far_line < near_line {
        assert(line_starts(text)[far_line + 1] <= line_starts(text)[near_line]);
    }
}

/// The first byte of a line is on that line.
pub proof fn lemma_line_of_line_start(text: Seq<u8>, line: int)
    requires
        0 <= line < len_lines(text),
    ensures
        line_of(text, line_start(text, line)) == line,
{
    lemma_line_starts(text);
    lemma_line_of_unique(text, line_start(text, line), line);
}

} // verus!
