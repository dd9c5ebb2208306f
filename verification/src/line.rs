//! The line mode: each line of the buffer is a region, and `up` leads from a
//! line to a line that encloses it.

use vstd::prelude::*;
use crate::buffer::{Buffer, BufferError, BufferView};
use crate::byte_range::{ByteRange, Region};
use crate::mode::{regions_ascend, RegionIter, SelectionMode, SelectionModeParams};
use crate::selection::{found_view, Selection, SelectionView};
use crate::text_lines::{
    lemma_inner_line, lemma_last_line, lemma_line_of, lemma_line_of_ascends,
    lemma_line_of_line_start, lemma_line_starts, len_lines, line_of, line_region, line_starts,
    NEWLINE,
};

verus! {

/// Whether a region holds at least one byte.
pub open spec fn holds_bytes() -> spec_fn(Region) -> bool {
    |region: Region| !region.is_empty()
}

/// The regions of all the lines of `text`, the last line included even if
/// it holds no byte.
pub open spec fn all_lines(text: Seq<u8>) -> Seq<Region> {
    Seq::new(len_lines(text), |line: int| line_region(text, line))
}

/// The regions of the line mode: the lines of `text` from the first to the
/// last, without any that holds no byte.
pub open spec fn line_regions(text: Seq<u8>) -> Seq<Region> {
    all_lines(text).filter(holds_bytes())
}

/// The regions of the line mode from line `line` on.
pub open spec fn line_regions_from(text: Seq<u8>, line: int) -> Seq<Region> {
    all_lines(text).skip(line).filter(holds_bytes())
}

/// Whether a line lies above `line`.
pub open spec fn above(line: int) -> spec_fn(usize) -> bool {
    |parent: usize| parent < line
}

/// The line to which `up` leads from `line`: of its parent lines that lie
/// above it, the one that is listed last.
pub open spec fn up_line(parents: Seq<usize>, line: int) -> Option<usize> {
    let candidates = parents.filter(above(line));
    if candidates.len() == 0 {
        None
    } else {
        Some(candidates.last())
    }
}

/// The line on which a selection stands: the line of the first byte of its
/// extended range.
pub open spec fn selection_line(buffer: BufferView, selection: SelectionView) -> int {
    line_of(buffer.text, selection.extended_range().start)
}

/// The selection to which `up` moves `current`: the same selection on the
/// region of the line that `up_line` names, or none if it names none.
pub open spec fn line_up(buffer: BufferView, current: SelectionView) -> Option<SelectionView> {
    let line = selection_line(buffer, current);
    match up_line(buffer.parent_lines_of(line), line) {
        None => None,
        Some(target) => Some(current.moved_to(line_region(buffer.text, target as int))),
    }
}

/// The selection that results from `up` pressed `times` times in a row, or
/// `None` once a press has found nowhere to go.
pub open spec fn up_repeated(buffer: BufferView, current: SelectionView, times: nat) -> Option<
    SelectionView,
>
    decreases times,
{
    if times == 0 {
        Some(current)
    } else {
        match up_repeated(buffer, current, (times - 1) as nat) {
            None => None,
            Some(selection) => line_up(buffer, selection),
        }
    }
}

/// The number of regions of the line mode: one for each line, but none for
/// a last line that holds no byte.
pub open spec fn region_count(text: Seq<u8>) -> int {
    if text.len() == 0 || text.last() == NEWLINE {
        len_lines(text) - 1
    } else {
        len_lines(text) as int
    }
}

/// The mode that selects line by line.
pub struct Line;

/// A pass over the lines of a buffer, from the first line to the last.
pub struct LineIter<'a> {
    buffer: &'a Buffer,
    line: usize,
}

impl<'a> LineIter<'a> {
    #[verifier::type_invariant]
    spec fn in_buffer(self) -> bool {
        self.line <= len_lines(self.buffer@.text)
    }

    /// The pass runs over a buffer that holds `buffer` and has given no
    /// region yet.
    pub closed spec fn starts_on(&self, buffer: BufferView) -> bool {
        self.buffer@ == buffer && self.line == 0
    }
}

impl<'a> RegionIter for LineIter<'a> {
    closed spec fn remaining(&self) -> Seq<Region> {
        line_regions_from(self.buffer@.text, self.line as int)
    }

    /// Goes on to the next line that holds a byte and gives its region.
    fn next(&mut self) -> (out: Option<ByteRange>) {
        proof {
            use_type_invariant(&*self);
        }
        let lines = self.buffer.len_lines();
        while self.line < lines
            invariant
                self.line <= lines,
                lines == len_lines(self.buffer@.text),
                self.remaining() == old(self).remaining(),
            decreases lines - self.line,
        {
            proof {
                lemma_line_regions_from(self.buffer@.text, self.line as int);
            }
            let region = self.buffer.line_to_byte_range(self.line).unwrap();
            self.line += 1;
            if region.start() != region.end() {
                assert(old(self).remaining().skip(1) =~= self.remaining());
                return Some(region);
            }
        }
        proof {
            lemma_line_regions_from(self.buffer@.text, self.line as int);
        }
        None
    }
}

impl SelectionMode for Line {
    type Regions<'a> = LineIter<'a>;

    open spec fn regions(&self, buffer: BufferView) -> Seq<Region> {
        line_regions(buffer.text)
    }

    open spec fn up_selection(&self, buffer: BufferView, current: SelectionView) -> Option<
        SelectionView,
    > {
        line_up(buffer, current)
    }

    proof fn lemma_regions_ascend(&self, buffer: BufferView) {
        lemma_line_regions_ascend(buffer.text);
    }

    fn name(&self) -> (out: &'static str)
        ensures
            out@ == "LINE"@,
    {
        "LINE"
    }

    /// Starts a pass at the first line. It never fails. The pass gives the
    /// lines in their order, one region for each line that holds a byte: all
    /// the lines, but for a last line behind a final newline or in empty
    /// content.
    fn iter<'a>(&'a self, params: SelectionModeParams<'a>) -> (out: Result<
        LineIter<'a>,
        BufferError,
    >)
        ensures
            out matches Ok(pass) && pass.starts_on(params.buffer@) && pass.remaining()
                == line_regions(params.buffer@.text),
            out matches Ok(pass) && pass.remaining().len() == region_count(params.buffer@.text),
            out matches Ok(pass) && forall|i: int|
                0 <= i < region_count(params.buffer@.text) ==> #[trigger] pass.remaining()[i]
                    == line_region(params.buffer@.text, i),
    {
        proof {
            lemma_line_regions_from(params.buffer@.text, 0);
            lemma_line_regions(params.buffer@.text);
            lemma_line_regions_ascend(params.buffer@.text);
        }
        Ok(LineIter { buffer: params.buffer, line: 0 })
    }

    /// Moves the selection onto the line that `up_line` names for the line
    /// on which it stands: the last of the parent lines of that line that
    /// lies above it. Where there is none, the answer is `None`. A selection
    /// that starts behind the content is an error, and the only one. A
    /// selection that was moved stands on a line above the one it left.
    fn up(&self, params: SelectionModeParams) -> (out: Result<Option<Selection>, BufferError>)
        ensures
            params.current_selection@.extended_range().start <= params.buffer@.text.len() ==> (
            out matches Ok(found) && found_view(found) == line_up(
                params.buffer@,
                params.current_selection@,
            )),
            params.current_selection@.extended_range().start > params.buffer@.text.len() ==> (
            out matches Err(error) && params.buffer@.lacks_byte(
                params.current_selection@.extended_range().start,
                error,
            )),
            out matches Ok(Some(moved)) ==> selection_line(params.buffer@, moved@)
                < selection_line(params.buffer@, params.current_selection@),
    {
        let buffer = params.buffer;
        let start = params.current_selection.extended_range().start();
        proof {
            if start <= buffer@.text.len() && line_up(buffer@, params.current_selection@) is Some {
                lemma_up_moves_above(buffer@, params.current_selection@);
            }
        }
        let current_line = match buffer.char_to_line(start) {
            Ok(line) => line,
            Err(error) => {
                return Err(error);
            },
        };
        proof {
            lemma_line_of(buffer@.text, start as int);
        }
        let parents = match buffer.get_parent_lines(current_line) {
            Ok(parents) => parents,
            Err(error) => {
                return Err(error);
            },
        };
        match last_parent_above(parents, current_line) {
            None => Ok(None),
            Some(target) => {
                proof {
                    lemma_inner_line(buffer@.text, target as int);
                }
                let region = match buffer.line_to_byte_range(target) {
                    Ok(region) => region,
                    Err(error) => {
                        return Err(error);
                    },
                };
                match region.to_selection(buffer, params.current_selection) {
                    Ok(moved) => Ok(Some(moved)),
                    Err(error) => Err(error),
                }
            },
        }
    }
}

/// Of the lines in `parents` that lie above `line`, the one that is listed
/// last.
pub fn last_parent_above(parents: &Vec<usize>, line: usize) -> (out: Option<usize>)
    ensures
        out == up_line(parents@, line as int),
        out matches Some(target) ==> target < line,
{
    let mut i: usize = parents.len();
    assert(parents@.take(i as int) =~= parents@);
    while i > 0
        invariant
            i <= parents.len(),
            parents@.filter(above(line as int)) == parents@.take(i as int).filter(
                above(line as int),
            ),
        decreases i,
    {
        proof {
            let front = parents@.take(i as int);
            assert(front.drop_last() =~= parents@.take(i - 1));
            assert(front =~= front.drop_last().push(front.last()));
            front.drop_last().lemma_filter_push(front.last(), above(line as int));
        }
        i -= 1;
        if parents[i] < line {
            return Some(parents[i]);
        }
    }
    proof {
        reveal(Seq::filter);
    }
    None
}

/// The regions from a line on are that line's region, if it holds a byte,
/// and then the regions from the next line on; behind the last line there
/// are none. The regions from the first line on are all the regions.
pub proof fn lemma_line_regions_from(text: Seq<u8>, line: int)
    requires
        0 <= line <= len_lines(text),
    ensures
        line == len_lines(text) ==> line_regions_from(text, line) == Seq::<Region>::empty(),
        line < len_lines(text) && line_region(text, line).is_empty() ==> line_regions_from(
            text,
            line,
        ) == line_regions_from(text, line + 1),
        line < len_lines(text) && !line_region(text, line).is_empty() ==> line_regions_from(
            text,
            line,
        ) == seq![line_region(text, line)] + line_regions_from(text, line + 1),
        line == 0 ==> line_regions_from(text, line) == line_regions(text),
{
    let all = all_lines(text);
    if line == len_lines(text) {
        reveal(Seq::filter);
        assert(all.skip(line) =~= Seq::<Region>::empty());
    } else {
        let rest = all.skip(line + 1);
        assert(all.skip(line) =~= seq![all[line]] + rest);
        rest.lemma_filter_prepend(all[line], holds_bytes());
        if line_region(text, line).is_empty() {
            assert(Seq::<Region>::empty() + rest.filter(holds_bytes()) =~= rest.filter(
                holds_bytes(),
            ));
        }
    }
    if line == 0 {
        assert(all.skip(0) =~= all);
    }
}

/// A sequence whose elements all meet a condition is kept whole when it is
/// filtered by that condition.
proof fn lemma_filter_keeps_all<A>(s: Seq<A>, pred: spec_fn(A) -> bool)
    requires
        forall|i: int| 0 <= i < s.len() ==> pred(#[trigger] s[i]),
    ensures
        s.filter(pred) == s,
    decreases s.len(),
{
    reveal(Seq::filter);
    if s.len() > 0 {
        lemma_filter_keeps_all(s.drop_last(), pred);
        assert(s.drop_last().push(s.last()) =~= s);
    }
}

/// Region `i` of the line mode is line `i`: only the last line can hold no
/// byte, and it does so exactly when the content is empty or ends with a
/// newline.
pub proof fn lemma_line_regions(text: Seq<u8>)
    ensures
        line_regions(text).len() == region_count(text),
        forall|i: int|
            0 <= i < region_count(text) ==> #[trigger] line_regions(text)[i] == line_region(
                text,
                i,
            ),
{
    let all = all_lines(text);
    let front = all.drop_last();
    lemma_line_starts(text);
    lemma_last_line(text);
    assert forall|i: int| 0 <= i < front.len() implies holds_bytes()(#[trigger] front[i]) by {
        lemma_inner_line(text, i);
    }
    lemma_filter_keeps_all(front, holds_bytes());
    assert(all =~= front.push(all.last()));
    front.lemma_filter_push(all.last(), holds_bytes());
}

/// The regions of the line mode lie within the content, ascend without
/// overlap, and each holds a byte.
pub proof fn lemma_line_regions_ascend(text: Seq<u8>)
    ensures
        regions_ascend(line_regions(text), text.len() as int),
        forall|i: int|
            0 <= i < line_regions(text).len() ==> !(#[trigger] line_regions(text)[i]).is_empty(),
{
    lemma_line_regions(text);
    lemma_line_starts(text);
    lemma_last_line(text);
    let regions = line_regions(text);
    assert forall|i: int| 0 <= i < regions.len() implies (#[trigger] regions[i]).within(
        text.len() as int,
    ) && !regions[i].is_empty() by {
        if i < len_lines(text) - 1 {
            lemma_inner_line(text, i);
        }
    }
    assert forall|i: int, j: int| 0 <= i < j < regions.len() implies (
    #[trigger] regions[i]).start < (#[trigger] regions[j]).start && regions[i].end
        <= regions[j].start by {
        lemma_inner_line(text, i);
        if i + 1 < j {
            assert(line_starts(text)[i + 1] < line_starts(text)[j]);
        }
    }
}

/// Every line that holds a byte is a region of the line mode, at the index
/// of the line and nowhere else.
pub proof fn lemma_each_line_once(text: Seq<u8>, line: int)
    requires
        0 <= line < len_lines(text),
        !line_region(text, line).is_empty(),
    ensures
        line < line_regions(text).len(),
        forall|i: int|
            0 <= i < line_regions(text).len() ==> (#[trigger] line_regions(text)[i]
                == line_region(text, line) <==> i == line),
{
    lemma_line_regions(text);
    lemma_line_regions_ascend(text);
    lemma_last_line(text);
    let regions = line_regions(text);
    assert forall|i: int| 0 <= i < regions.len() implies (#[trigger] regions[i] == line_region(
        text,
        line,
    ) <==> i == line) by {
        if i < line {
            assert(regions[i].start < regions[line].start);
        } else if line < i {
            assert(regions[line].start < regions[i].start);
        }
    }
}

/// Content that ends with a newline has one region fewer than it has
/// lines; content that ends with another byte has as many regions as lines.
/// Empty content has one line and no region.
pub proof fn lemma_region_count(text: Seq<u8>)
    ensures
        text.len() > 0 && text.last() == NEWLINE ==> line_regions(text).len() == len_lines(text)
            - 1,
        text.len() > 0 && text.last() != NEWLINE ==> line_regions(text).len() == len_lines(text),
        text.len() == 0 ==> line_regions(text).len() == 0 && len_lines(text) == 1,
{
    lemma_line_regions(text);
}

/// Two passes that start on buffers with the same content have the same
/// regions to give: those of the line mode for that content.
pub proof fn lemma_iter_restarts(first: LineIter, second: LineIter, buffer: BufferView)
    requires
        first.starts_on(buffer),
        second.starts_on(buffer),
    ensures
        first.remaining() == second.remaining(),
        first.remaining() == line_regions(buffer.text),
{
    lemma_line_regions_from(buffer.text, 0);
}

/// The line that `up_line` names is one of the parent lines and lies above
/// the line that it was asked for.
pub proof fn lemma_up_line_above(parents: Seq<usize>, line: int)
    requires
        up_line(parents, line) is Some,
    ensures
        up_line(parents, line).unwrap() < line,
        parents.contains(up_line(parents, line).unwrap()),
{
    let candidates = parents.filter(above(line));
    parents.lemma_filter_pred(above(line), candidates.len() - 1);
    assert(candidates.contains(candidates.last()));
    parents.lemma_filter_contains_rev(above(line), candidates.last());
}

/// Where the parent lines are listed from the innermost outwards, so that
/// no line is listed before one that lies below it, `up_line` names the
/// outermost of those above `line`.
pub proof fn lemma_up_line_outermost(parents: Seq<usize>, line: int)
    requires
        forall|i: int, j: int| 0 <= i < j < parents.len() ==> parents[i] >= parents[j],
        up_line(parents, line) is Some,
    ensures
        forall|i: int|
            0 <= i < parents.len() && parents[i] < line ==> up_line(parents, line).unwrap()
                <= #[trigger] parents[i],
    decreases parents.len(),
{
    reveal(Seq::filter);
    if parents.last() >= line {
        let front = parents.drop_last();
        assert forall|i: int, j: int| 0 <= i < j < front.len() implies front[i] >= front[j] by {
            assert(front[i] == parents[i] && front[j] == parents[j]);
        }
        lemma_up_line_outermost(front, line);
        assert forall|i: int| 0 <= i < parents.len() && parents[i] < line implies up_line(
            parents,
            line,
        ).unwrap() <= #[trigger] parents[i] by {
            assert(front[i] == parents[i]);
        }
    }
}

/// Where the parent lines are listed from the outermost inwards, so that
/// no line is listed before one that lies above it, `up_line` names the
/// nearest of those above `line`.
pub proof fn lemma_up_line_nearest(parents: Seq<usize>, line: int)
    requires
        forall|i: int, j: int| 0 <= i < j < parents.len() ==> parents[i] <= parents[j],
        up_line(parents, line) is Some,
    ensures
        forall|i: int|
            0 <= i < parents.len() && parents[i] < line ==> #[trigger] parents[i] <= up_line(
                parents,
                line,
            ).unwrap(),
    decreases parents.len(),
{
    reveal(Seq::filter);
    if parents.last() >= line {
        let front = parents.drop_last();
        assert forall|i: int, j: int| 0 <= i < j < front.len() implies front[i] <= front[j] by {
            assert(front[i] == parents[i] && front[j] == parents[j]);
        }
        lemma_up_line_nearest(front, line);
        assert forall|i: int| 0 <= i < parents.len() && parents[i] < line implies
            #[trigger] parents[i] <= up_line(parents, line).unwrap() by {
            assert(front[i] == parents[i]);
        }
    }
}

/// Where `up` moves a selection, the new selection stands on a line above
/// the line on which the old one stood, and starts within the content as
/// the old one did.
pub proof fn lemma_up_moves_above(buffer: BufferView, current: SelectionView)
    requires
        current.valid(),
        current.extended_range().start <= buffer.text.len(),
        line_up(buffer, current) is Some,
    ensures
        line_up(buffer, current).unwrap().valid(),
        line_up(buffer, current).unwrap().extended_range().start <= buffer.text.len(),
        selection_line(buffer, line_up(buffer, current).unwrap()) < selection_line(
            buffer,
            current,
        ),
{
    let text = buffer.text;
    let line = selection_line(buffer, current);
    let target = up_line(buffer.parent_lines_of(line), line).unwrap() as int;
    let moved = line_up(buffer, current).unwrap();
    lemma_line_of(text, current.extended_range().start);
    lemma_up_line_above(buffer.parent_lines_of(line), line);
    lemma_inner_line(text, target);
    lemma_line_of_line_start(text, target);
    lemma_line_of_ascends(text, moved.extended_range().start, line_region(text, target).start);
}

/// After `times` presses of `up` that all moved, the selection stands at
/// least `times` lines above the line on which it began.
pub proof fn lemma_up_descends(buffer: BufferView, current: SelectionView, times: nat)
    requires
        current.valid(),
        current.extended_range().start <= buffer.text.len(),
        up_repeated(buffer, current, times) is Some,
    ensures
        up_repeated(buffer, current, times).unwrap().valid(),
        up_repeated(buffer, current, times).unwrap().extended_range().start <= buffer.text.len(),
        0 <= selection_line(buffer, up_repeated(buffer, current, times).unwrap())
            <= selection_line(buffer, current) - times,
    decreases times,
{
    if times == 0 {
        lemma_line_of(buffer.text, current.extended_range().start);
    } else {
        let before = (times - 1) as nat;
        lemma_up_descends(buffer, current, before);
        let selection = up_repeated(buffer, current, before).unwrap();
        lemma_up_moves_above(buffer, selection);
        lemma_line_of(buffer.text, line_up(buffer, selection).unwrap().extended_range().start);
    }
}

/// A later press of `up` that moved follows earlier presses that moved, and
/// left the selection on a line above theirs.
proof fn lemma_up_between(buffer: BufferView, current: SelectionView, earlier: nat, later: nat)
    requires
        current.valid(),
        current.extended_range().start <= buffer.text.len(),
        earlier < later,
        up_repeated(buffer, current, later) is Some,
    ensures
        up_repeated(buffer, current, earlier) is Some,
        selection_line(buffer, up_repeated(buffer, current, later).unwrap()) < selection_line(
            buffer,
            up_repeated(buffer, current, earlier).unwrap(),
        ),
    decreases later,
{
    let before = (later - 1) as nat;
    let selection = up_repeated(buffer, current, before).unwrap();
    lemma_up_descends(buffer, current, before);
    lemma_up_moves_above(buffer, selection);
    if earlier < before {
        lemma_up_between(buffer, current, earlier, before);
    }
}

/// Pressed again and again, `up` comes to an end: from a selection on line
/// `n`, no more than `n` presses in a row move it, and the next one finds
/// nowhere to go. On the way the selection never comes back to a line on
/// which it stood: each press that moves it leaves it further up.
pub proof fn lemma_up_ends(buffer: BufferView, current: SelectionView)
    requires
        current.valid(),
        current.extended_range().start <= buffer.text.len(),
    ensures
        up_repeated(buffer, current, (selection_line(buffer, current) + 1) as nat) is None,
        forall|earlier: nat, later: nat|
            earlier < later && #[trigger] up_repeated(buffer, current, later) is Some ==> (
            #[trigger] up_repeated(buffer, current, earlier)) is Some && selection_line(
                buffer,
                up_repeated(buffer, current, later).unwrap(),
            ) < selection_line(buffer, up_repeated(buffer, current, earlier).unwrap()),
{
    lemma_line_of(buffer.text, current.extended_range().start);
    let presses = (selection_line(buffer, current) + 1) as nat;
    if up_repeated(buffer, current, presses) is Some {
        lemma_up_descends(buffer, current, presses);
    }
    assert forall|earlier: nat, later: nat|
        earlier < later && #[trigger] up_repeated(buffer, current, later) is Some implies (
    #[trigger] up_repeated(buffer, current, earlier)) is Some && selection_line(
        buffer,
        up_repeated(buffer, current, later).unwrap(),
    ) < selection_line(buffer, up_repeated(buffer, current, earlier).unwrap()) by {
        lemma_up_between(buffer, current, earlier, later);
    }
}

} // verus!
