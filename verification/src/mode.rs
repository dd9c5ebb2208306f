//! What every selection mode offers.
//!
//! A mode divides the content of a buffer into regions, which it lists in
//! ascending order and without overlap, and it moves the active selection
//! from region to region. The editor works with a mode through this contract
//! alone.

use vstd::prelude::*;
use crate::buffer::{Buffer, BufferError, BufferView};
use crate::byte_range::{regions_of, ByteRange, Region};
use crate::selection::{found_view, CursorDirection, Selection, SelectionView};

verus! {

/// What a mode is asked with: the buffer, the selection that is active, and
/// the end of it at which the cursor stands.
pub struct SelectionModeParams<'a> {
    pub buffer: &'a Buffer,
    pub current_selection: &'a Selection,
    pub cursor_direction: &'a CursorDirection,
}

/// The regions lie within a content of `len` bytes, ascend and do not
/// overlap: each starts behind the start of those before it, and not before
/// they end.
pub open spec fn regions_ascend(regions: Seq<Region>, len: int) -> bool {
    &&& forall|i: int| 0 <= i < regions.len() ==> (#[trigger] regions[i]).within(len)
    &&& forall|i: int, j: int|
        0 <= i < j < regions.len() ==> (#[trigger] regions[i]).start < (
        #[trigger] regions[j]).start && regions[i].end <= regions[j].start
}

/// A pass over the regions of a buffer, which computes each region when it
/// is asked for.
pub trait RegionIter {
    /// The regions that the pass has yet to give, in order.
    spec fn remaining(&self) -> Seq<Region>;

    /// Gives the next region, or `None` when the pass is over.
    fn next(&mut self) -> (out: Option<ByteRange>)
        ensures
            old(self).remaining().len() == 0 ==> out is None && final(self).remaining().len()
                == 0,
            old(self).remaining().len() > 0 ==> (out matches Some(region) && region@ == old(
                self,
            ).remaining()[0] && final(self).remaining() == old(self).remaining().skip(1)),
    ;
}

/// A selection mode: a way to divide a buffer into regions and to move from
/// one selection to another.
pub trait SelectionMode {
    /// The pass that `iter` gives.
    type Regions<'a>: RegionIter where Self: 'a;

    /// The regions that the mode selects in a buffer, in order.
    spec fn regions(&self, buffer: BufferView) -> Seq<Region>;

    /// The selection to which `up` moves `current`, or `None` where it has
    /// nowhere to go.
    spec fn up_selection(&self, buffer: BufferView, current: SelectionView) -> Option<
        SelectionView,
    >;

    /// The regions of a mode ascend and do not overlap.
    proof fn lemma_regions_ascend(&self, buffer: BufferView)
        ensures
            regions_ascend(self.regions(buffer), buffer.text.len() as int),
    ;

    /// A short name for the mode, for display.
    fn name(&self) -> (out: &'static str);

    /// Starts a pass over the regions of the buffer, which ascend and do not
    /// overlap. Each call starts a new pass from the first region.
    fn iter<'a>(&'a self, params: SelectionModeParams<'a>) -> (out: Result<
        Self::Regions<'a>,
        BufferError,
    >)
        ensures
            out matches Ok(pass) ==> pass.remaining() == self.regions(params.buffer@)
                && regions_ascend(pass.remaining(), params.buffer@.text.len() as int),
    ;

    /// Moves the selection up, or says by `None` that there is nowhere to
    /// go. The selection that was handed in stays as it is.
    fn up(&self, params: SelectionModeParams) -> (out: Result<Option<Selection>, BufferError>)
        ensures
            out matches Ok(found) ==> found_view(found) == self.up_selection(
                params.buffer@,
                params.current_selection@,
            ),
    ;
}

/// Runs a pass to its end and lists what it gave.
pub fn collect_regions<I: RegionIter>(pass: I) -> (out: Vec<ByteRange>)
    ensures
        regions_of(out@) == pass.remaining(),
{
    let ghost all = pass.remaining();
    let mut rest = pass;
    let mut out: Vec<ByteRange> = Vec::new();
    assert(regions_of(out@) =~= all.take(0));
    assert(all.skip(0) =~= all);
    loop
        invariant
            all == pass.remaining(),
            out@.len() <= all.len(),
            regions_of(out@) == all.take(out@.len() as int),
            rest.remaining() == all.skip(out@.len() as int),
        decreases rest.remaining().len(),
    {
        match rest.next() {
            None => {
                assert(all.take(out@.len() as int) =~= all);
                return out;
            },
            Some(region) => {
                out.push(region);
                assert(regions_of(out@) =~= all.take(out@.len() as int));
                assert(rest.remaining() =~= all.skip(out@.len() as int));
            },
        }
    }
}

} // verus!
