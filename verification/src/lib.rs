//! Selection modes of a structural text editor: the contract that every mode
//! meets, and the line mode.
//!
//! A mode divides the content of a [`Buffer`] into regions that can be
//! selected, and moves the active [`Selection`] from one region to another.
//! [`SelectionMode`] is the contract: a name, a pass over the regions in
//! ascending order, and the movement `up`. [`Line`] is the mode whose regions
//! are the lines of the buffer, and whose `up` leads from a line to a line
//! that encloses it.
//!
//! All positions are byte offsets. A line ends with its newline, which
//! belongs to it. A buffer knows, for each line, the lines on which the
//! constructs around it begin; it is given them when it is made and keeps
//! their order. `up` takes the last of them that lies above the line it
//! starts from: the nearest enclosing line where they are listed from the
//! outermost inwards, the outermost where they are listed from the innermost
//! outwards.

pub mod buffer;
pub mod byte_range;
pub mod line;
pub mod mode;
pub mod selection;
pub mod text_lines;

pub use crate::buffer::{Buffer, BufferError, BufferView};
pub use crate::byte_range::{ByteRange, Region};
pub use crate::line::{last_parent_above, Line, LineIter};
pub use crate::mode::{collect_regions, RegionIter, SelectionMode, SelectionModeParams};
pub use crate::selection::{CursorDirection, Selection, SelectionView};
