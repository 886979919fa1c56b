//! Phext: plain text with a nine-dimensional coordinate hierarchy woven into the byte
//! stream by dimension-break control codes. The library resolves coordinates to byte
//! spans, edits scrolls by coordinate, tokenizes documents into positioned scrolls and
//! combines documents scroll by scroll.
use vstd::prelude::*;

pub mod algebra;
pub mod canonical;
pub mod codec;
pub mod coordinate;
pub mod edit;
pub mod laws;
pub mod merging;
pub mod navigation;
pub mod order;
pub mod scanner;
pub mod tokens;
pub mod transform;
pub mod utf8;

pub use algebra::{merge, remove, subtract, swap};
pub use codec::{check_for_cowbell, locate, to_coordinate, PhextParseError};
pub use coordinate::{
    default_coordinate, Coordinate, Range, XCoordinate, YCoordinate, ZCoordinate,
    ADDRESS_MACRO_ALT, ADDRESS_MACRO_BREAK, ADDRESS_MICRO_BREAK, BOOK_BREAK, CHAPTER_BREAK,
    COLLECTION_BREAK, COORDINATE_MAXIMUM, COORDINATE_MINIMUM, LIBRARY_BREAK, LINE_BREAK,
    MORE_COWBELL, SCROLL_BREAK, SECTION_BREAK, SERIES_BREAK, SHELF_BREAK, VOLUME_BREAK,
};
pub use edit::{fetch, insert, range_replace, replace};
pub use navigation::{create_summary, navmap};
pub use scanner::get_subspace_coordinates;
pub use tokens::{is_phext_break, next_scroll, normalize, phokenize, PositionedScroll};
pub use transform::{contract, expand};

verus! {

} // verus!
