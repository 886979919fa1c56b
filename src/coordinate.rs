//! Coordinates: nine dimension indices, from library (most significant) down to scroll.
use vstd::prelude::*;

verus! {

/// Smallest valid index of a dimension: dimensions are numbered from one.
pub const COORDINATE_MINIMUM: usize = 1;
/// Largest valid index of a dimension.
pub const COORDINATE_MAXIMUM: usize = 100;

/// 11th dimension break.
pub const LIBRARY_BREAK: char = '\x01';
/// The bell control code, reserved.
pub const MORE_COWBELL: char = '\x07';
/// Plain line break.
pub const LINE_BREAK: char = '\x0A';
/// 3rd dimension break.
pub const SCROLL_BREAK: char = '\x17';
/// 4th dimension break.
pub const SECTION_BREAK: char = '\x18';
/// 5th dimension break.
pub const CHAPTER_BREAK: char = '\x19';
/// 6th dimension break.
pub const BOOK_BREAK: char = '\x1A';
/// 7th dimension break.
pub const VOLUME_BREAK: char = '\x1C';
/// 8th dimension break.
pub const COLLECTION_BREAK: char = '\x1D';
/// 9th dimension break.
pub const SERIES_BREAK: char = '\x1E';
/// 10th dimension break.
pub const SHELF_BREAK: char = '\x1F';

/// Separator between the indices inside one arm of a textual address.
pub const ADDRESS_MICRO_BREAK: u8 = 0x2E;
/// Separator between the arms of a textual address.
pub const ADDRESS_MACRO_BREAK: u8 = 0x2F;
/// Alternative arm separator, safe inside URLs.
pub const ADDRESS_MACRO_ALT: u8 = 0x3B;

/// The Z arm: library, shelf and series.
#[derive(Debug, Clone, Copy, PartialEq, Eq, Structural, PartialOrd)]
pub struct ZCoordinate {
    pub library: usize,
    pub shelf: usize,
    pub series: usize,
}

/// The Y arm: collection, volume and book.
#[derive(Debug, Clone, Copy, PartialEq, Eq, Structural, PartialOrd)]
pub struct YCoordinate {
    pub collection: usize,
    pub volume: usize,
    pub book: usize,
}

/// The X arm: chapter, section and scroll.
#[derive(Debug, Clone, Copy, PartialEq, Eq, Structural, PartialOrd)]
pub struct XCoordinate {
    pub chapter: usize,
    pub section: usize,
    pub scroll: usize,
}

/// A phext address `z3.z2.z1/y3.y2.y1/x3.x2.x1`.
#[derive(Debug, Clone, Copy, PartialEq, Eq, Structural, PartialOrd)]
pub struct Coordinate {
    pub z: ZCoordinate,
    pub y: YCoordinate,
    pub x: XCoordinate,
}

/// A pair of coordinates, from `start` to `end`.
#[derive(Debug, Clone, Copy, PartialEq, Eq, Structural, PartialOrd)]
pub struct Range {
    pub start: Coordinate,
    pub end: Coordinate,
}

impl Range {
    /// The range from `start` to `end`.
    pub fn new(start: Coordinate, end: Coordinate) -> (r: Range)
        ensures
            r.start == start && r.end == end,
    {
        Range { start, end }
    }
}

impl Default for Range {
    fn default() -> (r: Range)
        ensures
            r.start@ == origin() && r.end@ == origin(),
    {
        Range { start: default_coordinate(), end: default_coordinate() }
    }
}

impl View for Coordinate {
    type V = Seq<int>;

    /// The nine indices, library first and scroll last.
    open spec fn view(&self) -> Seq<int> {
        seq![
            self.z.library as int,
            self.z.shelf as int,
            self.z.series as int,
            self.y.collection as int,
            self.y.volume as int,
            self.y.book as int,
            self.x.chapter as int,
            self.x.section as int,
            self.x.scroll as int,
        ]
    }
}

/// The first coordinate of every document, `1.1.1/1.1.1/1.1.1`.
pub open spec fn origin() -> Seq<int> {
    seq![1int, 1, 1, 1, 1, 1, 1, 1, 1]
}

/// Every index lies in `[1, 100]`.
pub open spec fn is_valid(c: Seq<int>) -> bool {
    &&& c.len() == 9
    &&& forall|d: int| 0 <= d < 9 ==> 1 <= #[trigger] c[d] <= 100
}

/// One step up along a dimension, never past the maximum: an index at or above 100
/// becomes 100.
pub open spec fn bump(v: int) -> int {
    if v < 100 {
        v + 1
    } else {
        100
    }
}

/// `c` after a break of dimension `d`: index `d` steps up, the dimensions nested in it
/// return to one, the enclosing ones stay.
pub open spec fn advanced(c: Seq<int>, d: int) -> Seq<int> {
    Seq::new(9, |j: int| if j < d { c[j] } else if j == d { bump(c[j]) } else { 1 })
}

/// Lexicographic order on the indices from dimension `d` on.
pub open spec fn precedes_from(a: Seq<int>, b: Seq<int>, d: int) -> bool
    decreases 9 - d,
{
    if d >= 9 || d < 0 {
        false
    } else if a[d] < b[d] {
        true
    } else if a[d] > b[d] {
        false
    } else {
        precedes_from(a, b, d + 1)
    }
}

/// `a` comes strictly before `b`: the order of coordinates in a document.
pub open spec fn precedes(a: Seq<int>, b: Seq<int>) -> bool {
    precedes_from(a, b, 0)
}

/// The dimension a byte breaks, or -1 for a byte that breaks none.
pub open spec fn break_dimension(b: u8) -> int {
    if b == 0x01 {
        0
    } else if b == 0x1F {
        1
    } else if b == 0x1E {
        2
    } else if b == 0x1D {
        3
    } else if b == 0x1C {
        4
    } else if b == 0x1A {
        5
    } else if b == 0x19 {
        6
    } else if b == 0x18 {
        7
    } else if b == 0x17 {
        8
    } else {
        -1
    }
}

/// One of the nine dimension breaks.
pub open spec fn is_delimiter(b: u8) -> bool {
    break_dimension(b) >= 0
}

/// The break byte of dimension `d`.
pub open spec fn delimiter_of(d: int) -> u8 {
    if d == 0 {
        0x01
    } else if d == 1 {
        0x1F
    } else if d == 2 {
        0x1E
    } else if d == 3 {
        0x1D
    } else if d == 4 {
        0x1C
    } else if d == 5 {
        0x1A
    } else if d == 6 {
        0x19
    } else if d == 7 {
        0x18
    } else {
        0x17
    }
}

/// The coordinate after reading byte `b` at coordinate `c`.
pub open spec fn step(c: Seq<int>, b: u8) -> Seq<int> {
    if is_delimiter(b) {
        advanced(c, break_dimension(b))
    } else {
        c
    }
}

/// The coordinate reached after the first `p` bytes of `bytes`, starting at `c`.
pub open spec fn walk(c: Seq<int>, bytes: Seq<u8>, p: int) -> Seq<int>
    decreases p,
{
    if p <= 0 {
        c
    } else {
        step(walk(c, bytes, p - 1), bytes[p - 1])
    }
}

/// The coordinate at byte offset `p` of a document.
pub open spec fn coord_at(bytes: Seq<u8>, p: int) -> Seq<int> {
    walk(origin(), bytes, p)
}

/// The coordinate with the given nine indices.
pub open spec fn coordinate_of(c: Seq<int>) -> Coordinate {
    Coordinate {
        z: ZCoordinate { library: c[0] as usize, shelf: c[1] as usize, series: c[2] as usize },
        y: YCoordinate { collection: c[3] as usize, volume: c[4] as usize, book: c[5] as usize },
        x: XCoordinate { chapter: c[6] as usize, section: c[7] as usize, scroll: c[8] as usize },
    }
}

/// Two coordinates with the same indices are the same coordinate.
pub proof fn lemma_view_injective(a: Coordinate, b: Coordinate)
    requires
        a@ =~= b@,
    ensures
        a == b,
{
    assert(a@[0] == b@[0] && a@[1] == b@[1] && a@[2] == b@[2]);
    assert(a@[3] == b@[3] && a@[4] == b@[4] && a@[5] == b@[5]);
    assert(a@[6] == b@[6] && a@[7] == b@[7] && a@[8] == b@[8]);
}

/// The byte of a dimension break, for `d < 9`.
pub fn delimiter_byte(d: usize) -> (r: u8)
    requires
        d < 9,
    ensures
        r == delimiter_of(d as int),
        break_dimension(r) == d,
{
    match d {
        0 => 0x01,
        1 => 0x1F,
        2 => 0x1E,
        3 => 0x1D,
        4 => 0x1C,
        5 => 0x1A,
        6 => 0x19,
        7 => 0x18,
        _ => 0x17,
    }
}

/// The dimension that a byte breaks, if it is one of the nine breaks.
pub fn dimension_of(b: u8) -> (r: Option<usize>)
    ensures
        r == (if is_delimiter(b) { Some(break_dimension(b) as usize) } else { None::<usize> }),
{
    match b {
        0x01 => Some(0),
        0x1F => Some(1),
        0x1E => Some(2),
        0x1D => Some(3),
        0x1C => Some(4),
        0x1A => Some(5),
        0x19 => Some(6),
        0x18 => Some(7),
        0x17 => Some(8),
        _ => None,
    }
}

/// `index` plus one, held at the maximum.
fn advance_coordinate(index: usize) -> (r: usize)
    ensures
        r == bump(index as int),
{
    if index < COORDINATE_MAXIMUM {
        index + 1
    } else {
        COORDINATE_MAXIMUM
    }
}

fn validate_dimension_index(index: usize) -> (r: bool)
    ensures
        r == (1 <= index <= 100),
{
    index >= COORDINATE_MINIMUM && index <= COORDINATE_MAXIMUM
}

/// The coordinate `1.1.1/1.1.1/1.1.1`.
pub fn default_coordinate() -> (r: Coordinate)
    ensures
        r@ == origin(),
{
    let r = Coordinate {
        z: ZCoordinate { library: 1, shelf: 1, series: 1 },
        y: YCoordinate { collection: 1, volume: 1, book: 1 },
        x: XCoordinate { chapter: 1, section: 1, scroll: 1 },
    };
    assert(r@ =~= origin());
    r
}

impl Default for ZCoordinate {
    fn default() -> (r: ZCoordinate)
        ensures
            r.library == 1 && r.shelf == 1 && r.series == 1,
    {
        ZCoordinate { library: 1, shelf: 1, series: 1 }
    }
}

impl Default for YCoordinate {
    fn default() -> (r: YCoordinate)
        ensures
            r.collection == 1 && r.volume == 1 && r.book == 1,
    {
        YCoordinate { collection: 1, volume: 1, book: 1 }
    }
}

impl Default for XCoordinate {
    fn default() -> (r: XCoordinate)
        ensures
            r.chapter == 1 && r.section == 1 && r.scroll == 1,
    {
        XCoordinate { chapter: 1, section: 1, scroll: 1 }
    }
}

impl Default for Coordinate {
    fn default() -> (r: Coordinate)
        ensures
            r@ == origin(),
    {
        default_coordinate()
    }
}

impl Coordinate {
    /// The coordinate made of three arms.
    pub fn new(z: ZCoordinate, y: YCoordinate, x: XCoordinate) -> (r: Coordinate)
        ensures
            r.z == z && r.y == y && r.x == x,
    {
        Coordinate { z, y, x }
    }

    /// Index of dimension `d`, library being 0 and scroll 8.
    pub fn dim(&self, d: usize) -> (r: usize)
        requires
            d < 9,
        ensures
            r as int == self@[d as int],
    {
        match d {
            0 => self.z.library,
            1 => self.z.shelf,
            2 => self.z.series,
            3 => self.y.collection,
            4 => self.y.volume,
            5 => self.y.book,
            6 => self.x.chapter,
            7 => self.x.section,
            _ => self.x.scroll,
        }
    }

    /// Every index lies in `[1, 100]`.
    pub fn validate_coordinate(&self) -> (r: bool)
        ensures
            r == is_valid(self@),
    {
        let ok = validate_dimension_index(self.z.library) && validate_dimension_index(self.z.shelf)
            && validate_dimension_index(self.z.series) && validate_dimension_index(
            self.y.collection,
        ) && validate_dimension_index(self.y.volume) && validate_dimension_index(self.y.book)
            && validate_dimension_index(self.x.chapter) && validate_dimension_index(
            self.x.section,
        ) && validate_dimension_index(self.x.scroll);
        proof {
            if ok {
                assert forall|d: int| 0 <= d < 9 implies 1 <= #[trigger] self@[d] <= 100 by {
                    assert(self@[d] == self.dim_spec(d));
                }
            } else {
                assert(!(1 <= self@[0] <= 100) || !(1 <= self@[1] <= 100) || !(1 <= self@[2]
                    <= 100) || !(1 <= self@[3] <= 100) || !(1 <= self@[4] <= 100) || !(1
                    <= self@[5] <= 100) || !(1 <= self@[6] <= 100) || !(1 <= self@[7] <= 100)
                    || !(1 <= self@[8] <= 100));
            }
        }
        ok
    }

    /// Index of dimension `d` as a spec value.
    pub open spec fn dim_spec(&self, d: int) -> int {
        if d == 0 {
            self.z.library as int
        } else if d == 1 {
            self.z.shelf as int
        } else if d == 2 {
            self.z.series as int
        } else if d == 3 {
            self.y.collection as int
        } else if d == 4 {
            self.y.volume as int
        } else if d == 5 {
            self.y.book as int
        } else if d == 6 {
            self.x.chapter as int
        } else if d == 7 {
            self.x.section as int
        } else {
            self.x.scroll as int
        }
    }

    /// Reads a scroll break.
    pub fn scroll_break(&mut self)
        ensures
            final(self)@ =~= advanced(old(self)@, 8),
    {
        self.x.scroll = advance_coordinate(self.x.scroll);
    }

    /// Reads a section break.
    pub fn section_break(&mut self)
        ensures
            final(self)@ =~= advanced(old(self)@, 7),
    {
        self.x.section = advance_coordinate(self.x.section);
        self.x.scroll = 1;
    }

    /// Reads a chapter break.
    pub fn chapter_break(&mut self)
        ensures
            final(self)@ =~= advanced(old(self)@, 6),
    {
        self.x.chapter = advance_coordinate(self.x.chapter);
        self.x.section = 1;
        self.x.scroll = 1;
    }

    /// Reads a book break.
    pub fn book_break(&mut self)
        ensures
            final(self)@ =~= advanced(old(self)@, 5),
    {
        self.y.book = advance_coordinate(self.y.book);
        self.x = XCoordinate { chapter: 1, section: 1, scroll: 1 };
    }

    /// Reads a volume break.
    pub fn volume_break(&mut self)
        ensures
            final(self)@ =~= advanced(old(self)@, 4),
    {
        self.y.volume = advance_coordinate(self.y.volume);
        self.y.book = 1;
        self.x = XCoordinate { chapter: 1, section: 1, scroll: 1 };
    }

    /// Reads a collection break.
    pub fn collection_break(&mut self)
        ensures
            final(self)@ =~= advanced(old(self)@, 3),
    {
        self.y.collection = advance_coordinate(self.y.collection);
        self.y.volume = 1;
        self.y.book = 1;
        self.x = XCoordinate { chapter: 1, section: 1, scroll: 1 };
    }

    /// Reads a series break.
    pub fn series_break(&mut self)
        ensures
            final(self)@ =~= advanced(old(self)@, 2),
    {
        self.z.series = advance_coordinate(self.z.series);
        self.y = YCoordinate { collection: 1, volume: 1, book: 1 };
        self.x = XCoordinate { chapter: 1, section: 1, scroll: 1 };
    }

    /// Reads a shelf break.
    pub fn shelf_break(&mut self)
        ensures
            final(self)@ =~= advanced(old(self)@, 1),
    {
        self.z.shelf = advance_coordinate(self.z.shelf);
        self.z.series = 1;
        self.y = YCoordinate { collection: 1, volume: 1, book: 1 };
        self.x = XCoordinate { chapter: 1, section: 1, scroll: 1 };
    }

    /// Reads a library break.
    pub fn library_break(&mut self)
        ensures
            final(self)@ =~= advanced(old(self)@, 0),
    {
        self.z.library = advance_coordinate(self.z.library);
        self.z.shelf = 1;
        self.z.series = 1;
        self.y = YCoordinate { collection: 1, volume: 1, book: 1 };
        self.x = XCoordinate { chapter: 1, section: 1, scroll: 1 };
    }

    /// Reads a break of dimension `d`.
    pub fn advance(&mut self, d: usize)
        requires
            d < 9,
        ensures
            final(self)@ =~= advanced(old(self)@, d as int),
    {
        match d {
            0 => self.library_break(),
            1 => self.shelf_break(),
            2 => self.series_break(),
            3 => self.collection_break(),
            4 => self.volume_break(),
            5 => self.book_break(),
            6 => self.chapter_break(),
            7 => self.section_break(),
            _ => self.scroll_break(),
        }
    }

    /// Reads one byte: a dimension break moves the coordinate, any other byte leaves it.
    pub fn read_byte(&mut self, b: u8)
        ensures
            final(self)@ =~= step(old(self)@, b),
    {
        match dimension_of(b) {
            Some(d) => self.advance(d),
            None => {},
        }
    }

    /// This coordinate comes strictly before `other` in document order.
    pub fn precedes(&self, other: &Coordinate) -> (r: bool)
        ensures
            r == precedes(self@, other@),
    {
        let mut d: usize = 0;
        while d < 9
            invariant
                d <= 9,
                precedes(self@, other@) == precedes_from(self@, other@, d as int),
            decreases 9 - d,
        {
            let a = self.dim(d);
            let b = other.dim(d);
            if a < b {
                return true;
            }
            if a > b {
                return false;
            }
            d += 1;
        }
        false
    }
}

} // verus!
