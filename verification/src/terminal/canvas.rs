//! The grid of styled cells that components render to.

use unicode_segmentation::UnicodeSegmentation;
use unicode_width::UnicodeWidthStr;
use vstd::arithmetic::div_mod::lemma_fundamental_div_mod_converse;
use vstd::prelude::*;

use crate::terminal::{Rect, Size};

verus! {

/// One of the eight colours that every terminal has.
#[derive(Clone, Copy, Debug, PartialEq, Eq, Hash, Structural)]
pub enum BaseColor {
    Black,
    Red,
    Green,
    Yellow,
    Blue,
    Magenta,
    Cyan,
    White,
}

/// A colour of the 8-bit palette.
#[derive(Clone, Copy, Debug, PartialEq, Eq, Hash, Structural)]
pub struct AnsiColor(pub u8);

/// A colour by its red, green and blue parts.
#[derive(Clone, Copy, Debug, PartialEq, Eq, Hash, Structural)]
pub struct RgbColor {
    pub red: u8,
    pub green: u8,
    pub blue: u8,
}

/// A colour, in any of the forms that a backend may be able to show.
#[derive(Clone, Copy, Debug, PartialEq, Eq, Hash, Structural)]
pub enum Colour {
    Base(BaseColor),
    BrightBase(BaseColor),
    Ansi(AnsiColor),
    Rgb(RgbColor),
}

impl Colour {
    pub fn black() -> (colour: Self)
        ensures
            colour == Colour::Base(BaseColor::Black),
    {
        Colour::Base(BaseColor::Black)
    }

    pub fn white() -> (colour: Self)
        ensures
            colour == Colour::Base(BaseColor::White),
    {
        Colour::Base(BaseColor::White)
    }

    pub fn rgb(red: u8, green: u8, blue: u8) -> (colour: Self)
        ensures
            colour == Colour::Rgb(RgbColor { red, green, blue }),
    {
        Colour::Rgb(RgbColor { red, green, blue })
    }
}

/// How a cell is drawn.
#[derive(Clone, Copy, Debug, PartialEq, Eq, Hash, Structural)]
pub struct Style {
    pub background: Colour,
    pub foreground: Colour,
    pub bold: bool,
    pub underline: bool,
}

impl Style {
    /// A style with the given colours, neither bold nor underlined.
    pub fn normal(background: Colour, foreground: Colour) -> (style: Self)
        ensures
            style == (Style { background, foreground, bold: false, underline: false }),
    {
        Style { background, foreground, bold: false, underline: false }
    }

    /// A bold style with the given colours.
    pub fn bold(background: Colour, foreground: Colour) -> (style: Self)
        ensures
            style == (Style { background, foreground, bold: true, underline: false }),
    {
        Style { background, foreground, bold: true, underline: false }
    }

    /// An underlined style with the given colours.
    pub fn underline(background: Colour, foreground: Colour) -> (style: Self)
        ensures
            style == (Style { background, foreground, bold: false, underline: true }),
    {
        Style { background, foreground, bold: false, underline: true }
    }
}

/// What a cell shows: a grapheme cluster and the style to draw it in.
#[derive(Debug, PartialEq, Eq)]
pub struct Textel {
    pub style: Style,
    pub grapheme: String,
}

impl Clone for Textel {
    fn clone(&self) -> (copy: Self)
        ensures
            copy == *self,
    {
        Textel { style: self.style, grapheme: self.grapheme.clone() }
    }
}

/// A copy of what a cell holds.
pub fn copy_cell(cell: &Option<Textel>) -> (copy: Option<Textel>)
    ensures
        copy == *cell,
{
    match cell {
        Some(textel) => Some(textel.clone()),
        None => None,
    }
}

/// A cell of a grid of the given width lies at one place of its rows laid
/// end to end, and no other cell lies there.
pub proof fn lemma_cell_index(width: int, height: int, x: int, y: int)
    requires
        0 <= x < width,
        0 <= y < height,
    ensures
        0 <= y * width + x < width * height,
        (y * width + x) / width == y,
        (y * width + x) % width == x,
{
    lemma_fundamental_div_mod_converse(y * width + x, width, y, x);
    assert(y * width + x < width * height) by (nonlinear_arith)
        requires
            0 <= x < width,
            0 <= y < height,
    ;
    assert(0 <= y * width) by (nonlinear_arith)
        requires
            0 <= y,
            0 < width,
    ;
}

/// What the row-major `buffer` of a grid of the given width holds for the
/// cell in column `x` of row `y`.
pub open spec fn cell_of(buffer: Seq<Option<Textel>>, width: int, x: int, y: int) -> Option<
    Textel,
> {
    buffer[y * width + x]
}

/// A grid of cells. A cell is empty or holds a [`Textel`]; cells are empty
/// to begin with, and behind a wide character.
#[derive(Debug)]
pub struct Canvas {
    buffer: Vec<Option<Textel>>,
    size: Size,
}

impl Canvas {
    /// A canvas holds one cell for each place of its grid.
    #[verifier::type_invariant]
    spec fn wf(self) -> bool {
        self.buffer@.len() == self.size.width * self.size.height
    }

    /// The extent of the grid.
    pub closed spec fn extent(self) -> Size {
        self.size
    }

    /// What the cell in column `x` of row `y` holds.
    pub closed spec fn cell(self, x: int, y: int) -> Option<Textel> {
        cell_of(self.buffer@, self.size.width as int, x, y)
    }

    /// Whether the grid has a cell in column `x` of row `y`.
    pub open spec fn has(self, x: int, y: int) -> bool {
        0 <= x < self.extent().width && 0 <= y < self.extent().height
    }

    /// Whether two canvases show the same: they have the same extent and
    /// hold the same in every cell.
    pub open spec fn same_as(self, other: Canvas) -> bool {
        &&& self.extent() == other.extent()
        &&& forall|x: int, y: int| self.has(x, y) ==> self.cell(x, y) == other.cell(x, y)
    }

    /// A canvas without cells.
    fn nothing() -> (canvas: Self)
        ensures
            canvas.size == (Size { width: 0, height: 0 }),
            canvas.buffer@.len() == 0,
    {
        Canvas { buffer: Vec::new(), size: Size { width: 0, height: 0 } }
    }

    /// A canvas of the given size, every cell of it empty.
    pub fn new(size: Size) -> (canvas: Self)
        requires
            size.addressable(),
        ensures
            canvas.extent() == size,
            forall|x: int, y: int| canvas.has(x, y) ==> canvas.cell(x, y) is None,
    {
        let area = size.width * size.height;
        let mut buffer: Vec<Option<Textel>> = Vec::new();
        let mut i: usize = 0;
        while i < area
            invariant
                i <= area,
                buffer@.len() == i,
                forall|j: int| 0 <= j < i ==> buffer@[j] is None,
            decreases area - i,
        {
            buffer.push(None);
            i = i + 1;
        }
        let canvas = Canvas { buffer, size };
        assert forall|x: int, y: int| canvas.has(x, y) implies canvas.cell(x, y) is None by {
            lemma_cell_index(size.width as int, size.height as int, x, y);
        }
        canvas
    }

    /// The extent of the grid.
    pub fn size(&self) -> (size: Size)
        ensures
            size == self.extent(),
    {
        self.size
    }

    /// What the cell in column `x` of row `y` holds, or `None` if the grid
    /// has no such cell or the cell is empty.
    pub fn textel(&self, x: usize, y: usize) -> (textel: Option<&Textel>)
        ensures
            match textel {
                Some(found) => self.has(x as int, y as int) && self.cell(x as int, y as int)
                    == Some(*found),
                None => !self.has(x as int, y as int) || self.cell(x as int, y as int) is None,
            },
    {
        proof {
            use_type_invariant(self);
        }
        if x < self.size.width && y < self.size.height {
            proof {
                lemma_cell_index(
                    self.size.width as int,
                    self.size.height as int,
                    x as int,
                    y as int,
                );
                assert(self.buffer@.len() == self.buffer.len());
            }
            self.buffer[y * self.size.width + x].as_ref()
        } else {
            None
        }
    }

    /// Puts `textel` into the cell in column `x` of row `y`. Where the grid
    /// has no such cell, nothing happens.
    pub fn put(&mut self, x: usize, y: usize, textel: Option<Textel>)
        ensures
            final(self).extent() == old(self).extent(),
            forall|i: int, j: int|
                old(self).has(i, j) ==> final(self).cell(i, j) == if i == x && j == y {
                    textel
                } else {
                    old(self).cell(i, j)
                },
    {
        proof {
            use_type_invariant(&*self);
        }
        if x < self.size.width && y < self.size.height {
            let mut taken = Canvas::nothing();
            std::mem::swap(self, &mut taken);
            let Canvas { mut buffer, size } = taken;
            let width = size.width;
            proof {
                lemma_cell_index(width as int, size.height as int, x as int, y as int);
                assert(buffer@.len() == buffer.len());
            }
            buffer.set(y * width + x, textel);
            *self = Canvas { buffer, size };
            assert forall|i: int, j: int| old(self).has(i, j) implies self.cell(i, j) == if i == x
                && j == y {
                textel
            } else {
                old(self).cell(i, j)
            } by {
                lemma_cell_index(width as int, size.height as int, i, j);
            }
        }
    }

    /// Empties every cell.
    pub fn clear(&mut self)
        ensures
            final(self).extent() == old(self).extent(),
            forall|x: int, y: int| final(self).has(x, y) ==> final(self).cell(x, y) is None,
    {
        proof {
            use_type_invariant(&*self);
        }
        let size = self.size;
        assert(size.addressable()) by {
            assert(self.buffer@.len() == self.buffer.len());
        }
        *self = Canvas::new(size);
    }

    /// Gives the grid another extent. Every cell of it is empty afterwards.
    pub fn resize(&mut self, size: Size)
        requires
            size.addressable(),
        ensures
            final(self).extent() == size,
            forall|x: int, y: int| final(self).has(x, y) ==> final(self).cell(x, y) is None,
    {
        *self = Canvas::new(size);
    }

    /// Whether copying `source` into `region` of a grid of the extent
    /// `target` writes the cell in column `x` of row `y`: the cell lies in
    /// the region, on the grid, and `source` has a cell to go there.
    pub open spec fn covered(target: Size, source: Size, region: Rect, x: int, y: int) -> bool {
        &&& region.origin.x <= x < region.origin.x + region.size.width
        &&& region.origin.y <= y < region.origin.y + region.size.height
        &&& x - region.origin.x < source.width
        &&& y - region.origin.y < source.height
        &&& x < target.width
        &&& y < target.height
    }

    /// Copies `source` into `region`, its top left cell to the top left cell
    /// of the region. What of `source` does not fit into the region or onto
    /// the grid is left out; every other cell of the grid stays as it is.
    pub fn copy_region(&mut self, source: &Canvas, region: Rect)
        ensures
            final(self).extent() == old(self).extent(),
            forall|x: int, y: int|
                old(self).has(x, y) ==> final(self).cell(x, y) == if Self::covered(
                    old(self).extent(),
                    source.extent(),
                    region,
                    x,
                    y,
                ) {
                    source.cell(x - region.origin.x, y - region.origin.y)
                } else {
                    old(self).cell(x, y)
                },
    {
        proof {
            use_type_invariant(&*self);
            use_type_invariant(source);
        }
        let left = region.origin.x;
        let top = region.origin.y;
        if left >= self.size.width || top >= self.size.height {
            return ;
        }
        let mut taken = Canvas::nothing();
        std::mem::swap(self, &mut taken);
        let Canvas { mut buffer, size } = taken;
        let width = size.width;
        let height = size.height;
        let ghost before = buffer@;
        let columns = at_most(at_most(region.size.width, source.size.width), width - left);
        let rows = at_most(at_most(region.size.height, source.size.height), height - top);
        let mut y: usize = 0;
        while y < rows
            invariant
                y <= rows,
                buffer@.len() == width * height,
                before.len() == width * height,
                source.buffer@.len() == source.size.width * source.size.height,
                size == old(self).size,
                before == old(self).buffer@,
                width == size.width,
                height == size.height,
                left == region.origin.x,
                top == region.origin.y,
                left < width,
                top < height,
                columns == smallest(
                    region.size.width,
                    source.size.width,
                    (width - left) as usize,
                ),
                rows == smallest(region.size.height, source.size.height, (height - top) as usize),
                forall|i: int, j: int|
                    0 <= i < width && 0 <= j < height ==> cell_of(buffer@, width as int, i, j)
                        == if Self::covered(size, source.size, region, i, j) && j < top + y {
                        cell_of(source.buffer@, source.size.width as int, i - left, j - top)
                    } else {
                        cell_of(before, width as int, i, j)
                    },
            decreases rows - y,
        {
            let mut x: usize = 0;
            while x < columns
                invariant
                    x <= columns,
                    y < rows,
                    buffer@.len() == width * height,
                    before.len() == width * height,
                    source.buffer@.len() == source.size.width * source.size.height,
                    size == old(self).size,
                    width == size.width,
                    height == size.height,
                    left == region.origin.x,
                    top == region.origin.y,
                    left < width,
                    top < height,
                    columns == smallest(
                        region.size.width,
                        source.size.width,
                        (width - left) as usize,
                    ),
                    rows == smallest(
                        region.size.height,
                        source.size.height,
                        (height - top) as usize,
                    ),
                    forall|i: int, j: int|
                        0 <= i < width && 0 <= j < height ==> cell_of(buffer@, width as int, i, j)
                            == if Self::covered(size, source.size, region, i, j) && (j < top + y
                            || (j == top + y && i < left + x)) {
                            cell_of(source.buffer@, source.size.width as int, i - left, j - top)
                        } else {
                            cell_of(before, width as int, i, j)
                        },
                decreases columns - x,
            {
                proof {
                    lemma_cell_index(
                        source.size.width as int,
                        source.size.height as int,
                        x as int,
                        y as int,
                    );
                    lemma_cell_index(
                        width as int,
                        height as int,
                        left as int + x as int,
                        top as int + y as int,
                    );
                    assert(buffer@.len() == buffer.len());
                    assert(source.buffer@.len() == source.buffer.len());
                }
                let cell = copy_cell(&source.buffer[y * source.size.width + x]);
                let ghost earlier = buffer@;
                buffer.set((top + y) * width + (left + x), cell);
                proof {
                    assert forall|i: int, j: int| 0 <= i < width && 0 <= j < height implies cell_of(
                        buffer@,
                        width as int,
                        i,
                        j,
                    ) == if Self::covered(size, source.size, region, i, j) && (j < top + y || (j
                        == top + y && i < left + x + 1)) {
                        cell_of(source.buffer@, source.size.width as int, i - left, j - top)
                    } else {
                        cell_of(before, width as int, i, j)
                    } by {
                        lemma_cell_index(width as int, height as int, i, j);
                        if i == left + x && j == top + y {
                        } else {
                            assert(cell_of(buffer@, width as int, i, j) == cell_of(
                                earlier,
                                width as int,
                                i,
                                j,
                            ));
                        }
                    }
                }
                x = x + 1;
            }
            y = y + 1;
        }
        *self = Canvas { buffer, size };
    }
}

/// The smallest of three numbers.
pub open spec fn smallest(a: usize, b: usize, c: usize) -> usize {
    if a <= b && a <= c {
        a
    } else if b <= c {
        b
    } else {
        c
    }
}

/// The smaller of two numbers.
pub fn at_most(a: usize, b: usize) -> (least: usize)
    ensures
        least == if a <= b {
            a
        } else {
            b
        },
{
    if a <= b {
        a
    } else {
        b
    }
}

/// The extended grapheme clusters of a text, in their order: what a reader
/// takes for its characters.
pub uninterp spec fn grapheme_clusters(text: Seq<char>) -> Seq<Seq<char>>;

/// How many columns a text takes when it is displayed.
pub uninterp spec fn display_width(text: Seq<char>) -> nat;

/// `UnicodeSegmentation::graphemes`, asked for extended grapheme clusters:
/// the clusters of the text, in their order, each as a string of its own.
#[verifier::external_body]
fn graphemes_of(text: &str) -> (clusters: Vec<String>)
    ensures
        clusters@.len() == grapheme_clusters(text@).len(),
        forall|k: int|
            0 <= k < clusters@.len() ==> (#[trigger] clusters@[k])@ == grapheme_clusters(text@)[k],
{
    UnicodeSegmentation::graphemes(text, true).map(|cluster| cluster.to_string()).collect()
}

/// `UnicodeWidthStr::width`: the number of columns that the text takes when
/// it is displayed.
#[verifier::external_body]
fn width_of(text: &str) -> (width: usize)
    ensures
        width == display_width(text@),
{
    UnicodeWidthStr::width(text)
}

/// The column, counted from where the text begins, at which the cluster at
/// `k` begins, given the widths of the clusters.
pub open spec fn column_of(widths: Seq<usize>, k: int) -> nat
    decreases k,
{
    if k <= 0 {
        0
    } else {
        column_of(widths, k - 1) + widths[k - 1] as nat
    }
}

/// How many clusters are drawn where `room` columns are free, counting
/// from the cluster at `k`, the clusters before it being drawn: clusters
/// are drawn until one does not fit.
pub open spec fn drawn_from(widths: Seq<usize>, room: nat, k: int) -> int
    decreases widths.len() - k,
{
    if 0 <= k < widths.len() && column_of(widths, k + 1) <= room {
        drawn_from(widths, room, k + 1)
    } else {
        k
    }
}

/// The clusters that are drawn fit into the room that is free.
pub proof fn lemma_drawn_fits(widths: Seq<usize>, room: nat, k: int)
    requires
        0 <= k <= widths.len(),
        column_of(widths, k) <= room,
    ensures
        k <= drawn_from(widths, room, k) <= widths.len(),
        column_of(widths, drawn_from(widths, room, k)) <= room,
    decreases widths.len() - k,
{
    if k < widths.len() && column_of(widths, k + 1) <= room {
        lemma_drawn_fits(widths, room, k + 1);
    }
}

/// What a cell holds, as its style and the characters of its cluster.
pub open spec fn cell_content(cell: Option<Textel>) -> Option<(Style, Seq<char>)> {
    match cell {
        Some(textel) => Some((textel.style, textel.grapheme@)),
        None => None,
    }
}

/// What the cell at column `column` of a text holds once the first `count`
/// clusters are drawn: the cluster that begins there, if one does and takes
/// room, and nothing, where a wide cluster reaches over from the left.
pub open spec fn drawn_cell(
    clusters: Seq<Seq<char>>,
    widths: Seq<usize>,
    style: Style,
    count: int,
    column: int,
) -> Option<(Style, Seq<char>)>
    decreases count,
{
    if count <= 0 {
        None
    } else if column >= column_of(widths, count - 1) {
        if column == column_of(widths, count - 1) && widths[count - 1] > 0 {
            Some((style, clusters[count - 1]))
        } else {
            None
        }
    } else {
        drawn_cell(clusters, widths, style, count - 1, column)
    }
}

/// The widths of clusters, each as many columns as it takes when it is
/// displayed.
pub open spec fn widths_of(clusters: Seq<Seq<char>>) -> Seq<usize> {
    Seq::new(clusters.len(), |k: int| display_width(clusters[k]) as usize)
}

/// The characters of each string.
pub open spec fn views_of(strings: Seq<String>) -> Seq<Seq<char>> {
    Seq::new(strings.len(), |k: int| strings[k]@)
}

impl Canvas {
    /// How many columns are free from the cell in column `x` of row `y` to
    /// the end of the row; none if the grid has no such cell.
    pub open spec fn room(self, x: int, y: int) -> nat {
        if self.has(x, y) {
            (self.extent().width - x) as nat
        } else {
            0
        }
    }

    /// Draws clusters of the given widths in one style, from the cell in
    /// column `x` of row `y` to the right, and tells how many columns they
    /// take.
    ///
    /// A cluster goes into the cell at which it begins; the cells that a
    /// wide cluster reaches over are emptied; a cluster without width is
    /// left out. Drawing stops at the first cluster that does not fit into
    /// the row. Every other cell stays as it is.
    pub fn draw_graphemes(
        &mut self,
        x: usize,
        y: usize,
        style: Style,
        clusters: &[String],
        widths: &[usize],
    ) -> (columns: usize)
        requires
            clusters@.len() == widths@.len(),
        ensures
            final(self).extent() == old(self).extent(),
            columns == column_of(widths@, drawn_from(widths@, old(self).room(x as int, y as int), 0)),
            columns <= old(self).room(x as int, y as int),
            forall|i: int, j: int|
                old(self).has(i, j) ==> if j == y && x <= i < x + columns {
                    cell_content(#[trigger] final(self).cell(i, j)) == drawn_cell(
                        views_of(clusters@),
                        widths@,
                        style,
                        drawn_from(widths@, old(self).room(x as int, y as int), 0),
                        i - x,
                    )
                } else {
                    final(self).cell(i, j) == old(self).cell(i, j)
                },
    {
        let size = self.size();
        if x >= size.width || y >= size.height {
            proof {
                lemma_drawn_fits(widths@, 0, 0);
            }
            return 0;
        }
        let room = size.width - x;
        let ghost texts = views_of(clusters@);
        let mut cursor: usize = 0;
        let mut k: usize = 0;
        let mut fits = true;
        while k < clusters.len() && fits
            invariant
                k <= clusters@.len(),
                !fits ==> drawn_from(widths@, room as nat, k as int) == k,
                clusters@.len() == widths@.len(),
                texts == views_of(clusters@),
                self.extent() == old(self).extent(),
                size == self.extent(),
                x < size.width,
                y < size.height,
                room == size.width - x,
                room == old(self).room(x as int, y as int),
                cursor == column_of(widths@, k as int),
                cursor <= room,
                drawn_from(widths@, room as nat, 0) == drawn_from(widths@, room as nat, k as int),
                forall|i: int, j: int|
                    old(self).has(i, j) ==> if j == y && x <= i < x + cursor {
                        cell_content(#[trigger] self.cell(i, j)) == drawn_cell(
                            texts,
                            widths@,
                            style,
                            k as int,
                            i - x,
                        )
                    } else {
                        self.cell(i, j) == old(self).cell(i, j)
                    },
            decreases
                    clusters@.len() - k + if fits {
                        1int
                    } else {
                        0int
                    },
        {
            let width = widths[k];
            if width > room - cursor {
                fits = false;
                assert(column_of(widths@, k as int + 1) == cursor + width);
            } else {
            let ghost before = *self;
            if width > 0 {
                self.put(x + cursor, y, Some(Textel { style, grapheme: clusters[k].clone() }));
                let ghost begun = *self;
                let mut reach: usize = 1;
                while reach < width
                    invariant
                        1 <= reach <= width,
                        width <= room - cursor,
                        room == size.width - x,
                        x < size.width,
                        y < size.height,
                        self.extent() == before.extent(),
                        size == self.extent(),
                        forall|i: int, j: int|
                            before.has(i, j) ==> #[trigger] self.cell(i, j) == if j == y && x
                                + cursor < i < x + cursor + reach {
                                None
                            } else {
                                begun.cell(i, j)
                            },
                    decreases width - reach,
                {
                    self.put(x + cursor + reach, y, None);
                    reach = reach + 1;
                }
            }
            proof {
                let next = k as int + 1;
                assert(column_of(widths@, next) == cursor + width);
                assert(drawn_from(widths@, room as nat, k as int) == drawn_from(
                    widths@,
                    room as nat,
                    next,
                ));
                assert forall|i: int, j: int| old(self).has(i, j) implies if j == y && x <= i < x
                    + cursor + width {
                    cell_content(#[trigger] self.cell(i, j)) == drawn_cell(
                        texts,
                        widths@,
                        style,
                        next,
                        i - x,
                    )
                } else {
                    self.cell(i, j) == old(self).cell(i, j)
                } by {
                    if j == y && x <= i < x + cursor + width {
                        if i - x >= cursor {
                            if i - x == cursor {
                                assert(texts[k as int] == clusters@[k as int]@);
                            }
                        } else {
                            assert(self.cell(i, j) == before.cell(i, j));
                        }
                    }
                }
            }
            cursor = cursor + width;
            k = k + 1;
            }
        }
        cursor
    }

    /// Draws a text in one style, from the cell in column `x` of row `y` to
    /// the right, cluster by cluster, and tells how many columns it takes.
    /// See [`Canvas::draw_graphemes`] for how the clusters are drawn.
    pub fn draw_str(&mut self, x: usize, y: usize, style: Style, text: &str) -> (columns: usize)
        ensures
            final(self).extent() == old(self).extent(),
            columns <= old(self).room(x as int, y as int),
            columns == column_of(
                widths_of(grapheme_clusters(text@)),
                drawn_from(
                    widths_of(grapheme_clusters(text@)),
                    old(self).room(x as int, y as int),
                    0,
                ),
            ),
            forall|i: int, j: int|
                old(self).has(i, j) ==> if j == y && x <= i < x + columns {
                    cell_content(#[trigger] final(self).cell(i, j)) == drawn_cell(
                        grapheme_clusters(text@),
                        widths_of(grapheme_clusters(text@)),
                        style,
                        drawn_from(
                            widths_of(grapheme_clusters(text@)),
                            old(self).room(x as int, y as int),
                            0,
                        ),
                        i - x,
                    )
                } else {
                    final(self).cell(i, j) == old(self).cell(i, j)
                },
    {
        let clusters = graphemes_of(text);
        let mut widths: Vec<usize> = Vec::new();
        let mut k: usize = 0;
        while k < clusters.len()
            invariant
                k <= clusters@.len(),
                widths@.len() == k,
                forall|at: int|
                    0 <= at < k ==> #[trigger] widths@[at] == display_width(clusters@[at]@),
            decreases clusters@.len() - k,
        {
            widths.push(width_of(clusters[k].as_str()));
            k = k + 1;
        }
        proof {
            assert(views_of(clusters@) =~= grapheme_clusters(text@));
            assert(widths@ =~= widths_of(grapheme_clusters(text@)));
        }
        self.draw_graphemes(x, y, style, clusters.as_slice(), widths.as_slice())
    }
}

} // verus!
