//! The two kinds of surface storage: a grid of colours, and a grid of packed
//! pixels in one format. Both stand on one grid of cells, and share the
//! walks over a rectangle of it.

use crate::color::Color;
use crate::display::{lemma_cell_in_grid, DisplayDriver};
use crate::pixel::PixelFormat;
use vstd::prelude::*;

verus! {

/// Cells of one kind, stored row by row.
pub struct Grid<T> {
    cells: Vec<T>,
    width: usize,
    height: usize,
}

impl<T> Grid<T> {
    /// There are as many cells as the size says.
    pub closed spec fn sound(&self) -> bool {
        self.cells@.len() == self.width * self.height
    }

    /// Width and height in cells.
    pub closed spec fn extent(&self) -> (nat, nat) {
        (self.width as nat, self.height as nat)
    }

    /// The cell at `(x, y)`.
    pub closed spec fn cell(&self, x: int, y: int) -> T {
        self.cells@[y * self.width + x]
    }

    /// A sound grid has as many cells as a `Vec` can hold.
    pub proof fn lemma_cells_fit(&self)
        requires
            self.sound(),
        ensures
            self.extent().0 * self.extent().1 <= usize::MAX,
    {
        assert(self.cells.len() == self.cells@.len());
    }

    /// A grid of `width` by `height` cells out of cells given row by row.
    pub fn from_cells(cells: Vec<T>, width: usize, height: usize) -> (grid: Self)
        requires
            cells@.len() == width * height,
        ensures
            grid.sound(),
            grid.extent() == (width as nat, height as nat),
            forall|x: int, y: int|
                0 <= x < width && 0 <= y < height ==> #[trigger] grid.cell(x, y) == cells@[y
                    * width + x],
    {
        Self { cells, width, height }
    }

    pub fn size(&self) -> (size: (usize, usize))
        ensures
            size.0 == self.extent().0,
            size.1 == self.extent().1,
    {
        (self.width, self.height)
    }

    /// Whether there are as many cells as the size says.
    pub fn is_sound(&self) -> (ok: bool)
        ensures
            ok == self.sound(),
    {
        let held: usize = self.cells.len();
        match self.width.checked_mul(self.height) {
            Some(cells) => cells == held,
            None => false,
        }
    }

    /// The cell at `(x, y)`.
    pub fn get(&self, x: usize, y: usize) -> (cell: &T)
        requires
            self.sound(),
            x < self.extent().0,
            y < self.extent().1,
        ensures
            *cell == self.cell(x as int, y as int),
    {
        let held: usize = self.cells.len();
        proof {
            lemma_cell_in_grid(x as int, y as int, self.width as int, self.height as int);
        }
        &self.cells[y * self.width + x]
    }

    /// Puts `value` into the cell at `(x, y)`. No other cell changes.
    pub fn put(&mut self, x: usize, y: usize, value: T)
        requires
            old(self).sound(),
            x < old(self).extent().0,
            y < old(self).extent().1,
        ensures
            final(self).sound(),
            final(self).extent() == old(self).extent(),
            forall|px: int, py: int|
                0 <= px < old(self).extent().0 && 0 <= py < old(self).extent().1
                    ==> #[trigger] final(self).cell(px, py) == if px == x && py == y {
                    value
                } else {
                    old(self).cell(px, py)
                },
    {
        let held: usize = self.cells.len();
        proof {
            lemma_cell_in_grid(x as int, y as int, self.width as int, self.height as int);
        }
        let target: usize = y * self.width + x;
        self.cells[target] = value;
        proof {
            assert forall|px: int, py: int|
                0 <= px < self.width && 0 <= py < self.height implies #[trigger] self.cell(px, py)
                == if px == x && py == y {
                value
            } else {
                old(self).cell(px, py)
            } by {
                lemma_cell_in_grid(px, py, self.width as int, self.height as int);
            }
        }
    }
}

/// A surface that takes and gives colours one pixel at a time: what the
/// walks over a rectangle need of it.
pub trait Cells {
    /// What the surface stores for one pixel.
    type Cell;

    /// What decides how a colour is stored: nothing, or a pixel format.
    type Coding;

    spec fn cells_sound(&self) -> bool;

    spec fn cells_extent(&self) -> (nat, nat);

    /// What is stored at `(x, y)`.
    spec fn cell(&self, x: int, y: int) -> Self::Cell;

    /// The coding of this surface. No operation changes it.
    spec fn coding(&self) -> Self::Coding;

    /// What is stored for a colour under a coding.
    spec fn stored_for(coding: Self::Coding, color: Color) -> Self::Cell;

    /// The channels `(alpha, red, green, blue)` that are read from what is
    /// stored under a coding.
    spec fn read_as(coding: Self::Coding, cell: Self::Cell) -> (u8, u8, u8, u8);

    fn dims(&self) -> (size: (usize, usize))
        ensures
            size.0 == self.cells_extent().0,
            size.1 == self.cells_extent().1,
    ;

    /// The colour of the pixel at `(x, y)`.
    fn peek(&self, x: usize, y: usize) -> (color: Color)
        requires
            self.cells_sound(),
            x < self.cells_extent().0,
            y < self.cells_extent().1,
        ensures
            color.argb() == Self::read_as(self.coding(), self.cell(x as int, y as int)),
    ;

    /// Stores `color` in the pixel at `(x, y)`. Nothing else changes.
    fn poke(&mut self, x: usize, y: usize, color: &Color)
        requires
            old(self).cells_sound(),
            x < old(self).cells_extent().0,
            y < old(self).cells_extent().1,
        ensures
            final(self).cells_sound(),
            final(self).cells_extent() == old(self).cells_extent(),
            final(self).coding() == old(self).coding(),
            forall|px: int, py: int|
                0 <= px < old(self).cells_extent().0 && 0 <= py < old(self).cells_extent().1
                    ==> #[trigger] final(self).cell(px, py) == if px == x && py == y {
                    Self::stored_for(old(self).coding(), *color)
                } else {
                    old(self).cell(px, py)
                },
    ;
}

/// Whether the pixel `(px, py)` of a rectangle at `(x, y)` of the given
/// width has had its turn when the walk stands at column `dx` of row `dy`.
pub open spec fn walked(x: int, y: int, width: int, dx: int, dy: int, px: int, py: int) -> bool {
    x <= px < x + width && (y <= py < y + dy || (py == y + dy && px < x + dx))
}

/// Copies the rectangle at `(x, y)` into the front of `pixels`, row by row.
fn read_rect<S: Cells>(
    surface: &S,
    x: usize,
    y: usize,
    width: usize,
    height: usize,
    pixels: &mut [Color],
)
    requires
        surface.cells_sound(),
        x + width <= surface.cells_extent().0,
        y + height <= surface.cells_extent().1,
        width * height <= old(pixels)@.len(),
    ensures
        final(pixels)@.len() == old(pixels)@.len(),
        forall|i: int|
            0 <= i < width * height ==> (#[trigger] final(pixels)@[i]).argb() == S::read_as(
                surface.coding(),
                surface.cell(x + i % (width as int), y + i / (width as int)),
            ),
        forall|i: int|
            width * height <= i < old(pixels)@.len() ==> final(pixels)@[i] == old(pixels)@[i],
{
    let size: (usize, usize) = surface.dims();
    let room: usize = pixels.len();
    let mut dy: usize = 0;
    while dy < height
        invariant
            surface.cells_sound(),
            size.0 == surface.cells_extent().0,
            size.1 == surface.cells_extent().1,
            x + width <= size.0,
            y + height <= size.1,
            width * height <= room,
            room == old(pixels)@.len(),
            dy <= height,
            pixels@.len() == room,
            forall|i: int|
                0 <= i < dy * width ==> (#[trigger] pixels@[i]).argb() == S::read_as(
                    surface.coding(),
                    surface.cell(x + i % (width as int), y + i / (width as int)),
                ),
            forall|i: int| dy * width <= i < room ==> pixels@[i] == old(pixels)@[i],
        decreases height - dy,
    {
        let mut dx: usize = 0;
        while dx < width
            invariant
                surface.cells_sound(),
                size.0 == surface.cells_extent().0,
                size.1 == surface.cells_extent().1,
                x + width <= size.0,
                y + height <= size.1,
                width * height <= room,
                room == old(pixels)@.len(),
                dy < height,
                dx <= width,
                pixels@.len() == room,
                forall|i: int|
                    0 <= i < dy * width + dx ==> (#[trigger] pixels@[i]).argb()
                        == S::read_as(
                        surface.coding(),
                        surface.cell(x + i % (width as int), y + i / (width as int)),
                    ),
                forall|i: int| dy * width + dx <= i < room ==> pixels@[i] == old(pixels)@[i],
            decreases width - dx,
        {
            proof {
                lemma_cell_in_grid(dx as int, dy as int, width as int, height as int);
            }
            let color: Color = surface.peek(x + dx, y + dy);
            pixels[dy * width + dx] = color;
            dx = dx + 1;
        }
        proof {
            assert((dy + 1) * width == dy * width + width) by (nonlinear_arith);
        }
        dy = dy + 1;
    }
    proof {
        assert(height * width == width * height) by (nonlinear_arith);
    }
}

/// Stores a colour in every pixel of the rectangle at `(x, y)`: the one
/// colour `plain` if there is one, else the front of `pixels`, row by row.
fn write_rect<S: Cells>(
    surface: &mut S,
    x: usize,
    y: usize,
    width: usize,
    height: usize,
    pixels: &[Color],
    plain: Option<&Color>,
)
    requires
        old(surface).cells_sound(),
        x + width <= old(surface).cells_extent().0,
        y + height <= old(surface).cells_extent().1,
        plain is None ==> width * height <= pixels@.len(),
    ensures
        final(surface).cells_sound(),
        final(surface).cells_extent() == old(surface).cells_extent(),
        final(surface).coding() == old(surface).coding(),
        forall|px: int, py: int|
            0 <= px < old(surface).cells_extent().0 && 0 <= py < old(surface).cells_extent().1
                ==> #[trigger] final(surface).cell(px, py) == if x <= px < x + width && y <= py < y
                + height {
                S::stored_for(
                    old(surface).coding(),
                    inked(pixels@, plain, (py - y) * width + (px - x)),
                )
            } else {
                old(surface).cell(px, py)
            },
{
    let size: (usize, usize) = surface.dims();
    let given: usize = pixels.len();
    let mut dy: usize = 0;
    while dy < height
        invariant
            surface.cells_sound(),
            surface.cells_extent() == old(surface).cells_extent(),
            size.0 == surface.cells_extent().0,
            size.1 == surface.cells_extent().1,
            x + width <= size.0,
            y + height <= size.1,
            given == pixels@.len(),
            plain is None ==> width * height <= given,
            dy <= height,
            surface.coding() == old(surface).coding(),
            forall|px: int, py: int|
                0 <= px < size.0 && 0 <= py < size.1 ==> #[trigger] surface.cell(px, py)
                    == if walked(x as int, y as int, width as int, 0, dy as int, px, py) {
                    S::stored_for(
                    old(surface).coding(),
                    inked(pixels@, plain, (py - y) * width + (px - x)),
                )
                } else {
                    old(surface).cell(px, py)
                },
        decreases height - dy,
    {
        let mut dx: usize = 0;
        while dx < width
            invariant
                surface.cells_sound(),
                surface.cells_extent() == old(surface).cells_extent(),
                size.0 == surface.cells_extent().0,
                size.1 == surface.cells_extent().1,
                x + width <= size.0,
                y + height <= size.1,
                given == pixels@.len(),
                plain is None ==> width * height <= given,
                dy < height,
                dx <= width,
                surface.coding() == old(surface).coding(),
                forall|px: int, py: int|
                    0 <= px < size.0 && 0 <= py < size.1 ==> #[trigger] surface.cell(px, py)
                        == if walked(x as int, y as int, width as int, dx as int, dy as int, px, py) {
                        S::stored_for(
                            old(surface).coding(),
                            inked(pixels@, plain, (py - y) * width + (px - x)),
                        )
                    } else {
                        old(surface).cell(px, py)
                    },
            decreases width - dx,
        {
            proof {
                lemma_cell_in_grid(dx as int, dy as int, width as int, height as int);
            }
            match plain {
                Some(color) => {
                    surface.poke(x + dx, y + dy, color);
                },
                None => {
                    surface.poke(x + dx, y + dy, &pixels[dy * width + dx]);
                },
            }
            dx = dx + 1;
        }
        dy = dy + 1;
    }
}

/// The colour that goes into the pixel with the row-major index `index` of
/// a rectangle: the one colour `plain` if there is one, else the colour at
/// that index of `pixels`.
pub open spec fn inked(pixels: Seq<Color>, plain: Option<&Color>, index: int) -> Color {
    match plain {
        Some(color) => *color,
        None => pixels[index],
    }
}

/// `count` colours, all black with alpha 0.
pub(crate) fn blank(count: usize) -> (pixels: Vec<Color>)
    ensures
        pixels.len() == count,
        forall|i: int| 0 <= i < count ==> pixels@[i] == Color::Rgb(0, 0, 0),
{
    let mut pixels: Vec<Color> = Vec::new();
    let mut filled: usize = 0;
    while filled < count
        invariant
            filled <= count,
            pixels.len() == filled,
            forall|i: int| 0 <= i < filled ==> pixels@[i] == Color::Rgb(0, 0, 0),
        decreases count - filled,
    {
        pixels.push(Color::new_rgb(0, 0, 0));
        filled = filled + 1;
    }
    pixels
}

/// A grid of colours, stored as they are given.
pub struct ColorBuffer {
    grid: Grid<Color>,
}

impl ColorBuffer {
    /// The colour stored at `(x, y)`.
    pub closed spec fn color_at(&self, x: int, y: int) -> Color {
        self.grid.cell(x, y)
    }

    /// A sound surface has as many cells as a `Vec` can hold.
    pub proof fn lemma_cells_fit(&self)
        requires
            self.sound(),
        ensures
            self.extent().0 * self.extent().1 <= usize::MAX,
    {
        self.grid.lemma_cells_fit();
    }

    /// Whether the surface holds as many colours as its size says.
    pub fn is_sound(&self) -> (ok: bool)
        ensures
            ok == self.sound(),
    {
        self.grid.is_sound()
    }

    /// A surface of `width` by `height` pixels, all black with alpha 0.
    pub fn new(width: usize, height: usize) -> (surface: Self)
        requires
            width * height <= usize::MAX,
        ensures
            surface.sound(),
            surface.extent() == (width as nat, height as nat),
            forall|x: int, y: int|
                0 <= x < width && 0 <= y < height ==> #[trigger] surface.color_at(x, y)
                    == Color::Rgb(0, 0, 0),
    {
        let cells: Vec<Color> = blank(width * height);
        let surface = Self { grid: Grid::from_cells(cells, width, height) };
        assert forall|x: int, y: int| 0 <= x < width && 0 <= y < height implies #[trigger] surface.color_at(
            x,
            y,
        ) == Color::Rgb(0, 0, 0) by {
            lemma_cell_in_grid(x, y, width as int, height as int);
        }
        surface
    }
}

impl Cells for ColorBuffer {
    type Cell = Color;

    type Coding = ();

    open spec fn coding(&self) -> () {
        ()
    }

    closed spec fn cells_sound(&self) -> bool {
        self.grid.sound()
    }

    closed spec fn cells_extent(&self) -> (nat, nat) {
        self.grid.extent()
    }

    open spec fn cell(&self, x: int, y: int) -> Color {
        self.color_at(x, y)
    }

    open spec fn stored_for(coding: (), color: Color) -> Color {
        color
    }

    open spec fn read_as(coding: (), cell: Color) -> (u8, u8, u8, u8) {
        cell.argb()
    }

    fn dims(&self) -> (size: (usize, usize)) {
        self.grid.size()
    }

    fn peek(&self, x: usize, y: usize) -> (color: Color) {
        self.grid.get(x, y).clone()
    }

    fn poke(&mut self, x: usize, y: usize, color: &Color) {
        self.grid.put(x, y, color.clone());
    }
}

impl DisplayDriver for ColorBuffer {
    open spec fn sound(&self) -> bool {
        self.cells_sound()
    }

    open spec fn extent(&self) -> (nat, nat) {
        self.cells_extent()
    }

    open spec fn at(&self, x: int, y: int) -> (u8, u8, u8, u8) {
        self.color_at(x, y).argb()
    }

    open spec fn kept(&self, argb: (u8, u8, u8, u8)) -> (u8, u8, u8, u8) {
        argb
    }

    fn size(&self) -> (size: (usize, usize)) {
        self.grid.size()
    }

    fn read(&self, x: usize, y: usize, width: usize, height: usize, pixels: &mut [Color]) {
        read_rect(self, x, y, width, height, pixels);
    }

    fn write(&mut self, x: usize, y: usize, width: usize, height: usize, pixels: &[Color])
        ensures
            forall|px: int, py: int|
                0 <= px < old(self).extent().0 && 0 <= py < old(self).extent().1
                    ==> #[trigger] final(self).color_at(px, py) == if x <= px < x + width && y
                    <= py < y + height {
                    pixels@[(py - y) * width + (px - x)]
                } else {
                    old(self).color_at(px, py)
                },
    {
        write_rect(self, x, y, width, height, pixels, None);
        proof {
            assert forall|px: int, py: int|
                0 <= px < old(self).extent().0 && 0 <= py < old(self).extent().1
                implies #[trigger] self.color_at(px, py) == self.cell(px, py) by {}
        }
    }

    fn fill(&mut self, x: usize, y: usize, width: usize, height: usize, color: &Color)
        ensures
            forall|px: int, py: int|
                0 <= px < old(self).extent().0 && 0 <= py < old(self).extent().1
                    ==> #[trigger] final(self).color_at(px, py) == if x <= px < x + width && y
                    <= py < y + height {
                    *color
                } else {
                    old(self).color_at(px, py)
                },
    {
        let none: Vec<Color> = Vec::new();
        write_rect(self, x, y, width, height, none.as_slice(), Some(color));
        proof {
            assert forall|px: int, py: int|
                0 <= px < old(self).extent().0 && 0 <= py < old(self).extent().1
                implies #[trigger] self.color_at(px, py) == self.cell(px, py) by {}
        }
    }
}

/// A grid of packed pixels, all in one format that is not the paletted one.
pub struct DrawBuffer {
    grid: Grid<u32>,
    pixel_format: PixelFormat,
}

impl DrawBuffer {
    /// The packed pixel stored at `(x, y)`.
    pub closed spec fn word_at(&self, x: int, y: int) -> u32 {
        self.grid.cell(x, y)
    }

    /// The format of every stored pixel.
    pub closed spec fn format(&self) -> PixelFormat {
        self.pixel_format
    }

    /// A surface of `width` by `height` pixels, every one the word 0.
    pub fn new(width: usize, height: usize, pixel_format: PixelFormat) -> (surface: Self)
        requires
            pixel_format != PixelFormat::U8,
            width * height <= usize::MAX,
        ensures
            surface.sound(),
            surface.extent() == (width as nat, height as nat),
            surface.format() == pixel_format,
            forall|x: int, y: int|
                0 <= x < width && 0 <= y < height ==> #[trigger] surface.word_at(x, y) == 0,
    {
        let count: usize = width * height;
        let mut cells: Vec<u32> = Vec::new();
        let mut filled: usize = 0;
        while filled < count
            invariant
                filled <= count,
                cells@.len() == filled,
                forall|i: int| 0 <= i < filled ==> cells@[i] == 0,
            decreases count - filled,
        {
            cells.push(0);
            filled = filled + 1;
        }
        let surface = Self { grid: Grid::from_cells(cells, width, height), pixel_format };
        assert forall|x: int, y: int| 0 <= x < width && 0 <= y < height implies #[trigger] surface.word_at(
            x,
            y,
        ) == 0 by {
            lemma_cell_in_grid(x, y, width as int, height as int);
        }
        surface
    }

    /// Stores the packed pixel `color` at `(x, y)` as it is. Nothing else
    /// changes.
    pub fn write_at(&mut self, x: usize, y: usize, color: u32)
        requires
            old(self).sound(),
            x < old(self).extent().0,
            y < old(self).extent().1,
        ensures
            final(self).sound(),
            final(self).extent() == old(self).extent(),
            final(self).format() == old(self).format(),
            forall|px: int, py: int|
                0 <= px < old(self).extent().0 && 0 <= py < old(self).extent().1
                    ==> #[trigger] final(self).word_at(px, py) == if px == x && py == y {
                    color
                } else {
                    old(self).word_at(px, py)
                },
    {
        self.grid.put(x, y, color);
    }

    /// The packed pixel at `(x, y)`.
    pub fn word(&self, x: usize, y: usize) -> (word: u32)
        requires
            self.sound(),
            x < self.extent().0,
            y < self.extent().1,
        ensures
            word == self.word_at(x as int, y as int),
    {
        *self.grid.get(x, y)
    }
}

impl Cells for DrawBuffer {
    type Cell = u32;

    type Coding = PixelFormat;

    open spec fn coding(&self) -> PixelFormat {
        self.format()
    }

    closed spec fn cells_sound(&self) -> bool {
        self.grid.sound() && self.pixel_format != PixelFormat::U8
    }

    closed spec fn cells_extent(&self) -> (nat, nat) {
        self.grid.extent()
    }

    open spec fn cell(&self, x: int, y: int) -> u32 {
        self.word_at(x, y)
    }

    open spec fn stored_for(coding: PixelFormat, color: Color) -> u32 {
        coding.encoded(color.argb())
    }

    open spec fn read_as(coding: PixelFormat, cell: u32) -> (u8, u8, u8, u8) {
        coding.decoded(cell).argb()
    }

    fn dims(&self) -> (size: (usize, usize)) {
        self.grid.size()
    }

    fn peek(&self, x: usize, y: usize) -> (color: Color) {
        self.pixel_format.u32_as_color(*self.grid.get(x, y))
    }

    fn poke(&mut self, x: usize, y: usize, color: &Color) {
        let word: u32 = self.pixel_format.color_as_u32(color);
        self.grid.put(x, y, word);
    }
}

impl DisplayDriver for DrawBuffer {
    open spec fn sound(&self) -> bool {
        self.cells_sound()
    }

    open spec fn extent(&self) -> (nat, nat) {
        self.cells_extent()
    }

    open spec fn at(&self, x: int, y: int) -> (u8, u8, u8, u8) {
        self.format().decoded(self.word_at(x, y)).argb()
    }

    open spec fn kept(&self, argb: (u8, u8, u8, u8)) -> (u8, u8, u8, u8) {
        self.format().kept(argb)
    }

    fn size(&self) -> (size: (usize, usize)) {
        self.grid.size()
    }

    fn read(&self, x: usize, y: usize, width: usize, height: usize, pixels: &mut [Color]) {
        read_rect(self, x, y, width, height, pixels);
    }

    fn write(&mut self, x: usize, y: usize, width: usize, height: usize, pixels: &[Color])
        ensures
            final(self).format() == old(self).format(),
            forall|px: int, py: int|
                0 <= px < old(self).extent().0 && 0 <= py < old(self).extent().1
                    ==> #[trigger] final(self).word_at(px, py) == if x <= px < x + width && y <= py
                    < y + height {
                    old(self).format().encoded(pixels@[(py - y) * width + (px - x)].argb())
                } else {
                    old(self).word_at(px, py)
                },
    {
        write_rect(self, x, y, width, height, pixels, None);
        proof {
            assert forall|px: int, py: int|
                0 <= px < old(self).extent().0 && 0 <= py < old(self).extent().1
                implies #[trigger] self.word_at(px, py) == self.cell(px, py) by {}
        }
    }

    fn fill(&mut self, x: usize, y: usize, width: usize, height: usize, color: &Color)
        ensures
            final(self).format() == old(self).format(),
            forall|px: int, py: int|
                0 <= px < old(self).extent().0 && 0 <= py < old(self).extent().1
                    ==> #[trigger] final(self).word_at(px, py) == if x <= px < x + width && y <= py
                    < y + height {
                    old(self).format().encoded(color.argb())
                } else {
                    old(self).word_at(px, py)
                },
    {
        let none: Vec<Color> = Vec::new();
        write_rect(self, x, y, width, height, none.as_slice(), Some(color));
        proof {
            assert forall|px: int, py: int|
                0 <= px < old(self).extent().0 && 0 <= py < old(self).extent().1
                implies #[trigger] self.word_at(px, py) == self.cell(px, py) by {}
        }
    }
}

} // verus!
