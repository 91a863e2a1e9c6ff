//! The builder of a window's frame.

use crate::color::Color;
use crate::display::DisplayDriver;
use vstd::prelude::*;

verus! {

/// How high the title bar is that `draw` paints, and that a new builder
/// starts with.
pub const TITLE_BAR_HEIGHT: usize = 20;

/// What a window builder holds.
pub struct WindowShape {
    pub width: usize,
    pub height: usize,
    pub title_height: usize,
    pub title: Seq<char>,
}

/// Collects the size and the title of a window, and draws its title bar.
pub struct WindowBuilder {
    width: usize,
    height: usize,
    title_height: usize,
    title: String,
}

impl WindowBuilder {
    pub closed spec fn view(&self) -> WindowShape {
        WindowShape {
            width: self.width,
            height: self.height,
            title_height: self.title_height,
            title: self.title@,
        }
    }

    /// The colour of the title bar.
    pub open spec fn title_color() -> Color {
        Color::Rgb(0x1a, 0x1a, 0x1a)
    }

    /// A builder for a window of the given size, with a title bar of the
    /// usual height and no title.
    pub fn new(width: usize, height: usize) -> (builder: Self)
        ensures
            builder@ == (WindowShape {
                width,
                height,
                title_height: TITLE_BAR_HEIGHT,
                title: Seq::empty(),
            }),
    {
        Self { width, height, title_height: TITLE_BAR_HEIGHT, title: String::new() }
    }
}

impl WindowBuilder {
    pub fn width(&mut self, width: usize) -> (builder: &mut Self)
        ensures
            builder@ == (WindowShape { width, ..old(self)@ }),
            *final(self) == *final(builder),
    {
        self.width = width;
        self
    }

    pub fn height(&mut self, height: usize) -> (builder: &mut Self)
        ensures
            builder@ == (WindowShape { height, ..old(self)@ }),
            *final(self) == *final(builder),
    {
        self.height = height;
        self
    }

    pub fn title_height(&mut self, title_height: usize) -> (builder: &mut Self)
        ensures
            builder@ == (WindowShape { title_height, ..old(self)@ }),
            *final(self) == *final(builder),
    {
        self.title_height = title_height;
        self
    }

    /// Sets the title to the string that `title` converts to.
    pub fn title<S>(&mut self, title: S) -> (builder: &mut Self) where String: From<S>
        ensures
            exists|text: String|
                {
                    &&& #[trigger] call_ensures(<String as From<S>>::from, (title,), text)
                    &&& builder@ == (WindowShape { title: text@, ..old(self)@ })
                },
            *final(self) == *final(builder),
    {
        self.title = String::from(title);
        self
    }
}

impl WindowBuilder {
    /// Paints the title bar: the top rows of the sink, as wide as the
    /// window, in the colour of the title bar. Nothing else changes.
    pub fn draw<T: DisplayDriver>(&self, driver: &mut T)
        requires
            old(driver).sound(),
            self@.width <= old(driver).extent().0,
            TITLE_BAR_HEIGHT <= old(driver).extent().1,
        ensures
            final(driver).sound(),
            final(driver).extent() == old(driver).extent(),
            forall|argb: (u8, u8, u8, u8)| final(driver).kept(argb) == old(driver).kept(argb),
            forall|px: int, py: int|
                0 <= px < old(driver).extent().0 && 0 <= py < old(driver).extent().1
                    ==> (#[trigger] final(driver).at(px, py)) == if px < self@.width && py
                    < TITLE_BAR_HEIGHT {
                    old(driver).kept(Self::title_color().argb())
                } else {
                    old(driver).at(px, py)
                },
    {
        let title_color: Color = Color::new_rgb(0x1a, 0x1a, 0x1a);
        driver.fill(0, 0, self.width, TITLE_BAR_HEIGHT, &title_color);
    }
}

} // verus!
