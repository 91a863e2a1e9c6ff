//! Layers: the handle that names one, and what the display keeps for it.

use crate::color::Color;
use crate::display::buffers::ColorBuffer;
use crate::display::DisplayDriver;
use vstd::prelude::*;

verus! {

/// The name of a layer inside the display that made it. The surface itself
/// is reached through `Display::layer` and `Display::layer_mut`.
#[derive(Debug, Clone, Copy, PartialEq, Eq, PartialOrd, Ord, Structural)]
pub struct Layer {
    id: usize,
}

impl Layer {
    /// The number of layers that the display held when it made this one.
    pub closed spec fn index(&self) -> nat {
        self.id as nat
    }

    pub(crate) fn new(id: usize) -> (layer: Self)
        ensures
            layer.index() == id,
    {
        Self { id }
    }

    pub(crate) fn slot(&self) -> (id: usize)
        ensures
            id == self.index(),
    {
        self.id
    }

    /// Two handles are the same handle when their indices are.
    pub proof fn lemma_same_index(self, other: Layer)
        ensures
            self.index() == other.index() <==> self == other,
    {
    }
}

/// A layer: a surface of colours with a place on the display, a size, and a
/// paint priority.
pub struct LayerData {
    width: usize,
    height: usize,
    x: usize,
    y: usize,
    color_buffer: ColorBuffer,
    priority: usize,
}

impl LayerData {
    /// Where the layer's top left corner lies on the display.
    pub closed spec fn place(&self) -> (usize, usize) {
        (self.x, self.y)
    }

    /// The width and height that the layer takes up on the display.
    pub closed spec fn span(&self) -> (usize, usize) {
        (self.width, self.height)
    }

    /// The paint priority: layers are painted from the lowest up.
    pub closed spec fn rank(&self) -> usize {
        self.priority
    }

    /// The surface behind the layer.
    pub closed spec fn surface(&self) -> ColorBuffer {
        self.color_buffer
    }

    /// Whether the position `(px, py)` of the display lies on the layer.
    pub open spec fn covers(&self, px: int, py: int) -> bool {
        &&& self.place().0 <= px < self.place().0 + self.span().0
        &&& self.place().1 <= py < self.place().1 + self.span().1
    }

    pub(crate) fn new(width: usize, height: usize, x: usize, y: usize, priority: usize) -> (layer:
        Self)
        requires
            width * height <= usize::MAX,
        ensures
            layer.sound(),
            layer.place() == (x, y),
            layer.span() == (width, height),
            layer.rank() == priority,
            layer.extent() == (width as nat, height as nat),
            forall|px: int, py: int|
                0 <= px < width && 0 <= py < height ==> #[trigger] layer.surface().color_at(px, py)
                    == Color::Rgb(0, 0, 0),
    {
        Self { width, height, x, y, color_buffer: ColorBuffer::new(width, height), priority }
    }

    /// Whether the layer can be painted onto a sink of the given size: its
    /// surface holds what its size says, and its rectangle lies on the sink.
    pub fn fits(&self, sink_width: usize, sink_height: usize) -> (ok: bool)
        ensures
            ok == {
                &&& self.sound()
                &&& self.span().0 <= self.extent().0
                &&& self.span().1 <= self.extent().1
                &&& self.place().0 + self.span().0 <= sink_width
                &&& self.place().1 + self.span().1 <= sink_height
            },
    {
        let surface: (usize, usize) = self.color_buffer.size();
        let right: Option<usize> = self.x.checked_add(self.width);
        let bottom: Option<usize> = self.y.checked_add(self.height);
        match (right, bottom) {
            (Some(right), Some(bottom)) => self.color_buffer.is_sound() && self.width
                <= surface.0 && self.height <= surface.1 && right <= sink_width && bottom
                <= sink_height,
            _ => false,
        }
    }

    /// The paint priority: layers are painted from the lowest up.
    pub fn priority(&self) -> (priority: usize)
        ensures
            priority == self.rank(),
    {
        self.priority
    }

    pub(crate) fn set_priority(&mut self, priority: usize)
        ensures
            final(self).rank() == priority,
            final(self).place() == old(self).place(),
            final(self).span() == old(self).span(),
            final(self).surface() == old(self).surface(),
    {
        self.priority = priority;
    }
}

impl LayerData {
    pub fn position(&self) -> (position: (usize, usize))
        ensures
            position == self.place(),
    {
        (self.x, self.y)
    }

    pub fn size(&self) -> (size: (usize, usize))
        ensures
            size == self.span(),
    {
        (self.width, self.height)
    }

    /// Moves the layer's top left corner to `(x, y)`.
    pub fn move_to(&mut self, x: usize, y: usize)
        ensures
            final(self).place() == (x, y),
            final(self).span() == old(self).span(),
            final(self).rank() == old(self).rank(),
            final(self).surface() == old(self).surface(),
    {
        self.x = x;
        self.y = y;
    }

    /// Sets the width and height that the layer takes up on the display. The
    /// surface behind it keeps its own size and content.
    pub fn resize(&mut self, width: usize, height: usize)
        ensures
            final(self).span() == (width, height),
            final(self).place() == old(self).place(),
            final(self).rank() == old(self).rank(),
            final(self).surface() == old(self).surface(),
    {
        self.width = width;
        self.height = height;
    }
}

impl DisplayDriver for LayerData {
    open spec fn sound(&self) -> bool {
        self.surface().sound()
    }

    open spec fn extent(&self) -> (nat, nat) {
        self.surface().extent()
    }

    open spec fn at(&self, x: int, y: int) -> (u8, u8, u8, u8) {
        self.surface().at(x, y)
    }

    open spec fn kept(&self, argb: (u8, u8, u8, u8)) -> (u8, u8, u8, u8) {
        self.surface().kept(argb)
    }

    fn size(&self) -> (size: (usize, usize)) {
        self.color_buffer.size()
    }

    fn read(&self, x: usize, y: usize, width: usize, height: usize, pixels: &mut [Color]) {
        self.color_buffer.read(x, y, width, height, pixels);
    }

    fn write(&mut self, x: usize, y: usize, width: usize, height: usize, pixels: &[Color])
        ensures
            final(self).place() == old(self).place(),
            final(self).span() == old(self).span(),
            final(self).rank() == old(self).rank(),
    {
        self.color_buffer.write(x, y, width, height, pixels);
    }

    fn fill(&mut self, x: usize, y: usize, width: usize, height: usize, color: &Color)
        ensures
            final(self).place() == old(self).place(),
            final(self).span() == old(self).span(),
            final(self).rank() == old(self).rank(),
    {
        self.color_buffer.fill(x, y, width, height, color);
    }
}

} // verus!
