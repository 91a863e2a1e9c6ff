//! Surfaces, layers, and the display that composites layers onto a sink.

pub mod buffers;
pub mod layer;
pub mod order;

use crate::color::{lemma_mix_keeps_opaque, mixed, Color};
use crate::display::buffers::blank;
use crate::display::layer::{Layer, LayerData};
use crate::display::order::{
    complete, is_slot, lemma_higher_rank_is_later, lemma_insert_keeps_order,
    lemma_ordered_under_change, lemma_remove_keeps_order, ordered, rank_of,
};
use vstd::prelude::*;

verus! {

/// What a pixel sink must offer: its size, and reading and writing of
/// axis-aligned rectangles of colours, row by row.
///
/// A sink is modelled by its extent and by the channels
/// `(alpha, red, green, blue)` found at each position inside it.
pub trait DisplayDriver {
    /// The sink's own invariant. Reading and writing ask for it, and writing
    /// keeps it.
    spec fn sound(&self) -> bool;

    /// Width and height in pixels.
    spec fn extent(&self) -> (nat, nat);

    /// The channels that a read finds at `(x, y)`.
    spec fn at(&self, x: int, y: int) -> (u8, u8, u8, u8);

    /// The channels that a read finds where a colour with the channels
    /// `argb` was written: a sink may store less than it is given.
    spec fn kept(&self, argb: (u8, u8, u8, u8)) -> (u8, u8, u8, u8);

    fn size(&self) -> (size: (usize, usize))
        ensures
            size.0 == self.extent().0,
            size.1 == self.extent().1,
    ;

    /// Copies the rectangle at `(x, y)` into the front of `pixels`, row by
    /// row. The rest of `pixels` is left alone.
    fn read(&self, x: usize, y: usize, width: usize, height: usize, pixels: &mut [Color])
        requires
            self.sound(),
            x + width <= self.extent().0,
            y + height <= self.extent().1,
            width * height <= old(pixels)@.len(),
        ensures
            final(pixels)@.len() == old(pixels)@.len(),
            forall|i: int|
                0 <= i < width * height ==> (#[trigger] final(pixels)@[i]).argb() == self.at(
                    x + i % (width as int),
                    y + i / (width as int),
                ),
            forall|i: int|
                width * height <= i < old(pixels)@.len() ==> final(pixels)@[i] == old(pixels)@[i],
    ;

    /// Stores the front of `pixels`, row by row, in the rectangle at
    /// `(x, y)`. Nothing outside the rectangle changes.
    fn write(&mut self, x: usize, y: usize, width: usize, height: usize, pixels: &[Color])
        requires
            old(self).sound(),
            x + width <= old(self).extent().0,
            y + height <= old(self).extent().1,
            width * height <= pixels@.len(),
        ensures
            final(self).sound(),
            final(self).extent() == old(self).extent(),
            forall|argb: (u8, u8, u8, u8)| final(self).kept(argb) == old(self).kept(argb),
            forall|px: int, py: int|
                0 <= px < old(self).extent().0 && 0 <= py < old(self).extent().1
                    ==> (#[trigger] final(self).at(px, py)) == if x <= px < x + width && y <= py
                    < y + height {
                    old(self).kept(pixels@[(py - y) * width + (px - x)].argb())
                } else {
                    old(self).at(px, py)
                },
    ;

    /// Stores one colour in every pixel of the rectangle at `(x, y)`.
    /// Nothing outside the rectangle changes.
    fn fill(&mut self, x: usize, y: usize, width: usize, height: usize, color: &Color)
        requires
            old(self).sound(),
            x + width <= old(self).extent().0,
            y + height <= old(self).extent().1,
        ensures
            final(self).sound(),
            final(self).extent() == old(self).extent(),
            forall|argb: (u8, u8, u8, u8)| final(self).kept(argb) == old(self).kept(argb),
            forall|px: int, py: int|
                0 <= px < old(self).extent().0 && 0 <= py < old(self).extent().1
                    ==> (#[trigger] final(self).at(px, py)) == if x <= px < x + width && y <= py
                    < y + height {
                    old(self).kept(color.argb())
                } else {
                    old(self).at(px, py)
                },
    ;
}

/// A cell inside a grid has its row-major index inside the grid's storage.
pub proof fn lemma_cell_in_grid(x: int, y: int, width: int, height: int)
    requires
        0 <= x < width,
        0 <= y < height,
    ensures
        0 <= y * width + x < width * height,
        (y * width + x) % width == x,
        (y * width + x) / width == y,
{
    assert(y * width + x < width * height) by (nonlinear_arith)
        requires
            0 <= x < width,
            0 <= y < height,
    {
        assert((y + 1) * width <= height * width);
    }
    assert(0 <= y * width) by (nonlinear_arith)
        requires
            0 <= y,
            0 < width,
    ;
    vstd::arithmetic::div_mod::lemma_fundamental_div_mod_converse(y * width + x, width, y, x);
}

/// The part of the display that a flush is restricted to: the range of
/// columns and the range of rows. `None` is the whole display.
pub type Area = Option<((usize, usize), (usize, usize))>;

/// Whether a flush restricted to `area` paints the layer: its left and top
/// edge must not lie before the start of the ranges, and its right and
/// bottom edge must lie before their end.
pub open spec fn chosen(data: LayerData, area: Area) -> bool {
    match area {
        None => true,
        Some((columns, rows)) => {
            &&& data.place().0 >= columns.0
            &&& data.place().0 + data.span().0 < columns.1
            &&& data.place().1 >= rows.0
            &&& data.place().1 + data.span().1 < rows.1
        },
    }
}

/// Whether the layer can be painted onto `sink`: its surface holds what its
/// size says, and its rectangle lies on the sink.
pub open spec fn paintable<D: DisplayDriver>(sink: D, data: LayerData) -> bool {
    &&& data.sound()
    &&& data.span().0 <= data.extent().0
    &&& data.span().1 <= data.extent().1
    &&& data.place().0 + data.span().0 <= sink.extent().0
    &&& data.place().1 + data.span().1 <= sink.extent().1
}

/// The channels at `(px, py)` of `sink` once the layer has been painted onto
/// it: on the layer, the layer's pixel mixed over what was there, as the
/// sink keeps it; off the layer, what was there.
pub open spec fn blended<D: DisplayDriver>(sink: D, data: LayerData, px: int, py: int) -> (
    u8,
    u8,
    u8,
    u8,
) {
    if data.covers(px, py) {
        sink.kept(mixed(data.at(px - data.place().0, py - data.place().1), sink.at(px, py)))
    } else {
        sink.at(px, py)
    }
}

/// Paints one layer onto the sink: reads the layer, reads what lies under
/// it, mixes the layer over it pixel by pixel, and writes the result back.
/// Where the layer's pixel has alpha 255, the sink holds that pixel
/// afterwards, as the sink keeps it.
pub fn blend_onto<D: DisplayDriver>(sink: &mut D, data: &LayerData)
    requires
        old(sink).sound(),
        paintable(*old(sink), *data),
    ensures
        final(sink).sound(),
        final(sink).extent() == old(sink).extent(),
        forall|argb: (u8, u8, u8, u8)| final(sink).kept(argb) == old(sink).kept(argb),
        forall|px: int, py: int|
            0 <= px < old(sink).extent().0 && 0 <= py < old(sink).extent().1
                ==> (#[trigger] final(sink).at(px, py)) == blended(*old(sink), *data, px, py),
        forall|px: int, py: int|
            0 <= px < old(sink).extent().0 && 0 <= py < old(sink).extent().1 && data.covers(px, py)
                && data.at(px - data.place().0, py - data.place().1).0 == 0xff
                ==> (#[trigger] final(sink).at(px, py)) == old(sink).kept(
                data.at(px - data.place().0, py - data.place().1),
            ),
{
    let position: (usize, usize) = data.position();
    let size: (usize, usize) = data.size();
    let x: usize = position.0;
    let y: usize = position.1;
    let width: usize = size.0;
    let height: usize = size.1;
    proof {
        data.surface().lemma_cells_fit();
        assert(width * height <= data.extent().0 * data.extent().1) by (nonlinear_arith)
            requires
                0 <= width <= data.extent().0,
                0 <= height <= data.extent().1,
        ;
    }
    let cells: usize = width * height;
    let mut pixels: Vec<Color> = blank(cells);
    data.read(0, 0, width, height, pixels.as_mut_slice());
    let mut under: Vec<Color> = blank(cells);
    sink.read(x, y, width, height, under.as_mut_slice());
    let mut mixes: Vec<Color> = Vec::new();
    let mut done: usize = 0;
    while done < cells
        invariant
            done <= cells,
            pixels.len() == cells,
            under.len() == cells,
            mixes.len() == done,
            forall|i: int|
                0 <= i < done ==> (#[trigger] mixes@[i]).argb() == mixed(
                    pixels@[i].argb(),
                    under@[i].argb(),
                ),
        decreases cells - done,
    {
        let mix: Color = pixels[done].mix(&under[done]);
        mixes.push(mix);
        done = done + 1;
    }
    sink.write(x, y, width, height, mixes.as_slice());
    proof {
        assert forall|px: int, py: int|
            0 <= px < old(sink).extent().0 && 0 <= py < old(sink).extent().1 implies (#[trigger] sink.at(
            px,
            py,
        )) == blended(*old(sink), *data, px, py) && (data.covers(px, py) && data.at(
            px - data.place().0,
            py - data.place().1,
        ).0 == 0xff ==> sink.at(px, py) == old(sink).kept(
            data.at(px - data.place().0, py - data.place().1),
        )) by {
            if data.covers(px, py) {
                lemma_mix_keeps_or_not(
                    data.at(px - data.place().0, py - data.place().1),
                    old(sink).at(px, py),
                );
            }
            if data.covers(px, py) {
                lemma_cell_in_grid(px - x, py - y, width as int, height as int);
                let i: int = (py - y) * width + (px - x);
                assert(mixes@[i].argb() == mixed(pixels@[i].argb(), under@[i].argb()));
                assert(under@[i].argb() == old(sink).at(x + i % (width as int), y + i / (width as int)));
                assert(pixels@[i].argb() == data.at(0 + i % (width as int), 0 + i / (width as int)));
            }
        }
    }
}

/// Where the upper colour has alpha 255, the mix is the upper colour.
proof fn lemma_mix_keeps_or_not(upper: (u8, u8, u8, u8), lower: (u8, u8, u8, u8))
    ensures
        upper.0 == 0xff ==> mixed(upper, lower) == upper,
{
    if upper.0 == 0xff {
        lemma_mix_keeps_opaque(upper, lower);
    }
}

/// The compositor: one pixel sink, and the layers that are painted onto it
/// from the lowest priority up. Layers of one priority are painted in the
/// order in which they came to it.
pub struct Display<D: DisplayDriver> {
    driver: D,
    width: usize,
    height: usize,
    layers: Vec<LayerData>,
    layer_sorted: Vec<Layer>,
}

impl<D: DisplayDriver> Display<D> {
    /// The sink.
    pub closed spec fn sink(&self) -> D {
        self.driver
    }

    /// The width and height that the display was made with.
    pub closed spec fn declared(&self) -> (usize, usize) {
        (self.width, self.height)
    }

    /// Every layer's data, by the index of its handle.
    pub closed spec fn layers(&self) -> Seq<LayerData> {
        self.layers@
    }

    /// The handles in the order in which the layers are painted.
    pub closed spec fn paint_order(&self) -> Seq<Layer> {
        self.layer_sorted@
    }

    /// Whether this display made the handle.
    pub open spec fn knows(&self, layer: Layer) -> bool {
        layer.index() < self.layers().len()
    }

    /// The data of a layer that the display knows.
    pub open spec fn data(&self, layer: Layer) -> LayerData {
        self.layers()[layer.index() as int]
    }

    /// The invariant of the layer bookkeeping: every layer is painted
    /// exactly once, and priorities never fall along the paint order.
    pub open spec fn wf(&self) -> bool {
        &&& ordered(self.paint_order(), self.layers())
        &&& complete(self.paint_order(), self.layers())
    }

    /// The channels at `(px, py)` of the sink once the first `count` layers
    /// of the paint order that `area` chooses have been painted onto it,
    /// each mixed over what the layers before it left there.
    pub open spec fn painted(&self, area: Area, count: nat, px: int, py: int) -> (u8, u8, u8, u8)
        decreases count,
    {
        if count == 0 {
            self.sink().at(px, py)
        } else {
            let below = self.painted(area, (count - 1) as nat, px, py);
            let data = self.data(self.paint_order()[count - 1]);
            if chosen(data, area) && data.covers(px, py) {
                self.sink().kept(
                    mixed(data.at(px - data.place().0, py - data.place().1), below),
                )
            } else {
                below
            }
        }
    }

    /// Whether a flush restricted to `area` can paint every layer that it
    /// chooses.
    pub open spec fn can_flush(&self, area: Area) -> bool {
        forall|i: int|
            0 <= i < self.layers().len() && chosen(#[trigger] self.layers()[i], area) ==> paintable(
                self.sink(),
                self.layers()[i],
            )
    }

    /// Whether the layer at `top` of the paint order is the last one that a
    /// flush restricted to `area` paints at `(px, py)`, and its pixel there
    /// has alpha 255.
    pub open spec fn covered_by(&self, area: Area, top: int, px: int, py: int) -> bool {
        &&& 0 <= top < self.paint_order().len()
        &&& chosen(self.data(self.paint_order()[top]), area)
        &&& self.data(self.paint_order()[top]).covers(px, py)
        &&& self.pixel_of(top, px, py).0 == 0xff
        &&& forall|later: int|
            top < later < self.paint_order().len() ==> !(chosen(
                self.data(#[trigger] self.paint_order()[later]),
                area,
            ) && self.data(self.paint_order()[later]).covers(px, py))
    }

    /// The channels that the layer at `top` of the paint order holds for the
    /// position `(px, py)` of the display.
    pub open spec fn pixel_of(&self, top: int, px: int, py: int) -> (u8, u8, u8, u8) {
        let data = self.data(self.paint_order()[top]);
        data.at(px - data.place().0, py - data.place().1)
    }

    /// Whether a flush restricted to `area` can paint every layer that it
    /// chooses, found out by looking at every layer.
    pub fn flushable(&self, area: Area) -> (ok: bool)
        requires
            self.wf(),
        ensures
            ok == self.can_flush(area),
    {
        let sink: (usize, usize) = self.driver.size();
        let count: usize = self.layers.len();
        let mut seen: usize = 0;
        while seen < count
            invariant
                seen <= count,
                count == self.layers().len(),
                sink.0 == self.sink().extent().0,
                sink.1 == self.sink().extent().1,
                forall|i: int|
                    0 <= i < seen && chosen(#[trigger] self.layers()[i], area) ==> paintable(
                        self.sink(),
                        self.layers()[i],
                    ),
            decreases count - seen,
        {
            let data: &LayerData = &self.layers[seen];
            if is_chosen(data, &area) && !data.fits(sink.0, sink.1) {
                assert(chosen(self.layers()[seen as int], area));
                return false;
            }
            seen = seen + 1;
        }
        true
    }

    /// A display of the given size over `driver`, with no layers.
    pub fn new(driver: D, width: usize, height: usize) -> (display: Self)
        ensures
            display.sink() == driver,
            display.declared() == (width, height),
            display.layers().len() == 0,
            display.paint_order().len() == 0,
            display.wf(),
    {
        Self { driver, width, height, layers: Vec::new(), layer_sorted: Vec::new() }
    }

    /// The index in the paint order at which a layer of priority `rank` goes.
    fn slot_for(&self, rank: usize) -> (slot: usize)
        requires
            ordered(self.paint_order(), self.layers()),
        ensures
            is_slot(self.paint_order(), self.layers(), rank as int, slot as int),
    {
        let count: usize = self.layer_sorted.len();
        let mut slot: usize = 0;
        while slot < count
            invariant
                ordered(self.paint_order(), self.layers()),
                count == self.paint_order().len(),
                slot <= count,
                forall|i: int|
                    0 <= i < slot ==> rank_of(self.layers(), #[trigger] self.paint_order()[i])
                        <= rank,
            ensures
                slot <= count,
                slot < count ==> rank_of(self.layers(), self.paint_order()[slot as int]) > rank,
            decreases count - slot,
        {
            let id: usize = self.layer_sorted[slot].slot();
            if self.layers[id].priority() > rank {
                break ;
            }
            slot = slot + 1;
        }
        assert forall|i: int| slot <= i < self.paint_order().len() implies rank_of(
            self.layers(),
            #[trigger] self.paint_order()[i],
        ) > rank by {
            assert(rank_of(self.layers(), self.paint_order()[slot as int]) <= rank_of(
                self.layers(),
                self.paint_order()[i],
            ));
        }
        slot
    }

    /// The index in the paint order at which `layer` stands.
    fn place_of(&self, layer: Layer) -> (from: usize)
        requires
            self.paint_order().contains(layer),
        ensures
            from < self.paint_order().len(),
            self.paint_order()[from as int] == layer,
    {
        let count: usize = self.layer_sorted.len();
        let mut from: usize = 0;
        while from < count
            invariant
                count == self.paint_order().len(),
                from <= count,
                self.paint_order().contains(layer),
                forall|i: int| 0 <= i < from ==> self.paint_order()[i] != layer,
            ensures
                from < count,
                self.paint_order()[from as int] == layer,
            decreases count - from,
        {
            if self.layer_sorted[from].slot() == layer.slot() {
                proof {
                    layer.lemma_same_index(self.paint_order()[from as int]);
                }
                break ;
            }
            proof {
                layer.lemma_same_index(self.paint_order()[from as int]);
            }
            from = from + 1;
            if from == count {
                proof {
                    let at = choose|at: int|
                        0 <= at < self.paint_order().len() && self.paint_order()[at] == layer;
                    assert(false);
                }
            }
        }
        from
    }

    /// Makes a layer of the given size at `(x, y)`, all black with alpha 0.
    /// Its priority is the number of layers that there were before it, and
    /// it is painted behind the layers of that priority or a lower one.
    pub fn create_layer(&mut self, width: usize, height: usize, x: usize, y: usize) -> (layer:
        Layer)
        requires
            old(self).wf(),
            width * height <= usize::MAX,
        ensures
            final(self).wf(),
            final(self).sink() == old(self).sink(),
            final(self).declared() == old(self).declared(),
            layer.index() == old(self).layers().len(),
            !old(self).knows(layer),
            final(self).knows(layer),
            final(self).layers() == old(self).layers().push(final(self).data(layer)),
            final(self).data(layer).place() == (x, y),
            final(self).data(layer).span() == (width, height),
            final(self).data(layer).rank() == layer.index(),
            final(self).data(layer).sound(),
            final(self).data(layer).extent() == (width as nat, height as nat),
            forall|px: int, py: int|
                0 <= px < width && 0 <= py < height ==> #[trigger] final(self).data(
                    layer,
                ).surface().color_at(px, py) == Color::Rgb(0, 0, 0),
            exists|slot: int|
                {
                    &&& #[trigger] is_slot(
                        old(self).paint_order(),
                        old(self).layers(),
                        layer.index() as int,
                        slot,
                    )
                    &&& final(self).paint_order() == old(self).paint_order().insert(slot, layer)
                },
    {
        let id: usize = self.layers.len();
        let layer: Layer = Layer::new(id);
        let slot: usize = self.slot_for(id);
        let data: LayerData = LayerData::new(width, height, x, y, id);
        self.layers.push(data);
        self.layer_sorted.insert(slot, layer);
        proof {
            let order = old(self).paint_order();
            lemma_ordered_under_change(order, old(self).layers(), self.layers());
            if order.contains(layer) {
                let at = choose|at: int| 0 <= at < order.len() && order[at] == layer;
                assert(order[at].index() < old(self).layers().len());
            }
            lemma_insert_keeps_order(order, self.layers(), layer, slot as int);
            assert forall|known: Layer|
                known.index() < self.layers().len() implies #[trigger] self.paint_order().contains(
                known,
            ) by {
                layer.lemma_same_index(known);
                if known != layer {
                    assert(order.contains(known));
                }
            }
        }
        layer
    }

    /// The data of `layer`, if this display made the handle.
    pub fn layer(&self, layer: &Layer) -> (data: Option<&LayerData>)
        ensures
            match data {
                Some(found) => self.knows(*layer) && *found == self.data(*layer),
                None => !self.knows(*layer),
            },
    {
        let id: usize = layer.slot();
        if id < self.layers.len() {
            Some(&self.layers[id])
        } else {
            None
        }
    }

    /// The data of `layer` for changing, if this display made the handle.
    /// What the caller leaves there is the layer's data from then on.
    pub fn layer_mut(&mut self, layer: &Layer) -> (data: Option<&mut LayerData>)
        ensures
            match data {
                Some(found) => {
                    &&& old(self).knows(*layer)
                    &&& *found == old(self).data(*layer)
                    &&& final(self).layers() == old(self).layers().update(
                        layer.index() as int,
                        *final(found),
                    )
                },
                None => !old(self).knows(*layer) && final(self).layers() == old(self).layers(),
            },
            final(self).sink() == old(self).sink(),
            final(self).declared() == old(self).declared(),
            final(self).paint_order() == old(self).paint_order(),
    {
        let id: usize = layer.slot();
        if id < self.layers.len() {
            Some(&mut self.layers[id])
        } else {
            None
        }
    }
}

impl<D: DisplayDriver> Display<D> {
    /// Gives `layer` the priority just above the one that `other` has now,
    /// and paints it behind the layers that are at that priority already.
    /// Nothing happens, and `None` comes back, when the display does not
    /// know one of the two handles.
    pub fn put_upper_than(&mut self, layer: &Layer, other: &Layer) -> (done: Option<()>)
        requires
            old(self).wf(),
            old(self).knows(*layer) && old(self).knows(*other) ==> old(self).data(*other).rank()
                < usize::MAX,
        ensures
            final(self).wf(),
            final(self).sink() == old(self).sink(),
            final(self).declared() == old(self).declared(),
            done is Some <==> old(self).knows(*layer) && old(self).knows(*other),
            done is None ==> final(self).layers() == old(self).layers(),
            done is None ==> final(self).paint_order() == old(self).paint_order(),
            done is Some ==> {
                &&& final(self).layers().len() == old(self).layers().len()
                &&& final(self).data(*layer).rank() == old(self).data(*other).rank() + 1
                &&& final(self).data(*layer).place() == old(self).data(*layer).place()
                &&& final(self).data(*layer).span() == old(self).data(*layer).span()
                &&& final(self).data(*layer).surface() == old(self).data(*layer).surface()
                &&& forall|i: int|
                    0 <= i < old(self).layers().len() && i != layer.index()
                        ==> final(self).layers()[i] == old(self).layers()[i]
                &&& forall|first: int, second: int|
                    0 <= first < final(self).paint_order().len()
                        && 0 <= second < final(self).paint_order().len()
                        && #[trigger] final(self).paint_order()[first] == *other
                        && #[trigger] final(self).paint_order()[second] == *layer && *layer
                        != *other ==> first < second
                &&& exists|from: int, slot: int|
                    {
                        &&& 0 <= from < old(self).paint_order().len()
                        &&& old(self).paint_order()[from] == *layer
                        &&& #[trigger] is_slot(
                            old(self).paint_order().remove(from),
                            old(self).layers(),
                            old(self).data(*other).rank() + 1,
                            slot,
                        )
                        &&& final(self).paint_order() == old(self).paint_order().remove(
                            from,
                        ).insert(slot, *layer)
                    }
            },
    {
        let id: usize = layer.slot();
        let other_id: usize = other.slot();
        if id >= self.layers.len() || other_id >= self.layers.len() {
            return None;
        }
        let new_priority: usize = self.layers[other_id].priority() + 1;
        let from: usize = self.place_of(*layer);
        self.layer_sorted.remove(from);
        proof {
            lemma_remove_keeps_order(old(self).paint_order(), old(self).layers(), from as int);
        }
        let slot: usize = self.slot_for(new_priority);
        self.layers[id].set_priority(new_priority);
        self.layer_sorted.insert(slot, *layer);
        proof {
            let rest = old(self).paint_order().remove(from as int);
            assert forall|i: int| 0 <= i < rest.len() implies rank_of(
                self.layers(),
                #[trigger] rest[i],
            ) == rank_of(old(self).layers(), rest[i]) by {
                assert(rest.contains(rest[i]));
                layer.lemma_same_index(rest[i]);
            }
            lemma_ordered_under_change(rest, old(self).layers(), self.layers());
            assert(is_slot(rest, self.layers(), new_priority as int, slot as int));
            lemma_insert_keeps_order(rest, self.layers(), *layer, slot as int);
            assert forall|known: Layer|
                known.index() < self.layers().len() implies #[trigger] self.paint_order().contains(
                known,
            ) by {
                if known != *layer {
                    assert(old(self).paint_order().contains(known));
                    assert(rest.contains(known));
                }
            }
            assert forall|first: int, second: int|
                0 <= first < self.paint_order().len() && 0 <= second < self.paint_order().len()
                    && #[trigger] self.paint_order()[first] == *other
                    && #[trigger] self.paint_order()[second] == *layer && *layer
                    != *other implies first < second by {
                layer.lemma_same_index(*other);
                lemma_higher_rank_is_later(self.paint_order(), self.layers(), first, second);
            }
        }
        Some(())
    }
}


/// Whether `start + length` lies before `limit`.
fn ends_before(start: usize, length: usize, limit: usize) -> (before: bool)
    ensures
        before == (start + length < limit),
{
    match start.checked_add(length) {
        Some(end) => end < limit,
        None => false,
    }
}

/// Whether a flush restricted to `area` paints the layer.
fn is_chosen(data: &LayerData, area: &Area) -> (painted: bool)
    ensures
        painted == chosen(*data, *area),
{
    match area {
        None => true,
        Some((columns, rows)) => {
            let position: (usize, usize) = data.position();
            let size: (usize, usize) = data.size();
            position.0 >= columns.0 && ends_before(position.0, size.0, columns.1) && position.1
                >= rows.0 && ends_before(position.1, size.1, rows.1)
        },
    }
}

impl<D: DisplayDriver> Display<D> {
    /// Paints the layers that `area` chooses onto the sink, in paint order.
    fn paint(&mut self, area: Area)
        requires
            old(self).wf(),
            old(self).sink().sound(),
            old(self).can_flush(area),
        ensures
            final(self).layers() == old(self).layers(),
            final(self).paint_order() == old(self).paint_order(),
            final(self).declared() == old(self).declared(),
            final(self).sink().sound(),
            final(self).sink().extent() == old(self).sink().extent(),
            forall|argb: (u8, u8, u8, u8)|
                final(self).sink().kept(argb) == old(self).sink().kept(argb),
            forall|px: int, py: int|
                0 <= px < old(self).sink().extent().0 && 0 <= py < old(self).sink().extent().1
                    ==> (#[trigger] final(self).sink().at(px, py)) == old(self).painted(
                    area,
                    old(self).paint_order().len(),
                    px,
                    py,
                ),
            forall|top: int, px: int, py: int|
                0 <= px < old(self).sink().extent().0 && 0 <= py < old(self).sink().extent().1
                    && #[trigger] old(self).covered_by(area, top, px, py)
                    ==> final(self).sink().at(px, py) == old(self).sink().kept(
                    old(self).pixel_of(top, px, py),
                ),
    {
        let count: usize = self.layer_sorted.len();
        let mut next: usize = 0;
        while next < count
            invariant
                next <= count,
                count == self.paint_order().len(),
                self.layers() == old(self).layers(),
                self.paint_order() == old(self).paint_order(),
                self.declared() == old(self).declared(),
                old(self).wf(),
                old(self).can_flush(area),
                self.sink().sound(),
                self.sink().extent() == old(self).sink().extent(),
                forall|argb: (u8, u8, u8, u8)|
                    self.sink().kept(argb) == old(self).sink().kept(argb),
                forall|px: int, py: int|
                    0 <= px < old(self).sink().extent().0 && 0 <= py < old(self).sink().extent().1
                        ==> (#[trigger] self.sink().at(px, py)) == old(self).painted(
                        area,
                        next as nat,
                        px,
                        py,
                    ),
            decreases count - next,
        {
            let id: usize = self.layer_sorted[next].slot();
            assert(self.paint_order()[next as int].index() < self.layers().len());
            if is_chosen(&self.layers[id], &area) {
                let ghost under = self.driver;
                blend_onto(&mut self.driver, &self.layers[id]);
                proof {
                    let data = self.layers()[id as int];
                    assert forall|px: int, py: int|
                        0 <= px < old(self).sink().extent().0 && 0 <= py < old(
                            self,
                        ).sink().extent().1 implies (#[trigger] self.sink().at(px, py))
                        == old(self).painted(area, (next + 1) as nat, px, py) by {
                        assert(self.sink().at(px, py) == blended(under, data, px, py));
                        assert(under.at(px, py) == old(self).painted(area, next as nat, px, py));
                    }
                }
            }
            next = next + 1;
        }
        proof {
            assert forall|top: int, px: int, py: int|
                0 <= px < old(self).sink().extent().0 && 0 <= py < old(self).sink().extent().1
                    && #[trigger] old(self).covered_by(area, top, px, py) implies self.sink().at(
                px,
                py,
            ) == old(self).sink().kept(old(self).pixel_of(top, px, py)) by {
                lemma_opaque_top_layer_shows(*old(self), area, count as nat, top, px, py);
            }
        }
    }

    /// Paints every layer onto the sink, from the lowest priority up, each
    /// mixed over what is there when its turn comes. A layer's pixel of
    /// alpha 255 covers what the layers before it left.
    pub fn flush_all(&mut self)
        requires
            old(self).wf(),
            old(self).sink().sound(),
            old(self).can_flush(None),
        ensures
            final(self).layers() == old(self).layers(),
            final(self).paint_order() == old(self).paint_order(),
            final(self).declared() == old(self).declared(),
            final(self).sink().sound(),
            final(self).sink().extent() == old(self).sink().extent(),
            forall|argb: (u8, u8, u8, u8)|
                final(self).sink().kept(argb) == old(self).sink().kept(argb),
            forall|px: int, py: int|
                0 <= px < old(self).sink().extent().0 && 0 <= py < old(self).sink().extent().1
                    ==> (#[trigger] final(self).sink().at(px, py)) == old(self).painted(
                    None,
                    old(self).paint_order().len(),
                    px,
                    py,
                ),
            forall|top: int, px: int, py: int|
                0 <= px < old(self).sink().extent().0 && 0 <= py < old(self).sink().extent().1
                    && #[trigger] old(self).covered_by(None, top, px, py)
                    ==> final(self).sink().at(px, py) == old(self).sink().kept(
                    old(self).pixel_of(top, px, py),
                ),
    {
        self.paint(None);
    }

    /// Paints, as `flush_all` does, the layers that lie inside the given
    /// ranges of columns and rows: a layer is painted when its left and top
    /// edge do not lie before the start of the ranges and its right and
    /// bottom edge lie before their end. The other layers are passed over.
    pub fn flush_area(&mut self, x_range: (usize, usize), y_range: (usize, usize))
        requires
            old(self).wf(),
            old(self).sink().sound(),
            old(self).can_flush(Some((x_range, y_range))),
        ensures
            final(self).layers() == old(self).layers(),
            final(self).paint_order() == old(self).paint_order(),
            final(self).declared() == old(self).declared(),
            final(self).sink().sound(),
            final(self).sink().extent() == old(self).sink().extent(),
            forall|argb: (u8, u8, u8, u8)|
                final(self).sink().kept(argb) == old(self).sink().kept(argb),
            forall|px: int, py: int|
                0 <= px < old(self).sink().extent().0 && 0 <= py < old(self).sink().extent().1
                    ==> (#[trigger] final(self).sink().at(px, py)) == old(self).painted(
                    Some((x_range, y_range)),
                    old(self).paint_order().len(),
                    px,
                    py,
                ),
            forall|top: int, px: int, py: int|
                0 <= px < old(self).sink().extent().0 && 0 <= py < old(self).sink().extent().1
                    && #[trigger] old(self).covered_by(Some((x_range, y_range)), top, px, py)
                    ==> final(self).sink().at(px, py) == old(self).sink().kept(
                    old(self).pixel_of(top, px, py),
                ),
    {
        self.paint(Some((x_range, y_range)));
    }
}

/// The display is a sink itself, of the size it was made with: reads and
/// writes go straight to the sink under it, past the layers.
impl<D: DisplayDriver> DisplayDriver for Display<D> {
    open spec fn sound(&self) -> bool {
        &&& self.sink().sound()
        &&& self.declared().0 <= self.sink().extent().0
        &&& self.declared().1 <= self.sink().extent().1
    }

    open spec fn extent(&self) -> (nat, nat) {
        (self.declared().0 as nat, self.declared().1 as nat)
    }

    open spec fn at(&self, x: int, y: int) -> (u8, u8, u8, u8) {
        self.sink().at(x, y)
    }

    open spec fn kept(&self, argb: (u8, u8, u8, u8)) -> (u8, u8, u8, u8) {
        self.sink().kept(argb)
    }

    fn size(&self) -> (size: (usize, usize)) {
        (self.width, self.height)
    }

    fn read(&self, x: usize, y: usize, width: usize, height: usize, pixels: &mut [Color]) {
        self.driver.read(x, y, width, height, pixels);
    }

    fn write(&mut self, x: usize, y: usize, width: usize, height: usize, pixels: &[Color])
        ensures
            final(self).layers() == old(self).layers(),
            final(self).paint_order() == old(self).paint_order(),
    {
        self.driver.write(x, y, width, height, pixels);
    }

    fn fill(&mut self, x: usize, y: usize, width: usize, height: usize, color: &Color)
        ensures
            final(self).layers() == old(self).layers(),
            final(self).paint_order() == old(self).paint_order(),
    {
        self.driver.fill(x, y, width, height, color);
    }
}

/// Where the last layer that a flush paints at a pixel has alpha 255 there,
/// the flush leaves that layer's pixel at it, as the sink keeps it, whatever
/// the sink and the layers before held.
pub proof fn lemma_opaque_top_layer_shows<D: DisplayDriver>(
    display: Display<D>,
    area: Area,
    count: nat,
    top: int,
    px: int,
    py: int,
)
    requires
        top < count <= display.paint_order().len(),
        display.covered_by(area, top, px, py),
    ensures
        display.painted(area, count, px, py) == display.sink().kept(
            display.pixel_of(top, px, py),
        ),
    decreases count,
{
    let below = display.painted(area, (count - 1) as nat, px, py);
    if count - 1 == top {
        lemma_mix_keeps_opaque(display.pixel_of(top, px, py), below);
    } else {
        let last = display.data(display.paint_order()[count - 1]);
        assert(!(chosen(last, area) && last.covers(px, py)));
        lemma_opaque_top_layer_shows(display, area, (count - 1) as nat, top, px, py);
    }
}

/// Handles that a display makes one after another differ from one another
/// and from every handle that the display knew before, and the display
/// knows all of them once it has made them.
pub proof fn lemma_handles_made_in_turn<D: DisplayDriver>(
    before: Display<D>,
    after: Display<D>,
    handles: Seq<Layer>,
)
    requires
        forall|i: int|
            0 <= i < handles.len() ==> (#[trigger] handles[i]).index() == before.layers().len()
                + i,
        after.layers().len() == before.layers().len() + handles.len(),
    ensures
        forall|i: int, j: int|
            0 <= i < j < handles.len() ==> #[trigger] handles[i] != #[trigger] handles[j],
        forall|i: int, earlier: Layer|
            0 <= i < handles.len() && #[trigger] before.knows(earlier) ==> #[trigger] handles[i]
                != earlier,
        forall|i: int| 0 <= i < handles.len() ==> after.knows(#[trigger] handles[i]),
{
}

/// A handle that a display hands out next is one it does not know yet, so
/// it differs from every handle that the display handed out before.
pub proof fn lemma_new_handle_is_new<D: DisplayDriver>(
    display: Display<D>,
    next: Layer,
    earlier: Layer,
)
    requires
        next.index() == display.layers().len(),
        display.knows(earlier),
    ensures
        !display.knows(next),
        next != earlier,
{
}

/// Changing a layer through `layer_mut` keeps the bookkeeping sound as long
/// as the layer's priority is left alone.
pub proof fn lemma_layer_change_keeps_wf<D: DisplayDriver>(
    before: Display<D>,
    after: Display<D>,
    layer: Layer,
    data: LayerData,
)
    requires
        before.wf(),
        before.knows(layer),
        data.rank() == before.data(layer).rank(),
        after.layers() == before.layers().update(layer.index() as int, data),
        after.paint_order() == before.paint_order(),
    ensures
        after.wf(),
{
    assert forall|i: int| 0 <= i < before.paint_order().len() implies rank_of(
        after.layers(),
        #[trigger] before.paint_order()[i],
    ) == rank_of(before.layers(), before.paint_order()[i]) by {}
    lemma_ordered_under_change(before.paint_order(), before.layers(), after.layers());
}


} // verus!
