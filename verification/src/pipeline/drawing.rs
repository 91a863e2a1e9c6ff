//! Regions of the screen, and the draw command that settles the fragments
//! of rasterized triangles into one buffer.

use crate::display::buffers::DrawBuffer;
use crate::display::{lemma_cell_in_grid, DisplayDriver};
use crate::pipeline::default::{DefaultColorImpl, Pipeline};
use crate::pipeline::pipeline::{Fragment, FragmentPass};
use crate::pixel::PixelFormat;
use vstd::prelude::*;

verus! {

/// `nalgebra::max`: the greater of the two.
#[verifier::external_body]
fn greater_of(a: i32, b: i32) -> (result: i32)
    ensures
        result == greater(a as int, b as int),
{
    nalgebra::max(a, b)
}

/// `nalgebra::min`: the lesser of the two.
#[verifier::external_body]
fn lesser_of(a: i32, b: i32) -> (result: i32)
    ensures
        result == lesser(a as int, b as int),
{
    nalgebra::min(a, b)
}

/// The greater of two numbers.
pub open spec fn greater(a: int, b: int) -> int {
    if a >= b {
        a
    } else {
        b
    }
}

/// The lesser of two numbers.
pub open spec fn lesser(a: int, b: int) -> int {
    if a <= b {
        a
    } else {
        b
    }
}

/// A rectangle of the screen: the columns from `min_x` up to `max_x` and the
/// rows from `min_y` up to `max_y`, the upper ends left out.
#[derive(Debug, Clone, Copy, PartialEq, Eq, Structural)]
pub struct Region {
    pub min_x: i32,
    pub min_y: i32,
    pub max_x: i32,
    pub max_y: i32,
}

impl Region {
    /// The region that holds nothing and gives way to any region it is
    /// joined with.
    pub open spec fn nothing() -> Region {
        Region { min_x: i32::MAX, min_y: i32::MAX, max_x: i32::MIN, max_y: i32::MIN }
    }

    /// Whether the ends are the right way round.
    pub open spec fn proper(self) -> bool {
        self.min_x <= self.max_x && self.min_y <= self.max_y
    }

    pub open spec fn width(self) -> int {
        self.max_x - self.min_x
    }

    pub open spec fn height(self) -> int {
        self.max_y - self.min_y
    }

    /// Whether the pixel `(x, y)` lies in the region.
    pub open spec fn holds(self, x: int, y: int) -> bool {
        self.min_x <= x < self.max_x && self.min_y <= y < self.max_y
    }

    /// The smallest region that takes in both.
    pub open spec fn joined(self, other: Region) -> Region {
        Region {
            min_x: lesser(self.min_x as int, other.min_x as int) as i32,
            min_y: lesser(self.min_y as int, other.min_y as int) as i32,
            max_x: greater(self.max_x as int, other.max_x as int) as i32,
            max_y: greater(self.max_y as int, other.max_y as int) as i32,
        }
    }

    /// The region between the least and the greatest coordinates of three
    /// points, with nothing of it left of column 0 or above row 0.
    pub open spec fn spanning(a: (i32, i32), b: (i32, i32), c: (i32, i32)) -> Region {
        Region {
            min_x: greater(0, lesser(a.0 as int, lesser(b.0 as int, c.0 as int))) as i32,
            min_y: greater(0, lesser(a.1 as int, lesser(b.1 as int, c.1 as int))) as i32,
            max_x: greater(0, greater(a.0 as int, greater(b.0 as int, c.0 as int))) as i32,
            max_y: greater(0, greater(a.1 as int, greater(b.1 as int, c.1 as int))) as i32,
        }
    }

    pub fn new(min_x: i32, min_y: i32, max_x: i32, max_y: i32) -> (region: Self)
        ensures
            region == (Region { min_x, min_y, max_x, max_y }),
    {
        Self { min_x, min_y, max_x, max_y }
    }

    /// The bounding region of a triangle with the corners `a`, `b` and `c`,
    /// cut off at column 0 and row 0.
    pub fn around(a: (i32, i32), b: (i32, i32), c: (i32, i32)) -> (region: Self)
        ensures
            region == Region::spanning(a, b, c),
            region.proper(),
            region.min_x >= 0,
            region.min_y >= 0,
    {
        let max_x: i32 = greater_of(0, greater_of(a.0, greater_of(b.0, c.0)));
        let max_y: i32 = greater_of(0, greater_of(a.1, greater_of(b.1, c.1)));
        let min_x: i32 = greater_of(0, lesser_of(a.0, lesser_of(b.0, c.0)));
        let min_y: i32 = greater_of(0, lesser_of(a.1, lesser_of(b.1, c.1)));
        Self { min_x, min_y, max_x, max_y }
    }

    /// The smallest region that takes in this one and `other`.
    pub fn join(&self, other: &Region) -> (region: Self)
        ensures
            region == self.joined(*other),
    {
        Self {
            min_x: lesser_of(self.min_x, other.min_x),
            min_y: lesser_of(self.min_y, other.min_y),
            max_x: greater_of(self.max_x, other.max_x),
            max_y: greater_of(self.max_y, other.max_y),
        }
    }
}

/// What rasterizing one triangle gave: its fragments in the order in which
/// they were found, and the region that bounds them.
pub struct Rasterized {
    pub fragments: Vec<Fragment<DefaultColorImpl>>,
    pub region: Region,
}

impl Rasterized {
    /// The region is the right way round and every fragment lies in it.
    pub open spec fn sound(&self) -> bool {
        &&& self.region.proper()
        &&& forall|k: int|
            0 <= k < self.fragments@.len() ==> self.region.holds(
                (#[trigger] self.fragments@[k]).position.0 as int,
                self.fragments@[k].position.1 as int,
            )
    }

    pub fn new(fragments: Vec<Fragment<DefaultColorImpl>>, region: Region) -> (rasterized: Self)
        ensures
            rasterized.fragments == fragments,
            rasterized.region == region,
    {
        Self { fragments, region }
    }

    /// Whether the region is the right way round and every fragment lies in
    /// it.
    pub fn is_sound(&self) -> (ok: bool)
        ensures
            ok == self.sound(),
    {
        if self.region.min_x > self.region.max_x || self.region.min_y > self.region.max_y {
            return false;
        }
        let count: usize = self.fragments.len();
        let mut seen: usize = 0;
        while seen < count
            invariant
                seen <= count,
                count == self.fragments@.len(),
                self.region.proper(),
                forall|k: int|
                    0 <= k < seen ==> self.region.holds(
                        (#[trigger] self.fragments@[k]).position.0 as int,
                        self.fragments@[k].position.1 as int,
                    ),
            decreases count - seen,
        {
            let at: (i32, i32) = self.fragments[seen].position;
            if at.0 < self.region.min_x || at.0 >= self.region.max_x || at.1 < self.region.min_y
                || at.1 >= self.region.max_y {
                return false;
            }
            seen = seen + 1;
        }
        true
    }

    /// Walks the pixels of `region` row by row, from the top, each row from
    /// the left, and asks `shade` of every one whether the triangle covers
    /// it. A covered pixel becomes a fragment with the depth and the colour
    /// that `shade` gave for it.
    pub fn scan<F: Fn(i32, i32) -> Option<(i32, DefaultColorImpl)>>(
        region: Region,
        shade: F,
    ) -> (rasterized: Self)
        requires
            forall|x: i32, y: i32|
                region.holds(x as int, y as int) ==> #[trigger] shade.requires((x, y)),
        ensures
            rasterized.region == region,
            region.proper() ==> rasterized.sound(),
            forall|k: int|
                0 <= k < rasterized.fragments@.len() ==> shaded(
                    shade,
                    region,
                    #[trigger] rasterized.fragments@[k],
                ),
            forall|j: int, k: int|
                0 <= j < k < rasterized.fragments@.len() ==> comes_before(
                    (#[trigger] rasterized.fragments@[j]).position,
                    (#[trigger] rasterized.fragments@[k]).position,
                ),
            forall|x: i32, y: i32|
                region.holds(x as int, y as int) ==> #[trigger] found_at(
                    rasterized.fragments@,
                    x as int,
                    y as int,
                ) || shade.ensures((x, y), None),
            rasterized.fragments@.len() == covered(rasterized.fragments@).len(),
    {
        let mut fragments: Vec<Fragment<DefaultColorImpl>> = Vec::new();
        let mut y: i32 = region.min_y;
        while y < region.max_y
            invariant
                region.min_y <= y,
                forall|x: i32, y: i32|
                region.holds(x as int, y as int) ==> #[trigger] shade.requires((x, y)),
                forall|k: int|
                    0 <= k < fragments@.len() ==> shaded(shade, region, #[trigger] fragments@[k]),
                forall|k: int|
                    0 <= k < fragments@.len() ==> (#[trigger] fragments@[k]).position.1 < y,
                forall|j: int, k: int|
                    0 <= j < k < fragments@.len() ==> comes_before(
                        (#[trigger] fragments@[j]).position,
                        (#[trigger] fragments@[k]).position,
                    ),
                forall|px: i32, py: i32|
                    region.holds(px as int, py as int) && py < y ==> #[trigger] found_at(
                        fragments@,
                        px as int,
                        py as int,
                    ) || shade.ensures((px, py), None),
            decreases region.max_y - y,
        {
            let mut x: i32 = region.min_x;
            while x < region.max_x
                invariant
                    region.min_y <= y < region.max_y,
                    region.min_x <= x,
                    forall|x: i32, y: i32|
                        region.holds(x as int, y as int) ==> #[trigger] shade.requires((x, y)),
                    forall|k: int|
                        0 <= k < fragments@.len() ==> shaded(
                            shade,
                            region,
                            #[trigger] fragments@[k],
                        ),
                    forall|k: int|
                        0 <= k < fragments@.len() ==> comes_before(
                            (#[trigger] fragments@[k]).position,
                            (x, y),
                        ),
                    forall|j: int, k: int|
                        0 <= j < k < fragments@.len() ==> comes_before(
                            (#[trigger] fragments@[j]).position,
                            (#[trigger] fragments@[k]).position,
                        ),
                    forall|px: i32, py: i32|
                        region.holds(px as int, py as int) && comes_before((px, py), (x, y))
                            ==> #[trigger] found_at(fragments@, px as int, py as int)
                            || shade.ensures((px, py), None),
                decreases region.max_x - x,
            {
                let ghost before = fragments@;
                match shade(x, y) {
                    Some((depth, color)) => {
                        fragments.push(Fragment { position: (x, y), depth, color });
                        proof {
                            assert(lies_at(fragments@[before.len() as int], x as int, y as int));
                            assert forall|px: i32, py: i32|
                                region.holds(px as int, py as int) && comes_before(
                                    (px, py),
                                    (x, y),
                                ) && found_at(before, px as int, py as int) implies #[trigger] found_at(
                                fragments@,
                                px as int,
                                py as int,
                            ) by {
                                let k = choose|k: int|
                                    0 <= k < before.len() && lies_at(
                                        #[trigger] before[k],
                                        px as int,
                                        py as int,
                                    );
                                assert(lies_at(fragments@[k], px as int, py as int));
                            }
                        }
                    },
                    None => {},
                }
                x = x + 1;
            }
            y = y + 1;
        }
        proof {
            lemma_one_fragment_a_pixel(fragments@);
        }
        Self { fragments, region }
    }
}

/// The pixels at which one of the fragments lies.
pub open spec fn covered(fragments: Seq<Fragment<DefaultColorImpl>>) -> Set<(i32, i32)> {
    Set::new(|pixel: (i32, i32)| found_at(fragments, pixel.0 as int, pixel.1 as int))
}

/// Fragments that were found one pixel after the other are as many as the
/// pixels at which they lie.
pub proof fn lemma_one_fragment_a_pixel(fragments: Seq<Fragment<DefaultColorImpl>>)
    requires
        forall|j: int, k: int|
            0 <= j < k < fragments.len() ==> comes_before(
                (#[trigger] fragments[j]).position,
                (#[trigger] fragments[k]).position,
            ),
    ensures
        fragments.len() == covered(fragments).len(),
        covered(fragments).finite(),
{
    let pixels = fragments.map_values(|fragment: Fragment<DefaultColorImpl>| fragment.position);
    assert forall|j: int, k: int| 0 <= j < pixels.len() && 0 <= k < pixels.len() && j
        != k implies pixels[j] != pixels[k] by {
        if j < k {
            assert(comes_before(fragments[j].position, fragments[k].position));
        } else {
            assert(comes_before(fragments[k].position, fragments[j].position));
        }
    }
    pixels.unique_seq_to_set();
    assert forall|pixel: (i32, i32)| pixels.to_set().contains(pixel) implies covered(
        fragments,
    ).contains(pixel) by {
        let k = choose|k: int| 0 <= k < pixels.len() && pixels[k] == pixel;
        assert(lies_at(fragments[k], pixel.0 as int, pixel.1 as int));
    }
    assert forall|pixel: (i32, i32)| covered(fragments).contains(pixel) implies pixels.to_set().contains(
        pixel,
    ) by {
        let k = choose|k: int|
            0 <= k < fragments.len() && lies_at(
                #[trigger] fragments[k],
                pixel.0 as int,
                pixel.1 as int,
            );
        assert(pixels[k] == pixel);
    }
    assert(pixels.to_set() =~= covered(fragments));
}

/// Whether the pixel `first` is walked before the pixel `second`: it lies in
/// a row above, or in the same row further left.
pub open spec fn comes_before(first: (i32, i32), second: (i32, i32)) -> bool {
    first.1 < second.1 || (first.1 == second.1 && first.0 < second.0)
}

/// Whether one of the fragments lies at the pixel `(x, y)`.
pub open spec fn found_at(fragments: Seq<Fragment<DefaultColorImpl>>, x: int, y: int) -> bool {
    exists|k: int| 0 <= k < fragments.len() && lies_at(#[trigger] fragments[k], x, y)
}

/// Whether the fragment lies in the region and holds what `shade` gave for
/// its pixel.
pub open spec fn shaded<F: Fn(i32, i32) -> Option<(i32, DefaultColorImpl)>>(
    shade: F,
    region: Region,
    fragment: Fragment<DefaultColorImpl>,
) -> bool {
    &&& region.holds(fragment.position.0 as int, fragment.position.1 as int)
    &&& shade.ensures(
        (fragment.position.0, fragment.position.1),
        Some((fragment.depth, fragment.color)),
    )
}

/// The fragments of the first `count` primitives, one primitive after the
/// other.
pub open spec fn gathered(primitives: Seq<Rasterized>, count: nat) -> Seq<
    Fragment<DefaultColorImpl>,
>
    decreases count,
{
    if count == 0 {
        Seq::empty()
    } else {
        gathered(primitives, (count - 1) as nat) + primitives[count - 1].fragments@
    }
}

/// The region that takes in the regions of the first `count` primitives.
pub open spec fn bounds(primitives: Seq<Rasterized>, count: nat) -> Region
    decreases count,
{
    if count == 0 {
        Region::nothing()
    } else {
        bounds(primitives, (count - 1) as nat).joined(primitives[count - 1].region)
    }
}

/// The depth and the packed colour that the pixel `(x, y)` holds once the
/// first `count` fragments have had their turn. A pixel starts at the least
/// depth with the word 0. A fragment at the pixel takes it over when the
/// depth test is off, or when it lies in front of what the pixel holds.
pub open spec fn settled(
    fragments: Seq<Fragment<DefaultColorImpl>>,
    depth_test: bool,
    x: int,
    y: int,
    count: nat,
) -> (i32, u32)
    decreases count,
{
    if count == 0 {
        (i32::MIN, 0u32)
    } else {
        let before = settled(fragments, depth_test, x, y, (count - 1) as nat);
        let fragment = fragments[count - 1];
        if fragment.position.0 == x && fragment.position.1 == y && (!depth_test || fragment.depth
            > before.0) {
            (fragment.depth, fragment.color.argb_word())
        } else {
            before
        }
    }
}

/// A drawing that can be carried out into a buffer of its own: the buffer,
/// the region of the screen that the buffer stands for, and the number of
/// fragments that went into it.
pub trait DrawCommand {
    /// What must hold of the command for it to be carried out.
    spec fn ready(&self) -> bool;

    fn execute(&self) -> (DrawBuffer, Region, usize)
        requires
            self.ready(),
    ;
}

/// Draws rasterized triangles through one pipeline.
pub struct TriangleDrawCommand<W, P> {
    pub pipeline: Pipeline<W, P>,
    pub primitives: Vec<Rasterized>,
}

impl<W, P> TriangleDrawCommand<W, P> {
    pub fn new(pipeline: Pipeline<W, P>, primitives: Vec<Rasterized>) -> (command: Self)
        ensures
            command.pipeline == pipeline,
            command.primitives == primitives,
    {
        Self { pipeline, primitives }
    }

    /// Whether the command can be carried out, found out by looking at
    /// every primitive.
    pub fn is_ready(&self) -> (ok: bool)
        ensures
            ok == self.ready(),
    {
        let count: usize = self.primitives.len();
        if count == 0 {
            return false;
        }
        let mut region: Region = Region::new(i32::MAX, i32::MAX, i32::MIN, i32::MIN);
        let mut seen: usize = 0;
        while seen < count
            invariant
                seen <= count,
                count == self.primitives@.len(),
                region == bounds(self.primitives@, seen as nat),
                forall|i: int| 0 <= i < seen ==> (#[trigger] self.primitives@[i]).sound(),
            decreases count - seen,
        {
            if !self.primitives[seen].is_sound() {
                return false;
            }
            region = region.join(&self.primitives[seen].region);
            seen = seen + 1;
        }
        proof {
            lemma_bounds_hold_fragments(self.primitives@, count as nat);
        }
        let width: usize = distance(region.min_x, region.max_x);
        let height: usize = distance(region.min_y, region.max_y);
        width.checked_mul(height).is_some()
    }

    /// Every fragment that the command draws, in drawing order.
    pub open spec fn fragments(&self) -> Seq<Fragment<DefaultColorImpl>> {
        gathered(self.primitives@, self.primitives@.len())
    }

    /// The region that takes in every primitive's region.
    pub open spec fn region(&self) -> Region {
        bounds(self.primitives@, self.primitives@.len())
    }
}

/// The least depth, in every cell of a map of `count` cells.
fn far_away(count: usize) -> (depths: Vec<i32>)
    ensures
        depths.len() == count,
        forall|i: int| 0 <= i < count ==> depths@[i] == i32::MIN,
{
    let mut depths: Vec<i32> = Vec::new();
    let mut filled: usize = 0;
    while filled < count
        invariant
            filled <= count,
            depths.len() == filled,
            forall|i: int| 0 <= i < filled ==> depths@[i] == i32::MIN,
        decreases count - filled,
    {
        depths.push(i32::MIN);
        filled = filled + 1;
    }
    depths
}

/// The depth that a row-major map of the given width holds for a cell.
spec fn depth_at(depths: Seq<i32>, width: int, column: int, row: int) -> i32 {
    depths[row * width + column]
}

/// The distance from `low` up to `high`.
fn distance(low: i32, high: i32) -> (steps: usize)
    requires
        low <= high,
    ensures
        steps == high - low,
{
    (high as i64 - low as i64) as usize
}

/// The bounds of sound primitives are the right way round once there is one
/// primitive, and take in every fragment gathered from them.
pub proof fn lemma_bounds_hold_fragments(primitives: Seq<Rasterized>, count: nat)
    requires
        count <= primitives.len(),
        forall|i: int| 0 <= i < primitives.len() ==> (#[trigger] primitives[i]).sound(),
    ensures
        count > 0 ==> bounds(primitives, count).proper(),
        forall|k: int|
            0 <= k < gathered(primitives, count).len() ==> bounds(primitives, count).holds(
                (#[trigger] gathered(primitives, count)[k]).position.0 as int,
                gathered(primitives, count)[k].position.1 as int,
            ),
    decreases count,
{
    if count > 0 {
        lemma_bounds_hold_fragments(primitives, (count - 1) as nat);
        let last = primitives[count - 1];
        let earlier = gathered(primitives, (count - 1) as nat);
        assert(last.sound());
        assert forall|k: int| 0 <= k < gathered(primitives, count).len() implies bounds(
            primitives,
            count,
        ).holds(
            (#[trigger] gathered(primitives, count)[k]).position.0 as int,
            gathered(primitives, count)[k].position.1 as int,
        ) by {
            if k < earlier.len() {
                assert(gathered(primitives, count)[k] == earlier[k]);
            } else {
                assert(gathered(primitives, count)[k] == last.fragments@[k - earlier.len()]);
            }
        }
    }
}

impl<W, P> DrawCommand for TriangleDrawCommand<W, P> {
    /// There is a primitive, every primitive is sound, and a buffer for the
    /// whole region fits in memory.
    open spec fn ready(&self) -> bool {
        &&& self.primitives@.len() > 0
        &&& forall|i: int| 0 <= i < self.primitives@.len() ==> (#[trigger] self.primitives@[i]).sound()
        &&& self.region().width() * self.region().height() <= usize::MAX
    }

    /// Gathers the fragments of every primitive, makes a buffer in the
    /// `Argb` format for the region that takes in all of them, and lets
    /// each fragment in turn settle into its pixel.
    fn execute(&self) -> (drawn: (DrawBuffer, Region, usize))
        ensures
            drawn.1 == self.region(),
            drawn.2 == self.fragments().len(),
            drawn.0.sound(),
            drawn.0.format() == PixelFormat::Argb,
            drawn.0.extent() == (self.region().width() as nat, self.region().height() as nat),
            forall|x: int, y: int|
                self.region().holds(x, y) ==> #[trigger] drawn.0.word_at(
                    x - self.region().min_x,
                    y - self.region().min_y,
                ) == settled(
                    self.fragments(),
                    self.pipeline.pipeline_state.depth_test,
                    x,
                    y,
                    self.fragments().len(),
                ).1,
    {
        let count: usize = self.primitives.len();
        let mut region: Region = Region::new(i32::MAX, i32::MAX, i32::MIN, i32::MIN);
        let mut fragments: Vec<Fragment<DefaultColorImpl>> = Vec::new();
        let mut taken: usize = 0;
        while taken < count
            invariant
                count == self.primitives@.len(),
                taken <= count,
                region == bounds(self.primitives@, taken as nat),
                fragments@ == gathered(self.primitives@, taken as nat),
            decreases count - taken,
        {
            let primitive: &Rasterized = &self.primitives[taken];
            region = region.join(&primitive.region);
            let found: usize = primitive.fragments.len();
            let mut copied: usize = 0;
            while copied < found
                invariant
                    found == primitive.fragments@.len(),
                    copied <= found,
                    fragments@ == gathered(self.primitives@, taken as nat)
                        + primitive.fragments@.subrange(0, copied as int),
                decreases found - copied,
            {
                let fragment: &Fragment<DefaultColorImpl> = &primitive.fragments[copied];
                fragments.push(
                    Fragment {
                        position: fragment.position,
                        depth: fragment.depth,
                        color: fragment.color.clone(),
                    },
                );
                copied = copied + 1;
            }
            assert(primitive.fragments@.subrange(0, found as int) == primitive.fragments@);
            taken = taken + 1;
        }
        proof {
            lemma_bounds_hold_fragments(self.primitives@, count as nat);
        }
        let width: usize = distance(region.min_x, region.max_x);
        let height: usize = distance(region.min_y, region.max_y);
        let depth_test: bool = self.pipeline.pipeline_state.depth_test;
        let mut depth_values: Vec<i32> = far_away(width * height);
        let mut buffer: DrawBuffer = DrawBuffer::new(width, height, PixelFormat::Argb);
        let total: usize = fragments.len();
        proof {
            assert forall|x: int, y: int| region.holds(x, y) implies #[trigger] depth_at(
                depth_values@,
                width as int,
                x - region.min_x,
                y - region.min_y,
            ) == i32::MIN by {
                lemma_cell_in_grid(x - region.min_x, y - region.min_y, width as int, height as int);
            }
        }
        let mut next: usize = 0;
        while next < total
            invariant
                next <= total,
                total == fragments@.len(),
                fragments@ == self.fragments(),
                region == self.region(),
                region.proper(),
                width == region.width(),
                height == region.height(),
                width * height <= usize::MAX,
                depth_test == self.pipeline.pipeline_state.depth_test,
                depth_values.len() == width * height,
                buffer.sound(),
                buffer.format() == PixelFormat::Argb,
                buffer.extent() == (width as nat, height as nat),
                forall|k: int|
                    0 <= k < fragments@.len() ==> region.holds(
                        (#[trigger] fragments@[k]).position.0 as int,
                        fragments@[k].position.1 as int,
                    ),
                forall|x: int, y: int|
                    region.holds(x, y) ==> #[trigger] depth_at(
                        depth_values@,
                        width as int,
                        x - region.min_x,
                        y - region.min_y,
                    ) == settled(fragments@, depth_test, x, y, next as nat).0,
                forall|x: int, y: int|
                    region.holds(x, y) ==> #[trigger] buffer.word_at(
                        x - region.min_x,
                        y - region.min_y,
                    ) == settled(fragments@, depth_test, x, y, next as nat).1,
            decreases total - next,
        {
            let fragment: &Fragment<DefaultColorImpl> = &fragments[next];
            let x: i32 = fragment.position.0;
            let y: i32 = fragment.position.1;
            let column: usize = distance(region.min_x, x);
            let row: usize = distance(region.min_y, y);
            proof {
                lemma_cell_in_grid(column as int, row as int, width as int, height as int);
            }
            let cell: usize = row * width + column;
            assert(depth_values@[cell as int] == depth_at(
                depth_values@,
                width as int,
                x - region.min_x,
                y - region.min_y,
            ));
            if !depth_test || fragment.depth > depth_values[cell] {
                let ghost depths_before = depth_values@;
                let ghost buffer_before = buffer;
                assert forall|px: int, py: int| region.holds(px, py) implies #[trigger] depth_at(
                    depths_before,
                    width as int,
                    px - region.min_x,
                    py - region.min_y,
                ) == settled(fragments@, depth_test, px, py, next as nat).0 by {}
                depth_values[cell] = fragment.depth;
                let color: DefaultColorImpl = self.pipeline.fragment_pass.clone().transform(
                    fragment,
                );
                buffer.write_at(column, row, color.get_argb());
                proof {
                    assert forall|px: int, py: int| region.holds(px, py) implies #[trigger] depth_at(
                        depth_values@,
                        width as int,
                        px - region.min_x,
                        py - region.min_y,
                    ) == settled(
                        fragments@,
                        depth_test,
                        px,
                        py,
                        (next + 1) as nat,
                    ).0 by {
                        lemma_cell_in_grid(
                            px - region.min_x,
                            py - region.min_y,
                            width as int,
                            height as int,
                        );
                        if px == x && py == y {
                        } else {
                            assert(depth_at(
                                depth_values@,
                                width as int,
                                px - region.min_x,
                                py - region.min_y,
                            ) == depth_at(
                                depths_before,
                                width as int,
                                px - region.min_x,
                                py - region.min_y,
                            ));
                        }
                    }
                    assert forall|px: int, py: int| region.holds(px, py) implies #[trigger] buffer.word_at(
                        px - region.min_x,
                        py - region.min_y,
                    ) == settled(fragments@, depth_test, px, py, (next + 1) as nat).1 by {
                        assert(buffer_before.word_at(px - region.min_x, py - region.min_y)
                            == settled(fragments@, depth_test, px, py, next as nat).1);
                    }
                }
            } else {
                proof {
                    assert forall|px: int, py: int| region.holds(px, py) implies #[trigger] depth_at(
                        depth_values@,
                        width as int,
                        px - region.min_x,
                        py - region.min_y,
                    ) == settled(
                        fragments@,
                        depth_test,
                        px,
                        py,
                        (next + 1) as nat,
                    ).0 by {
                        if px == x && py == y {
                            assert(depth_at(depth_values@, width as int, column as int, row as int)
                                == settled(
                                fragments@,
                                depth_test,
                                x as int,
                                y as int,
                                next as nat,
                            ).0);
                        }
                    }
                }
            }
            next = next + 1;
        }
        (buffer, region, total)
    }
}

/// Whether the fragment lies at the pixel `(x, y)`.
pub open spec fn lies_at(fragment: Fragment<DefaultColorImpl>, x: int, y: int) -> bool {
    fragment.position.0 == x && fragment.position.1 == y
}

/// With the depth test on, a pixel holds the greatest depth among the
/// fragments that came to it, and never less than the least depth. If that
/// is more than the least depth, the pixel holds the colour of a fragment of
/// that depth; if not, it still holds the word 0.
pub proof fn lemma_settled_is_nearest(
    fragments: Seq<Fragment<DefaultColorImpl>>,
    x: int,
    y: int,
    count: nat,
)
    requires
        count <= fragments.len(),
    ensures
        forall|k: int|
            0 <= k < count && lies_at(#[trigger] fragments[k], x, y) ==> fragments[k].depth
                <= settled(fragments, true, x, y, count).0,
        settled(fragments, true, x, y, count).0 > i32::MIN ==> exists|k: int|
            {
                &&& 0 <= k < count
                &&& lies_at(#[trigger] fragments[k], x, y)
                &&& fragments[k].depth == settled(fragments, true, x, y, count).0
                &&& fragments[k].color.argb_word() == settled(fragments, true, x, y, count).1
            },
        settled(fragments, true, x, y, count).0 == i32::MIN ==> settled(
            fragments,
            true,
            x,
            y,
            count,
        ).1 == 0,
    decreases count,
{
    if count > 0 {
        lemma_settled_is_nearest(fragments, x, y, (count - 1) as nat);
        let before = settled(fragments, true, x, y, (count - 1) as nat);
        let now = settled(fragments, true, x, y, count);
        let last = fragments[count - 1];
        if now.0 > i32::MIN {
            if lies_at(last, x, y) && last.depth > before.0 {
                assert(lies_at(fragments[count - 1], x, y));
            } else {
                let k = choose|k: int|
                    {
                        &&& 0 <= k < count - 1
                        &&& lies_at(#[trigger] fragments[k], x, y)
                        &&& fragments[k].depth == before.0
                        &&& fragments[k].color.argb_word() == before.1
                    };
                assert(lies_at(fragments[k], x, y));
            }
        }
    }
}

/// With the depth test on, the fragment that lies in front of every other
/// fragment at its pixel is the one that shows there, wherever it stands in
/// the drawing order.
pub proof fn lemma_nearest_fragment_shows(
    fragments: Seq<Fragment<DefaultColorImpl>>,
    x: int,
    y: int,
    nearest: int,
)
    requires
        0 <= nearest < fragments.len(),
        lies_at(fragments[nearest], x, y),
        fragments[nearest].depth > i32::MIN,
        forall|k: int|
            0 <= k < fragments.len() && k != nearest && lies_at(#[trigger] fragments[k], x, y)
                ==> fragments[k].depth < fragments[nearest].depth,
    ensures
        settled(fragments, true, x, y, fragments.len()) == (
            fragments[nearest].depth,
            fragments[nearest].color.argb_word(),
        ),
{
    lemma_settled_is_nearest(fragments, x, y, fragments.len());
}

/// With the depth test off, a pixel shows the last fragment that came to it.
pub proof fn lemma_last_fragment_shows(
    fragments: Seq<Fragment<DefaultColorImpl>>,
    x: int,
    y: int,
    last: int,
    count: nat,
)
    requires
        0 <= last < count <= fragments.len(),
        lies_at(fragments[last], x, y),
        forall|k: int| last < k < count ==> !lies_at(#[trigger] fragments[k], x, y),
    ensures
        settled(fragments, false, x, y, count) == (
            fragments[last].depth,
            fragments[last].color.argb_word(),
        ),
    decreases count,
{
    if count - 1 > last {
        assert(!lies_at(fragments[count - 1], x, y));
        lemma_last_fragment_shows(fragments, x, y, last, (count - 1) as nat);
    }
}

/// A pixel that no fragment came to holds the word 0.
pub proof fn lemma_untouched_pixel_is_blank(
    fragments: Seq<Fragment<DefaultColorImpl>>,
    depth_test: bool,
    x: int,
    y: int,
    count: nat,
)
    requires
        count <= fragments.len(),
        forall|k: int| 0 <= k < count ==> !lies_at(#[trigger] fragments[k], x, y),
    ensures
        settled(fragments, depth_test, x, y, count) == (i32::MIN, 0u32),
    decreases count,
{
    if count > 0 {
        assert(!lies_at(fragments[count - 1], x, y));
        lemma_untouched_pixel_is_blank(fragments, depth_test, x, y, (count - 1) as nat);
    }
}


/// Every fragment gathered from primitives is a fragment of one of them, and
/// every fragment of one of them is gathered.
pub proof fn lemma_gathered_are_the_fragments(primitives: Seq<Rasterized>, count: nat)
    requires
        count <= primitives.len(),
    ensures
        forall|k: int|
            0 <= k < gathered(primitives, count).len() ==> exists|i: int|
                0 <= i < count && (#[trigger] primitives[i]).fragments@.contains(
                    #[trigger] gathered(primitives, count)[k],
                ),
        forall|i: int, m: int|
            0 <= i < count && 0 <= m < primitives[i].fragments@.len() ==> gathered(
                primitives,
                count,
            ).contains(#[trigger] primitives[i].fragments@[m]),
    decreases count,
{
    if count > 0 {
        lemma_gathered_are_the_fragments(primitives, (count - 1) as nat);
        let earlier = gathered(primitives, (count - 1) as nat);
        let last = primitives[count - 1].fragments@;
        let all = gathered(primitives, count);
        assert forall|k: int| 0 <= k < all.len() implies exists|i: int|
            0 <= i < count && (#[trigger] primitives[i]).fragments@.contains(#[trigger] all[k]) by {
            if k < earlier.len() {
                assert(all[k] == earlier[k]);
                let i = choose|i: int|
                    0 <= i < count - 1 && (#[trigger] primitives[i]).fragments@.contains(
                        earlier[k],
                    );
                assert(primitives[i].fragments@.contains(all[k]));
            } else {
                assert(all[k] == last[k - earlier.len()]);
                assert(primitives[count - 1].fragments@.contains(all[k]));
            }
        }
        assert forall|i: int, m: int|
            0 <= i < count && 0 <= m < primitives[i].fragments@.len() implies all.contains(
            #[trigger] primitives[i].fragments@[m],
        ) by {
            if i < count - 1 {
                let f = primitives[i].fragments@[m];
                assert(earlier.contains(f));
                let k = choose|k: int| 0 <= k < earlier.len() && earlier[k] == f;
                assert(all[k] == f);
            } else {
                assert(all[earlier.len() + m] == last[m]);
            }
        }
    }
}

/// With the depth test on, two lists that hold the same fragments settle a
/// pixel alike, whatever their order, as long as no two fragments of one
/// list lie at the pixel with one depth.
pub proof fn lemma_order_of_fragments_does_not_show(
    first: Seq<Fragment<DefaultColorImpl>>,
    second: Seq<Fragment<DefaultColorImpl>>,
    x: int,
    y: int,
)
    requires
        forall|fragment: Fragment<DefaultColorImpl>|
            first.contains(fragment) <==> second.contains(fragment),
        forall|j: int, k: int|
            0 <= j < k < first.len() && lies_at(#[trigger] first[j], x, y) && lies_at(
                #[trigger] first[k],
                x,
                y,
            ) ==> first[j].depth != first[k].depth,
    ensures
        settled(first, true, x, y, first.len()) == settled(second, true, x, y, second.len()),
{
    lemma_settled_is_nearest(first, x, y, first.len());
    lemma_settled_is_nearest(second, x, y, second.len());
    let one = settled(first, true, x, y, first.len());
    let other = settled(second, true, x, y, second.len());
    if one.0 > i32::MIN {
        let k = choose|k: int|
            {
                &&& 0 <= k < first.len()
                &&& lies_at(#[trigger] first[k], x, y)
                &&& first[k].depth == one.0
                &&& first[k].color.argb_word() == one.1
            };
        assert(first.contains(first[k]));
        assert(second.contains(first[k]));
        let k2 = choose|k2: int| 0 <= k2 < second.len() && second[k2] == first[k];
        assert(lies_at(second[k2], x, y));
        assert(one.0 <= other.0);
    }
    if other.0 > i32::MIN {
        let m = choose|m: int|
            {
                &&& 0 <= m < second.len()
                &&& lies_at(#[trigger] second[m], x, y)
                &&& second[m].depth == other.0
                &&& second[m].color.argb_word() == other.1
            };
        assert(second.contains(second[m]));
        assert(first.contains(second[m]));
        let j = choose|j: int| 0 <= j < first.len() && first[j] == second[m];
        assert(lies_at(first[j], x, y));
        assert(other.0 <= one.0);
        let k = choose|k: int|
            {
                &&& 0 <= k < first.len()
                &&& lies_at(#[trigger] first[k], x, y)
                &&& first[k].depth == one.0
                &&& first[k].color.argb_word() == one.1
            };
        if j < k {
            assert(first[j].depth != first[k].depth);
        } else if k < j {
            assert(first[k].depth != first[j].depth);
        }
    }
}

/// The step that adds one primitive's region to the bounds.
pub open spec fn take_in(region: Region, primitive: Rasterized) -> Region {
    region.joined(primitive.region)
}

/// The step that adds one primitive's fragments to the count.
pub open spec fn count_in(count: nat, primitive: Rasterized) -> nat {
    count + primitive.fragments@.len()
}

/// The bounds and the number of gathered fragments, as folds over the
/// primitives.
pub proof fn lemma_bounds_and_count_are_folds(primitives: Seq<Rasterized>, count: nat)
    requires
        count <= primitives.len(),
    ensures
        bounds(primitives, count) == primitives.take(count as int).fold_left(
            Region::nothing(),
            |region: Region, primitive: Rasterized| take_in(region, primitive),
        ),
        gathered(primitives, count).len() == primitives.take(count as int).fold_left(
            0nat,
            |total: nat, primitive: Rasterized| count_in(total, primitive),
        ),
    decreases count,
{
    let join = |region: Region, primitive: Rasterized| take_in(region, primitive);
    let sum = |total: nat, primitive: Rasterized| count_in(total, primitive);
    if count > 0 {
        lemma_bounds_and_count_are_folds(primitives, (count - 1) as nat);
        let front = primitives.take(count as int);
        assert(front.drop_last() == primitives.take(count - 1));
        assert(front.last() == primitives[count - 1]);
        assert(front.fold_left(Region::nothing(), join) == join(
            front.drop_last().fold_left(Region::nothing(), join),
            front.last(),
        ));
        assert(front.fold_left(0nat, sum) == sum(
            front.drop_last().fold_left(0nat, sum),
            front.last(),
        ));
    } else {
        assert(primitives.take(0).len() == 0);
    }
}

/// Two lists of the same primitives have the same bounds and give the same
/// number of fragments.
pub proof fn lemma_same_primitives_same_bounds(first: Seq<Rasterized>, second: Seq<Rasterized>)
    requires
        first.to_multiset() == second.to_multiset(),
    ensures
        bounds(first, first.len()) == bounds(second, second.len()),
        gathered(first, first.len()).len() == gathered(second, second.len()).len(),
{
    let join = |region: Region, primitive: Rasterized| take_in(region, primitive);
    let sum = |total: nat, primitive: Rasterized| count_in(total, primitive);
    lemma_bounds_and_count_are_folds(first, first.len());
    lemma_bounds_and_count_are_folds(second, second.len());
    assert(first.take(first.len() as int) == first);
    assert(second.take(second.len() as int) == second);
    assert(vstd::seq_lib::commutative_foldl(join)) by {
        assert forall|x: Rasterized, y: Rasterized, v: Region| #[trigger]
            join(join(v, x), y) == join(join(v, y), x) by {
            lemma_joining_commutes(v, x.region, y.region);
        }
    }
    assert(vstd::seq_lib::commutative_foldl(sum));
    vstd::seq_lib::lemma_fold_left_permutation(first, second, join, Region::nothing());
    vstd::seq_lib::lemma_fold_left_permutation(first, second, sum, 0nat);
}

/// Joining two regions to a third gives the same in either order.
pub proof fn lemma_joining_commutes(region: Region, one: Region, other: Region)
    ensures
        region.joined(one).joined(other) == region.joined(other).joined(one),
{
}

/// Every fragment gathered from a list of primitives is gathered from any
/// list that holds the same primitives.
pub proof fn lemma_same_primitives_same_fragments(
    first: Seq<Rasterized>,
    second: Seq<Rasterized>,
    fragment: Fragment<DefaultColorImpl>,
)
    requires
        first.to_multiset() == second.to_multiset(),
        gathered(first, first.len()).contains(fragment),
    ensures
        gathered(second, second.len()).contains(fragment),
{
    let one = gathered(first, first.len());
    lemma_gathered_are_the_fragments(first, first.len());
    lemma_gathered_are_the_fragments(second, second.len());
    first.to_multiset_ensures();
    second.to_multiset_ensures();
    let k = choose|k: int| 0 <= k < one.len() && one[k] == fragment;
    let i = choose|i: int|
        0 <= i < first.len() && (#[trigger] first[i]).fragments@.contains(one[k]);
    assert(first.contains(first[i]));
    assert(second.to_multiset().count(first[i]) > 0);
    assert(second.contains(first[i]));
    let i2 = choose|i2: int| 0 <= i2 < second.len() && second[i2] == first[i];
    let m = choose|m: int|
        0 <= m < second[i2].fragments@.len() && second[i2].fragments@[m] == fragment;
    assert(gathered(second, second.len()).contains(second[i2].fragments@[m]));
}

/// With the depth test on, the order in which a command holds its
/// primitives does not show in what it draws: two lists of the same
/// primitives have the same region and the same number of fragments, and
/// settle every pixel alike, as long as no two fragments lie at one pixel
/// with one depth.
pub proof fn lemma_order_of_primitives_does_not_show(
    first: Seq<Rasterized>,
    second: Seq<Rasterized>,
)
    requires
        first.to_multiset() == second.to_multiset(),
        forall|j: int, k: int|
            0 <= j < k < gathered(first, first.len()).len() && (#[trigger] gathered(
                first,
                first.len(),
            )[j]).position == (#[trigger] gathered(first, first.len())[k]).position ==> gathered(
                first,
                first.len(),
            )[j].depth != gathered(first, first.len())[k].depth,
    ensures
        bounds(first, first.len()) == bounds(second, second.len()),
        gathered(first, first.len()).len() == gathered(second, second.len()).len(),
        forall|x: int, y: int|
            settled(gathered(first, first.len()), true, x, y, gathered(first, first.len()).len())
                == #[trigger] settled(
                gathered(second, second.len()),
                true,
                x,
                y,
                gathered(second, second.len()).len(),
            ),
{
    lemma_same_primitives_same_bounds(first, second);
    let one = gathered(first, first.len());
    let other = gathered(second, second.len());
    assert forall|fragment: Fragment<DefaultColorImpl>|
        one.contains(fragment) <==> other.contains(fragment) by {
        if one.contains(fragment) {
            lemma_same_primitives_same_fragments(first, second, fragment);
        }
        if other.contains(fragment) {
            lemma_same_primitives_same_fragments(second, first, fragment);
        }
    }
    assert forall|x: int, y: int|
        settled(one, true, x, y, one.len()) == #[trigger] settled(
            other,
            true,
            x,
            y,
            other.len(),
        ) by {
        lemma_order_of_fragments_does_not_show(one, other, x, y);
    }
}

} // verus!
