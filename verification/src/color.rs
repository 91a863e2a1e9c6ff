//! Colours in several encodings, the 256-entry palette, and the alpha mix.
//!
//! Every colour answers for four channels. The model of a colour is the tuple
//! `(alpha, red, green, blue)` that [`Color::argb`] gives; two colours are
//! equal when those tuples are.

use crate::bytes::{bytes_of, pack, unpack, word_of};
use std::sync::Arc;
use vstd::prelude::*;
use vstd::std_specs::cmp::PartialEqSpecImpl;

verus! {

/// How many entries a palette holds.
pub const PALETTE_SIZE: usize = 256;

/// A colour in one of four encodings.
///
/// `Rgb` carries no alpha and answers `0` for it. `U8` is an index into the
/// palette it carries and answers with that entry's channels.
#[derive(Debug)]
pub enum Color {
    Rgb(u8, u8, u8),
    Argb(u8, u8, u8, u8),
    Bgra(u8, u8, u8, u8),
    U8(Palette, u8),
}

/// The table behind 256-colour mode: 256 colours, found by index.
///
/// Copies share one table until one of them is changed.
#[derive(Debug)]
pub struct Palette {
    colors: Arc<Vec<Color>>,
}

/// `Arc::clone`: the new handle points at the same table, so it holds the
/// same value.
#[verifier::external_body]
fn share(colors: &Arc<Vec<Color>>) -> (shared: Arc<Vec<Color>>)
    ensures
        shared == *colors,
{
    Arc::clone(colors)
}

/// `Arc::make_mut`, then one store through the reference it returns: the
/// table is copied first if another handle shares it, and afterwards this
/// handle's table differs from the old one at `index` only. Neither step
/// unwinds.
#[verifier::external_body]
fn store(colors: &mut Arc<Vec<Color>>, index: usize, color: Color)
    requires
        index < (**old(colors))@.len(),
    ensures
        (**final(colors))@ == (**old(colors))@.update(index as int, color),
    no_unwind
{
    Arc::make_mut(colors)[index] = color;
}

impl Palette {
    /// The entries, in index order.
    pub closed spec fn view(&self) -> Seq<Color> {
        (*self.colors)@
    }

    #[verifier::type_invariant]
    spec fn table_is_full(&self) -> bool {
        (*self.colors)@.len() == PALETTE_SIZE
    }

    /// A palette whose every entry is white with alpha 0.
    pub fn new() -> (palette: Self)
        ensures
            palette@.len() == PALETTE_SIZE,
            forall|i: int| 0 <= i < PALETTE_SIZE ==> palette@[i] == Color::Argb(0, 0xff, 0xff, 0xff),
    {
        let mut table: Vec<Color> = Vec::new();
        let mut filled: usize = 0;
        while filled < PALETTE_SIZE
            invariant
                filled <= PALETTE_SIZE,
                table@.len() == filled,
                forall|i: int| 0 <= i < filled ==> table@[i] == Color::Argb(0, 0xff, 0xff, 0xff),
            decreases PALETTE_SIZE - filled,
        {
            table.push(Color::new_argb(0, 0xff, 0xff, 0xff));
            filled = filled + 1;
        }
        Palette { colors: Arc::new(table) }
    }

    /// Puts `color` at `index` and hands the palette back for chaining.
    pub fn change_color(&mut self, index: u8, color: Color) -> (palette: &mut Self)
        ensures
            palette@ == old(self)@.update(index as int, color),
            palette@.len() == PALETTE_SIZE,
            *final(self) == *final(palette),
    {
        proof {
            use_type_invariant(&*self);
        }
        store(&mut self.colors, index as usize, color);
        self
    }

    /// The entry at `index`.
    pub fn get_color(&self, index: u8) -> (color: Color)
        ensures
            color == self@[index as int],
            self@.len() == PALETTE_SIZE,
    {
        proof {
            use_type_invariant(self);
        }
        self.colors[index as usize].clone()
    }

    /// The lowest index whose entry equals `required_color`, if there is one.
    pub(crate) fn try_find_color(&self, required_color: Color) -> (found: Option<u8>)
        ensures
            self.finds(required_color.argb(), found),
    {
        proof {
            use_type_invariant(self);
        }
        let wanted: (u8, u8, u8, u8) = required_color.as_argb_tuple();
        let mut index: usize = 0;
        while index < PALETTE_SIZE
            invariant
                index <= PALETTE_SIZE,
                self@.len() == PALETTE_SIZE,
                wanted == required_color.argb(),
                forall|j: int| 0 <= j < index ==> self@[j].argb() != wanted,
            decreases PALETTE_SIZE - index,
        {
            let entry: (u8, u8, u8, u8) = self.colors[index].as_argb_tuple();
            if entry.0 == wanted.0 && entry.1 == wanted.1 && entry.2 == wanted.2 && entry.3
                == wanted.3 {
                return Some(index as u8);
            }
            index = index + 1;
        }
        None
    }

    /// `found` is the answer to a search for a colour with the channels
    /// `wanted`: the first index that holds one, or nothing when no entry does.
    pub open spec fn finds(&self, wanted: (u8, u8, u8, u8), found: Option<u8>) -> bool {
        match found {
            Some(index) => {
                &&& (index as int) < self@.len()
                &&& self@[index as int].argb() == wanted
                &&& forall|j: int| 0 <= j < index ==> self@[j].argb() != wanted
            },
            None => forall|j: int| 0 <= j < self@.len() ==> self@[j].argb() != wanted,
        }
    }
}

impl Default for Palette {
    fn default() -> (palette: Self)
        ensures
            palette@.len() == PALETTE_SIZE,
            forall|i: int| 0 <= i < PALETTE_SIZE ==> palette@[i] == Color::Argb(0, 0xff, 0xff, 0xff),
    {
        Palette::new()
    }
}

impl Clone for Palette {
    fn clone(&self) -> (copy: Self)
        ensures
            copy == *self,
    {
        proof {
            use_type_invariant(self);
        }
        Palette { colors: share(&self.colors) }
    }
}

impl Clone for Color {
    fn clone(&self) -> (copy: Self)
        ensures
            copy == *self,
    {
        match self {
            Color::Rgb(red, green, blue) => Color::Rgb(*red, *green, *blue),
            Color::Argb(alpha, red, green, blue) => Color::Argb(*alpha, *red, *green, *blue),
            Color::Bgra(blue, green, red, alpha) => Color::Bgra(*blue, *green, *red, *alpha),
            Color::U8(palette, index) => Color::U8(palette.clone(), *index),
        }
    }
}

impl Color {
    pub fn new_rgb(red: u8, green: u8, blue: u8) -> (color: Self)
        ensures
            color == Color::Rgb(red, green, blue),
    {
        Self::Rgb(red, green, blue)
    }

    pub fn new_argb(alpha: u8, red: u8, green: u8, blue: u8) -> (color: Self)
        ensures
            color == Color::Argb(alpha, red, green, blue),
    {
        Self::Argb(alpha, red, green, blue)
    }

    pub fn new_bgra(blue: u8, green: u8, red: u8, alpha: u8) -> (color: Self)
        ensures
            color == Color::Bgra(blue, green, red, alpha),
    {
        Self::Bgra(blue, green, red, alpha)
    }

    pub fn new_u8(palette: Palette, index: u8) -> (color: Self)
        ensures
            color == Color::U8(palette, index),
    {
        Self::U8(palette, index)
    }
}

impl Color {
    /// The channels `(alpha, red, green, blue)` of this colour. A palette
    /// index stands for the entry it names.
    pub open spec fn argb(self) -> (u8, u8, u8, u8)
        decreases self,
    {
        match self {
            Color::Rgb(red, green, blue) => (0, red, green, blue),
            Color::Argb(alpha, red, green, blue) => (alpha, red, green, blue),
            Color::Bgra(blue, green, red, alpha) => (alpha, red, green, blue),
            Color::U8(palette, index) => if (index as int) < palette@.len() {
                palette@[index as int].argb()
            } else {
                (0, 0, 0, 0)
            },
        }
    }

    pub fn red(&self) -> (red: u8)
        ensures
            red == self.argb().1,
        decreases *self,
    {
        match self {
            Self::Argb(_, red, _, _) => *red,
            Self::Bgra(_, _, red, _) => *red,
            Self::Rgb(red, _, _) => *red,
            Self::U8(palette, color_index) => palette.get_color(*color_index).red(),
        }
    }

    pub fn blue(&self) -> (blue: u8)
        ensures
            blue == self.argb().3,
        decreases *self,
    {
        match self {
            Self::Argb(_, _, _, blue) => *blue,
            Self::Bgra(blue, _, _, _) => *blue,
            Self::Rgb(_, _, blue) => *blue,
            Self::U8(palette, color_index) => palette.get_color(*color_index).blue(),
        }
    }

    pub fn green(&self) -> (green: u8)
        ensures
            green == self.argb().2,
        decreases *self,
    {
        match self {
            Self::Argb(_, _, green, _) => *green,
            Self::Bgra(_, green, _, _) => *green,
            Self::Rgb(_, green, _) => *green,
            Self::U8(palette, color_index) => palette.get_color(*color_index).green(),
        }
    }

    pub fn alpha(&self) -> (alpha: u8)
        ensures
            alpha == self.argb().0,
        decreases *self,
    {
        match self {
            Self::Argb(alpha, _, _, _) => *alpha,
            Self::Bgra(_, _, _, alpha) => *alpha,
            Self::Rgb(_, _, _) => 0,
            Self::U8(palette, color_index) => palette.get_color(*color_index).alpha(),
        }
    }
}

/// One channel of a mix. This colour's channel weighs in with this colour's
/// alpha, the other's with what that alpha leaves of 255, and the weighted
/// sum is divided by 255, to the nearest whole number. The result lies
/// between the two channels, so it is a byte again.
pub open spec fn mix_channel(own: u8, other: u8, alpha: u8) -> u8 {
    ((own as int * alpha as int + other as int * (0xff - alpha as int) + 0x7f) / 0xff) as u8
}

/// The channels `(alpha, red, green, blue)` of `own` mixed over `other`:
/// each of the four is mixed by the alpha of `own`.
pub open spec fn mixed(own: (u8, u8, u8, u8), other: (u8, u8, u8, u8)) -> (u8, u8, u8, u8) {
    (
        mix_channel(own.0, other.0, own.0),
        mix_channel(own.1, other.1, own.0),
        mix_channel(own.2, other.2, own.0),
        mix_channel(own.3, other.3, own.0),
    )
}

/// The weighted sum of a mix is no more than 255 times 255, so the quotient
/// is a byte.
proof fn lemma_weighted_sum_is_small(own: u8, other: u8, alpha: u8)
    ensures
        0 <= own * alpha + other * (0xff - alpha) <= 0xff * 0xff,
{
    assert(0 <= own * alpha <= 0xff * alpha) by (nonlinear_arith)
        requires
            0 <= own <= 0xff,
            0 <= alpha,
    ;
    assert(0 <= other * (0xff - alpha) <= 0xff * (0xff - alpha)) by (nonlinear_arith)
        requires
            0 <= other <= 0xff,
            0 <= 0xff - alpha,
    ;
}

fn mix_one(own: u8, other: u8, alpha: u8) -> (channel: u8)
    ensures
        channel == mix_channel(own, other, alpha),
{
    proof {
        lemma_weighted_sum_is_small(own, other, alpha);
    }
    let left_over: u32 = (0xff - alpha) as u32;
    let sum: u32 = own as u32 * alpha as u32 + other as u32 * left_over;
    ((sum + 0x7f) / 0xff) as u8
}

impl Color {
    /// Mixes this colour over `other`: the more alpha this colour has, the
    /// more of it shows. With alpha 255 it comes out as it is; with alpha 0
    /// the other colour comes out. The result is always in the `Argb`
    /// encoding.
    pub fn mix(&self, other: &Color) -> (blend: Self)
        ensures
            blend == Color::Argb(
                mixed(self.argb(), other.argb()).0,
                mixed(self.argb(), other.argb()).1,
                mixed(self.argb(), other.argb()).2,
                mixed(self.argb(), other.argb()).3,
            ),
            blend.argb() == mixed(self.argb(), other.argb()),
            self.argb().0 == 0xff ==> blend.argb() == self.argb(),
            self.argb().0 == 0 ==> blend.argb() == other.argb(),
    {
        let own: (u8, u8, u8, u8) = self.as_argb_tuple();
        let under: (u8, u8, u8, u8) = other.as_argb_tuple();
        let alpha: u8 = mix_one(own.0, under.0, own.0);
        let red: u8 = mix_one(own.1, under.1, own.0);
        let green: u8 = mix_one(own.2, under.2, own.0);
        let blue: u8 = mix_one(own.3, under.3, own.0);
        proof {
            if own.0 == 0xff {
                lemma_mix_keeps_opaque(self.argb(), other.argb());
            }
            if own.0 == 0 {
                lemma_mix_shows_through_clear(self.argb(), other.argb());
            }
        }
        Self::new_argb(alpha, red, green, blue)
    }

    pub fn as_rgb_tuple(&self) -> (rgb: (u8, u8, u8))
        ensures
            rgb == (self.argb().1, self.argb().2, self.argb().3),
        decreases *self,
    {
        match self {
            Self::Argb(_, red, green, blue) => (*red, *green, *blue),
            Self::Bgra(blue, green, red, _) => (*red, *green, *blue),
            Self::Rgb(red, green, blue) => (*red, *green, *blue),
            Self::U8(palette, color_index) => palette.get_color(*color_index).as_rgb_tuple(),
        }
    }

    pub fn as_argb_tuple(&self) -> (argb: (u8, u8, u8, u8))
        ensures
            argb == self.argb(),
        decreases *self,
    {
        match self {
            Self::Argb(alpha, red, green, blue) => (*alpha, *red, *green, *blue),
            Self::Bgra(blue, green, red, alpha) => (*alpha, *red, *green, *blue),
            Self::Rgb(red, green, blue) => (0, *red, *green, *blue),
            Self::U8(palette, color_index) => palette.get_color(*color_index).as_argb_tuple(),
        }
    }

    pub fn as_bgra_tuple(&self) -> (bgra: (u8, u8, u8, u8))
        ensures
            bgra == (self.argb().3, self.argb().2, self.argb().1, self.argb().0),
    {
        let argb: (u8, u8, u8, u8) = self.as_argb_tuple();
        (argb.3, argb.2, argb.1, argb.0)
    }

    /// The lowest index at which `palette` holds a colour equal to this one.
    pub fn as_u8(&self, palette: &Palette) -> (index: Option<u8>)
        ensures
            palette.finds(self.argb(), index),
    {
        palette.try_find_color(self.clone())
    }
}

impl Color {
    pub fn as_argb_u32(&self) -> (word: u32)
        ensures
            word == word_of(self.argb().0, self.argb().1, self.argb().2, self.argb().3),
    {
        let argb: (u8, u8, u8, u8) = self.as_argb_tuple();
        pack(argb.0, argb.1, argb.2, argb.3)
    }

    pub fn as_bgra_u32(&self) -> (word: u32)
        ensures
            word == word_of(self.argb().3, self.argb().2, self.argb().1, self.argb().0),
    {
        let bgra: (u8, u8, u8, u8) = self.as_bgra_tuple();
        pack(bgra.0, bgra.1, bgra.2, bgra.3)
    }

    pub fn as_0rgb_u32(&self) -> (word: u32)
        ensures
            word == word_of(0, self.argb().1, self.argb().2, self.argb().3),
    {
        let rgb: (u8, u8, u8) = self.as_rgb_tuple();
        pack(0, rgb.0, rgb.1, rgb.2)
    }

    pub fn as_rgb0_u32(&self) -> (word: u32)
        ensures
            word == word_of(self.argb().1, self.argb().2, self.argb().3, 0),
    {
        let rgb: (u8, u8, u8) = self.as_rgb_tuple();
        pack(rgb.0, rgb.1, rgb.2, 0)
    }

    pub fn as_bgr0_u32(&self) -> (word: u32)
        ensures
            word == word_of(self.argb().3, self.argb().2, self.argb().1, 0),
    {
        let rgb: (u8, u8, u8) = self.as_rgb_tuple();
        pack(rgb.2, rgb.1, rgb.0, 0)
    }
}

impl Color {
    pub fn from_argb_u32(color: u32) -> (decoded: Self)
        ensures
            decoded == Color::Argb(
                bytes_of(color).0,
                bytes_of(color).1,
                bytes_of(color).2,
                bytes_of(color).3,
            ),
    {
        let bytes: (u8, u8, u8, u8) = unpack(color);
        Self::new_argb(bytes.0, bytes.1, bytes.2, bytes.3)
    }

    pub fn from_0rgb_u32(color: u32) -> (decoded: Self)
        ensures
            decoded == Color::Rgb(bytes_of(color).1, bytes_of(color).2, bytes_of(color).3),
    {
        let bytes: (u8, u8, u8, u8) = unpack(color);
        Self::new_rgb(bytes.1, bytes.2, bytes.3)
    }

    pub fn from_rgb0_u32(color: u32) -> (decoded: Self)
        ensures
            decoded == Color::Rgb(bytes_of(color).0, bytes_of(color).1, bytes_of(color).2),
    {
        let bytes: (u8, u8, u8, u8) = unpack(color);
        Self::new_rgb(bytes.0, bytes.1, bytes.2)
    }

    pub fn from_bgra_u32(color: u32) -> (decoded: Self)
        ensures
            decoded == Color::Bgra(
                bytes_of(color).0,
                bytes_of(color).1,
                bytes_of(color).2,
                bytes_of(color).3,
            ),
    {
        let bytes: (u8, u8, u8, u8) = unpack(color);
        Self::new_bgra(bytes.0, bytes.1, bytes.2, bytes.3)
    }
}

impl PartialEq for Color {
    fn eq(&self, other: &Self) -> (equal: bool) {
        let mine: (u8, u8, u8, u8) = self.as_argb_tuple();
        let theirs: (u8, u8, u8, u8) = other.as_argb_tuple();
        mine.0 == theirs.0 && mine.1 == theirs.1 && mine.2 == theirs.2 && mine.3 == theirs.3
    }
}

impl PartialEqSpecImpl for Color {
    open spec fn obeys_eq_spec() -> bool {
        true
    }

    open spec fn eq_spec(&self, other: &Self) -> bool {
        self.argb() == other.argb()
    }
}

/// A colour of alpha 255 comes out of a mix as it is, whatever it is mixed
/// over.
pub proof fn lemma_mix_keeps_opaque(own: (u8, u8, u8, u8), other: (u8, u8, u8, u8))
    requires
        own.0 == 0xff,
    ensures
        mixed(own, other) == own,
{
    lemma_full_weight(own.0, other.0);
    lemma_full_weight(own.1, other.1);
    lemma_full_weight(own.2, other.2);
    lemma_full_weight(own.3, other.3);
}

/// A colour of alpha 0 does not show in a mix: what it is mixed over comes
/// out as it is.
pub proof fn lemma_mix_shows_through_clear(own: (u8, u8, u8, u8), other: (u8, u8, u8, u8))
    requires
        own.0 == 0,
    ensures
        mixed(own, other) == other,
{
    lemma_no_weight(own.0, other.0);
    lemma_no_weight(own.1, other.1);
    lemma_no_weight(own.2, other.2);
    lemma_no_weight(own.3, other.3);
}

/// Every channel of a mix lies between the two channels it was mixed from.
pub proof fn lemma_mix_lies_between(own: u8, other: u8, alpha: u8)
    ensures
        own <= other ==> own <= mix_channel(own, other, alpha) <= other,
        other <= own ==> other <= mix_channel(own, other, alpha) <= own,
{
    let sum: int = own * alpha + other * (0xff - alpha);
    lemma_weighted_sum_is_small(own, other, alpha);
    if own <= other {
        assert(own * 0xff <= sum <= other * 0xff) by (nonlinear_arith)
            requires
                sum == own * alpha + other * (0xff - alpha),
                0 <= own <= other,
                0 <= alpha <= 0xff,
        ;
    }
    if other <= own {
        assert(other * 0xff <= sum <= own * 0xff) by (nonlinear_arith)
            requires
                sum == own * alpha + other * (0xff - alpha),
                0 <= other <= own,
                0 <= alpha <= 0xff,
        ;
    }
}

/// At alpha 255 the own channel is the whole of the mix.
proof fn lemma_full_weight(own: u8, other: u8)
    ensures
        mix_channel(own, other, 0xff) == own,
{
    assert(other * (0xff - 0xff) == 0);
    assert((own * 0xff + 0x7f) / 0xff == own);
}

/// At alpha 0 the other channel is the whole of the mix.
proof fn lemma_no_weight(own: u8, other: u8)
    ensures
        mix_channel(own, other, 0) == other,
{
    assert(own * 0 == 0);
    assert((other * 0xff + 0x7f) / 0xff == other);
}

} // verus!
