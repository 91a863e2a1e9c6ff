//! Packed pixel formats: how a colour becomes a 32-bit word and back.

use crate::bytes::{bytes_of, lemma_bytes_of_word, word_of};
use crate::color::Color;
use vstd::prelude::*;

verus! {

/// The layout of one stored pixel.
#[derive(Debug, Clone, Copy, PartialEq, Eq, PartialOrd, Ord, Structural)]
pub enum PixelFormat {
    ZeroRgb,
    RgbZero,
    Argb,
    Bgra,
    U8,
}

impl PixelFormat {
    /// The word that stands for a colour with the channels `argb`
    /// (alpha, red, green, blue) in this format. The paletted format has no
    /// word for channels: it is given 0 here and never asked.
    pub open spec fn encoded(self, argb: (u8, u8, u8, u8)) -> u32 {
        match self {
            PixelFormat::ZeroRgb => word_of(0, argb.1, argb.2, argb.3),
            PixelFormat::RgbZero => word_of(argb.1, argb.2, argb.3, 0),
            PixelFormat::Argb => word_of(argb.0, argb.1, argb.2, argb.3),
            PixelFormat::Bgra => word_of(argb.3, argb.2, argb.1, argb.0),
            PixelFormat::U8 => 0,
        }
    }

    /// The colour that `word` stands for in this format. The paletted format
    /// has no colour for a bare word: it is given black here and never asked.
    pub open spec fn decoded(self, word: u32) -> Color {
        let bytes = bytes_of(word);
        match self {
            PixelFormat::ZeroRgb => Color::Rgb(bytes.1, bytes.2, bytes.3),
            PixelFormat::RgbZero => Color::Rgb(bytes.0, bytes.1, bytes.2),
            PixelFormat::Argb => Color::Argb(bytes.0, bytes.1, bytes.2, bytes.3),
            PixelFormat::Bgra => Color::Bgra(bytes.0, bytes.1, bytes.2, bytes.3),
            PixelFormat::U8 => Color::Rgb(0, 0, 0),
        }
    }

    /// Whether this format has a place for the alpha channel.
    pub open spec fn keeps_alpha(self) -> bool {
        self == PixelFormat::Argb || self == PixelFormat::Bgra
    }

    /// The channels that are read back after a colour with the channels
    /// `argb` went through this format.
    pub open spec fn kept(self, argb: (u8, u8, u8, u8)) -> (u8, u8, u8, u8) {
        self.decoded(self.encoded(argb)).argb()
    }

    /// Bytes per stored pixel.
    pub fn size(&self) -> (bytes: usize)
        ensures
            bytes == if *self == PixelFormat::U8 {
                1usize
            } else {
                4usize
            },
    {
        match self {
            Self::ZeroRgb => 4,
            Self::RgbZero => 4,
            Self::Argb => 4,
            Self::Bgra => 4,
            Self::U8 => 1,
        }
    }
}

impl PixelFormat {
    /// The word for `color` in this format. The paletted format takes
    /// palette indices only, and stores the index.
    pub fn color_as_u32(&self, color: &Color) -> (word: u32)
        requires
            *self == PixelFormat::U8 ==> *color is U8,
        ensures
            *self != PixelFormat::U8 ==> word == self.encoded(color.argb()),
            *self == PixelFormat::U8 ==> word == color->U8_1,
    {
        match self {
            Self::ZeroRgb => color.as_0rgb_u32(),
            Self::RgbZero => color.as_rgb0_u32(),
            Self::Argb => color.as_argb_u32(),
            Self::Bgra => color.as_bgra_u32(),
            Self::U8 => match color {
                Color::U8(_, index) => *index as u32,
                _ => 0,
            },
        }
    }
}

impl PixelFormat {
    /// The colour for `color` in this format, which is not the paletted one:
    /// a bare word names no palette.
    pub fn u32_as_color(&self, color: u32) -> (decoded: Color)
        requires
            *self != PixelFormat::U8,
        ensures
            decoded == self.decoded(color),
    {
        match self {
            Self::ZeroRgb => Color::from_0rgb_u32(color),
            Self::RgbZero => Color::from_rgb0_u32(color),
            Self::Argb => Color::from_argb_u32(color),
            Self::Bgra => Color::from_bgra_u32(color),
            Self::U8 => Color::new_rgb(0, 0, 0),
        }
    }
}

/// What a format keeps of a colour: red, green and blue as they are, and
/// alpha where the format has a place for it, else 0.
proof fn lemma_kept_channels(format: PixelFormat, argb: (u8, u8, u8, u8))
    requires
        format != PixelFormat::U8,
    ensures
        format.kept(argb) == (
            if format.keeps_alpha() {
                argb.0
            } else {
                0u8
            },
            argb.1,
            argb.2,
            argb.3,
        ),
{
    lemma_bytes_of_word(0, argb.1, argb.2, argb.3);
    lemma_bytes_of_word(argb.1, argb.2, argb.3, 0);
    lemma_bytes_of_word(argb.0, argb.1, argb.2, argb.3);
    lemma_bytes_of_word(argb.3, argb.2, argb.1, argb.0);
}

/// Red, green and blue come back from every format but the paletted one as
/// they went in.
pub proof fn lemma_round_trip_keeps_rgb(format: PixelFormat, color: Color)
    requires
        format != PixelFormat::U8,
    ensures
        format.kept(color.argb()).1 == color.argb().1,
        format.kept(color.argb()).2 == color.argb().2,
        format.kept(color.argb()).3 == color.argb().3,
{
    lemma_kept_channels(format, color.argb());
}

/// Alpha comes back too where the format has a place for it; where it has
/// none, alpha comes back as 0.
pub proof fn lemma_round_trip_alpha(format: PixelFormat, color: Color)
    requires
        format != PixelFormat::U8,
    ensures
        format.kept(color.argb()).0 == if format.keeps_alpha() {
            color.argb().0
        } else {
            0u8
        },
{
    lemma_kept_channels(format, color.argb());
}

/// A colour that went through a format and back equals the colour that went
/// in, for every format but the paletted one, provided the format keeps
/// alpha or the colour's alpha is 0.
pub proof fn lemma_round_trip(format: PixelFormat, color: Color)
    requires
        format != PixelFormat::U8,
        format.keeps_alpha() || color.argb().0 == 0,
    ensures
        format.decoded(format.encoded(color.argb())).argb() == color.argb(),
{
    lemma_kept_channels(format, color.argb());
}

} // verus!
