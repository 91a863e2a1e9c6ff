//! The stock colour and the stock fragment stage.

use crate::bytes::{bytes_of, lemma_word_of_bytes, pack, unpack, word_of};
use crate::pipeline::pipeline::{Color, Fragment, FragmentPass, PipelineState};
use vstd::prelude::*;

verus! {

/// A pipeline: where vertices land on the screen, the switches, and the two
/// stages. The viewport and the vertex stage are the caller's own types.
pub struct Pipeline<W, P> {
    pub viewport: W,
    pub pipeline_state: PipelineState,
    pub vertex_pass: P,
    pub fragment_pass: DirectFragmentPass,
}

impl<W, P> Pipeline<W, P> {
    pub fn new(
        viewport: W,
        pipeline_state: PipelineState,
        vertex_pass: P,
        fragment_pass: DirectFragmentPass,
    ) -> (pipeline: Self)
        ensures
            pipeline.viewport == viewport,
            pipeline.pipeline_state == pipeline_state,
            pipeline.vertex_pass == vertex_pass,
            pipeline.fragment_pass == fragment_pass,
    {
        Self { viewport, pipeline_state, vertex_pass, fragment_pass }
    }

    /// Switches the rejection of back faces on or off. Nothing else changes.
    pub fn set_culling(&mut self, value: bool)
        ensures
            final(self).pipeline_state.culling == value,
            final(self).pipeline_state.depth_test == old(self).pipeline_state.depth_test,
            final(self).viewport == old(self).viewport,
            final(self).vertex_pass == old(self).vertex_pass,
            final(self).fragment_pass == old(self).fragment_pass,
    {
        self.pipeline_state.culling = value;
    }
}

/// Four channels in one word: red in the top byte, then green, blue, alpha.
#[derive(Debug)]
pub struct DefaultColorImpl {
    rgba: u32,
}

impl Clone for DefaultColorImpl {
    fn clone(&self) -> (copy: Self)
        ensures
            copy == *self,
    {
        Self::raw(self.rgba)
    }
}

impl Color for DefaultColorImpl {
    fn get_size(&self) -> (bits: usize)
        ensures
            bits == 32,
    {
        32
    }

    fn has_alpha(&self) -> (has: bool)
        ensures
            has,
    {
        true
    }
}

impl DefaultColorImpl {
    /// The word of full red at full alpha, for `raw`.
    pub const RED: u32 = 0xff00_00ff;

    /// The word of full green at full alpha, for `raw`.
    pub const GREEN: u32 = 0x00ff_00ff;

    /// The word of full blue at full alpha, for `raw`.
    pub const BLUE: u32 = 0x0000_ffff;

    /// The word behind the colour.
    pub closed spec fn view(&self) -> u32 {
        self.rgba
    }

    /// The channels `(red, green, blue, alpha)`.
    pub open spec fn channels(&self) -> (u8, u8, u8, u8) {
        bytes_of(self@)
    }

    pub fn raw(rgba: u32) -> (color: Self)
        ensures
            color@ == rgba,
    {
        Self { rgba }
    }

    pub fn new(r: u8, g: u8, b: u8, a: u8) -> (color: Self)
        ensures
            color@ == word_of(r, g, b, a),
            color.channels() == (r, g, b, a),
    {
        proof {
            crate::bytes::lemma_bytes_of_word(r, g, b, a);
        }
        Self { rgba: pack(r, g, b, a) }
    }

    pub fn red(&self) -> (red: u8)
        ensures
            red == self.channels().0,
    {
        unpack(self.rgba).0
    }

    pub fn green(&self) -> (green: u8)
        ensures
            green == self.channels().1,
    {
        unpack(self.rgba).1
    }

    pub fn blue(&self) -> (blue: u8)
        ensures
            blue == self.channels().2,
    {
        unpack(self.rgba).2
    }

    pub fn alpha(&self) -> (alpha: u8)
        ensures
            alpha == self.channels().3,
    {
        unpack(self.rgba).3
    }

    /// The colour as a word with alpha in the top byte, then blue, green,
    /// red.
    pub fn get_abgr(&self) -> (word: u32)
        ensures
            word == word_of(
                self.channels().3,
                self.channels().2,
                self.channels().1,
                self.channels().0,
            ),
    {
        pack(self.alpha(), self.blue(), self.green(), self.red())
    }

    /// The colour as a word with alpha in the top byte, then red, green,
    /// blue.
    pub fn get_argb(&self) -> (word: u32)
        ensures
            word == self.argb_word(),
    {
        pack(self.alpha(), self.red(), self.green(), self.blue())
    }

    /// The word that `get_argb` gives.
    pub open spec fn argb_word(&self) -> u32 {
        word_of(self.channels().3, self.channels().0, self.channels().1, self.channels().2)
    }
}

/// The stage that leaves a fragment's colour as it is.
#[derive(Debug)]
pub struct DirectFragmentPass {
    color: DefaultColorImpl,
}

impl Clone for DirectFragmentPass {
    fn clone(&self) -> (copy: Self)
        ensures
            copy == *self,
    {
        Self { color: self.color.clone() }
    }
}

impl FragmentPass<Fragment<DefaultColorImpl>, DefaultColorImpl> for DirectFragmentPass {
    fn transform(self, vertex: &Fragment<DefaultColorImpl>) -> (color: DefaultColorImpl)
        ensures
            color == vertex.color,
    {
        proof {
            lemma_word_of_bytes(vertex.color.rgba);
        }
        DefaultColorImpl::new(
            vertex.color.red(),
            vertex.color.green(),
            vertex.color.blue(),
            vertex.color.alpha(),
        )
    }
}

impl DirectFragmentPass {
    /// The colour that the stage was made with.
    pub closed spec fn tint(&self) -> DefaultColorImpl {
        self.color
    }

    pub fn new(color: DefaultColorImpl) -> (pass: Self)
        ensures
            pass.tint() == color,
    {
        Self { color }
    }
}

} // verus!
